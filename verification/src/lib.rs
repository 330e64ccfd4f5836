use vstd::prelude::*;

pub mod text;
pub mod ordered_map;
pub mod config;
pub mod wallpaper_draft;
pub mod monitor_registry;
pub mod slideshow;
pub mod wallpaper;
pub mod ui_state;

verus! {

} // verus!
