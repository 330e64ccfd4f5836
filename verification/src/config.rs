//! Persisted configuration: the shared image fit, launch at sign-in, and the
//! wallpaper mode saved for each monitor, kept while it is disconnected.
use vstd::prelude::*;
use vstd::string::*;
use crate::ordered_map::{Duplicate, OrderedMap};
use crate::text::{decimal, push_decimal};

verus! {

/// The configuration schema this library reads and writes.
pub const SCHEMA_VERSION: u32 = 1;

/// How a wallpaper is positioned; one setting shared by every monitor.
#[derive(Clone, Copy, Debug, PartialEq, Eq, Structural)]
pub enum FitMode {
    Fill,
    Fit,
    Stretch,
    Center,
    Tile,
}

/// The position of a fit mode in the fit selector.
pub open spec fn fit_index(fit: FitMode) -> i32 {
    match fit {
        FitMode::Fill => 0,
        FitMode::Fit => 1,
        FitMode::Stretch => 2,
        FitMode::Center => 3,
        FitMode::Tile => 4,
    }
}

/// The fit mode at a selector position; any other position means `Fill`.
pub open spec fn fit_from_index(index: i32) -> FitMode {
    if index == 1 {
        FitMode::Fit
    } else if index == 2 {
        FitMode::Stretch
    } else if index == 3 {
        FitMode::Center
    } else if index == 4 {
        FitMode::Tile
    } else {
        FitMode::Fill
    }
}

impl FitMode {
    /// The fit mode at a selector position, `Fill` for unknown positions.
    pub fn from_index(index: i32) -> (r: Self)
        ensures
            r == fit_from_index(index),
    {
        match index {
            1 => FitMode::Fit,
            2 => FitMode::Stretch,
            3 => FitMode::Center,
            4 => FitMode::Tile,
            _ => FitMode::Fill,
        }
    }

    /// The selector position of this fit mode.
    pub fn index(self) -> (r: i32)
        ensures
            r == fit_index(self),
    {
        match self {
            FitMode::Fill => 0,
            FitMode::Fit => 1,
            FitMode::Stretch => 2,
            FitMode::Center => 3,
            FitMode::Tile => 4,
        }
    }
}

/// Reading a position back gives the same fit mode, and every selector
/// position from 0 to 4 survives the trip through a fit mode.
pub proof fn lemma_fit_index_round_trip(fit: FitMode, index: i32)
    ensures
        fit_from_index(fit_index(fit)) == fit,
        0 <= index <= 4 ==> fit_index(fit_from_index(index)) == index,
        !(0 <= index <= 4) ==> fit_from_index(index) == FitMode::Fill,
{
}

impl Default for FitMode {
    fn default() -> (r: Self)
        ensures
            r == FitMode::Fill,
    {
        FitMode::Fill
    }
}

/// The order a slideshow walks its folder in.
#[derive(Clone, Copy, Debug, PartialEq, Eq, Structural)]
pub enum SlideshowOrder {
    DateAdded,
    Random,
}

impl Default for SlideshowOrder {
    fn default() -> (r: Self)
        ensures
            r == SlideshowOrder::Random,
    {
        SlideshowOrder::Random
    }
}

/// The configured source of a monitor's wallpaper.
#[derive(Clone, Debug, PartialEq)]
pub enum WallpaperMode {
    Picture { path: String },
    Color { rgb: [u8; 3] },
    Slideshow { folder: String, interval_seconds: u64, order: SlideshowOrder },
}

/// A wallpaper mode with its texts as character sequences.
pub enum ModeView {
    Picture { path: Seq<char> },
    Color { rgb: Seq<u8> },
    Slideshow { folder: Seq<char>, interval_seconds: u64, order: SlideshowOrder },
}

impl View for WallpaperMode {
    type V = ModeView;

    open spec fn view(&self) -> ModeView {
        match self {
            WallpaperMode::Picture { path } => ModeView::Picture { path: path@ },
            WallpaperMode::Color { rgb } => ModeView::Color { rgb: rgb@ },
            WallpaperMode::Slideshow { folder, interval_seconds, order } => ModeView::Slideshow {
                folder: folder@,
                interval_seconds: *interval_seconds,
                order: *order,
            },
        }
    }
}

impl Duplicate for WallpaperMode {
    fn duplicate(&self) -> (r: Self) {
        match self {
            WallpaperMode::Picture { path } => WallpaperMode::Picture { path: path.clone() },
            WallpaperMode::Color { rgb } => WallpaperMode::Color { rgb: *rgb },
            WallpaperMode::Slideshow { folder, interval_seconds, order } => WallpaperMode::Slideshow {
                folder: folder.clone(),
                interval_seconds: *interval_seconds,
                order: *order,
            },
        }
    }
}

impl WallpaperMode {
    /// Whether two modes describe the same wallpaper.
    pub fn same_as(&self, other: &WallpaperMode) -> (r: bool)
        ensures
            r == (self@ == other@),
    {
        match (self, other) {
            (WallpaperMode::Picture { path: a }, WallpaperMode::Picture { path: b }) => {
                let r = *a == *b;
                assert(r == (a@ == b@));
                r
            },
            (WallpaperMode::Color { rgb: a }, WallpaperMode::Color { rgb: b }) => {
                let r = a[0] == b[0] && a[1] == b[1] && a[2] == b[2];
                assert(a@.len() == 3 && b@.len() == 3);
                assert(r ==> a@ =~= b@);
                assert(a@ == b@ ==> a@[0] == b@[0] && a@[1] == b@[1] && a@[2] == b@[2]);
                r
            },
            (
                WallpaperMode::Slideshow { folder: fa, interval_seconds: ia, order: oa },
                WallpaperMode::Slideshow { folder: fb, interval_seconds: ib, order: ob },
            ) => {
                let same_folder = *fa == *fb;
                let r = same_folder && *ia == *ib && *oa == *ob;
                r
            },
            _ => false,
        }
    }
}

/// The character sequences of a list of texts.
pub open spec fn texts(v: Seq<String>) -> Seq<Seq<char>> {
    v.map_values(|s: String| s@)
}

/// The character sequence of an optional text.
pub open spec fn opt_text(o: Option<String>) -> Option<Seq<char>> {
    match o {
        Some(s) => Some(s@),
        None => None,
    }
}

/// A copy of a list of texts.
pub fn copy_texts(v: &Vec<String>) -> (r: Vec<String>)
    ensures
        texts(r@) == texts(v@),
{
    let mut r: Vec<String> = Vec::new();
    let mut i: usize = 0;
    while i < v.len()
        invariant
            i <= v@.len(),
            r@.len() == i,
            forall|j: int| 0 <= j < i ==> #[trigger] r@[j]@ == v@[j]@,
        decreases v@.len() - i,
    {
        let c: String = v[i].clone();
        r.push(c);
        i = i + 1;
    }
    assert(texts(r@) =~= texts(v@));
    r
}

/// A copy of an optional text.
pub fn copy_opt_text(o: &Option<String>) -> (r: Option<String>)
    ensures
        opt_text(r) == opt_text(*o),
{
    match o {
        Some(s) => Some(s.clone()),
        None => None,
    }
}

/// What is saved for one monitor: its mode, the image it shows, and what is
/// left of its slideshow's no-repeat deck.
#[derive(Clone, Debug, PartialEq)]
pub struct MonitorConfig {
    pub mode: WallpaperMode,
    pub current_image: Option<String>,
    pub remaining_shuffle_deck: Vec<String>,
}

/// A monitor configuration with its texts as character sequences.
pub struct MonitorConfigView {
    pub mode: ModeView,
    pub current_image: Option<Seq<char>>,
    pub remaining_shuffle_deck: Seq<Seq<char>>,
}

impl View for MonitorConfig {
    type V = MonitorConfigView;

    open spec fn view(&self) -> MonitorConfigView {
        MonitorConfigView {
            mode: self.mode@,
            current_image: opt_text(self.current_image),
            remaining_shuffle_deck: texts(self.remaining_shuffle_deck@),
        }
    }
}

impl Duplicate for MonitorConfig {
    fn duplicate(&self) -> (r: Self) {
        MonitorConfig {
            mode: self.mode.duplicate(),
            current_image: copy_opt_text(&self.current_image),
            remaining_shuffle_deck: copy_texts(&self.remaining_shuffle_deck),
        }
    }
}

/// The whole persisted configuration.
#[derive(Debug)]
pub struct AppConfig {
    pub schema_version: u32,
    pub shared_fit: FitMode,
    pub launch_at_login: bool,
    pub monitors: OrderedMap<MonitorConfig>,
}

/// The configuration with its texts as character sequences.  Its monitors
/// are walked in ascending order of their device paths.
#[verifier::ext_equal]
pub struct ConfigView {
    pub schema_version: u32,
    pub shared_fit: FitMode,
    pub launch_at_login: bool,
    pub monitors: Map<Seq<char>, MonitorConfigView>,
}

impl View for AppConfig {
    type V = ConfigView;

    open spec fn view(&self) -> ConfigView {
        ConfigView {
            schema_version: self.schema_version,
            shared_fit: self.shared_fit,
            launch_at_login: self.launch_at_login,
            monitors: self.monitors@,
        }
    }
}

impl Default for AppConfig {
    fn default() -> (r: Self)
        ensures
            r.schema_version == SCHEMA_VERSION,
            r.shared_fit == FitMode::Fill,
            !r.launch_at_login,
            r.monitors@ == Map::<Seq<char>, MonitorConfigView>::empty(),
    {
        AppConfig {
            schema_version: SCHEMA_VERSION,
            shared_fit: FitMode::Fill,
            launch_at_login: false,
            monitors: OrderedMap::new(),
        }
    }
}

/// Why a stored configuration is refused.
#[derive(Clone, Copy, Debug, PartialEq, Eq, Structural)]
pub enum ConfigError {
    UnsupportedSchema(u32),
}

impl ConfigError {
    /// The message that explains the refusal.
    pub fn message(&self) -> (r: String)
        ensures
            match self {
                ConfigError::UnsupportedSchema(v) => r@ == "unsupported configuration schema "@
                    + decimal(*v as nat),
            },
    {
        match self {
            ConfigError::UnsupportedSchema(v) => {
                let mut r = String::from_str("unsupported configuration schema ");
                push_decimal(&mut r, *v as u64);
                r
            },
        }
    }
}

impl AppConfig {
    /// A copy with the same settings and the same monitors in the same order.
    pub fn duplicate(&self) -> (r: AppConfig)
        ensures
            r@ == self@,
            r.monitors.keys_seq() == self.monitors.keys_seq(),
    {
        AppConfig {
            schema_version: self.schema_version,
            shared_fit: self.shared_fit,
            launch_at_login: self.launch_at_login,
            monitors: self.monitors.duplicate(),
        }
    }

    /// The configuration to start from, given what the settings file held:
    /// no file gives the defaults, a file of another schema is refused, and a
    /// file of this schema is taken as it is.
    pub fn from_stored(stored: Option<AppConfig>) -> (r: Result<AppConfig, ConfigError>)
        ensures
            match stored {
                None => r matches Ok(c) && c.schema_version == SCHEMA_VERSION && c.shared_fit
                    == FitMode::Fill && !c.launch_at_login && c.monitors@ == Map::<
                    Seq<char>,
                    MonitorConfigView,
                >::empty(),
                Some(s) => if s.schema_version == SCHEMA_VERSION {
                    r == Ok::<AppConfig, ConfigError>(s)
                } else {
                    r == Err::<AppConfig, ConfigError>(ConfigError::UnsupportedSchema(s.schema_version))
                },
            },
    {
        match stored {
            None => Ok(AppConfig::default()),
            Some(config) => {
                if config.schema_version != SCHEMA_VERSION {
                    Err(ConfigError::UnsupportedSchema(config.schema_version))
                } else {
                    Ok(config)
                }
            },
        }
    }
}

/// Where the settings file and the generated color wallpapers live.
#[derive(Clone, Debug)]
pub struct Paths {
    pub config_file: String,
    pub color_cache: String,
}

} // verus!
