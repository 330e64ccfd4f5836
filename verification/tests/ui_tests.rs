use wallset::config::{AppConfig, MonitorConfig, SlideshowOrder, WallpaperMode};
use wallset::monitor_registry::Monitor;
use wallset::ui_state::{ApplyChoice, UiState};
use wallset::wallpaper_draft::{IntervalUnit, WallpaperDraft};

fn monitor(id: &str, wallpaper: Option<&str>, available: bool) -> Monitor {
    Monitor {
        id: id.into(),
        name: format!("name {id}"),
        detail: format!("detail {id}"),
        current_wallpaper: wallpaper.map(String::from),
        available,
    }
}

fn saved(mode: WallpaperMode) -> MonitorConfig {
    MonitorConfig {
        mode,
        current_image: None,
        remaining_shuffle_deck: Vec::new(),
    }
}

fn state_with_a_managed_monitor() -> UiState {
    let mut config = AppConfig::default();
    config.monitors.insert("a".into(), saved(WallpaperMode::Color { rgb: [1, 2, 3] }));
    let mut state = UiState::new(AppConfig::default());
    state.receive_state(
        vec![monitor("a", None, true), monitor("b", Some("w.jpg"), true)],
        config,
    );
    state
}

#[test]
fn the_selection_follows_published_monitors() {
    let mut state = UiState::new(AppConfig::default());
    assert_eq!(state.selected_id, None);
    state.receive_state(vec![monitor("a", None, true), monitor("b", None, true)], AppConfig::default());
    assert_eq!(state.selected_id.as_deref(), Some("a"));
    assert!(state.select_monitor(1));
    assert_eq!(state.selected_id.as_deref(), Some("b"));
    assert_eq!(state.selected_index(), 1);
    assert!(!state.select_monitor(2));
    assert_eq!(state.selected_id.as_deref(), Some("b"));
    state.receive_state(vec![monitor("c", None, true), monitor("b", None, true)], AppConfig::default());
    assert_eq!(state.selected_id.as_deref(), Some("b"));
    assert_eq!(state.selected_index(), 1);
    state.receive_state(vec![monitor("c", None, true)], AppConfig::default());
    assert_eq!(state.selected_id.as_deref(), Some("c"));
    state.receive_state(Vec::new(), AppConfig::default());
    assert_eq!(state.selected_id, None);
    assert_eq!(state.selected_index(), 0);
}

#[test]
fn rows_mark_monitors_with_saved_configuration() {
    let mut state = state_with_a_managed_monitor();
    state.monitors.push(monitor("gone", None, false));
    let rows = state.monitor_rows();
    assert_eq!(rows.len(), 3);
    assert_eq!(rows[0].id, "a");
    assert_eq!(rows[0].name, "name a");
    assert_eq!(rows[0].detail, "detail a");
    assert!(rows[0].managed);
    assert!(!rows[1].managed);
    assert!(rows[1].available);
    assert!(!rows[2].available);
}

#[test]
fn the_loaded_draft_comes_from_saved_mode_or_current_wallpaper() {
    let mut state = state_with_a_managed_monitor();
    assert_eq!(
        state.selected_draft(),
        WallpaperDraft::Color {
            value: "#010203".into()
        }
    );
    assert!(!state.can_apply(&state.selected_draft()));
    state.select_monitor(1);
    assert_eq!(
        state.selected_draft(),
        WallpaperDraft::Current {
            path: Some("w.jpg".into())
        }
    );
    let empty = UiState::new(AppConfig::default());
    assert_eq!(empty.selected_draft(), WallpaperDraft::Current { path: None });
}

#[test]
fn apply_is_offered_only_for_a_changed_valid_draft() {
    let state = state_with_a_managed_monitor();
    let same = WallpaperDraft::Color { value: "010203".into() };
    let other = WallpaperDraft::Color { value: "#ffffff".into() };
    let invalid = WallpaperDraft::Color { value: "bad".into() };
    assert!(!state.can_apply(&same));
    assert!(state.can_apply(&other));
    assert!(!state.can_apply(&invalid));
    assert!(matches!(state.apply_choice(&same), ApplyChoice::Unchanged));
    assert!(matches!(state.apply_choice(&invalid), ApplyChoice::Refused(m) if m == "Enter a color as #RRGGBB"));
    match state.apply_choice(&other) {
        ApplyChoice::Apply { monitor_id, mode } => {
            assert_eq!(monitor_id, "a");
            assert!(matches!(mode, WallpaperMode::Color { rgb: [255, 255, 255] }));
        }
        _ => panic!("expected an apply"),
    }
    let empty = UiState::new(AppConfig::default());
    assert!(!empty.can_apply(&other));
    assert!(matches!(empty.apply_choice(&other), ApplyChoice::Refused(m) if m == "Select a monitor first"));
}

#[test]
fn a_saved_slideshow_loads_as_a_draft_that_is_not_applyable() {
    let mut config = AppConfig::default();
    config.monitors.insert(
        "a".into(),
        saved(WallpaperMode::Slideshow {
            folder: "images".into(),
            interval_seconds: 7200,
            order: SlideshowOrder::Random,
        }),
    );
    let mut state = UiState::new(AppConfig::default());
    state.receive_state(vec![monitor("a", None, true)], config);
    let draft = state.selected_draft();
    assert_eq!(
        draft,
        WallpaperDraft::Slideshow {
            folder: "images".into(),
            interval_value: "2".into(),
            interval_unit: IntervalUnit::Hours,
            order: SlideshowOrder::Random,
        }
    );
    assert!(!state.can_apply(&draft));
    assert!(matches!(state.apply_choice(&draft), ApplyChoice::Unchanged));
}
