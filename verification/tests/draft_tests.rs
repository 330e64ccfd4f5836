use wallset::config::{SlideshowOrder, WallpaperMode};
use wallset::wallpaper_draft::{IntervalUnit, WallpaperDraft};

#[test]
fn every_wallpaper_mode_round_trips_through_a_draft() {
    let modes = [
        WallpaperMode::Picture {
            path: "a.jpg".into(),
        },
        WallpaperMode::Color {
            rgb: [0x12, 0xab, 0xef],
        },
        WallpaperMode::Slideshow {
            folder: "images".into(),
            interval_seconds: 3600,
            order: SlideshowOrder::Random,
        },
        WallpaperMode::Slideshow {
            folder: "images".into(),
            interval_seconds: 900,
            order: SlideshowOrder::DateAdded,
        },
    ];
    for mode in modes {
        assert_eq!(
            WallpaperDraft::from_mode(&mode).apply_intent().unwrap(),
            mode
        );
    }
}

#[test]
fn interval_normalizes_to_hours_only_when_exact() {
    let exact = WallpaperDraft::from_mode(&WallpaperMode::Slideshow {
        folder: "images".into(),
        interval_seconds: 7200,
        order: SlideshowOrder::Random,
    });
    let partial = WallpaperDraft::from_mode(&WallpaperMode::Slideshow {
        folder: "images".into(),
        interval_seconds: 5400,
        order: SlideshowOrder::Random,
    });
    assert!(matches!(
        exact,
        WallpaperDraft::Slideshow {
            interval_unit: IntervalUnit::Hours,
            ..
        }
    ));
    assert!(matches!(
        partial,
        WallpaperDraft::Slideshow {
            interval_unit: IntervalUnit::Minutes,
            ..
        }
    ));
}

#[test]
fn invalid_values_do_not_create_an_apply_intent() {
    assert!(
        WallpaperDraft::Color {
            value: "bad".into()
        }
        .apply_intent()
        .is_err()
    );
    assert!(
        WallpaperDraft::Slideshow {
            folder: "images".into(),
            interval_value: "0".into(),
            interval_unit: IntervalUnit::Minutes,
            order: SlideshowOrder::DateAdded,
        }
        .apply_intent()
        .is_err()
    );
}

#[test]
fn color_text_is_upper_case_hex() {
    let draft = WallpaperDraft::from_mode(&WallpaperMode::Color { rgb: [0x12, 0xab, 0xef] });
    assert_eq!(draft, WallpaperDraft::Color { value: "#12ABEF".into() });
    let slideshow = WallpaperDraft::from_mode(&WallpaperMode::Slideshow {
        folder: "f".into(),
        interval_seconds: 5400,
        order: SlideshowOrder::Random,
    });
    assert_eq!(
        slideshow,
        WallpaperDraft::Slideshow {
            folder: "f".into(),
            interval_value: "90".into(),
            interval_unit: IntervalUnit::Minutes,
            order: SlideshowOrder::Random,
        }
    );
}

#[test]
fn colors_parse_with_trimming_case_and_optional_hash() {
    let rgb = |value: &str| WallpaperDraft::Color { value: value.into() }.color_rgb();
    assert_eq!(rgb("#12abEF"), Some([0x12, 0xab, 0xef]));
    assert_eq!(rgb("  00ff10\t"), Some([0x00, 0xff, 0x10]));
    assert_eq!(rgb("#+F+F+F"), None);
    assert_eq!(rgb("#+1+2+3"), None);
    assert_eq!(rgb("#12ab"), None);
    assert_eq!(rgb("##12abef"), None);
    assert_eq!(rgb("#12abeg"), None);
    assert_eq!(rgb("#ééabef"), None);
    assert_eq!(WallpaperDraft::Picture { path: "x".into() }.color_rgb(), None);
}

#[test]
fn each_error_has_its_message() {
    let current = WallpaperDraft::Current { path: None }.apply_intent();
    assert_eq!(current.unwrap_err(), "Choose Picture, Color, or Slideshow");
    let color = WallpaperDraft::Color { value: "bad".into() }.apply_intent();
    assert_eq!(color.unwrap_err(), "Enter a color as #RRGGBB");
    let slideshow = |value: &str, unit: IntervalUnit| {
        WallpaperDraft::Slideshow {
            folder: "images".into(),
            interval_value: value.into(),
            interval_unit: unit,
            order: SlideshowOrder::Random,
        }
        .apply_intent()
    };
    assert_eq!(slideshow("ten", IntervalUnit::Minutes).unwrap_err(), "Enter a whole-number interval");
    assert_eq!(slideshow("-5", IntervalUnit::Minutes).unwrap_err(), "Enter a whole-number interval");
    assert_eq!(slideshow("18446744073709551616", IntervalUnit::Minutes).unwrap_err(), "Enter a whole-number interval");
    assert_eq!(slideshow("18446744073709551615", IntervalUnit::Hours).unwrap_err(), "The interval is too large");
    assert_eq!(slideshow("0", IntervalUnit::Hours).unwrap_err(), "The minimum interval is one minute");
    assert_eq!(
        slideshow(" +2 ", IntervalUnit::Hours).unwrap(),
        WallpaperMode::Slideshow {
            folder: "images".into(),
            interval_seconds: 7200,
            order: SlideshowOrder::Random,
        }
    );
}

#[test]
fn a_draft_is_applyable_only_when_it_changes_the_saved_mode() {
    let saved = WallpaperMode::Color { rgb: [1, 2, 3] };
    let same = WallpaperDraft::Color { value: "#010203".into() };
    let other = WallpaperDraft::Color { value: "#010204".into() };
    assert!(!same.is_applyable_against(Some(&saved)));
    assert!(other.is_applyable_against(Some(&saved)));
    assert!(same.is_applyable_against(None));
    assert!(!WallpaperDraft::Current { path: None }.is_applyable_against(None));
}
