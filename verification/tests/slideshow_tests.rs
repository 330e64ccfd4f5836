use wallset::config::SlideshowOrder;
use wallset::slideshow::{is_supported_extension, is_supported_image, newest_first, next_image, order_by_keys, order_listing, show_next_image, ImageCatalog, Lifecycle, Slideshow};

struct Catalog(Vec<String>);
impl ImageCatalog for Catalog {
    fn images(&self, _: &str) -> Result<Vec<(String, u64)>, String> {
        Ok(self.0.iter().map(|path| (path.clone(), 0)).collect())
    }
}

struct Dated(Vec<(String, u64)>);
impl ImageCatalog for Dated {
    fn images(&self, _: &str) -> Result<Vec<(String, u64)>, String> {
        Ok(self.0.clone())
    }
}

struct Broken;
impl ImageCatalog for Broken {
    fn images(&self, _: &str) -> Result<Vec<(String, u64)>, String> {
        Err("Choose an existing slideshow folder".into())
    }
}

const SECOND: u64 = 1000;

#[test]
fn lifecycle_preserves_a_no_repeat_deck_and_reschedules() {
    let now: u64 = 0;
    let mut lifecycle = Lifecycle::new(Catalog(
        ["a.jpg", "b.jpg", "c.jpg"]
            .into_iter()
            .map(String::from)
            .collect(),
    ));
    let mut applied = Vec::new();
    let mut slideshow = lifecycle
        .start("monitor", "folder".into(), 60, SlideshowOrder::Random, now, |path: &str| {
            applied.push(path.to_owned());
            Ok(())
        })
        .unwrap();
    lifecycle
        .advance("monitor", &mut slideshow, now + 60 * SECOND, |path: &str| {
            applied.push(path.to_owned());
            Ok(())
        })
        .unwrap();
    assert_ne!(applied[0], applied[1]);
    assert_eq!(lifecycle.due(now + 119 * SECOND), Vec::<String>::new());
    assert_eq!(lifecycle.due(now + 120 * SECOND), ["monitor"]);
}

#[test]
fn lifecycle_retries_an_image_that_cannot_be_applied() {
    let mut lifecycle = Lifecycle::new(Catalog(vec!["a.jpg".into(), "b.jpg".into()]));
    let mut attempts = 0;
    let slideshow = lifecycle.start("monitor", "folder".into(), 60, SlideshowOrder::Random, 0, |_: &str| {
        attempts += 1;
        if attempts == 1 {
            Err("bad image".into())
        } else {
            Ok(())
        }
    });
    assert!(slideshow.is_ok());
    assert_eq!(attempts, 2);
}

#[test]
fn missed_deadline_is_reported_once() {
    let now: u64 = 0;
    let mut lifecycle = Lifecycle::new(Catalog(vec!["a.jpg".into()]));
    lifecycle
        .start("monitor", "folder".into(), 60, SlideshowOrder::Random, now, |_: &str| Ok(()))
        .unwrap();
    assert_eq!(lifecycle.due(now + 600 * SECOND), ["monitor"]);
    assert!(lifecycle.due(now + 601 * SECOND).is_empty());
}

#[test]
fn start_refuses_short_intervals_empty_folders_and_unusable_images() {
    let mut lifecycle = Lifecycle::new(Catalog(vec!["a.jpg".into()]));
    let short = lifecycle.start("m", "f".into(), 59, SlideshowOrder::Random, 0, |_: &str| Ok(()));
    assert_eq!(short.unwrap_err(), "The minimum slideshow interval is one minute");
    let failing = lifecycle.start("m", "f".into(), 60, SlideshowOrder::Random, 0, |_: &str| Err("nope".into()));
    assert_eq!(failing.unwrap_err(), "No slideshow image could be applied");
    assert!(lifecycle.due(u64::MAX).is_empty());
    let mut empty = Lifecycle::new(Catalog(Vec::new()));
    let none = empty.start("m", "f".into(), 60, SlideshowOrder::Random, 0, |_: &str| Ok(()));
    assert_eq!(none.unwrap_err(), "The slideshow folder is empty");
    let mut broken = Lifecycle::new(Broken);
    let missing = broken.start("m", "f".into(), 60, SlideshowOrder::Random, 0, |_: &str| Ok(()));
    assert_eq!(missing.unwrap_err(), "Choose an existing slideshow folder");
}

#[test]
fn failed_advance_stops_the_schedule() {
    let mut lifecycle = Lifecycle::new(Catalog(vec!["a.jpg".into(), "b.jpg".into()]));
    let mut slideshow = lifecycle.start("m", "f".into(), 60, SlideshowOrder::Random, 0, |_: &str| Ok(())).unwrap();
    let result = lifecycle.advance("m", &mut slideshow, 1, |_: &str| Err("gone".into()));
    assert!(result.is_err());
    assert!(lifecycle.due(u64::MAX).is_empty());
}

#[test]
fn due_reports_monitors_in_order_and_cancel_drops_one() {
    let mut lifecycle = Lifecycle::new(Catalog(vec!["a.jpg".into()]));
    for id in ["m2", "m1", "m3"] {
        lifecycle.start(id, "f".into(), 60, SlideshowOrder::Random, 0, |_: &str| Ok(())).unwrap();
    }
    lifecycle.cancel("m3");
    assert_eq!(lifecycle.due(60 * SECOND), ["m1", "m2"]);
}

#[test]
fn deck_draws_every_image_once_before_repeating() {
    let images: Vec<String> = ["a", "b", "c"].into_iter().map(String::from).collect();
    let mut deck = Vec::new();
    let first = next_image(&images, &Some("a".into()), &mut deck, SlideshowOrder::Random).unwrap();
    assert_ne!(first, "a");
    assert_eq!(deck.len(), 1);
    let second = next_image(&images, &Some(first.clone()), &mut deck, SlideshowOrder::Random).unwrap();
    assert_ne!(second, first);
    assert_ne!(second, "a");
    assert!(deck.is_empty());
    let mut stale = vec!["gone".to_string(), "b".to_string(), "zzz".to_string()];
    assert_eq!(next_image(&images, &None, &mut stale, SlideshowOrder::Random), Some("b".to_string()));
    assert!(stale.is_empty());
    let only = vec!["a".to_string()];
    let mut empty = Vec::new();
    assert_eq!(next_image(&only, &Some("a".into()), &mut empty, SlideshowOrder::Random), Some("a".to_string()));
    assert_eq!(next_image(&Vec::new(), &None, &mut Vec::new(), SlideshowOrder::Random), None);
}

#[test]
fn supported_images_are_recognized_by_extension() {
    assert!(is_supported_image("photo.JPG"));
    assert!(is_supported_image("dir/photo.jpeg"));
    assert!(is_supported_image("a.png"));
    assert!(is_supported_image("b.Bmp"));
    assert!(!is_supported_image("notes.txt"));
    assert!(!is_supported_image("jpg"));
    assert!(!is_supported_image("archive.jpg.zip"));
    assert!(is_supported_image("dir/b.jpeg"));
    assert!(is_supported_image("C:\\Pictures\\a.JPG"));
    assert!(!is_supported_image(".png"));
    assert!(!is_supported_image("dir/.png"));
    assert!(!is_supported_image(".."));
    assert!(!is_supported_image("f.jpg.txt"));
    assert!(is_supported_extension(Some("JPeG")));
    assert!(!is_supported_extension(Some("gif")));
    assert!(!is_supported_extension(None));
}

#[test]
fn listings_are_ordered_by_lower_case_path_keeping_ties() {
    let listing = vec!["b.jpg".to_string(), "A.jpg".to_string(), "c.png".to_string(), "a.jpg".to_string()];
    assert_eq!(order_listing(listing), ["A.jpg", "a.jpg", "b.jpg", "c.png"]);
    let mixed = vec!["Zebra.png".to_string(), "apple.jpg".to_string(), "Mango.bmp".to_string()];
    assert_eq!(order_listing(mixed), ["apple.jpg", "Mango.bmp", "Zebra.png"]);
}

#[test]
fn paths_are_ordered_by_their_given_keys() {
    let paths = vec!["x".to_string(), "y".to_string(), "z".to_string(), "w".to_string()];
    let keys = vec!["b".to_string(), "a".to_string(), "b".to_string(), "ab".to_string()];
    assert_eq!(order_by_keys(paths, keys), ["y", "w", "x", "z"]);
    assert!(order_by_keys(Vec::new(), Vec::new()).is_empty());
}

#[test]
fn the_next_image_comes_from_the_listing_and_must_be_accepted() {
    let fresh = || Slideshow {
        folder: "folder".into(),
        interval_seconds: 60,
        order: SlideshowOrder::Random,
        current_image: None,
        remaining_deck: Vec::new(),
    };
    let mut accept_all = |_: &str| -> Result<(), String> { Ok(()) };

    let mut show = fresh();
    assert_eq!(show_next_image(&mut show, Err("Cannot read folder: gone".into()), &mut accept_all), Err("Cannot read folder: gone".to_string()));
    assert_eq!(show.current_image, None);

    assert_eq!(show_next_image(&mut show, Ok(Vec::new()), &mut accept_all), Err("The slideshow folder is empty".to_string()));
    assert_eq!(show.current_image, None);

    let mut refuse_bad = |path: &str| -> Result<(), String> {
        if path == "bad.jpg" { Err("bad image".into()) } else { Ok(()) }
    };
    let mut show = fresh();
    show.remaining_deck = vec!["good.jpg".into(), "bad.jpg".into()];
    let listing = vec![("bad.jpg".to_string(), 0), ("good.jpg".to_string(), 0)];
    assert_eq!(show_next_image(&mut show, Ok(listing.clone()), &mut refuse_bad), Ok(()));
    assert_eq!(show.current_image.as_deref(), Some("good.jpg"));

    let mut refuse_all = |_: &str| -> Result<(), String> { Err("no".into()) };
    let mut show = fresh();
    assert_eq!(show_next_image(&mut show, Ok(listing), &mut refuse_all), Err("No slideshow image could be applied".to_string()));
    assert_eq!(show.current_image, None);
}

#[test]
fn a_slideshow_by_date_added_shows_the_newest_image_first_and_cycles() {
    let catalog = || {
        Dated(vec![("old.jpg".to_string(), 1), ("new.jpg".to_string(), 3), ("mid.jpg".to_string(), 2)])
    };
    let mut lifecycle = Lifecycle::new(catalog());
    let mut applied = Vec::new();
    let mut slideshow = lifecycle
        .start("m", "f".into(), 60, SlideshowOrder::DateAdded, 0, |path: &str| {
            applied.push(path.to_owned());
            Ok(())
        })
        .unwrap();
    for step in 1..4u64 {
        lifecycle
            .advance("m", &mut slideshow, step, |path: &str| {
                applied.push(path.to_owned());
                Ok(())
            })
            .unwrap();
    }
    assert_eq!(applied, ["new.jpg", "mid.jpg", "old.jpg", "new.jpg"]);
    let mut again = Lifecycle::new(catalog());
    let first = again.start("m", "f".into(), 60, SlideshowOrder::DateAdded, 0, |_: &str| Ok(())).unwrap();
    assert_eq!(first.current_image.as_deref(), Some("new.jpg"));
    assert_eq!(first.order, SlideshowOrder::DateAdded);
}

#[test]
fn listings_are_dealt_newest_first_keeping_ties_in_order() {
    let listed = vec![("a".to_string(), 5), ("b".to_string(), 9), ("c".to_string(), 5), ("d".to_string(), 9)];
    assert_eq!(newest_first(&listed), ["b", "d", "a", "c"]);
}

#[test]
fn a_first_round_shows_every_image_once() {
    let images: Vec<String> = ["a.jpg", "b.jpg", "c.jpg", "d.jpg"].into_iter().map(String::from).collect();
    let mut lifecycle = Lifecycle::new(Catalog(images.clone()));
    let mut applied = Vec::new();
    let mut slideshow = lifecycle
        .start("m", "f".into(), 60, SlideshowOrder::Random, 0, |path: &str| {
            applied.push(path.to_owned());
            Ok(())
        })
        .unwrap();
    for step in 1..4u64 {
        lifecycle
            .advance("m", &mut slideshow, step, |path: &str| {
                applied.push(path.to_owned());
                Ok(())
            })
            .unwrap();
    }
    let mut sorted = applied.clone();
    sorted.sort();
    assert_eq!(sorted, images);
    let last = applied[3].clone();
    lifecycle
        .advance("m", &mut slideshow, 4, |path: &str| {
            applied.push(path.to_owned());
            Ok(())
        })
        .unwrap();
    assert_ne!(applied[4], last);
}
