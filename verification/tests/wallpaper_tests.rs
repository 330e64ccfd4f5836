use wallset::config::{AppConfig, FitMode, MonitorConfig, SlideshowOrder, WallpaperMode};
use wallset::monitor_registry::Monitor;
use wallset::wallpaper::{color_file, Command, Event, Reply, Request, Transitions};

/// Answers requests the way a backend that always succeeds and an effects
/// layer whose save may fail would.
struct World {
    monitors: Vec<String>,
    images: Vec<(String, u64)>,
    fail_save: bool,
    pictures_exist: bool,
    applied: Vec<(String, String)>,
    saves: usize,
}

impl World {
    fn new(monitors: &[&str], fail_save: bool) -> Self {
        World {
            monitors: monitors.iter().map(|m| m.to_string()).collect(),
            images: vec![("a.jpg".into(), 0), ("b.jpg".into(), 0)],
            fail_save,
            pictures_exist: true,
            applied: Vec::new(),
            saves: 0,
        }
    }

    fn answer(&mut self, request: &Request) -> Reply {
        match request {
            Request::ListMonitors => Reply::Monitors(Ok(self
                .monitors
                .iter()
                .map(|id| Monitor {
                    id: id.clone(),
                    name: id.clone(),
                    detail: String::new(),
                    current_wallpaper: None,
                    available: true,
                })
                .collect())),
            Request::CheckPicture { .. } => Reply::PictureChecked(self.pictures_exist),
            Request::MakeColorFile { file_name, .. } => Reply::ColorFile(Ok(format!("cache/{file_name}"))),
            Request::ListImages { .. } => Reply::Images(Ok(self.images.clone())),
            Request::SetWallpaper { monitor_id, path } => {
                self.applied.push((monitor_id.clone(), path.clone()));
                Reply::Done(Ok(()))
            }
            Request::SetFit(_) => Reply::Done(Ok(())),
            Request::Save => {
                self.saves += 1;
                if self.fail_save {
                    Reply::Done(Err("Cannot save settings: disk full".into()))
                } else {
                    Reply::Done(Ok(()))
                }
            }
        }
    }
}

fn drive(transitions: &mut Transitions, world: &mut World, now: u64) {
    loop {
        let reply = match transitions.pending_request() {
            Some(request) => Some(world.answer(&request)),
            None => None,
        };
        match reply {
            Some(reply) => transitions.resume(reply, now),
            None if transitions.has_work() => transitions.step(now),
            None => break,
        }
    }
}

#[test]
fn command_interface_keeps_truthful_state_when_persistence_fails() {
    let mut world = World::new(&[], true);
    let mut transitions = Transitions::new(AppConfig::default());

    assert!(transitions.handle(Command::ApplyFit(FitMode::Tile)));
    drive(&mut transitions, &mut world, 0);

    assert_eq!(transitions.current_config().shared_fit, FitMode::Tile);
    let events = transitions.take_events();
    assert!(
        events.iter().any(
            |event| matches!(event, Event::Status(message) if message.contains("disk full"))
        )
    );
    assert!(events.iter().any(|event| matches!(event, Event::State { config, .. } if config.shared_fit == FitMode::Tile)));
}

#[test]
fn stop_command_ends_the_transition_loop() {
    let mut transitions = Transitions::new(AppConfig::default());
    assert!(!transitions.handle(Command::Stop));
}

fn statuses(events: &[Event]) -> Vec<String> {
    events
        .iter()
        .filter_map(|event| match event {
            Event::Status(message) => Some(message.clone()),
            _ => None,
        })
        .collect()
}

#[test]
fn applying_to_a_disconnected_monitor_is_refused() {
    let mut world = World::new(&[], false);
    let mut transitions = Transitions::new(AppConfig::default());
    transitions.handle(Command::Apply {
        monitor_id: "m".into(),
        mode: WallpaperMode::Color { rgb: [1, 2, 3] },
    });
    drive(&mut transitions, &mut world, 0);
    let events = transitions.take_events();
    assert!(matches!(events[0], Event::Busy(true)));
    assert_eq!(statuses(&events), ["The selected monitor is disconnected"]);
    assert!(matches!(events[2], Event::Busy(false)));
    assert!(matches!(events[3], Event::State { .. }));
    assert_eq!(world.saves, 0);
}

#[test]
fn applying_a_color_writes_its_file_and_saves() {
    let mut world = World::new(&["m"], false);
    let mut transitions = Transitions::new(AppConfig::default());
    transitions.start(0);
    drive(&mut transitions, &mut world, 0);
    transitions.take_events();
    transitions.handle(Command::Apply {
        monitor_id: "m".into(),
        mode: WallpaperMode::Color { rgb: [0xab, 0x01, 0xff] },
    });
    drive(&mut transitions, &mut world, 0);
    assert_eq!(world.applied, [("m".to_string(), "cache/ab01ff.bmp".to_string())]);
    assert_eq!(world.saves, 1);
    let saved = transitions.current_config().monitors.get("m").unwrap();
    assert_eq!(saved.current_image.as_deref(), Some("cache/ab01ff.bmp"));
    assert_eq!(statuses(&transitions.take_events()), ["Wallpaper applied"]);
    assert_eq!(color_file([0, 0x10, 0xee]), "0010ee.bmp");
}

#[test]
fn a_slideshow_is_applied_advanced_and_rescheduled() {
    let mut world = World::new(&["m"], false);
    let mut transitions = Transitions::new(AppConfig::default());
    transitions.start(0);
    drive(&mut transitions, &mut world, 0);
    transitions.handle(Command::Apply {
        monitor_id: "m".into(),
        mode: WallpaperMode::Slideshow {
            folder: "f".into(),
            interval_seconds: 60,
            order: SlideshowOrder::Random,
        },
    });
    drive(&mut transitions, &mut world, 0);
    assert_eq!(world.applied.len(), 1);
    transitions.tick(59_999);
    drive(&mut transitions, &mut world, 59_999);
    assert_eq!(world.applied.len(), 1);
    transitions.tick(60_000);
    drive(&mut transitions, &mut world, 60_000);
    assert_eq!(world.applied.len(), 2);
    assert_ne!(world.applied[0].1, world.applied[1].1);
    let saved = transitions.current_config().monitors.get("m").unwrap();
    assert_eq!(saved.current_image.as_deref(), Some(world.applied[1].1.as_str()));
}

#[test]
fn next_on_a_picture_monitor_reports_it() {
    let mut world = World::new(&["m"], false);
    let mut config = AppConfig::default();
    config.monitors.insert(
        "m".into(),
        MonitorConfig {
            mode: WallpaperMode::Picture { path: "p.jpg".into() },
            current_image: Some("p.jpg".into()),
            remaining_shuffle_deck: Vec::new(),
        },
    );
    let mut transitions = Transitions::new(config);
    transitions.start(0);
    drive(&mut transitions, &mut world, 0);
    assert_eq!(world.applied, [("m".to_string(), "p.jpg".to_string())]);
    transitions.take_events();
    transitions.handle(Command::Next("m".into()));
    drive(&mut transitions, &mut world, 0);
    let events = transitions.take_events();
    assert_eq!(statuses(&events), ["The selected monitor is not using a slideshow"]);
    assert!(matches!(events.last(), Some(Event::State { .. })));
}

#[test]
fn saved_but_disconnected_monitors_stay_in_the_published_state() {
    let mut world = World::new(&["m"], false);
    let mut config = AppConfig::default();
    config.monitors.insert(
        "other".into(),
        MonitorConfig {
            mode: WallpaperMode::Color { rgb: [0, 0, 0] },
            current_image: None,
            remaining_shuffle_deck: Vec::new(),
        },
    );
    let mut transitions = Transitions::new(config);
    transitions.start(0);
    drive(&mut transitions, &mut world, 0);
    let events = transitions.take_events();
    match events.last() {
        Some(Event::State { monitors, config }) => {
            assert_eq!(monitors.len(), 2);
            assert_eq!(monitors[1].id, "other");
            assert!(!monitors[1].available);
            assert!(config.monitors.contains_key("other"));
        }
        other => panic!("expected a state event, got {other:?}"),
    }
    assert!(world.applied.is_empty());
}

#[test]
fn launch_at_login_is_recorded_and_published() {
    let mut world = World::new(&[], false);
    let mut transitions = Transitions::new(AppConfig::default());
    transitions.handle(Command::SetLaunchAtLogin(true));
    drive(&mut transitions, &mut world, 0);
    assert!(transitions.current_config().launch_at_login);
    assert_eq!(world.saves, 1);
    assert!(matches!(transitions.take_events().last(), Some(Event::State { .. })));
}

fn picture_config(id: &str, path: &str) -> AppConfig {
    let mut config = AppConfig::default();
    config.monitors.insert(
        id.into(),
        MonitorConfig {
            mode: WallpaperMode::Picture { path: path.into() },
            current_image: Some(path.into()),
            remaining_shuffle_deck: Vec::new(),
        },
    );
    config
}

#[test]
fn a_missing_saved_picture_is_reported_and_kept() {
    let mut world = World::new(&["m"], false);
    world.pictures_exist = false;
    let mut transitions = Transitions::new(picture_config("m", "gone.jpg"));
    transitions.start(0);
    drive(&mut transitions, &mut world, 0);
    assert!(world.applied.is_empty());
    assert_eq!(world.saves, 0);
    assert_eq!(statuses(&transitions.take_events()), ["Saved wallpaper is missing: gone.jpg"]);
    let saved = transitions.current_config().monitors.get("m").unwrap();
    assert!(matches!(&saved.mode, WallpaperMode::Picture { path } if path == "gone.jpg"));
}

#[test]
fn a_monitor_poll_keeps_the_configuration() {
    let mut world = World::new(&["m"], false);
    let mut transitions = Transitions::new(picture_config("m", "p.jpg"));
    transitions.start(0);
    drive(&mut transitions, &mut world, 0);
    world.monitors.clear();
    transitions.tick(5_000);
    drive(&mut transitions, &mut world, 5_000);
    assert_eq!(world.saves, 0);
    assert!(transitions.current_config().monitors.contains_key("m"));
    match transitions.take_events().last() {
        Some(Event::State { monitors, .. }) => {
            assert_eq!(monitors.len(), 1);
            assert!(!monitors[0].available);
        }
        other => panic!("expected a state event, got {other:?}"),
    }
}

#[test]
fn only_existing_supported_pictures_are_applied() {
    let mut world = World::new(&["m"], false);
    let mut transitions = Transitions::new(AppConfig::default());
    transitions.start(0);
    drive(&mut transitions, &mut world, 0);
    transitions.take_events();
    transitions.handle(Command::Apply {
        monitor_id: "m".into(),
        mode: WallpaperMode::Picture { path: "notes.txt".into() },
    });
    drive(&mut transitions, &mut world, 0);
    assert!(world.applied.is_empty());
    assert_eq!(statuses(&transitions.take_events()), ["Choose an existing JPEG, PNG, or BMP image"]);
    transitions.handle(Command::Apply {
        monitor_id: "m".into(),
        mode: WallpaperMode::Picture { path: "dir/p.png".into() },
    });
    drive(&mut transitions, &mut world, 0);
    assert_eq!(world.applied, [("m".to_string(), "dir/p.png".to_string())]);
    assert_eq!(statuses(&transitions.take_events()), ["Wallpaper applied"]);
    world.pictures_exist = false;
    transitions.handle(Command::Apply {
        monitor_id: "m".into(),
        mode: WallpaperMode::Picture { path: "gone.jpg".into() },
    });
    drive(&mut transitions, &mut world, 0);
    assert_eq!(world.applied.len(), 1);
    assert_eq!(statuses(&transitions.take_events()), ["Choose an existing JPEG, PNG, or BMP image"]);
}

#[test]
fn a_slideshow_by_date_added_starts_with_the_newest_image() {
    let mut world = World::new(&["m"], false);
    world.images = vec![("old.jpg".into(), 1), ("new.jpg".into(), 5)];
    let mut transitions = Transitions::new(AppConfig::default());
    transitions.start(0);
    drive(&mut transitions, &mut world, 0);
    transitions.handle(Command::Apply {
        monitor_id: "m".into(),
        mode: WallpaperMode::Slideshow {
            folder: "f".into(),
            interval_seconds: 60,
            order: SlideshowOrder::DateAdded,
        },
    });
    drive(&mut transitions, &mut world, 0);
    transitions.tick(60_000);
    drive(&mut transitions, &mut world, 60_000);
    transitions.tick(120_000);
    drive(&mut transitions, &mut world, 120_000);
    let shown: Vec<&str> = world.applied.iter().map(|(_, path)| path.as_str()).collect();
    assert_eq!(shown, ["new.jpg", "old.jpg", "new.jpg"]);
}
