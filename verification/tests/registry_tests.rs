use wallset::monitor_registry::{describe_monitor, Monitor, MonitorRegistry};

fn monitor(id: &str) -> Monitor {
    Monitor {
        id: id.into(),
        name: id.into(),
        detail: String::new(),
        current_wallpaper: None,
        available: true,
    }
}

#[test]
fn registry_reports_topology_and_new_connections() {
    let mut registry = MonitorRegistry::default();
    let first = registry.reconcile(vec![monitor("a")]);
    assert!(first.topology_changed);
    assert_eq!(first.newly_connected, ["a"]);
    let unchanged = registry.reconcile(vec![monitor("a")]);
    assert!(!unchanged.topology_changed);
    assert!(unchanged.newly_connected.is_empty());
}

#[test]
fn registry_keeps_saved_disconnected_monitors_in_its_view() {
    let mut registry = MonitorRegistry::default();
    registry.reconcile(vec![monitor("connected")]);
    let saved = ["connected".to_string(), "disconnected".to_string()];
    let view = registry.view(&saved);
    assert_eq!(view.len(), 2);
    assert!(
        !view
            .iter()
            .find(|monitor| monitor.id == "disconnected")
            .unwrap()
            .available
    );
}

#[test]
fn disconnecting_changes_topology_without_new_connections() {
    let mut registry = MonitorRegistry::default();
    registry.reconcile(vec![monitor("a"), monitor("b")]);
    let change = registry.reconcile(vec![monitor("b")]);
    assert!(change.topology_changed);
    assert!(change.newly_connected.is_empty());
    assert!(!registry.is_connected("a"));
    assert!(registry.is_connected("b"));
    let back = registry.reconcile(vec![monitor("b"), monitor("a"), monitor("a")]);
    assert!(back.topology_changed);
    assert_eq!(back.newly_connected, ["a"]);
}

#[test]
fn placeholder_entries_describe_saved_monitors() {
    let mut registry = MonitorRegistry::default();
    let mut shown = monitor("b");
    shown.current_wallpaper = Some("wall.jpg".into());
    registry.reconcile(vec![shown.clone()]);
    let view = registry.view(&["a".to_string(), "b".to_string(), "c".to_string()]);
    assert_eq!(view.len(), 3);
    assert_eq!(view[0], shown);
    assert_eq!(view[1].id, "a");
    assert_eq!(view[1].name, "Saved display");
    assert_eq!(view[1].detail, "Configuration retained");
    assert_eq!(view[1].current_wallpaper, None);
    assert_eq!(view[2].id, "c");
    assert_eq!(registry.current_wallpaper("b"), Some(&"wall.jpg".to_string()));
    assert_eq!(registry.current_wallpaper("a"), None);
}

#[test]
fn connected_monitors_are_described_by_position_and_size() {
    let primary = describe_monitor("a".into(), 0, 0, 0, 1920, 1080, Some(String::new()));
    assert_eq!(primary.name, "Display 1 · Primary");
    assert_eq!(primary.detail, "1920 × 1080");
    assert_eq!(primary.current_wallpaper, None);
    assert!(primary.available);
    let left = describe_monitor("b".into(), 1, -1280, 0, 0, 1024, Some("w.jpg".into()));
    assert_eq!(left.id, "b");
    assert_eq!(left.name, "Display 2");
    assert_eq!(left.detail, "1280 × 1024");
    assert_eq!(left.current_wallpaper.as_deref(), Some("w.jpg"));
}
