use wallset::config::{AppConfig, ConfigError, FitMode, SlideshowOrder, SCHEMA_VERSION};

#[test]
fn fit_indices_are_stable() {
    for index in 0..=4 {
        assert_eq!(FitMode::from_index(index).index(), index);
    }
}

#[test]
fn unknown_fit_index_falls_back_to_fill() {
    assert_eq!(FitMode::from_index(-1), FitMode::Fill);
    assert_eq!(FitMode::from_index(5), FitMode::Fill);
    assert_eq!(FitMode::from_index(3), FitMode::Center);
    assert_eq!(FitMode::Tile.index(), 4);
}

#[test]
fn defaults_match_a_fresh_configuration() {
    let config = AppConfig::default();
    assert_eq!(config.schema_version, SCHEMA_VERSION);
    assert_eq!(config.shared_fit, FitMode::Fill);
    assert!(!config.launch_at_login);
    assert_eq!(config.monitors.len(), 0);
    assert_eq!(FitMode::default(), FitMode::Fill);
    assert_eq!(SlideshowOrder::default(), SlideshowOrder::Random);
}

#[test]
fn missing_settings_file_gives_defaults() {
    let config = AppConfig::from_stored(None).unwrap();
    assert_eq!(config.schema_version, 1);
    assert_eq!(config.monitors.len(), 0);
}

#[test]
fn other_schema_is_refused_with_its_number() {
    let mut stored = AppConfig::default();
    stored.schema_version = 7;
    let error = AppConfig::from_stored(Some(stored)).unwrap_err();
    assert_eq!(error, ConfigError::UnsupportedSchema(7));
    assert_eq!(error.message(), "unsupported configuration schema 7");
    let mut current = AppConfig::default();
    current.shared_fit = FitMode::Tile;
    assert_eq!(AppConfig::from_stored(Some(current)).unwrap().shared_fit, FitMode::Tile);
}
