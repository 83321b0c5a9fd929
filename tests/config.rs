use clipr::config::{Config, GeneralConfig, PermanentRegisterValue};
use clipr::storage::{BincodeHistoryStorage, TomlConfigStorage};

fn field(table: &toml::Table, key: &str) -> Option<String> {
    table.get(key).and_then(|v| v.as_str()).map(|s| s.to_string())
}

fn register_from_toml(text: &str) -> PermanentRegisterValue {
    let table: toml::Table = toml::from_str(text).unwrap();
    PermanentRegisterValue::from_fields(
        field(&table, "content"),
        field(&table, "file"),
        field(&table, "mime_type"),
        field(&table, "name"),
        field(&table, "description"),
    )
    .unwrap()
}

#[test]
fn test_config_defaults() {
    let config = GeneralConfig::default();
    assert_eq!(config.max_history, 1000);
    assert_eq!(config.max_image_size_bytes, 52_428_800);
    assert_eq!(config.max_image_memory_size_bytes, 5_242_880);
    assert_eq!(config.max_image_preview_size_bytes, 10_485_760);
    assert_eq!(config.exit_on_select, true);
}

#[test]
fn test_permanent_register_inline() {
    let toml_str = r#"
        content = "test@example.com"
        name = "email"
        description = "Primary email"
        "#;

    let reg = register_from_toml(toml_str);
    assert!(!reg.is_file());
    assert_eq!(reg.name(), Some("email"));
    assert_eq!(reg.description(), Some("Primary email"));
}

#[test]
fn test_permanent_register_file() {
    let toml_str = r#"
        file = "/tmp/sig.png"
        mime_type = "image/png"
        name = "signature"
        "#;

    let reg = register_from_toml(toml_str);
    assert!(reg.is_file());
    assert_eq!(reg.name(), Some("signature"));
    assert_eq!(reg.file_path(), Some(&"/tmp/sig.png".to_string()));
}

#[test]
fn config_default_has_no_permanent_registers() {
    let config = Config::default();
    assert!(config.permanent_registers.is_empty());
    assert_eq!(config.general.image_cache_size, 20);
}

#[test]
fn register_fields_without_content_or_file_are_rejected() {
    assert!(PermanentRegisterValue::from_fields(None, None, None, Some("x".to_string()), None).is_none());
}

#[test]
fn storage_locations_keep_their_settings() {
    let h = BincodeHistoryStorage::new("/tmp/h.bin".to_string(), 7);
    assert_eq!(h.path(), "/tmp/h.bin");
    assert_eq!(h.default_max_entries(), 7);
    let c = TomlConfigStorage::new("/tmp/c.toml".to_string());
    assert_eq!(c.path(), "/tmp/c.toml");
}

#[test]
fn config_default_general_settings() {
    let c = Config::default();
    assert_eq!(c.general.max_history, 1000);
    assert_eq!(c.general.max_image_size_bytes, 52_428_800);
    assert_eq!(c.general.max_image_memory_size_bytes, 5_242_880);
    assert_eq!(c.general.max_image_preview_size_bytes, 10_485_760);
    assert!(c.general.exit_on_select);
}
