use clipr::logging::{level_from_lowercase, parse_level, LogLevel};

#[test]
fn level_names_ignore_case() {
    assert_eq!(parse_level("WARN"), LogLevel::Warn);
    assert_eq!(parse_level("Error"), LogLevel::Error);
    assert_eq!(parse_level("debug"), LogLevel::Debug);
    assert_eq!(parse_level("TrAcE"), LogLevel::Trace);
    assert_eq!(parse_level("info"), LogLevel::Info);
    assert_eq!(parse_level("verbose"), LogLevel::Info);
    assert_eq!(parse_level(""), LogLevel::Info);
}

#[test]
fn lowercase_names_are_matched_exactly() {
    assert_eq!(level_from_lowercase("warn"), LogLevel::Warn);
    assert_eq!(level_from_lowercase("Warn"), LogLevel::Info);
}
