use incrzip::timestamp::{parse_last_modified, ConfigError};

#[test]
fn epoch_zero() {
    assert_eq!(parse_last_modified(b"1970-01-01 00:00:00"), Ok(0));
}

#[test]
fn known_instants() {
    assert_eq!(parse_last_modified(b"2024-01-01 00:00:00"), Ok(1704067200));
    assert_eq!(parse_last_modified(b"2000-02-29 12:30:45"), Ok(951827445));
    assert_eq!(parse_last_modified(b"1999-12-31 23:59:59"), Ok(946684799));
    assert_eq!(parse_last_modified(b"1970-01-02 00:00:00"), Ok(86400));
}

#[test]
fn pre_epoch_instants_are_negative() {
    assert_eq!(parse_last_modified(b"1969-12-31 23:59:59"), Ok(-1));
}

#[test]
fn malformed_shape_is_rejected() {
    assert_eq!(parse_last_modified(b"2024/01/01"), Err(ConfigError::BadTimestamp));
    assert_eq!(parse_last_modified(b"2024-01-01"), Err(ConfigError::BadTimestamp));
    assert_eq!(parse_last_modified(b""), Err(ConfigError::BadTimestamp));
    assert_eq!(parse_last_modified(b"2024-01-01T00:00:00"), Err(ConfigError::BadTimestamp));
    assert_eq!(parse_last_modified(b"24-01-01 00:00:00"), Err(ConfigError::BadTimestamp));
    assert_eq!(parse_last_modified(b"2024-01-01 00:00"), Err(ConfigError::BadTimestamp));
    assert_eq!(parse_last_modified(b"2024-01-01 00:00:00 "), Err(ConfigError::BadTimestamp));
    assert_eq!(parse_last_modified(b"2024-01-0a 00:00:00"), Err(ConfigError::BadTimestamp));
}

#[test]
fn out_of_range_fields_are_rejected() {
    assert_eq!(parse_last_modified(b"2024-13-01 00:00:00"), Err(ConfigError::BadTimestamp));
    assert_eq!(parse_last_modified(b"2024-00-10 00:00:00"), Err(ConfigError::BadTimestamp));
    assert_eq!(parse_last_modified(b"2024-01-00 00:00:00"), Err(ConfigError::BadTimestamp));
    assert_eq!(parse_last_modified(b"2024-01-32 00:00:00"), Err(ConfigError::BadTimestamp));
    assert_eq!(parse_last_modified(b"2024-04-31 00:00:00"), Err(ConfigError::BadTimestamp));
    assert_eq!(parse_last_modified(b"2024-02-30 00:00:00"), Err(ConfigError::BadTimestamp));
    assert_eq!(parse_last_modified(b"2024-01-01 24:00:00"), Err(ConfigError::BadTimestamp));
    assert_eq!(parse_last_modified(b"2024-01-01 00:60:00"), Err(ConfigError::BadTimestamp));
    assert_eq!(parse_last_modified(b"2024-01-01 00:00:60"), Err(ConfigError::BadTimestamp));
}

#[test]
fn leap_year_rules() {
    assert!(parse_last_modified(b"2024-02-29 00:00:00").is_ok());
    assert!(parse_last_modified(b"2000-02-29 00:00:00").is_ok());
    assert_eq!(parse_last_modified(b"2023-02-29 00:00:00"), Err(ConfigError::BadTimestamp));
    assert_eq!(parse_last_modified(b"1900-02-29 00:00:00"), Err(ConfigError::BadTimestamp));
    assert!(parse_last_modified(b"1900-02-28 00:00:00").is_ok());
}
