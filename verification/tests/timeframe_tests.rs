use rust_candles_retriever::timeframe::{parse_timeframe_seconds, str_eq, timeframe_to_interval};

#[test]
fn interval_of_every_supported_tag() {
    assert_eq!(timeframe_to_interval("1m"), 60_000);
    assert_eq!(timeframe_to_interval("3m"), 180_000);
    assert_eq!(timeframe_to_interval("5m"), 300_000);
    assert_eq!(timeframe_to_interval("15m"), 900_000);
    assert_eq!(timeframe_to_interval("30m"), 1_800_000);
    assert_eq!(timeframe_to_interval("1h"), 3_600_000);
    assert_eq!(timeframe_to_interval("2h"), 7_200_000);
    assert_eq!(timeframe_to_interval("4h"), 14_400_000);
    assert_eq!(timeframe_to_interval("6h"), 21_600_000);
    assert_eq!(timeframe_to_interval("8h"), 28_800_000);
    assert_eq!(timeframe_to_interval("12h"), 43_200_000);
    assert_eq!(timeframe_to_interval("1d"), 86_400_000);
    assert_eq!(timeframe_to_interval("3d"), 259_200_000);
    assert_eq!(timeframe_to_interval("1w"), 604_800_000);
    assert_eq!(timeframe_to_interval("1M"), 2_592_000_000);
}

#[test]
fn unknown_tag_defaults_to_five_minutes() {
    assert_eq!(timeframe_to_interval("7x"), 300_000);
    assert_eq!(timeframe_to_interval(""), 300_000);
}

#[test]
fn seconds_are_interval_divided_by_thousand() {
    assert_eq!(parse_timeframe_seconds("5m"), 300);
    assert_eq!(parse_timeframe_seconds("1h"), 3600);
    assert_eq!(parse_timeframe_seconds("1d"), 86_400);
    assert_eq!(parse_timeframe_seconds("nope"), 300);
}

#[test]
fn string_equality_by_characters() {
    assert!(str_eq("1h", "1h"));
    assert!(!str_eq("1h", "1m"));
    assert!(!str_eq("1h", "1hh"));
    assert!(str_eq("", ""));
}
