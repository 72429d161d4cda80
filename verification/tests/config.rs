use std::collections::HashMap;
use std::time::Duration;

use onair_bot::config::{parse_name_list, Config};

fn lookup(pairs: &[(&str, &str)]) -> impl Fn(&str) -> Option<String> {
    let map: HashMap<String, String> = pairs
        .iter()
        .map(|(k, v)| (k.to_string(), v.to_string()))
        .collect();
    move |key| map.get(key).cloned()
}

#[test]
fn loads_required_values_and_applies_defaults() {
    let config = Config::from_lookup(lookup(&[
        ("TOKEN", "tok"),
        ("SECRET", "sec"),
        ("DEVICE_ID", "dev"),
    ]))
    .unwrap();

    assert_eq!(config.token, "tok");
    assert_eq!(config.secret, "sec");
    assert_eq!(config.device_id, "dev");
    assert_eq!(Duration::from_secs(config.poll_interval_secs), Duration::from_secs(1));
    assert_eq!(config.debounce, 2);
    assert_eq!(config.ignore_processes, ["pipewire", "wireplumber"]);
}

#[test]
fn missing_required_value_is_an_error() {
    let err = Config::from_lookup(lookup(&[("TOKEN", "tok"), ("SECRET", "sec")])).unwrap_err();
    assert!(err.contains("DEVICE_ID"), "unexpected error: {err}");
}

#[test]
fn blank_required_value_is_an_error() {
    let err = Config::from_lookup(lookup(&[
        ("TOKEN", "tok"),
        ("SECRET", "   "),
        ("DEVICE_ID", "dev"),
    ]))
    .unwrap_err();
    assert!(err.contains("SECRET"), "unexpected error: {err}");
}

#[test]
fn optional_values_override_defaults() {
    let config = Config::from_lookup(lookup(&[
        ("TOKEN", "tok"),
        ("SECRET", "sec"),
        ("DEVICE_ID", "dev"),
        ("ONAIR_POLL_INTERVAL_SECS", "5"),
        ("ONAIR_DEBOUNCE", "4"),
        ("ONAIR_IGNORE_PROCESSES", "pipewire, obs , "),
    ]))
    .unwrap();

    assert_eq!(Duration::from_secs(config.poll_interval_secs), Duration::from_secs(5));
    assert_eq!(config.debounce, 4);
    assert_eq!(config.ignore_processes, ["pipewire", "obs"]);
}

#[test]
fn zero_values_are_clamped_to_one() {
    let config = Config::from_lookup(lookup(&[
        ("TOKEN", "tok"),
        ("SECRET", "sec"),
        ("DEVICE_ID", "dev"),
        ("ONAIR_POLL_INTERVAL_SECS", "0"),
        ("ONAIR_DEBOUNCE", "0"),
    ]))
    .unwrap();

    assert_eq!(Duration::from_secs(config.poll_interval_secs), Duration::from_secs(1));
    assert_eq!(config.debounce, 1);
}

#[test]
fn invalid_numeric_value_is_an_error() {
    let err = Config::from_lookup(lookup(&[
        ("TOKEN", "tok"),
        ("SECRET", "sec"),
        ("DEVICE_ID", "dev"),
        ("ONAIR_DEBOUNCE", "soon"),
    ]))
    .unwrap_err();
    assert!(err.contains("ONAIR_DEBOUNCE"), "unexpected error: {err}");
}

#[test]
fn error_messages_are_exact() {
    let err = Config::from_lookup(lookup(&[])).unwrap_err();
    assert_eq!(err, "environment variable TOKEN is required (set it in .env)");
    let err = Config::from_lookup(lookup(&[
        ("TOKEN", "tok"),
        ("SECRET", "sec"),
        ("DEVICE_ID", "dev"),
        ("ONAIR_POLL_INTERVAL_SECS", " -3 "),
    ]))
    .unwrap_err();
    assert_eq!(err, "environment variable ONAIR_POLL_INTERVAL_SECS has an invalid value:  -3 ");
}

#[test]
fn the_first_error_wins() {
    let err = Config::from_lookup(lookup(&[
        ("SECRET", ""),
        ("ONAIR_DEBOUNCE", "x"),
    ]))
    .unwrap_err();
    assert!(err.contains("TOKEN"), "unexpected error: {err}");
}

#[test]
fn required_values_keep_their_surrounding_spaces() {
    let config = Config::from_lookup(lookup(&[
        ("TOKEN", " tok "),
        ("SECRET", "sec"),
        ("DEVICE_ID", "dev"),
    ]))
    .unwrap();
    assert_eq!(config.token, " tok ");
}

#[test]
fn numbers_are_trimmed_and_may_carry_a_plus_sign() {
    let config = Config::from_lookup(lookup(&[
        ("TOKEN", "tok"),
        ("SECRET", "sec"),
        ("DEVICE_ID", "dev"),
        ("ONAIR_POLL_INTERVAL_SECS", " +007\t"),
        ("ONAIR_DEBOUNCE", "4294967295"),
    ]))
    .unwrap();
    assert_eq!(config.poll_interval_secs, 7);
    assert_eq!(config.debounce, u32::MAX);
}

#[test]
fn numbers_out_of_range_are_errors() {
    let err = Config::from_lookup(lookup(&[
        ("TOKEN", "tok"),
        ("SECRET", "sec"),
        ("DEVICE_ID", "dev"),
        ("ONAIR_DEBOUNCE", "4294967296"),
    ]))
    .unwrap_err();
    assert!(err.contains("ONAIR_DEBOUNCE"), "unexpected error: {err}");
    let err = Config::from_lookup(lookup(&[
        ("TOKEN", "tok"),
        ("SECRET", "sec"),
        ("DEVICE_ID", "dev"),
        ("ONAIR_POLL_INTERVAL_SECS", "18446744073709551616"),
    ]))
    .unwrap_err();
    assert!(err.contains("ONAIR_POLL_INTERVAL_SECS"), "unexpected error: {err}");
    for bad in ["", "+", "1_000", "0x10", "-0"] {
        let err = Config::from_lookup(lookup(&[
            ("TOKEN", "tok"),
            ("SECRET", "sec"),
            ("DEVICE_ID", "dev"),
            ("ONAIR_POLL_INTERVAL_SECS", bad),
        ]))
        .unwrap_err();
        assert!(err.contains("invalid value"), "unexpected error for {bad:?}: {err}");
    }
}

#[test]
fn name_lists_agree_with_split_trim_filter() {
    for text in ["", ",", "a", " a , b ,, c ", "\u{3000}x\u{3000},y", ",,pipewire,", "a b, c"] {
        let expected: Vec<String> = text
            .split(',')
            .map(|s| s.trim().to_string())
            .filter(|s| !s.is_empty())
            .collect();
        assert_eq!(parse_name_list(text), expected, "for {text:?}");
    }
}

#[test]
fn empty_ignore_list_is_kept_empty() {
    let config = Config::from_lookup(lookup(&[
        ("TOKEN", "tok"),
        ("SECRET", "sec"),
        ("DEVICE_ID", "dev"),
        ("ONAIR_IGNORE_PROCESSES", " , "),
    ]))
    .unwrap();
    assert!(config.ignore_processes.is_empty());
}
