use webhook_notify::codec::{parse_history, serialize_history};
use webhook_notify::history::WebhookHistoryData;
use webhook_notify::jsontext::{is_json_number_exec, str_to_chars};

#[test]
fn empty_store_serializes_exactly() {
    let store = WebhookHistoryData::new();
    assert_eq!(
        serialize_history(&store),
        "{\n  \"entries\": [],\n  \"next_id\": 1\n}"
    );
}

#[test]
fn one_entry_serializes_exactly() {
    let mut store = WebhookHistoryData::new();
    store.add_webhook_call("build done".to_string(), true, None, None, Some("ok".to_string()), 7);
    let expected = "{\n  \"entries\": [\n    {\n      \"id\": 1,\n      \"timestamp\": 7,\n      \"text\": \"build done\",\n      \"success\": true,\n      \"error_message\": null,\n      \"duration\": null,\n      \"response_body\": \"ok\"\n    }\n  ],\n  \"next_id\": 2\n}";
    assert_eq!(serialize_history(&store), expected);
}

fn assert_round_trips(store: &WebhookHistoryData) {
    let text = serialize_history(store);
    let back = parse_history(&text).expect("a serialized store parses back");
    assert_eq!(back.next_id, store.next_id);
    let a = store.get_webhook_history();
    let b = back.get_webhook_history();
    assert_eq!(a.len(), b.len());
    for k in 0..a.len() {
        assert_eq!(a[k].id, b[k].id);
        assert_eq!(a[k].timestamp, b[k].timestamp);
        assert_eq!(a[k].text, b[k].text);
        assert_eq!(a[k].success, b[k].success);
        assert_eq!(a[k].error_message, b[k].error_message);
        assert_eq!(a[k].duration, b[k].duration);
        assert_eq!(a[k].response_body, b[k].response_body);
    }
    assert_eq!(serialize_history(&back), text);
}

#[test]
fn round_trip_empty() {
    assert_round_trips(&WebhookHistoryData::new());
}

#[test]
fn round_trip_full_ring() {
    let mut store = WebhookHistoryData::new();
    store.add_webhook_call(
        "first".to_string(),
        false,
        Some("Status 500 Internal Server Error: boom".to_string()),
        Some("0.5".to_string()),
        Some("boom".to_string()),
        -3,
    );
    store.add_webhook_call("second".to_string(), true, None, None, None, 0);
    store.add_webhook_call(
        "third with \"quotes\" and\nline breaks\tand \\ slashes".to_string(),
        true,
        None,
        Some("12".to_string()),
        Some("body\r\nwith \u{1} control \u{1f} chars".to_string()),
        1700000000,
    );
    store.add_webhook_call("fourth".to_string(), true, None, Some("1e9".to_string()), None, 4);
    store.add_webhook_call("fifth".to_string(), false, Some("x".to_string()), None, None, 5);
    store.add_webhook_call("sixth".to_string(), true, None, None, None, 6);
    assert_eq!(store.get_webhook_history().len(), 5);
    assert_round_trips(&store);
}

#[test]
fn round_trip_extreme_numbers() {
    let mut store = WebhookHistoryData::new();
    store.add_webhook_call("min".to_string(), true, None, None, None, i64::MIN);
    store.add_webhook_call("max".to_string(), true, None, None, None, i64::MAX);
    assert_round_trips(&store);
}

#[test]
fn garbage_does_not_parse() {
    assert!(parse_history("").is_none());
    assert!(parse_history("{}").is_none());
    assert!(parse_history("not json at all").is_none());
    assert!(parse_history("{\n  \"entries\": [],\n  \"next_id\": 1\n} ").is_none());
    assert!(parse_history("{\n  \"entries\": [],\n  \"next_id\": 1").is_none());
}

#[test]
fn tampered_counter_does_not_parse() {
    assert!(parse_history("{\n  \"entries\": [],\n  \"next_id\": 0\n}").is_none());
    assert!(parse_history("{\n  \"entries\": [],\n  \"next_id\": 007\n}").is_none());
}

#[test]
fn json_number_grammar() {
    let ok = ["0", "1.5", "-2", "12", "1e9", "0.25", "-0.5e-3", "2E+8"];
    for t in ok {
        assert!(is_json_number_exec(&str_to_chars(t)), "{} should be a number", t);
    }
    let bad = ["", "01", "--1", "1.", ".5", "1e", "+1", "NaN", "null", "-"];
    for t in bad {
        assert!(!is_json_number_exec(&str_to_chars(t)), "{} should be rejected", t);
    }
}
