use webhook_notify::history::WebhookHistoryData;

fn add_simple(store: &mut WebhookHistoryData, text: &str, ts: i64) -> u64 {
    store.add_webhook_call(text.to_string(), true, None, None, None, ts)
}

#[test]
fn new_store_is_empty() {
    let store = WebhookHistoryData::new();
    assert_eq!(store.get_webhook_history().len(), 0);
    assert_eq!(store.next_id, 1);
}

#[test]
fn ring_keeps_only_five_newest() {
    let mut store = WebhookHistoryData::new();
    for k in 0..5 {
        add_simple(&mut store, &format!("event {}", k), 100 + k);
    }
    assert_eq!(store.get_webhook_history().len(), 5);
    add_simple(&mut store, "event 5", 105);
    let entries = store.get_webhook_history();
    assert_eq!(entries.len(), 5);
    // Newest first: the sixth insert survives, the very first is gone.
    assert_eq!(entries[0].text, "event 5");
    assert_eq!(entries[4].text, "event 1");
    for k in 0..5 {
        assert_eq!(entries[k].id, (6 - k) as u64);
    }
}

#[test]
fn ids_strictly_increase() {
    let mut store = WebhookHistoryData::new();
    let mut last = 0u64;
    for k in 0..8 {
        let id = add_simple(&mut store, "x", k);
        assert!(id > last);
        last = id;
    }
    assert_eq!(last, 8);
}

#[test]
fn clear_is_idempotent_and_keeps_counter() {
    let mut store = WebhookHistoryData::new();
    add_simple(&mut store, "a", 1);
    add_simple(&mut store, "b", 2);
    store.clear_webhook_history();
    assert_eq!(store.get_webhook_history().len(), 0);
    store.clear_webhook_history();
    assert_eq!(store.get_webhook_history().len(), 0);
    // The counter kept running: the next id is not reused.
    let id = add_simple(&mut store, "c", 3);
    assert_eq!(id, 3);
}

#[test]
fn entry_fields_are_kept() {
    let mut store = WebhookHistoryData::new();
    let id = store.add_webhook_call(
        "deploy finished".to_string(),
        false,
        Some("Status 500 Internal Server Error: boom".to_string()),
        Some("2.25".to_string()),
        Some("boom".to_string()),
        1700000000,
    );
    assert_eq!(id, 1);
    let entries = store.get_webhook_history();
    assert_eq!(entries.len(), 1);
    assert_eq!(entries[0].id, 1);
    assert_eq!(entries[0].timestamp, 1700000000);
    assert_eq!(entries[0].text, "deploy finished");
    assert!(!entries[0].success);
    assert_eq!(
        entries[0].error_message.as_deref(),
        Some("Status 500 Internal Server Error: boom")
    );
    assert_eq!(entries[0].duration.as_deref(), Some("2.25"));
    assert_eq!(entries[0].response_body.as_deref(), Some("boom"));
}
