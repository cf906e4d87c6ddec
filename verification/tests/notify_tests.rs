use webhook_notify::history::WebhookHistoryData;
use webhook_notify::notify::{
    WebhookConfig, build_webhook_request, conclude_response, conclude_transport_failure,
    prepare_send, record_attempt, truncate_for_display,
};

fn cfg(url: Option<&str>, token: Option<&str>) -> WebhookConfig {
    WebhookConfig {
        webhook_url: url.map(|s| s.to_string()),
        webhook_token: token.map(|s| s.to_string()),
    }
}

#[test]
fn no_url_means_skip() {
    let r = build_webhook_request(&cfg(None, None), "build done", &None, "t");
    assert!(r.is_none());
    let r = prepare_send(&cfg(None, Some("tok")), "build done", &None);
    assert!(r.is_none());
}

#[test]
fn empty_url_means_skip() {
    let r = build_webhook_request(&cfg(Some(""), Some("tok")), "build done", &None, "t");
    assert!(r.is_none());
    let r = prepare_send(&cfg(Some(""), None), "build done", &None);
    assert!(r.is_none());
}

#[test]
fn request_carries_url_body_and_bearer() {
    let c = cfg(Some("https://x/hook"), Some("secret"));
    let r = build_webhook_request(&c, "build done", &None, "2024-05-01T10:00:00+00:00").unwrap();
    assert_eq!(r.url, "https://x/hook");
    assert_eq!(r.authorization.as_deref(), Some("Bearer secret"));
    assert_eq!(
        r.body,
        "{\"text\": \"build done\", \"timestamp\": \"2024-05-01T10:00:00+00:00\", \"duration\": null}"
    );
}

#[test]
fn empty_token_sends_no_authorization() {
    let c = cfg(Some("https://x/hook"), Some(""));
    let r = build_webhook_request(&c, "x", &None, "t").unwrap();
    assert!(r.authorization.is_none());
    let c = cfg(Some("https://x/hook"), None);
    let r = build_webhook_request(&c, "x", &None, "t").unwrap();
    assert!(r.authorization.is_none());
}

#[test]
fn duration_is_embedded_as_number() {
    let c = cfg(Some("https://x/hook"), None);
    let r = build_webhook_request(&c, "x", &Some("1.5".to_string()), "t").unwrap();
    assert_eq!(r.body, "{\"text\": \"x\", \"timestamp\": \"t\", \"duration\": 1.5}");
}

#[test]
fn payload_escapes_text() {
    let c = cfg(Some("https://x/hook"), None);
    let r = build_webhook_request(&c, "say \"hi\"\nback\\slash", &None, "t").unwrap();
    assert_eq!(
        r.body,
        "{\"text\": \"say \\\"hi\\\"\\nback\\\\slash\", \"timestamp\": \"t\", \"duration\": null}"
    );
}

#[test]
fn truncation_law() {
    let short = "x".repeat(500);
    assert_eq!(truncate_for_display(&short), short);
    let long = "x".repeat(600);
    let shown = truncate_for_display(&long);
    assert_eq!(shown.chars().count(), 503);
    assert_eq!(shown, format!("{}...", "x".repeat(500)));
    let edge = "x".repeat(501);
    let shown = truncate_for_display(&edge);
    assert_eq!(shown, format!("{}...", "x".repeat(500)));
}

#[test]
fn success_response_keeps_body() {
    let o = conclude_response(200, "200 OK", Some("ok".to_string()));
    assert!(o.success);
    assert!(o.error_message.is_none());
    assert_eq!(o.response_body.as_deref(), Some("ok"));
}

#[test]
fn failure_response_truncates_message_but_not_history() {
    let body = "x".repeat(600);
    let o = conclude_response(500, "500 Internal Server Error", Some(body.clone()));
    assert!(!o.success);
    let expected = format!("Status 500 Internal Server Error: {}...", "x".repeat(500));
    assert_eq!(o.error_message.as_deref(), Some(expected.as_str()));
    assert_eq!(o.response_body.as_deref(), Some(body.as_str()));
    assert_eq!(o.response_body.unwrap().chars().count(), 600);
}

#[test]
fn failure_without_body_names_the_status() {
    let o = conclude_response(404, "404 Not Found", None);
    assert_eq!(
        o.error_message.as_deref(),
        Some("Webhook request failed with status 404 Not Found")
    );
    let o = conclude_response(404, "404 Not Found", Some(String::new()));
    assert_eq!(
        o.error_message.as_deref(),
        Some("Webhook request failed with status 404 Not Found")
    );
}

#[test]
fn transport_failure_message() {
    let o = conclude_transport_failure("error sending request: connection refused");
    assert!(!o.success);
    assert!(o.response_body.is_none());
    let msg = o.error_message.unwrap();
    assert!(msg.contains("Webhook request failed:"));
    assert_eq!(
        msg,
        "Webhook request failed: error sending request: connection refused"
    );
}

#[test]
fn statuses_on_the_2xx_edge() {
    assert!(conclude_response(200, "200 OK", None).success);
    assert!(conclude_response(299, "299", None).success);
    assert!(!conclude_response(199, "199", None).success);
    assert!(!conclude_response(300, "300 Multiple Choices", None).success);
}

#[test]
fn record_attempt_stamps_and_assigns() {
    let mut store = WebhookHistoryData::new();
    let id = record_attempt(
        &mut store,
        "build done".to_string(),
        true,
        None,
        None,
        Some("ok".to_string()),
    );
    assert_eq!(id, 1);
    let entries = store.get_webhook_history();
    assert_eq!(entries.len(), 1);
    assert!(entries[0].success);
    assert_eq!(entries[0].response_body.as_deref(), Some("ok"));
    assert!(entries[0].timestamp > 0);
}
