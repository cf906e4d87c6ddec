//! The notifier's decisions: whether to send at all, what request to send,
//! and what a delivery attempt's response means for the caller and for the
//! history. The network call itself is the embedding application's; this
//! module fixes everything around it.

use vstd::prelude::*;

use crate::history::{WebhookHistoryData, spec_add, view_opt_string};
use crate::jsontext::{
    chars_to_string,
    esc_string,
    is_json_number,
    push_escaped,
    push_str_chars,
    str_to_chars,
};

verus! {

/// The webhook settings as the settings collaborator hands them over.
pub struct WebhookConfig {
    pub webhook_url: Option<String>,
    pub webhook_token: Option<String>,
}

/// An endpoint is configured only by a present, non-empty URL.
pub open spec fn configured(url: Option<Seq<char>>) -> bool {
    match url {
        Option::Some(u) => u.len() > 0,
        Option::None => false,
    }
}

/// The outbound JSON body: text and timestamp as JSON strings, the duration
/// as a JSON number or null.
pub open spec fn payload_json(
    text: Seq<char>,
    timestamp: Seq<char>,
    duration: Option<Seq<char>>,
) -> Seq<char> {
    "{\"text\": \""@ + esc_string(text) + "\", \"timestamp\": \""@ + esc_string(timestamp)
        + "\", \"duration\": "@ + (match duration {
        Option::Some(d) => d,
        Option::None => "null"@,
    }) + "}"@
}

/// Everything the application needs to perform one HTTP POST.
pub struct WebhookRequest {
    pub url: String,
    /// Full value of the `Authorization` header, when one is to be sent.
    pub authorization: Option<String>,
    /// The JSON body.
    pub body: String,
    /// The RFC 3339 timestamp embedded in the body.
    pub timestamp: String,
}

/// What the `Authorization` header must hold: the bearer scheme with the
/// configured token, and no header at all without a non-empty token.
pub open spec fn spec_authorization(token: Option<Seq<char>>) -> Option<Seq<char>> {
    match token {
        Option::Some(t) => if t.len() > 0 {
            Option::Some("Bearer "@ + t)
        } else {
            Option::None
        },
        Option::None => Option::None,
    }
}

/// Builds the request for one delivery attempt, or decides to skip: with no
/// endpoint configured there is nothing to send and nothing to record.
pub fn build_webhook_request(
    cfg: &WebhookConfig,
    text: &str,
    duration: &Option<String>,
    timestamp: &str,
) -> (r: Option<WebhookRequest>)
    requires
        match duration {
            Option::Some(d) => is_json_number(d@),
            Option::None => true,
        },
    ensures
        r is Some <==> configured(view_opt_string(cfg.webhook_url)),
        match r {
            Option::Some(req) => {
                &&& Option::Some(req.url@) == view_opt_string(cfg.webhook_url)
                &&& view_opt_string(req.authorization) == spec_authorization(
                    view_opt_string(cfg.webhook_token),
                )
                &&& req.body@ == payload_json(text@, timestamp@, view_opt_string(*duration))
                &&& req.timestamp@ == timestamp@
            },
            Option::None => true,
        },
{
    let url: String = match &cfg.webhook_url {
        Option::Some(u) => {
            if u.as_str().unicode_len() == 0 {
                return Option::None;
            }
            u.clone()
        },
        Option::None => {
            return Option::None;
        },
    };
    let authorization: Option<String> = match &cfg.webhook_token {
        Option::Some(t) => {
            if t.as_str().unicode_len() > 0 {
                let mut h = String::new();
                h.append("Bearer ");
                h.append(t.as_str());
                proof {
                    assert(h@ =~= "Bearer "@ + t@);
                }
                Option::Some(h)
            } else {
                Option::None
            }
        },
        Option::None => Option::None,
    };
    let mut out: Vec<char> = Vec::new();
    push_str_chars(&mut out, "{\"text\": \"");
    let text_chars = str_to_chars(text);
    push_escaped(&mut out, &text_chars);
    push_str_chars(&mut out, "\", \"timestamp\": \"");
    let ts_chars = str_to_chars(timestamp);
    push_escaped(&mut out, &ts_chars);
    push_str_chars(&mut out, "\", \"duration\": ");
    match duration {
        Option::Some(d) => push_str_chars(&mut out, d.as_str()),
        Option::None => push_str_chars(&mut out, "null"),
    }
    push_str_chars(&mut out, "}");
    proof {
        assert(out@ =~= payload_json(text@, timestamp@, view_opt_string(*duration)));
    }
    let body = chars_to_string(&out);
    let ts = timestamp.to_owned();
    Option::Some(WebhookRequest { url, authorization, body, timestamp: ts })
}

/// Relies on chrono's `Utc::now`: the current wall-clock instant, as whole
/// seconds since the Unix epoch and as its RFC 3339 rendering. The value
/// depends on the clock, so nothing is stated about it.
#[verifier::external_body]
fn now_utc() -> (r: (i64, String)) {
    let now = chrono::Utc::now();
    (now.timestamp(), now.to_rfc3339())
}

/// Builds the request for one attempt, stamped with the current time, or
/// decides to skip because no endpoint is configured.
pub fn prepare_send(cfg: &WebhookConfig, text: &str, duration: &Option<String>) -> (r: Option<
    WebhookRequest,
>)
    requires
        match duration {
            Option::Some(d) => is_json_number(d@),
            Option::None => true,
        },
    ensures
        r is Some <==> configured(view_opt_string(cfg.webhook_url)),
        match r {
            Option::Some(req) => {
                &&& Option::Some(req.url@) == view_opt_string(cfg.webhook_url)
                &&& view_opt_string(req.authorization) == spec_authorization(
                    view_opt_string(cfg.webhook_token),
                )
                &&& req.body@ == payload_json(text@, req.timestamp@, view_opt_string(*duration))
            },
            Option::None => true,
        },
{
    let (_, rfc3339) = now_utc();
    build_webhook_request(cfg, text, duration, rfc3339.as_str())
}

/// Records one concluded attempt in the history, stamped with the current
/// wall-clock time, and hands back the assigned id.
pub fn record_attempt(
    store: &mut WebhookHistoryData,
    text: String,
    success: bool,
    error_message: Option<String>,
    duration: Option<String>,
    response_body: Option<String>,
) -> (id: u64)
    requires
        old(store)@.inv(),
        old(store)@.next_id < u64::MAX,
        match duration {
            Option::Some(d) => is_json_number(d@),
            Option::None => true,
        },
    ensures
        final(store)@.inv(),
        final(store)@.entries.len() >= 1,
        final(store)@ == spec_add(
            old(store)@,
            text@,
            success,
            view_opt_string(error_message),
            view_opt_string(duration),
            view_opt_string(response_body),
            final(store)@.entries[0].timestamp,
        ),
        id == old(store)@.next_id,
{
    let (ts, _) = now_utc();
    store.add_webhook_call(text, success, error_message, duration, response_body, ts)
}

// ===== interpreting the outcome of the HTTP call =====

/// Number of characters of a failure body shown in the error message.
pub const BODY_DISPLAY_LIMIT: usize = 500;

/// A failure body as it is embedded in the error message: cut to the first
/// `BODY_DISPLAY_LIMIT` characters, with a trailing ellipsis when cut.
pub open spec fn truncated_body(body: Seq<char>) -> Seq<char> {
    if body.len() <= BODY_DISPLAY_LIMIT as nat {
        body
    } else {
        body.take(BODY_DISPLAY_LIMIT as int) + seq!['.', '.', '.']
    }
}

/// Truncation law: the embedded body keeps `min(L, 500)` characters of a
/// body of length `L`, and carries the `...` marker exactly when it was cut.
pub proof fn lemma_truncation_law(body: Seq<char>)
    ensures
        body.len() <= BODY_DISPLAY_LIMIT as nat ==> truncated_body(body) == body,
        body.len() > BODY_DISPLAY_LIMIT as nat ==> {
            &&& truncated_body(body).len() == BODY_DISPLAY_LIMIT as nat + 3
            &&& truncated_body(body).take(BODY_DISPLAY_LIMIT as int) == body.take(
                BODY_DISPLAY_LIMIT as int,
            )
            &&& truncated_body(body).skip(BODY_DISPLAY_LIMIT as int) == seq!['.', '.', '.']
        },
{
    if body.len() > BODY_DISPLAY_LIMIT as nat {
        assert(truncated_body(body).take(BODY_DISPLAY_LIMIT as int) =~= body.take(
            BODY_DISPLAY_LIMIT as int,
        ));
        assert(truncated_body(body).skip(BODY_DISPLAY_LIMIT as int) =~= seq!['.', '.', '.']);
    }
}

pub fn truncate_for_display(body: &str) -> (r: String)
    ensures
        r@ == truncated_body(body@),
{
    let n = body.unicode_len();
    if n <= BODY_DISPLAY_LIMIT {
        body.to_owned()
    } else {
        let head = body.substring_char(0, BODY_DISPLAY_LIMIT);
        let mut r = head.to_owned();
        r.append("...");
        proof {
            reveal_strlit("...");
            assert("..."@ =~= seq!['.', '.', '.']);
            assert(r@ =~= truncated_body(body@));
        }
        r
    }
}

/// The error message for a response with a failing status: with a readable
/// non-empty body, the status display and the truncated body; otherwise the
/// status display alone.
pub open spec fn failure_message(status_display: Seq<char>, body: Option<Seq<char>>) -> Seq<char> {
    match body {
        Option::Some(b) => if b.len() > 0 {
            "Status "@ + status_display + ": "@ + truncated_body(b)
        } else {
            "Webhook request failed with status "@ + status_display
        },
        Option::None => "Webhook request failed with status "@ + status_display,
    }
}

/// The error message when no response was received at all.
pub open spec fn transport_failure_message(error_display: Seq<char>) -> Seq<char> {
    "Webhook request failed: "@ + error_display
}

/// What one concluded delivery attempt means: the caller's result, and the
/// fields of the history entry that records it.
pub struct DeliveryOutcome {
    pub success: bool,
    /// Present exactly on failure; also the payload of the error signal.
    pub error_message: Option<String>,
    /// The response body as read, never truncated.
    pub response_body: Option<String>,
}

/// Interprets a received HTTP response: a 2xx status is success, anything
/// else yields the failure message; the stored body is kept whole either
/// way.
pub fn conclude_response(status: u16, status_display: &str, body: Option<String>) -> (r:
    DeliveryOutcome)
    ensures
        r.success == (200 <= status < 300),
        r.response_body == body,
        r.success ==> r.error_message is None,
        !r.success ==> view_opt_string(r.error_message) == Option::Some(
            failure_message(status_display@, view_opt_string(body)),
        ),
{
    let success = 200 <= status && status < 300;
    if success {
        DeliveryOutcome { success: true, error_message: Option::None, response_body: body }
    } else {
        let has_body = match &body {
            Option::Some(b) => b.as_str().unicode_len() > 0,
            Option::None => false,
        };
        let msg: String = if has_body {
            let b: &String = match &body {
                Option::Some(b) => b,
                Option::None => unreached(),
            };
            let shown = truncate_for_display(b.as_str());
            let mut m = String::new();
            m.append("Status ");
            m.append(status_display);
            m.append(": ");
            m.append(shown.as_str());
            proof {
                assert(m@ =~= failure_message(status_display@, view_opt_string(body)));
            }
            m
        } else {
            let mut m = String::new();
            m.append("Webhook request failed with status ");
            m.append(status_display);
            proof {
                assert(m@ =~= failure_message(status_display@, view_opt_string(body)));
            }
            m
        };
        DeliveryOutcome { success: false, error_message: Option::Some(msg), response_body: body }
    }
}

/// Interprets a transport failure (no response received): always a failed
/// attempt, with no body to store.
pub fn conclude_transport_failure(error_display: &str) -> (r: DeliveryOutcome)
    ensures
        r.success == false,
        view_opt_string(r.error_message) == Option::Some(
            transport_failure_message(error_display@),
        ),
        r.response_body is None,
{
    let mut m = String::new();
    m.append("Webhook request failed: ");
    m.append(error_display);
    proof {
        assert(m@ =~= transport_failure_message(error_display@));
    }
    DeliveryOutcome {
        success: false,
        error_message: Option::Some(m),
        response_body: Option::None,
    }
}

} // verus!
