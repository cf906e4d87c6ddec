//! The delivery history: a newest-first ring of the last few webhook
//! attempts, with strictly increasing ids assigned by the store.

use vstd::prelude::*;

use crate::MAX_WEBHOOK_HISTORY_ENTRIES;
use crate::jsontext::is_json_number;

verus! {

/// One recorded delivery attempt.
///
/// `duration` carries the number exactly as it will appear in JSON text:
/// the store holds the token, and the caller renders its measurement into
/// it before recording.
pub struct WebhookHistoryEntry {
    pub id: u64,
    pub timestamp: i64,
    pub text: String,
    pub success: bool,
    pub error_message: Option<String>,
    pub duration: Option<String>,
    pub response_body: Option<String>,
}

pub ghost struct EntryView {
    pub id: u64,
    pub timestamp: i64,
    pub text: Seq<char>,
    pub success: bool,
    pub error_message: Option<Seq<char>>,
    pub duration: Option<Seq<char>>,
    pub response_body: Option<Seq<char>>,
}

pub open spec fn view_opt_string(o: Option<String>) -> Option<Seq<char>> {
    match o {
        Option::Some(s) => Option::Some(s@),
        Option::None => Option::None,
    }
}

impl View for WebhookHistoryEntry {
    type V = EntryView;

    open spec fn view(&self) -> EntryView {
        EntryView {
            id: self.id,
            timestamp: self.timestamp,
            text: self.text@,
            success: self.success,
            error_message: view_opt_string(self.error_message),
            duration: view_opt_string(self.duration),
            response_body: view_opt_string(self.response_body),
        }
    }
}

impl DeepView for WebhookHistoryEntry {
    type V = EntryView;

    open spec fn deep_view(&self) -> EntryView {
        self.view()
    }
}

fn clone_opt_string(o: &Option<String>) -> (r: Option<String>)
    ensures
        r == *o,
{
    match o {
        Option::Some(s) => Option::Some(s.clone()),
        Option::None => Option::None,
    }
}

impl Clone for WebhookHistoryEntry {
    fn clone(&self) -> (r: Self)
        ensures
            r == *self,
    {
        WebhookHistoryEntry {
            id: self.id,
            timestamp: self.timestamp,
            text: self.text.clone(),
            success: self.success,
            error_message: clone_opt_string(&self.error_message),
            duration: clone_opt_string(&self.duration),
            response_body: clone_opt_string(&self.response_body),
        }
    }
}

/// The whole stored structure: entries newest first plus the id counter.
pub struct WebhookHistoryData {
    pub entries: Vec<WebhookHistoryEntry>,
    pub next_id: u64,
}

pub ghost struct DataView {
    pub entries: Seq<EntryView>,
    pub next_id: u64,
}

impl View for WebhookHistoryData {
    type V = DataView;

    open spec fn view(&self) -> DataView {
        DataView { entries: self.entries.deep_view(), next_id: self.next_id }
    }
}

impl EntryView {
    /// A duration, when present, must be a JSON number token, so that the
    /// stored structure always has a JSON rendering.
    pub open spec fn wf(self) -> bool {
        match self.duration {
            Option::Some(d) => is_json_number(d),
            Option::None => true,
        }
    }
}

impl DataView {
    /// Store invariant: the ring is capped, ids strictly decrease from the
    /// newest entry down, every id was assigned before `next_id`, and every
    /// entry is well formed.
    pub open spec fn inv(self) -> bool {
        &&& self.entries.len() <= MAX_WEBHOOK_HISTORY_ENTRIES as nat
        &&& self.next_id >= 1
        &&& forall|i: int|
            0 <= i < self.entries.len() ==> (#[trigger] self.entries[i]).id < self.next_id
        &&& forall|i: int, j: int|
            0 <= i < j < self.entries.len() ==> (#[trigger] self.entries[i]).id > (
            #[trigger] self.entries[j]).id
        &&& forall|i: int| 0 <= i < self.entries.len() ==> (#[trigger] self.entries[i]).wf()
    }
}

/// The entry that recording with these fields adds, before the state `d`.
pub open spec fn spec_new_entry(
    d: DataView,
    text: Seq<char>,
    success: bool,
    error_message: Option<Seq<char>>,
    duration: Option<Seq<char>>,
    response_body: Option<Seq<char>>,
    timestamp: i64,
) -> EntryView {
    EntryView {
        id: d.next_id,
        timestamp: timestamp,
        text: text,
        success: success,
        error_message: error_message,
        duration: duration,
        response_body: response_body,
    }
}

/// State after recording one attempt: the new entry goes to the front, the
/// ring is cut back to its cap, and the id counter moves on.
pub open spec fn spec_add(
    d: DataView,
    text: Seq<char>,
    success: bool,
    error_message: Option<Seq<char>>,
    duration: Option<Seq<char>>,
    response_body: Option<Seq<char>>,
    timestamp: i64,
) -> DataView {
    let e = spec_new_entry(d, text, success, error_message, duration, response_body, timestamp);
    let all = seq![e] + d.entries;
    let kept = if all.len() <= MAX_WEBHOOK_HISTORY_ENTRIES as nat {
        all
    } else {
        all.take(MAX_WEBHOOK_HISTORY_ENTRIES as int)
    };
    DataView { entries: kept, next_id: (d.next_id + 1) as u64 }
}

/// State after clearing: no entries, the id counter untouched.
pub open spec fn spec_clear(d: DataView) -> DataView {
    DataView { entries: Seq::<EntryView>::empty(), next_id: d.next_id }
}

impl Default for WebhookHistoryData {
    fn default() -> (r: Self)
        ensures
            r@.entries.len() == 0,
            r@.next_id == 1,
            r@.inv(),
    {
        WebhookHistoryData::new()
    }
}

impl WebhookHistoryData {
    /// The state a store starts from, and the state an absent history file
    /// denotes: nothing recorded, ids to be handed out from 1.
    pub fn new() -> (r: Self)
        ensures
            r@.entries.len() == 0,
            r@.next_id == 1,
            r@.inv(),
    {
        let r = WebhookHistoryData { entries: Vec::new(), next_id: 1 };
        proof {
            assert(r@.entries =~= Seq::<EntryView>::empty());
        }
        r
    }

    /// Records one delivery attempt at the front of the ring and hands back
    /// the id it was assigned.
    pub fn add_webhook_call(
        &mut self,
        text: String,
        success: bool,
        error_message: Option<String>,
        duration: Option<String>,
        response_body: Option<String>,
        timestamp: i64,
    ) -> (id: u64)
        requires
            old(self)@.inv(),
            old(self)@.next_id < u64::MAX,
            match duration {
                Option::Some(d) => is_json_number(d@),
                Option::None => true,
            },
        ensures
            final(self)@ == spec_add(
                old(self)@,
                text@,
                success,
                view_opt_string(error_message),
                view_opt_string(duration),
                view_opt_string(response_body),
                timestamp,
            ),
            final(self)@.inv(),
            id == old(self)@.next_id,
    {
        let ghost d0 = self@;
        let id = self.next_id;
        let entry = WebhookHistoryEntry {
            id,
            timestamp,
            text,
            success,
            error_message,
            duration,
            response_body,
        };
        let ghost ev = entry@;
        self.entries.insert(0, entry);
        self.next_id = self.next_id + 1;
        if self.entries.len() > MAX_WEBHOOK_HISTORY_ENTRIES {
            self.entries.truncate(MAX_WEBHOOK_HISTORY_ENTRIES);
        }
        proof {
            let target = spec_add(
                d0,
                ev.text,
                success,
                ev.error_message,
                ev.duration,
                ev.response_body,
                timestamp,
            );
            assert(self@.entries =~= target.entries);
            assert(self@ == target);
            assert forall|i: int| 0 <= i < self@.entries.len() implies (
            #[trigger] self@.entries[i]).id < self@.next_id by {
                if i > 0 {
                    assert(self@.entries[i] == d0.entries[i - 1]);
                }
            }
            assert forall|i: int, j: int| 0 <= i < j < self@.entries.len() implies (
            #[trigger] self@.entries[i]).id > (#[trigger] self@.entries[j]).id by {
                if i > 0 {
                    assert(self@.entries[i] == d0.entries[i - 1]);
                }
                assert(self@.entries[j] == d0.entries[j - 1]);
            }
        }
        id
    }

    /// The entries as observers see them: newest first, a copy of the ring.
    pub fn get_webhook_history(&self) -> (r: Vec<WebhookHistoryEntry>)
        ensures
            r.deep_view() == self@.entries,
    {
        let mut r: Vec<WebhookHistoryEntry> = Vec::new();
        let mut i: usize = 0;
        while i < self.entries.len()
            invariant
                i <= self.entries.len(),
                r@.len() == i,
                forall|k: int| 0 <= k < i ==> (#[trigger] r@[k])@ == self@.entries[k],
            decreases self.entries.len() - i,
        {
            let e = self.entries[i].clone();
            proof {
                assert(e == self.entries@[i as int]);
                assert(e@ == self@.entries[i as int]);
            }
            r.push(e);
            i = i + 1;
        }
        proof {
            assert forall|k: int| 0 <= k < r.deep_view().len() implies r.deep_view()[k]
                == self@.entries[k] by {
                assert(r@[k]@ == self@.entries[k]);
            }
            assert(r.deep_view() =~= self@.entries);
        }
        r
    }

    /// Empties the ring; the id counter keeps running so ids are never
    /// reused within the process.
    pub fn clear_webhook_history(&mut self)
        requires
            old(self)@.inv(),
        ensures
            final(self)@ == spec_clear(old(self)@),
            final(self)@.inv(),
    {
        self.entries.clear();
        proof {
            assert(self@.entries =~= Seq::<EntryView>::empty());
            assert(self@ == spec_clear(old(self)@));
        }
    }
}

/// Ring law: recording grows the ring by one up to its cap of
/// `MAX_WEBHOOK_HISTORY_ENTRIES`, the new entry stands first, and the
/// survivors are the previous entries in order with only the oldest dropped.
pub proof fn lemma_ring_capacity(
    d: DataView,
    text: Seq<char>,
    success: bool,
    error_message: Option<Seq<char>>,
    duration: Option<Seq<char>>,
    response_body: Option<Seq<char>>,
    timestamp: i64,
)
    requires
        d.inv(),
    ensures
        ({
            let d2 = spec_add(d, text, success, error_message, duration, response_body, timestamp);
            &&& d2.entries.len() == if d.entries.len() < MAX_WEBHOOK_HISTORY_ENTRIES as nat {
                d.entries.len() + 1
            } else {
                MAX_WEBHOOK_HISTORY_ENTRIES as nat
            }
            &&& d2.entries[0] == spec_new_entry(
                d,
                text,
                success,
                error_message,
                duration,
                response_body,
                timestamp,
            )
            &&& forall|i: int| 1 <= i < d2.entries.len() ==> d2.entries[i] == d.entries[i - 1]
        }),
{
    let d2 = spec_add(d, text, success, error_message, duration, response_body, timestamp);
    let e = spec_new_entry(d, text, success, error_message, duration, response_body, timestamp);
    let all = seq![e] + d.entries;
    assert(all[0] == e);
    assert forall|i: int| 1 <= i < d2.entries.len() implies d2.entries[i] == d.entries[i - 1] by {
        assert(all[i] == d.entries[i - 1]);
    }
}

/// Id law: within one process lifetime ids are handed out strictly
/// increasingly — recording twice in a row assigns the later attempt a
/// strictly greater id — and the ids held in any well-formed store are
/// pairwise distinct.
pub proof fn lemma_id_monotonic(
    d: DataView,
    text1: Seq<char>,
    success1: bool,
    error_message1: Option<Seq<char>>,
    duration1: Option<Seq<char>>,
    response_body1: Option<Seq<char>>,
    timestamp1: i64,
    text2: Seq<char>,
    success2: bool,
    error_message2: Option<Seq<char>>,
    duration2: Option<Seq<char>>,
    response_body2: Option<Seq<char>>,
    timestamp2: i64,
)
    requires
        d.inv(),
        d.next_id < u64::MAX,
    ensures
        ({
            let e1 = spec_new_entry(
                d,
                text1,
                success1,
                error_message1,
                duration1,
                response_body1,
                timestamp1,
            );
            let d1 = spec_add(
                d,
                text1,
                success1,
                error_message1,
                duration1,
                response_body1,
                timestamp1,
            );
            let e2 = spec_new_entry(
                d1,
                text2,
                success2,
                error_message2,
                duration2,
                response_body2,
                timestamp2,
            );
            e2.id > e1.id
        }),
{
}

/// Distinctness of stored ids, a consequence of the store invariant.
pub proof fn lemma_ids_unique(d: DataView)
    requires
        d.inv(),
    ensures
        forall|i: int, j: int|
            0 <= i < d.entries.len() && 0 <= j < d.entries.len() && i != j ==> (
            #[trigger] d.entries[i]).id != (#[trigger] d.entries[j]).id,
{
}

/// Clearing is idempotent: it leaves no entries, does not move the id
/// counter, and clearing again changes nothing.
pub proof fn lemma_clear_idempotent(d: DataView)
    ensures
        spec_clear(d).entries.len() == 0,
        spec_clear(d).next_id == d.next_id,
        spec_clear(spec_clear(d)) == spec_clear(d),
{
}

} // verus!
