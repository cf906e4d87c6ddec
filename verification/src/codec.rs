//! The history file format: a pretty-printed JSON object holding the
//! entries (newest first) and the id counter. Both the writer and the
//! reader live here; the reader accepts exactly what the writer emits, so
//! that a saved store loads back unchanged.
//!
//! The serialized entry is specified as a cascade of `ser_entry_from_*`
//! functions, each naming the text from one field on: the reader's proof
//! peels the text apart one step of the cascade at a time.

use vstd::prelude::*;

use crate::MAX_WEBHOOK_HISTORY_ENTRIES;
use crate::history::{DataView, EntryView, WebhookHistoryData, WebhookHistoryEntry, view_opt_string};
use crate::jsontext::{
    chars_to_string,
    dec_digits,
    digit_val,
    digits_end,
    digits_end_exec,
    esc_string,
    is_dec_digit,
    is_json_number,
    lemma_dec_digits,
    lemma_dec_digits_of_val,
    lemma_digits_end,
    lemma_digits_end_is,
    ctrl_hex,
    decode_ctrl_hex,
    esc_char,
    is_other_ctrl,
    is_other_ctrl_exec,
    lemma_esc_string_push,
    lemma_seq_val_append,
    push_escaped,
    push_i64_digits,
    push_str_chars,
    push_u64_digits,
    seq_val,
    ser_i64,
    str_to_chars,
};

verus! {

// ===== what the file looks like =====

/// A JSON string literal: quote, escaped text, quote.
pub open spec fn ser_jstr(t: Seq<char>) -> Seq<char> {
    seq!['"'] + esc_string(t) + seq!['"']
}

/// An optional string field: `null` or a JSON string literal.
pub open spec fn ser_opt_jstr(o: Option<Seq<char>>) -> Seq<char> {
    match o {
        Option::Some(t) => ser_jstr(t),
        Option::None => "null"@,
    }
}

pub open spec fn ser_bool(b: bool) -> Seq<char> {
    if b {
        "true"@
    } else {
        "false"@
    }
}

/// An optional number field: `null` or the number token itself.
pub open spec fn ser_opt_num(o: Option<Seq<char>>) -> Seq<char> {
    match o {
        Option::Some(d) => d,
        Option::None => "null"@,
    }
}

pub open spec fn ser_entry_from_body_val(e: EntryView) -> Seq<char> {
    ser_opt_jstr(e.response_body) + "\n    }"@
}

pub open spec fn ser_entry_from_body(e: EntryView) -> Seq<char> {
    ",\n      \"response_body\": "@ + ser_entry_from_body_val(e)
}

pub open spec fn ser_entry_from_dur_val(e: EntryView) -> Seq<char> {
    ser_opt_num(e.duration) + ser_entry_from_body(e)
}

pub open spec fn ser_entry_from_dur(e: EntryView) -> Seq<char> {
    ",\n      \"duration\": "@ + ser_entry_from_dur_val(e)
}

pub open spec fn ser_entry_from_err_val(e: EntryView) -> Seq<char> {
    ser_opt_jstr(e.error_message) + ser_entry_from_dur(e)
}

pub open spec fn ser_entry_from_err(e: EntryView) -> Seq<char> {
    ",\n      \"error_message\": "@ + ser_entry_from_err_val(e)
}

pub open spec fn ser_entry_from_success_val(e: EntryView) -> Seq<char> {
    ser_bool(e.success) + ser_entry_from_err(e)
}

pub open spec fn ser_entry_from_success(e: EntryView) -> Seq<char> {
    ",\n      \"success\": "@ + ser_entry_from_success_val(e)
}

pub open spec fn ser_entry_from_text_val(e: EntryView) -> Seq<char> {
    ser_jstr(e.text) + ser_entry_from_success(e)
}

pub open spec fn ser_entry_from_text(e: EntryView) -> Seq<char> {
    ",\n      \"text\": "@ + ser_entry_from_text_val(e)
}

pub open spec fn ser_entry_from_ts_val(e: EntryView) -> Seq<char> {
    ser_i64(e.timestamp) + ser_entry_from_text(e)
}

pub open spec fn ser_entry_from_ts(e: EntryView) -> Seq<char> {
    ",\n      \"timestamp\": "@ + ser_entry_from_ts_val(e)
}

pub open spec fn ser_entry_from_id(e: EntryView) -> Seq<char> {
    dec_digits(e.id as nat) + ser_entry_from_ts(e)
}

/// One serialized entry, indented as a member of the entries array.
pub open spec fn ser_entry(e: EntryView) -> Seq<char> {
    "    {\n      \"id\": "@ + ser_entry_from_id(e)
}

/// The serialized entry list without its surrounding brackets: entries
/// separated by a comma and a line break.
pub open spec fn ser_entries(es: Seq<EntryView>) -> Seq<char>
    decreases es.len(),
{
    if es.len() == 0 {
        Seq::<char>::empty()
    } else if es.len() == 1 {
        ser_entry(es[0])
    } else {
        ser_entry(es[0]) + ",\n"@ + ser_entries(es.drop_first())
    }
}

/// The whole file: the entries array, then the id counter.
pub open spec fn ser_history(d: DataView) -> Seq<char> {
    if d.entries.len() == 0 {
        "{\n  \"entries\": ["@ + ("],\n  \"next_id\": "@ + (dec_digits(d.next_id as nat)
            + "\n}"@))
    } else {
        "{\n  \"entries\": ["@ + ("\n"@ + (ser_entries(d.entries) + ("\n  ],\n  \"next_id\": "@
            + (dec_digits(d.next_id as nat) + "\n}"@))))
    }
}

// ===== the writer =====

fn push_jstr(out: &mut Vec<char>, s: &str)
    ensures
        final(out)@ == old(out)@ + ser_jstr(s@),
{
    out.push('"');
    let chars = str_to_chars(s);
    push_escaped(out, &chars);
    out.push('"');
    proof {
        assert(final(out)@ =~= old(out)@ + ser_jstr(s@));
    }
}

fn push_opt_jstr(out: &mut Vec<char>, o: &Option<String>)
    ensures
        final(out)@ == old(out)@ + ser_opt_jstr(view_opt_string(*o)),
{
    match o {
        Option::Some(s) => push_jstr(out, s.as_str()),
        Option::None => push_str_chars(out, "null"),
    }
}

fn push_bool(out: &mut Vec<char>, b: bool)
    ensures
        final(out)@ == old(out)@ + ser_bool(b),
{
    if b {
        push_str_chars(out, "true");
    } else {
        push_str_chars(out, "false");
    }
}

fn push_opt_num(out: &mut Vec<char>, o: &Option<String>)
    ensures
        final(out)@ == old(out)@ + ser_opt_num(view_opt_string(*o)),
{
    match o {
        Option::Some(s) => push_str_chars(out, s.as_str()),
        Option::None => push_str_chars(out, "null"),
    }
}

#[verifier::rlimit(100)]
fn push_entry(out: &mut Vec<char>, e: &WebhookHistoryEntry)
    ensures
        final(out)@ == old(out)@ + ser_entry(e@),
{
    push_str_chars(out, "    {\n      \"id\": ");
    let ghost g1 = out@;
    push_u64_digits(out, e.id);
    let ghost g2 = out@;
    push_str_chars(out, ",\n      \"timestamp\": ");
    let ghost g3 = out@;
    push_i64_digits(out, e.timestamp);
    let ghost g4 = out@;
    push_str_chars(out, ",\n      \"text\": ");
    let ghost g5 = out@;
    push_jstr(out, e.text.as_str());
    let ghost g6 = out@;
    push_str_chars(out, ",\n      \"success\": ");
    let ghost g7 = out@;
    push_bool(out, e.success);
    let ghost g8 = out@;
    push_str_chars(out, ",\n      \"error_message\": ");
    let ghost g9 = out@;
    push_opt_jstr(out, &e.error_message);
    let ghost g10 = out@;
    push_str_chars(out, ",\n      \"duration\": ");
    let ghost g11 = out@;
    push_opt_num(out, &e.duration);
    let ghost g12 = out@;
    push_str_chars(out, ",\n      \"response_body\": ");
    let ghost g13 = out@;
    push_opt_jstr(out, &e.response_body);
    let ghost g14 = out@;
    push_str_chars(out, "\n    }");
    proof {
        let ev = e@;
        assert(g14 + "\n    }"@ =~= g13 + ser_entry_from_body_val(ev));
        assert(g13 + ser_entry_from_body_val(ev) =~= g12 + ser_entry_from_body(ev));
        assert(g12 + ser_entry_from_body(ev) =~= g11 + ser_entry_from_dur_val(ev));
        assert(g11 + ser_entry_from_dur_val(ev) =~= g10 + ser_entry_from_dur(ev));
        assert(g10 + ser_entry_from_dur(ev) =~= g9 + ser_entry_from_err_val(ev));
        assert(g9 + ser_entry_from_err_val(ev) =~= g8 + ser_entry_from_err(ev));
        assert(g8 + ser_entry_from_err(ev) =~= g7 + ser_entry_from_success_val(ev));
        assert(g7 + ser_entry_from_success_val(ev) =~= g6 + ser_entry_from_success(ev));
        assert(g6 + ser_entry_from_success(ev) =~= g5 + ser_entry_from_text_val(ev));
        assert(g5 + ser_entry_from_text_val(ev) =~= g4 + ser_entry_from_text(ev));
        assert(g4 + ser_entry_from_text(ev) =~= g3 + ser_entry_from_ts_val(ev));
        assert(g3 + ser_entry_from_ts_val(ev) =~= g2 + ser_entry_from_ts(ev));
        assert(g2 + ser_entry_from_ts(ev) =~= g1 + ser_entry_from_id(ev));
        assert(g1 + ser_entry_from_id(ev) =~= old(out)@ + ser_entry(ev));
        assert(out@ == g14 + "\n    }"@);
        assert(out@ == old(out)@ + ser_entry(ev));
    }
}

proof fn lemma_ser_entries_push(es: Seq<EntryView>, e: EntryView)
    ensures
        ser_entries(es.push(e)) == if es.len() == 0 {
            ser_entry(e)
        } else {
            ser_entries(es) + ",\n"@ + ser_entries(seq![e])
        },
    decreases es.len(),
{
    let p = es.push(e);
    if es.len() == 0 {
        assert(p.len() == 1);
        assert(p[0] == e);
        assert(ser_entries(seq![e]) == ser_entry(e));
    } else {
        lemma_ser_entries_push(es.drop_first(), e);
        assert(p.drop_first() =~= es.drop_first().push(e));
        assert(p[0] == es[0]);
        if es.len() == 1 {
            assert(es.drop_first().len() == 0);
            assert(ser_entries(p) == ser_entry(es[0]) + ",\n"@ + ser_entries(seq![e]));
            assert(ser_entries(es) == ser_entry(es[0]));
        } else {
            assert(ser_entries(p) == ser_entry(p[0]) + ",\n"@ + ser_entries(p.drop_first()));
            assert(ser_entries(p.drop_first()) == ser_entries(es.drop_first()) + ",\n"@
                + ser_entries(seq![e]));
            assert(ser_entries(es) == ser_entry(es[0]) + ",\n"@ + ser_entries(es.drop_first()));
            assert(ser_entry(p[0]) + ",\n"@ + (ser_entries(es.drop_first()) + ",\n"@
                + ser_entries(seq![e])) =~= (ser_entry(es[0]) + ",\n"@ + ser_entries(
            es.drop_first())) + ",\n"@ + ser_entries(seq![e]));
        }
    }
}

/// Writes the whole store in the history file format.
pub fn serialize_history(d: &WebhookHistoryData) -> (r: String)
    ensures
        r@ == ser_history(d@),
{
    let mut out: Vec<char> = Vec::new();
    if d.entries.len() == 0 {
        push_str_chars(&mut out, "{\n  \"entries\": [");
        push_str_chars(&mut out, "],\n  \"next_id\": ");
        push_u64_digits(&mut out, d.next_id);
        push_str_chars(&mut out, "\n}");
        proof {
            assert(d@.entries.len() == 0);
            assert(out@ =~= ser_history(d@));
        }
    } else {
        push_str_chars(&mut out, "{\n  \"entries\": [");
        push_str_chars(&mut out, "\n");
        let ghost prefix = out@;
        let mut i: usize = 0;
        while i < d.entries.len()
            invariant
                1 <= d.entries.len() == d@.entries.len(),
                i <= d.entries.len(),
                out@ == prefix + ser_entries(d@.entries.subrange(0, i as int)),
            decreases d.entries.len() - i,
        {
            if i > 0 {
                push_str_chars(&mut out, ",\n");
            }
            push_entry(&mut out, &d.entries[i]);
            proof {
                let taken = d@.entries.subrange(0, i as int);
                let ev = d@.entries[i as int];
                assert(d.entries[i as int]@ == ev);
                lemma_ser_entries_push(taken, ev);
                assert(d@.entries.subrange(0, i + 1) =~= taken.push(ev));
                assert(ser_entries(seq![ev]) == ser_entry(ev));
                if i == 0 {
                    assert(out@ =~= prefix + ser_entries(d@.entries.subrange(0, i + 1)));
                } else {
                    assert(out@ =~= prefix + ser_entries(d@.entries.subrange(0, i + 1)));
                }
            }
            i = i + 1;
        }
        proof {
            assert(d@.entries.subrange(0, d@.entries.len() as int) =~= d@.entries);
        }
        push_str_chars(&mut out, "\n  ],\n  \"next_id\": ");
        push_u64_digits(&mut out, d.next_id);
        push_str_chars(&mut out, "\n}");
        proof {
            assert(out@ =~= ser_history(d@));
        }
    }
    chars_to_string(&out)
}

// ===== the reader: primitives =====

/// Matches an exact piece of text at position `i`, handing back the
/// position after it; fails exactly when the text is not there.
fn expect_lit(v: &Vec<char>, i: usize, lit: &str) -> (r: Option<usize>)
    requires
        i <= v@.len(),
    ensures
        match r {
            Option::Some(j) => {
                &&& j as int == i + lit@.len()
                &&& j <= v@.len()
                &&& v@.subrange(i as int, j as int) == lit@
            },
            Option::None => !(i + lit@.len() <= v@.len() && v@.subrange(
                i as int,
                i + lit@.len() as int,
            ) == lit@),
        },
{
    let n = lit.unicode_len();
    if n > v.len() - i {
        return Option::None;
    }
    let mut k: usize = 0;
    while k < n
        invariant
            k <= n,
            n == lit@.len(),
            i + n <= v@.len(),
            v@.len() <= usize::MAX,
            forall|m: int| 0 <= m < k ==> v@[i + m] == lit@[m],
        decreases n - k,
    {
        proof {
            assert(i + k < v@.len());
        }
        let c = v[i + k];
        let l = lit.get_char(k);
        if c != l {
            proof {
                if i + lit@.len() <= v@.len() && v@.subrange(i as int, i + lit@.len() as int)
                    == lit@ {
                    assert(v@.subrange(i as int, i + lit@.len() as int)[k as int] == lit@[k as int]);
                    assert(v@[i + k] == lit@[k as int]);
                }
            }
            return Option::None;
        }
        k = k + 1;
    }
    proof {
        assert(v@.subrange(i as int, i + n) =~= lit@);
    }
    Option::Some(i + n)
}

fn digit_of_char(c: char) -> (r: u64)
    requires
        is_dec_digit(c),
    ensures
        r as nat == digit_val(c),
        r < 10,
{
    if c == '0' {
        0
    } else if c == '1' {
        1
    } else if c == '2' {
        2
    } else if c == '3' {
        3
    } else if c == '4' {
        4
    } else if c == '5' {
        5
    } else if c == '6' {
        6
    } else if c == '7' {
        7
    } else if c == '8' {
        8
    } else {
        9
    }
}

/// The decimal rendering of `n` sits at position `i`, closed by something
/// other than a digit.
pub open spec fn u64_at(s: Seq<char>, i: int, n: u64) -> bool {
    let d = dec_digits(n as nat);
    &&& 0 <= i
    &&& i + d.len() <= s.len()
    &&& s.subrange(i, i + d.len() as int) == d
    &&& (i + d.len() == s.len() || !is_dec_digit(s[i + d.len() as int]))
}

fn parse_u64(v: &Vec<char>, i: usize) -> (r: Option<(u64, usize)>)
    requires
        i <= v@.len(),
    ensures
        match r {
            Option::Some(p) => {
                &&& i <= p.1 <= v@.len()
                &&& v@.subrange(i as int, p.1 as int) == dec_digits(p.0 as nat)
                &&& (p.1 == v@.len() || !is_dec_digit(v@[p.1 as int]))
            },
            Option::None => true,
        },
        forall|n: u64| #[trigger]
            u64_at(v@, i as int, n) ==> r == Option::Some(
                (n, (i + dec_digits(n as nat).len()) as usize),
            ),
{
    let ghost s = v@;
    let j = digits_end_exec(v, i);
    proof {
        lemma_digits_end(s, i as int);
    }
    if j == i {
        proof {
            assert forall|n: u64| !u64_at(s, i as int, n) by {
                lemma_dec_digits(n as nat);
                if u64_at(s, i as int, n) {
                    let d = dec_digits(n as nat);
                    assert(s.subrange(i as int, i + d.len() as int)[0] == d[0]);
                    assert(s[i as int] == d[0]);
                    assert(is_dec_digit(s[i as int]));
                    assert(digits_end(s, i as int) > i);
                }
            }
        }
        return Option::None;
    }
    proof {
        assert forall|n: u64| #[trigger]
            u64_at(s, i as int, n) implies digits_end(s, i as int) == i + dec_digits(
            n as nat,
        ).len() by {
            let d = dec_digits(n as nat);
            lemma_dec_digits(n as nat);
            assert forall|m: int| i <= m < i + d.len() implies is_dec_digit(#[trigger] s[m]) by {
                assert(s.subrange(i as int, i + d.len() as int)[m - i] == d[m - i]);
            }
            lemma_digits_end_is(s, i as int, i + d.len() as int);
        }
    }
    if v[i] == '0' && j > i + 1 {
        proof {
            assert forall|n: u64| !u64_at(s, i as int, n) by {
                if u64_at(s, i as int, n) {
                    let d = dec_digits(n as nat);
                    lemma_dec_digits(n as nat);
                    assert(s.subrange(i as int, i + d.len() as int)[0] == d[0]);
                    assert(d[0] == '0');
                    assert(n == 0);
                    assert(d.len() == 1);
                    assert(j as int == i + 1);
                }
            }
        }
        return Option::None;
    }
    let mut acc: u64 = 0;
    let mut k = i;
    while k < j
        invariant
            i <= k <= j <= v@.len(),
            s == v@,
            j as int == digits_end(s, i as int),
            forall|m: int| i <= m < j ==> is_dec_digit(#[trigger] s[m]),
            acc as nat == seq_val(s.subrange(i as int, k as int)),
            forall|n: u64| #[trigger]
                u64_at(s, i as int, n) ==> j as int == i + dec_digits(n as nat).len(),
        decreases j - k,
    {
        let c = v[k];
        let d = digit_of_char(c);
        if acc > (u64::MAX - d) / 10 {
            proof {
                let upto = s.subrange(i as int, k + 1);
                assert(upto.drop_last() =~= s.subrange(i as int, k as int));
                assert(upto.last() == c);
                assert(seq_val(upto) == (acc as nat) * 10 + digit_val(c));
                assert((acc as nat) * 10 + digit_val(c) > u64::MAX as nat) by (nonlinear_arith)
                    requires
                        acc as nat > ((u64::MAX - d) / 10) as nat,
                        d as nat == digit_val(c),
                        d < 10,
                ;
                assert forall|n: u64| !u64_at(s, i as int, n) by {
                    if u64_at(s, i as int, n) {
                        let d2 = dec_digits(n as nat);
                        lemma_dec_digits(n as nat);
                        assert(j as int == i + d2.len());
                        assert(s.subrange(i as int, j as int) =~= d2);
                        assert(s.subrange(i as int, j as int) =~= upto + s.subrange(
                            k + 1,
                            j as int,
                        ));
                        lemma_seq_val_append(upto, s.subrange(k + 1, j as int));
                        assert(seq_val(d2) >= seq_val(upto));
                        assert(n as nat >= seq_val(upto));
                    }
                }
            }
            return Option::None;
        }
        proof {
            assert((acc as nat) * 10 + (d as nat) <= u64::MAX as nat) by (nonlinear_arith)
                requires
                    acc as nat <= ((u64::MAX - d) / 10) as nat,
                    d < 10,
            ;
        }
        acc = acc * 10 + d;
        proof {
            let upto = s.subrange(i as int, k + 1);
            assert(upto.drop_last() =~= s.subrange(i as int, k as int));
            assert(upto.last() == c);
        }
        k = k + 1;
    }
    proof {
        let consumed = s.subrange(i as int, j as int);
        assert(consumed.len() >= 1);
        assert(consumed[0] == s[i as int]);
        if consumed[0] == '0' {
            assert(!(j > i + 1));
            assert(consumed.len() == 1);
        }
        assert forall|m: int| 0 <= m < consumed.len() implies is_dec_digit(
            #[trigger] consumed[m],
        ) by {
            assert(consumed[m] == s[i + m]);
        }
        lemma_dec_digits_of_val(consumed);
        assert(dec_digits(acc as nat) == consumed);
        assert forall|n: u64| #[trigger] u64_at(s, i as int, n) implies n == acc by {
            let d2 = dec_digits(n as nat);
            lemma_dec_digits(n as nat);
            assert(j as int == i + d2.len());
            assert(s.subrange(i as int, j as int) == d2);
            assert(seq_val(d2) == n as nat);
            assert(seq_val(consumed) == acc as nat);
        }
    }
    Option::Some((acc, j))
}

/// The decimal rendering of the signed value `n` sits at position `i`,
/// closed by something other than a digit.
pub open spec fn i64_at(s: Seq<char>, i: int, n: i64) -> bool {
    let d = ser_i64(n);
    &&& 0 <= i
    &&& i + d.len() <= s.len()
    &&& s.subrange(i, i + d.len() as int) == d
    &&& (i + d.len() == s.len() || !is_dec_digit(s[i + d.len() as int]))
}

fn parse_i64(v: &Vec<char>, i: usize) -> (r: Option<(i64, usize)>)
    requires
        i <= v@.len(),
    ensures
        match r {
            Option::Some(p) => {
                &&& i <= p.1 <= v@.len()
                &&& v@.subrange(i as int, p.1 as int) == ser_i64(p.0)
                &&& (p.1 == v@.len() || !is_dec_digit(v@[p.1 as int]))
            },
            Option::None => true,
        },
        forall|n: i64| #[trigger]
            i64_at(v@, i as int, n) ==> r == Option::Some(
                (n, (i + ser_i64(n).len()) as usize),
            ),
{
    let ghost s = v@;
    if i < v.len() && v[i] == '-' {
        proof {
            assert forall|n: i64| #[trigger] i64_at(s, i as int, n) implies n < 0 && u64_at(
                s,
                i + 1,
                (-(n as int)) as u64,
            ) by {
                let d = ser_i64(n);
                assert(s.subrange(i as int, i + d.len() as int)[0] == d[0]);
                if n >= 0 {
                    lemma_dec_digits(n as nat);
                    assert(is_dec_digit(d[0]));
                    assert(s[i as int] == d[0]);
                } else {
                    let m = (-(n as int)) as nat;
                    let dm = dec_digits(m);
                    assert(d == seq!['-'] + dm);
                    assert(s.subrange(i + 1, i + 1 + dm.len() as int) =~= dm) by {
                        assert forall|x: int| 0 <= x < dm.len() implies s.subrange(
                            i + 1,
                            i + 1 + dm.len() as int,
                        )[x] == dm[x] by {
                            assert(s.subrange(i as int, i + d.len() as int)[x + 1] == d[x + 1]);
                            assert(d[x + 1] == dm[x]);
                        }
                    }
                    assert(m <= 9223372036854775808nat);
                }
            }
        }
        match parse_u64(v, i + 1) {
            Option::None => {
                proof {
                    assert forall|n: i64| !i64_at(s, i as int, n) by {
                        if i64_at(s, i as int, n) {
                            assert(u64_at(s, i + 1, (-(n as int)) as u64));
                        }
                    }
                }
                Option::None
            },
            Option::Some((m, j)) => {
                if m == 0 {
                    proof {
                        assert forall|n: i64| !i64_at(s, i as int, n) by {
                            if i64_at(s, i as int, n) {
                                let mm = (-(n as int)) as u64;
                                assert(u64_at(s, i + 1, mm));
                                assert(mm >= 1);
                            }
                        }
                    }
                    Option::None
                } else if m <= 9223372036854775807u64 {
                    let val: i64 = -(m as i64);
                    proof {
                        assert(ser_i64(val) =~= seq!['-'] + dec_digits(m as nat));
                        assert(s.subrange(i as int, j as int) =~= ser_i64(val)) by {
                            assert(s.subrange(i + 1, j as int) == dec_digits(m as nat));
                        }
                        assert forall|n: i64| #[trigger]
                            i64_at(s, i as int, n) implies Option::Some((val, j))
                            == Option::Some::<(i64, usize)>(
                            (n, (i + ser_i64(n).len()) as usize),
                        ) by {
                            let mm = (-(n as int)) as u64;
                            assert(u64_at(s, i + 1, mm));
                            assert(mm == m);
                            assert(n == val);
                            assert(ser_i64(n).len() == 1 + dec_digits(m as nat).len());
                        }
                    }
                    Option::Some((val, j))
                } else if m == 9223372036854775808u64 {
                    let val: i64 = i64::MIN;
                    proof {
                        assert(ser_i64(val) =~= seq!['-'] + dec_digits(m as nat));
                        assert(s.subrange(i as int, j as int) =~= ser_i64(val)) by {
                            assert(s.subrange(i + 1, j as int) == dec_digits(m as nat));
                        }
                        assert forall|n: i64| #[trigger]
                            i64_at(s, i as int, n) implies Option::Some((val, j))
                            == Option::Some::<(i64, usize)>(
                            (n, (i + ser_i64(n).len()) as usize),
                        ) by {
                            let mm = (-(n as int)) as u64;
                            assert(u64_at(s, i + 1, mm));
                            assert(mm == m);
                            assert(n == val);
                            assert(ser_i64(n).len() == 1 + dec_digits(m as nat).len());
                        }
                    }
                    Option::Some((val, j))
                } else {
                    proof {
                        assert forall|n: i64| !i64_at(s, i as int, n) by {
                            if i64_at(s, i as int, n) {
                                let mm = (-(n as int)) as u64;
                                assert(u64_at(s, i + 1, mm));
                                assert(mm <= 9223372036854775808u64);
                            }
                        }
                    }
                    Option::None
                }
            },
        }
    } else {
        proof {
            assert forall|n: i64| #[trigger] i64_at(s, i as int, n) implies n >= 0 && u64_at(
                s,
                i as int,
                n as u64,
            ) by {
                let d = ser_i64(n);
                assert(s.subrange(i as int, i + d.len() as int)[0] == d[0]);
                assert(s[i as int] == d[0]);
                if n < 0 {
                    assert(d[0] == '-');
                    assert(i < v@.len());
                } else {
                    assert(ser_i64(n) == dec_digits(n as nat));
                }
            }
        }
        match parse_u64(v, i) {
            Option::None => {
                proof {
                    assert forall|n: i64| !i64_at(s, i as int, n) by {
                        if i64_at(s, i as int, n) {
                            assert(u64_at(s, i as int, n as u64));
                        }
                    }
                }
                Option::None
            },
            Option::Some((m, j)) => {
                if m <= 9223372036854775807u64 {
                    let val: i64 = m as i64;
                    proof {
                        assert(ser_i64(val) == dec_digits(m as nat));
                        assert forall|n: i64| #[trigger]
                            i64_at(s, i as int, n) implies Option::Some((val, j))
                            == Option::Some::<(i64, usize)>(
                            (n, (i + ser_i64(n).len()) as usize),
                        ) by {
                            assert(u64_at(s, i as int, n as u64));
                            assert(n as u64 == m);
                        }
                    }
                    Option::Some((val, j))
                } else {
                    proof {
                        assert forall|n: i64| !i64_at(s, i as int, n) by {
                            if i64_at(s, i as int, n) {
                                assert(u64_at(s, i as int, n as u64));
                                assert(n as u64 <= 9223372036854775807u64);
                            }
                        }
                    }
                    Option::None
                }
            },
        }
    }
}

} // verus!

verus! {

/// The JSON string literal for the text `t` sits at position `i`.
pub open spec fn jstr_at(s: Seq<char>, i: int, t: Seq<char>) -> bool {
    &&& 0 <= i
    &&& i + ser_jstr(t).len() <= s.len()
    &&& s.subrange(i, i + ser_jstr(t).len() as int) == ser_jstr(t)
}

proof fn lemma_ctrl_hex_shape(c: char)
    requires
        is_other_ctrl(c),
    ensures
        ctrl_hex(c).len() == 2,
{
}

proof fn lemma_ctrl_hex_inj(a: char, b: char)
    requires
        is_other_ctrl(a),
        is_other_ctrl(b),
        ctrl_hex(a) == ctrl_hex(b),
    ensures
        a == b,
{
    assert(ctrl_hex(a)[0] == ctrl_hex(b)[0] && ctrl_hex(a)[1] == ctrl_hex(b)[1]);
}

/// What the first characters of an escape reveal about the character.
proof fn lemma_esc_char_shape(c: char)
    ensures
        1 <= esc_char(c).len() <= 6,
        esc_char(c)[0] != '"',
        esc_char(c).len() == 1 ==> esc_char(c) == seq![c],
        esc_char(c).len() == 1 ==> c != '"' && c != '\\' && c != '\n' && c != '\r' && c != '\t'
            && !is_other_ctrl(c),
        esc_char(c).len() != 1 ==> esc_char(c)[0] == '\\',
{
    if is_other_ctrl(c) {
        lemma_ctrl_hex_shape(c);
    }
}

/// Splitting an escaped text at a character position.
proof fn lemma_esc_split(t: Seq<char>, k: int)
    requires
        0 <= k < t.len(),
    ensures
        esc_string(t) == esc_string(t.take(k)) + esc_char(t[k]) + esc_string(t.skip(k + 1)),
        esc_string(t).len() >= esc_string(t.take(k)).len() + esc_char(t[k]).len(),
{
    crate::jsontext::lemma_esc_string_concat(t.take(k), t.skip(k));
    assert(t.take(k) + t.skip(k) =~= t);
    let rest = t.skip(k);
    assert(rest[0] == t[k]);
    assert(rest.subrange(1, rest.len() as int) =~= t.skip(k + 1));
    assert(esc_string(rest) == esc_char(t[k]) + esc_string(t.skip(k + 1)));
    assert(esc_string(t.take(k)) + (esc_char(t[k]) + esc_string(t.skip(k + 1))) =~= (esc_string(
        t.take(k),
    ) + esc_char(t[k])) + esc_string(t.skip(k + 1)));
}

/// Inside a JSON string literal, what stands right after the escapes of the
/// first `k` characters: the escape of character `k`, or the closing quote.
proof fn lemma_jstr_next(s: Seq<char>, i: int, t: Seq<char>, k: int)
    requires
        jstr_at(s, i, t),
        0 <= k <= t.len(),
        esc_string(t.take(k)).len() <= esc_string(t).len(),
    ensures
        ({
            let cur = i + 1 + esc_string(t.take(k)).len();
            if k < t.len() {
                let ec = esc_char(t[k]);
                &&& cur + ec.len() <= i + 1 + esc_string(t).len()
                &&& forall|m: int| 0 <= m < ec.len() ==> s[cur + m] == ec[m]
            } else {
                &&& cur == i + 1 + esc_string(t).len()
                &&& s[cur] == '"'
            }
        }),
{
    let el = esc_string(t).len() as int;
    let cur = i + 1 + esc_string(t.take(k)).len();
    assert forall|x: int| 0 <= x < ser_jstr(t).len() implies s[i + x] == ser_jstr(t)[x] by {
        assert(s.subrange(i, i + ser_jstr(t).len() as int)[x] == ser_jstr(t)[x]);
    }
    assert(ser_jstr(t).len() == el + 2);
    if k < t.len() {
        lemma_esc_split(t, k);
        let pre = esc_string(t.take(k));
        let ec = esc_char(t[k]);
        assert forall|m: int| 0 <= m < ec.len() implies s[cur + m] == ec[m] by {
            assert(esc_string(t)[pre.len() + m] == ec[m]);
            assert(ser_jstr(t)[1 + pre.len() + m] == esc_string(t)[pre.len() + m]);
            assert(s[i + (1 + pre.len() + m)] == ser_jstr(t)[1 + pre.len() + m]);
        }
    } else {
        assert(t.take(k) =~= t);
        assert(ser_jstr(t)[el + 1] == '"');
        assert(s[i + (el + 1)] == ser_jstr(t)[el + 1]);
    }
}

/// Reads a JSON string literal: the opening quote, the escaped text, the
/// closing quote. Accepts exactly the canonical escaping this crate writes.
#[verifier::rlimit(100)]
fn parse_jstr(v: &Vec<char>, i: usize) -> (r: Option<(Vec<char>, usize)>)
    requires
        i <= v@.len(),
    ensures
        match r {
            Option::Some(p) => {
                &&& i <= p.1 <= v@.len()
                &&& v@.subrange(i as int, p.1 as int) == ser_jstr(p.0@)
            },
            Option::None => true,
        },
        forall|t: Seq<char>| #[trigger]
            jstr_at(v@, i as int, t) ==> (r matches Option::Some(p) && p.0@ == t && p.1 as int == i
                + ser_jstr(t).len()),
{
    let ghost s = v@;
    proof {
        assert forall|t: Seq<char>| #[trigger]
            jstr_at(s, i as int, t) implies i < s.len() && s[i as int] == '"' by {
            assert(s.subrange(i as int, i + ser_jstr(t).len() as int)[0] == ser_jstr(t)[0]);
        }
    }
    if i >= v.len() || v[i] != '"' {
        return Option::None;
    }
    let mut out: Vec<char> = Vec::new();
    let mut cur: usize = i + 1;
    loop
        invariant
            i + 1 <= cur <= s.len(),
            s == v@,
            i < s.len(),
            s[i as int] == '"',
            s.len() <= usize::MAX,
            s.subrange(i + 1, cur as int) == esc_string(out@),
            forall|t: Seq<char>| #[trigger]
                jstr_at(s, i as int, t) ==> out@.len() <= t.len() && t.take(out@.len() as int)
                    == out@,
        decreases s.len() - cur,
    {
        proof {
            assert forall|t: Seq<char>| #[trigger]
                jstr_at(s, i as int, t) implies esc_string(t.take(out@.len() as int)).len()
                <= esc_string(t).len() && cur == i + 1 + esc_string(
                t.take(out@.len() as int),
            ).len() by {
                if out@.len() < t.len() {
                    lemma_esc_split(t, out@.len() as int);
                    lemma_esc_char_shape(t[out@.len() as int]);
                } else {
                    assert(t.take(out@.len() as int) =~= t);
                }
                assert(t.take(out@.len() as int) == out@);
            }
        }
        if cur >= v.len() {
            proof {
                assert forall|t: Seq<char>| !jstr_at(s, i as int, t) by {
                    if jstr_at(s, i as int, t) {
                        let k = out@.len() as int;
                        lemma_jstr_next(s, i as int, t, k);
                        if k < t.len() {
                            lemma_esc_char_shape(t[k]);
                            assert(cur < s.len());
                        } else {
                            assert(cur as int == i + 1 + esc_string(t).len());
                            assert(i + ser_jstr(t).len() <= s.len());
                            assert(cur < s.len());
                        }
                    }
                }
            }
            return Option::None;
        }
        let c = v[cur];
        if c == '"' {
            proof {
                assert forall|t: Seq<char>| #[trigger]
                    jstr_at(s, i as int, t) implies t == out@ && i + ser_jstr(t).len() == cur + 1 by {
                    let k = out@.len() as int;
                    lemma_jstr_next(s, i as int, t, k);
                    if k < t.len() {
                        lemma_esc_char_shape(t[k]);
                        assert(s[cur as int] == esc_char(t[k])[0]);
                        assert(false);
                    }
                    assert(t.take(k) =~= t);
                }
                assert(s.subrange(i as int, cur + 1) =~= ser_jstr(out@)) by {
                    assert(cur - i == 1 + esc_string(out@).len());
                    assert forall|x: int| 0 <= x < (cur + 1 - i) implies s.subrange(
                        i as int,
                        cur + 1,
                    )[x] == ser_jstr(out@)[x] by {
                        if x == 0 {
                            assert(s[i as int] == '"');
                        } else if x < cur - i {
                            assert(s.subrange(i + 1, cur as int)[x - 1] == esc_string(out@)[x
                                - 1]);
                            assert(s[i + x] == esc_string(out@)[x - 1]);
                        } else {
                            assert(s[cur as int] == '"');
                        }
                    }
                }
            }
            return Option::Some((out, cur + 1));
        } else if c == '\\' {
            if v.len() - cur <= 1 {
                proof {
                    assert forall|t: Seq<char>| !jstr_at(s, i as int, t) by {
                        if jstr_at(s, i as int, t) {
                            let k = out@.len() as int;
                            lemma_jstr_next(s, i as int, t, k);
                            if k == t.len() {
                                assert(s[cur as int] == '"');
                            } else {
                                lemma_esc_char_shape(t[k]);
                                assert(s[cur as int] == esc_char(t[k])[0]);
                                assert(esc_char(t[k]).len() >= 2);
                                assert(cur + 1 < s.len());
                            }
                        }
                    }
                }
                return Option::None;
            }
            let e = v[cur + 1];
            proof {
                assert forall|t: Seq<char>| #[trigger]
                    jstr_at(s, i as int, t) implies out@.len() < t.len() && esc_char(
                    t[out@.len() as int],
                )[0] == '\\' && esc_char(t[out@.len() as int])[1] == e && esc_char(
                    t[out@.len() as int],
                ).len() >= 2 by {
                    let k = out@.len() as int;
                    lemma_jstr_next(s, i as int, t, k);
                    if k == t.len() {
                        assert(s[cur as int] == '"');
                        assert(false);
                    }
                    lemma_esc_char_shape(t[k]);
                    assert(s[cur as int] == esc_char(t[k])[0]);
                    assert(esc_char(t[k]).len() >= 2);
                    assert(s[cur + 1] == esc_char(t[k])[1]);
                }
            }
            let decoded: Option<(char, usize)> = if e == '"' {
                Option::Some(('"', 2))
            } else if e == '\\' {
                Option::Some(('\\', 2))
            } else if e == 'n' {
                Option::Some(('\n', 2))
            } else if e == 'r' {
                Option::Some(('\r', 2))
            } else if e == 't' {
                Option::Some(('\t', 2))
            } else if e == 'u' {
                if v.len() - cur <= 5 {
                    proof {
                        assert forall|t: Seq<char>| !jstr_at(s, i as int, t) by {
                            if jstr_at(s, i as int, t) {
                                let k = out@.len() as int;
                                let tc = t[k];
                                assert(esc_char(tc)[1] == 'u');
                                assert(is_other_ctrl(tc));
                                lemma_ctrl_hex_shape(tc);
                                assert(esc_char(tc).len() == 6);
                                lemma_jstr_next(s, i as int, t, k);
                                assert(cur + 6 <= s.len());
                            }
                        }
                    }
                    return Option::None;
                }
                let z1 = v[cur + 2];
                let z2 = v[cur + 3];
                let h1 = v[cur + 4];
                let h2 = v[cur + 5];
                proof {
                    assert forall|t: Seq<char>| #[trigger]
                        jstr_at(s, i as int, t) implies is_other_ctrl(t[out@.len() as int])
                        && ctrl_hex(t[out@.len() as int]) == seq![h1, h2] && z1 == '0' && z2
                        == '0' by {
                        let k = out@.len() as int;
                        let tc = t[k];
                        assert(esc_char(tc)[1] == 'u');
                        assert(is_other_ctrl(tc));
                        lemma_ctrl_hex_shape(tc);
                        lemma_jstr_next(s, i as int, t, k);
                        assert(s[cur + 2] == esc_char(tc)[2]);
                        assert(s[cur + 3] == esc_char(tc)[3]);
                        assert(s[cur + 4] == esc_char(tc)[4]);
                        assert(s[cur + 5] == esc_char(tc)[5]);
                        assert(esc_char(tc)[4] == ctrl_hex(tc)[0]);
                        assert(esc_char(tc)[5] == ctrl_hex(tc)[1]);
                        assert(ctrl_hex(tc) =~= seq![h1, h2]);
                    }
                }
                if z1 != '0' || z2 != '0' {
                    return Option::None;
                }
                match decode_ctrl_hex(h1, h2) {
                    Option::Some(cc) => Option::Some((cc, 6)),
                    Option::None => {
                        proof {
                            assert forall|t: Seq<char>| !jstr_at(s, i as int, t) by {
                                if jstr_at(s, i as int, t) {
                                    assert(ctrl_hex(t[out@.len() as int]) == seq![h1, h2]);
                                }
                            }
                        }
                        return Option::None;
                    },
                }
            } else {
                proof {
                    assert forall|t: Seq<char>| !jstr_at(s, i as int, t) by {
                        if jstr_at(s, i as int, t) {
                            let tc = t[out@.len() as int];
                            assert(esc_char(tc)[1] == e);
                            if is_other_ctrl(tc) {
                                assert(esc_char(tc)[1] == 'u');
                            }
                        }
                    }
                }
                return Option::None;
            };
            let (c2, adv) = match decoded {
                Option::Some(p) => p,
                Option::None => {
                    return Option::None;
                },
            };
            proof {
                assert(esc_char(c2).len() == adv as int);
                assert forall|m: int| 0 <= m < adv ==> s[cur + m] == esc_char(c2)[m] by {
                    if is_other_ctrl(c2) {
                        lemma_ctrl_hex_shape(c2);
                    }
                }
                let ghost old_out = out@;
                assert(s.subrange(i + 1, cur + adv) =~= esc_string(old_out) + esc_char(c2)) by {
                    assert forall|x: int| 0 <= x < (cur + adv) - (i + 1) implies s.subrange(
                        i + 1,
                        cur + adv,
                    )[x] == (esc_string(old_out) + esc_char(c2))[x] by {
                        if x < esc_string(old_out).len() {
                            assert(s.subrange(i + 1, cur as int)[x] == esc_string(old_out)[x]);
                        } else {
                            assert(s[i + 1 + x] == esc_char(c2)[x - esc_string(old_out).len()]);
                        }
                    }
                }
            }
            let ghost old_out = out@;
            out.push(c2);
            proof {
                lemma_esc_string_push(old_out, c2);
                assert forall|t: Seq<char>| #[trigger]
                    jstr_at(s, i as int, t) implies out@.len() <= t.len() && t.take(
                    out@.len() as int,
                ) == out@ by {
                    let k = old_out.len() as int;
                    let tc = t[k];
                    lemma_esc_char_shape(tc);
                    lemma_esc_char_shape(c2);
                    assert(esc_char(tc)[0] == '\\');
                    assert(esc_char(tc).len() >= 2);
                    if is_other_ctrl(c2) {
                        assert(esc_char(tc)[1] == 'u');
                        assert(is_other_ctrl(tc));
                        lemma_ctrl_hex_inj(tc, c2);
                    } else {
                        assert(tc == c2);
                    }
                    assert(t.take(k + 1) =~= t.take(k).push(tc));
                }
            }
            cur = cur + adv;
        } else if c == '\n' || c == '\r' || c == '\t' || is_other_ctrl_exec(c) {
            proof {
                assert forall|t: Seq<char>| !jstr_at(s, i as int, t) by {
                    if jstr_at(s, i as int, t) {
                        let k = out@.len() as int;
                        lemma_jstr_next(s, i as int, t, k);
                        if k == t.len() {
                            assert(s[cur as int] == '"');
                        } else {
                            let tc = t[k];
                            lemma_esc_char_shape(tc);
                            assert(s[cur as int] == esc_char(tc)[0]);
                            if esc_char(tc).len() == 1 {
                                assert(tc == c);
                            } else {
                                assert(esc_char(tc)[0] == '\\');
                            }
                        }
                    }
                }
            }
            return Option::None;
        } else {
            let ghost old_out = out@;
            out.push(c);
            proof {
                lemma_esc_string_push(old_out, c);
                assert(esc_char(c) =~= seq![c]);
                assert(s.subrange(i + 1, cur + 1) =~= esc_string(old_out) + esc_char(c)) by {
                    assert forall|x: int| 0 <= x < (cur + 1) - (i + 1) implies s.subrange(
                        i + 1,
                        cur + 1,
                    )[x] == (esc_string(old_out) + esc_char(c))[x] by {
                        if x < esc_string(old_out).len() {
                            assert(s.subrange(i + 1, cur as int)[x] == esc_string(old_out)[x]);
                        } else {
                            assert(s[i + 1 + x] == c);
                        }
                    }
                }
                assert forall|t: Seq<char>| #[trigger]
                    jstr_at(s, i as int, t) implies out@.len() <= t.len() && t.take(
                    out@.len() as int,
                ) == out@ by {
                    let k = old_out.len() as int;
                    lemma_jstr_next(s, i as int, t, k);
                    if k == t.len() {
                        assert(s[cur as int] == '"');
                        assert(false);
                    }
                    let tc = t[k];
                    lemma_esc_char_shape(tc);
                    assert(s[cur as int] == esc_char(tc)[0]);
                    if esc_char(tc).len() == 1 {
                        assert(tc == c);
                    } else {
                        assert(esc_char(tc)[0] == '\\');
                        assert(false);
                    }
                    assert(t.take(k + 1) =~= t.take(k).push(tc));
                }
            }
            cur = cur + 1;
        }
    }
}

} // verus!

verus! {

// ===== optional fields and booleans =====

pub open spec fn bool_at(s: Seq<char>, i: int, b: bool) -> bool {
    &&& 0 <= i
    &&& i + ser_bool(b).len() <= s.len()
    &&& s.subrange(i, i + ser_bool(b).len() as int) == ser_bool(b)
}

fn parse_bool(v: &Vec<char>, i: usize) -> (r: Option<(bool, usize)>)
    requires
        i <= v@.len(),
    ensures
        match r {
            Option::Some(p) => {
                &&& i <= p.1 <= v@.len()
                &&& v@.subrange(i as int, p.1 as int) == ser_bool(p.0)
            },
            Option::None => true,
        },
        forall|b: bool| #[trigger]
            bool_at(v@, i as int, b) ==> r == Option::Some((b, (i + ser_bool(b).len()) as usize)),
{
    let ghost s = v@;
    proof {
        reveal_strlit("true");
        reveal_strlit("false");
        assert forall|b: bool| #[trigger] bool_at(s, i as int, b) implies i < s.len() && s[i as int]
            == ser_bool(b)[0] by {
            assert(s.subrange(i as int, i + ser_bool(b).len() as int)[0] == ser_bool(b)[0]);
        }
    }
    if i < v.len() && v[i] == 't' {
        match expect_lit(v, i, "true") {
            Option::Some(j) => Option::Some((true, j)),
            Option::None => {
                proof {
                    assert forall|b: bool| !bool_at(s, i as int, b) by {
                        if bool_at(s, i as int, b) {
                            assert(s[i as int] == ser_bool(b)[0]);
                        }
                    }
                }
                Option::None
            },
        }
    } else if i < v.len() && v[i] == 'f' {
        match expect_lit(v, i, "false") {
            Option::Some(j) => Option::Some((false, j)),
            Option::None => {
                proof {
                    assert forall|b: bool| !bool_at(s, i as int, b) by {
                        if bool_at(s, i as int, b) {
                            assert(s[i as int] == ser_bool(b)[0]);
                        }
                    }
                }
                Option::None
            },
        }
    } else {
        proof {
            assert forall|b: bool| !bool_at(s, i as int, b) by {
                if bool_at(s, i as int, b) {
                    assert(s[i as int] == ser_bool(b)[0]);
                }
            }
        }
        Option::None
    }
}

pub open spec fn opt_jstr_at(s: Seq<char>, i: int, o: Option<Seq<char>>) -> bool {
    &&& 0 <= i
    &&& i + ser_opt_jstr(o).len() <= s.len()
    &&& s.subrange(i, i + ser_opt_jstr(o).len() as int) == ser_opt_jstr(o)
}

fn parse_opt_jstr(v: &Vec<char>, i: usize) -> (r: Option<(Option<String>, usize)>)
    requires
        i <= v@.len(),
    ensures
        match r {
            Option::Some(p) => {
                &&& i <= p.1 <= v@.len()
                &&& v@.subrange(i as int, p.1 as int) == ser_opt_jstr(view_opt_string(p.0))
            },
            Option::None => true,
        },
        forall|o: Option<Seq<char>>| #[trigger]
            opt_jstr_at(v@, i as int, o) ==> (r matches Option::Some(p) && view_opt_string(p.0)
                == o && p.1 as int == i + ser_opt_jstr(o).len()),
{
    let ghost s = v@;
    proof {
        reveal_strlit("null");
        assert forall|o: Option<Seq<char>>| #[trigger]
            opt_jstr_at(s, i as int, o) implies i < s.len() && s[i as int] == ser_opt_jstr(o)[0]
            && (o is Some ==> jstr_at(s, i as int, o->Some_0)) by {
            assert(s.subrange(i as int, i + ser_opt_jstr(o).len() as int)[0] == ser_opt_jstr(o)[0]);
        }
    }
    if i < v.len() && v[i] == '"' {
        match parse_jstr(v, i) {
            Option::Some((t, j)) => {
                let st = chars_to_string(&t);
                Option::Some((Option::Some(st), j))
            },
            Option::None => {
                proof {
                    assert forall|o: Option<Seq<char>>| !opt_jstr_at(s, i as int, o) by {
                        if opt_jstr_at(s, i as int, o) {
                            match o {
                                Option::Some(t) => {
                                    assert(jstr_at(s, i as int, t));
                                },
                                Option::None => {
                                    assert(s[i as int] == 'n');
                                },
                            }
                        }
                    }
                }
                Option::None
            },
        }
    } else if i < v.len() && v[i] == 'n' {
        match expect_lit(v, i, "null") {
            Option::Some(j) => Option::Some((Option::None, j)),
            Option::None => {
                proof {
                    assert forall|o: Option<Seq<char>>| !opt_jstr_at(s, i as int, o) by {
                        if opt_jstr_at(s, i as int, o) {
                            assert(s[i as int] == ser_opt_jstr(o)[0]);
                        }
                    }
                }
                Option::None
            },
        }
    } else {
        proof {
            assert forall|o: Option<Seq<char>>| !opt_jstr_at(s, i as int, o) by {
                if opt_jstr_at(s, i as int, o) {
                    assert(s[i as int] == ser_opt_jstr(o)[0]);
                }
            }
        }
        Option::None
    }
}

/// A JSON number token's first character is a minus sign or a digit.
proof fn lemma_json_number_first(d: Seq<char>)
    requires
        is_json_number(d),
    ensures
        d.len() >= 1,
        d[0] == '-' || is_dec_digit(d[0]),
{
    if d[0] != '-' {
        crate::jsontext::lemma_digits_end(d, 0);
        assert(digits_end(d, 0) > 0);
    }
}

pub open spec fn opt_num_at(s: Seq<char>, i: int, o: Option<Seq<char>>) -> bool {
    &&& 0 <= i
    &&& i + ser_opt_num(o).len() <= s.len()
    &&& s.subrange(i, i + ser_opt_num(o).len() as int) == ser_opt_num(o)
    &&& match o {
        Option::Some(d) => is_json_number(d) && (i + d.len() == s.len() || !crate::jsontext::is_num_char(
            s[i + d.len() as int],
        )),
        Option::None => true,
    }
}

fn parse_opt_num(v: &Vec<char>, i: usize) -> (r: Option<(Option<String>, usize)>)
    requires
        i <= v@.len(),
    ensures
        match r {
            Option::Some(p) => {
                &&& i <= p.1 <= v@.len()
                &&& v@.subrange(i as int, p.1 as int) == ser_opt_num(view_opt_string(p.0))
                &&& match p.0 {
                    Option::Some(d) => is_json_number(d@),
                    Option::None => true,
                }
            },
            Option::None => true,
        },
        forall|o: Option<Seq<char>>| #[trigger]
            opt_num_at(v@, i as int, o) ==> (r matches Option::Some(p) && view_opt_string(p.0) == o
                && p.1 as int == i + ser_opt_num(o).len()),
{
    let ghost s = v@;
    proof {
        reveal_strlit("null");
        assert forall|o: Option<Seq<char>>| #[trigger]
            opt_num_at(s, i as int, o) implies i < s.len() && s[i as int] == ser_opt_num(o)[0]
            && (o matches Option::Some(d) ==> (d[0] == '-' || is_dec_digit(d[0]))) by {
            assert(s.subrange(i as int, i + ser_opt_num(o).len() as int)[0] == ser_opt_num(o)[0]);
            if o is Some {
                lemma_json_number_first(o->Some_0);
            }
        }
    }
    if i >= v.len() {
        proof {
            assert forall|o: Option<Seq<char>>| !opt_num_at(s, i as int, o) by {
                if opt_num_at(s, i as int, o) {
                }
            }
        }
        return Option::None;
    }
    let c0 = v[i];
    if c0 == 'n' {
        match expect_lit(v, i, "null") {
            Option::Some(j) => {
                proof {
                    assert forall|o: Option<Seq<char>>| #[trigger]
                        opt_num_at(s, i as int, o) implies o is None by {
                        if o is Some {
                            assert(s[i as int] == ser_opt_num(o)[0]);
                        }
                    }
                }
                Option::Some((Option::None, j))
            },
            Option::None => {
                proof {
                    assert forall|o: Option<Seq<char>>| !opt_num_at(s, i as int, o) by {
                        if opt_num_at(s, i as int, o) {
                            assert(s[i as int] == ser_opt_num(o)[0]);
                        }
                    }
                }
                Option::None
            },
        }
    } else {
        let mut j = i;
        while j < v.len() && crate::jsontext::is_num_char_exec(v[j])
            invariant
                i <= j <= v@.len(),
                s == v@,
                v@.len() <= usize::MAX,
                forall|m: int| i <= m < j ==> crate::jsontext::is_num_char(#[trigger] s[m]),
            decreases v@.len() - j,
        {
            j = j + 1;
        }
        proof {
            assert forall|o: Option<Seq<char>>| #[trigger]
                opt_num_at(s, i as int, o) implies (o matches Option::Some(d) && j as int == i
                + d.len() && s.subrange(i as int, j as int) == d) by {
                match o {
                    Option::Some(d) => {
                        crate::jsontext::lemma_json_number_chars(d);
                        assert forall|m: int| i <= m < i + d.len() implies crate::jsontext::is_num_char(
                            #[trigger] s[m],
                        ) by {
                            assert(s.subrange(i as int, i + d.len() as int)[m - i] == d[m - i]);
                        }
                        if (j as int) < i + d.len() {
                            assert(s[j as int] == s.subrange(i as int, i + d.len() as int)[j - i]);
                            assert(crate::jsontext::is_num_char(s[j as int]));
                            assert(false);
                        }
                        if (j as int) > i + d.len() {
                            assert(crate::jsontext::is_num_char(s[i + d.len() as int]));
                            assert(false);
                        }
                    },
                    Option::None => {
                        assert(s[i as int] == 'n');
                    },
                }
            }
        }
        if j == i {
            proof {
                assert forall|o: Option<Seq<char>>| !opt_num_at(s, i as int, o) by {
                    if opt_num_at(s, i as int, o) {
                        lemma_json_number_first(o->Some_0);
                    }
                }
            }
            return Option::None;
        }
        let mut lex: Vec<char> = Vec::new();
        let mut k = i;
        while k < j
            invariant
                i <= k <= j <= v@.len(),
                s == v@,
                lex@ == s.subrange(i as int, k as int),
            decreases j - k,
        {
            let c = v[k];
            lex.push(c);
            proof {
                assert(lex@ =~= s.subrange(i as int, k + 1));
            }
            k = k + 1;
        }
        if crate::jsontext::is_json_number_exec(&lex) {
            let st = chars_to_string(&lex);
            Option::Some((Option::Some(st), j))
        } else {
            proof {
                assert forall|o: Option<Seq<char>>| !opt_num_at(s, i as int, o) by {
                    if opt_num_at(s, i as int, o) {
                        assert(lex@ == o->Some_0);
                    }
                }
            }
            Option::None
        }
    }
}

} // verus!

verus! {

// ===== whole entries =====

/// Cutting a known stretch of text in two.
proof fn lemma_peel(s: Seq<char>, i: int, a: Seq<char>, b: Seq<char>)
    requires
        0 <= i,
        i + a.len() + b.len() <= s.len(),
        s.subrange(i, i + a.len() + b.len()) == a + b,
    ensures
        s.subrange(i, i + a.len() as int) == a,
        s.subrange(i + a.len() as int, i + a.len() + b.len()) == b,
{
    assert forall|x: int| 0 <= x < a.len() implies s.subrange(i, i + a.len() as int)[x] == a[x] by {
        assert(s.subrange(i, i + a.len() + b.len())[x] == (a + b)[x]);
    }
    assert(s.subrange(i, i + a.len() as int) =~= a);
    assert forall|x: int| 0 <= x < b.len() implies s.subrange(
        i + a.len() as int,
        i + a.len() + b.len(),
    )[x] == b[x] by {
        assert(s.subrange(i, i + a.len() + b.len())[a.len() + x] == (a + b)[a.len() + x]);
        assert((a + b)[a.len() + x] == b[x]);
        assert(s[i + a.len() + x] == b[x]);
        assert(s.subrange(i + a.len() as int, i + a.len() + b.len())[x] == s[i + a.len() + x]);
    }
    assert(s.subrange(i + a.len() as int, i + a.len() + b.len()) =~= b);
}

/// Joining two adjacent stretches of text.
proof fn lemma_glue(s: Seq<char>, i: int, m: int, j: int)
    requires
        0 <= i <= m <= j <= s.len(),
    ensures
        s.subrange(i, j) == s.subrange(i, m) + s.subrange(m, j),
{
    assert(s.subrange(i, j) =~= s.subrange(i, m) + s.subrange(m, j));
}

/// The serialized form of the entry `e` sits at position `i`, and `e` is
/// well formed.
pub open spec fn entry_at(s: Seq<char>, i: int, e: EntryView) -> bool {
    &&& 0 <= i
    &&& e.wf()
    &&& i + ser_entry(e).len() <= s.len()
    &&& s.subrange(i, i + ser_entry(e).len() as int) == ser_entry(e)
}

/// Where each piece of a serialized entry sits, counted from its start.
#[verifier::rlimit(100)]
proof fn lemma_entry_decompose(s: Seq<char>, i: int, e: EntryView)
    requires
        entry_at(s, i, e),
    ensures
        ({
            let p1 = i + "    {\n      \"id\": "@.len();
            let p2 = p1 + dec_digits(e.id as nat).len();
            let p3 = p2 + ",\n      \"timestamp\": "@.len();
            let p4 = p3 + ser_i64(e.timestamp).len();
            let p5 = p4 + ",\n      \"text\": "@.len();
            let p6 = p5 + ser_jstr(e.text).len();
            let p7 = p6 + ",\n      \"success\": "@.len();
            let p8 = p7 + ser_bool(e.success).len();
            let p9 = p8 + ",\n      \"error_message\": "@.len();
            let p10 = p9 + ser_opt_jstr(e.error_message).len();
            let p11 = p10 + ",\n      \"duration\": "@.len();
            let p12 = p11 + ser_opt_num(e.duration).len();
            let p13 = p12 + ",\n      \"response_body\": "@.len();
            let p14 = p13 + ser_opt_jstr(e.response_body).len();
            &&& i + ser_entry(e).len() == p14 + "\n    }"@.len()
            &&& s.subrange(i, p1) == "    {\n      \"id\": "@
            &&& u64_at(s, p1, e.id)
            &&& s.subrange(p2, p3) == ",\n      \"timestamp\": "@
            &&& i64_at(s, p3, e.timestamp)
            &&& s.subrange(p4, p5) == ",\n      \"text\": "@
            &&& jstr_at(s, p5, e.text)
            &&& s.subrange(p6, p7) == ",\n      \"success\": "@
            &&& bool_at(s, p7, e.success)
            &&& s.subrange(p8, p9) == ",\n      \"error_message\": "@
            &&& opt_jstr_at(s, p9, e.error_message)
            &&& s.subrange(p10, p11) == ",\n      \"duration\": "@
            &&& opt_num_at(s, p11, e.duration)
            &&& s.subrange(p12, p13) == ",\n      \"response_body\": "@
            &&& opt_jstr_at(s, p13, e.response_body)
            &&& s.subrange(p14, i + ser_entry(e).len()) == "\n    }"@
        }),
{
    reveal_strlit(",\n      \"timestamp\": ");
    reveal_strlit(",\n      \"text\": ");
    reveal_strlit(",\n      \"success\": ");
    reveal_strlit(",\n      \"error_message\": ");
    reveal_strlit(",\n      \"duration\": ");
    reveal_strlit(",\n      \"response_body\": ");
    reveal_strlit("\n    }");
    let p1 = i + "    {\n      \"id\": "@.len();
    let p2 = p1 + dec_digits(e.id as nat).len();
    let p3 = p2 + ",\n      \"timestamp\": "@.len();
    let p4 = p3 + ser_i64(e.timestamp).len();
    let p5 = p4 + ",\n      \"text\": "@.len();
    let p6 = p5 + ser_jstr(e.text).len();
    let p7 = p6 + ",\n      \"success\": "@.len();
    let p8 = p7 + ser_bool(e.success).len();
    let p9 = p8 + ",\n      \"error_message\": "@.len();
    let p10 = p9 + ser_opt_jstr(e.error_message).len();
    let p11 = p10 + ",\n      \"duration\": "@.len();
    let p12 = p11 + ser_opt_num(e.duration).len();
    let p13 = p12 + ",\n      \"response_body\": "@.len();
    let p14 = p13 + ser_opt_jstr(e.response_body).len();
    lemma_peel(s, i, "    {\n      \"id\": "@, ser_entry_from_id(e));
    lemma_peel(s, p1, dec_digits(e.id as nat), ser_entry_from_ts(e));
    lemma_peel(s, p2, ",\n      \"timestamp\": "@, ser_entry_from_ts_val(e));
    lemma_peel(s, p3, ser_i64(e.timestamp), ser_entry_from_text(e));
    lemma_peel(s, p4, ",\n      \"text\": "@, ser_entry_from_text_val(e));
    lemma_peel(s, p5, ser_jstr(e.text), ser_entry_from_success(e));
    lemma_peel(s, p6, ",\n      \"success\": "@, ser_entry_from_success_val(e));
    lemma_peel(s, p7, ser_bool(e.success), ser_entry_from_err(e));
    lemma_peel(s, p8, ",\n      \"error_message\": "@, ser_entry_from_err_val(e));
    lemma_peel(s, p9, ser_opt_jstr(e.error_message), ser_entry_from_dur(e));
    lemma_peel(s, p10, ",\n      \"duration\": "@, ser_entry_from_dur_val(e));
    lemma_peel(s, p11, ser_opt_num(e.duration), ser_entry_from_body(e));
    lemma_peel(s, p12, ",\n      \"response_body\": "@, ser_entry_from_body_val(e));
    lemma_peel(s, p13, ser_opt_jstr(e.response_body), "\n    }"@);
    assert(s.subrange(p2, p3)[0] == ',');
    assert(s.subrange(p4, p5)[0] == ',');
    assert(s[p2] == ',' && s[p4] == ',');
    if e.duration is Some {
        assert(s.subrange(p12, p13)[0] == ',');
        assert(s[p12] == ',');
    }
}

/// Glues the parsed pieces back together: the text read from `i` to the
/// closing brace is exactly the serialized form of the entry built from the
/// parsed fields.
#[verifier::rlimit(100)]
proof fn lemma_entry_glue(
    s: Seq<char>,
    i: int,
    q1: int,
    q2: int,
    q3: int,
    q4: int,
    q5: int,
    q6: int,
    q7: int,
    q8: int,
    q9: int,
    q10: int,
    q11: int,
    q12: int,
    q13: int,
    q14: int,
    q15: int,
    ev: EntryView,
)
    requires
        0 <= i <= q1 <= q2 <= q3 <= q4 <= q5 <= q6 <= q7 <= q8 <= q9 <= q10 <= q11 <= q12 <= q13
            <= q14 <= q15 <= s.len(),
        s.subrange(i, q1) == "    {\n      \"id\": "@,
        s.subrange(q1, q2) == dec_digits(ev.id as nat),
        s.subrange(q2, q3) == ",\n      \"timestamp\": "@,
        s.subrange(q3, q4) == ser_i64(ev.timestamp),
        s.subrange(q4, q5) == ",\n      \"text\": "@,
        s.subrange(q5, q6) == ser_jstr(ev.text),
        s.subrange(q6, q7) == ",\n      \"success\": "@,
        s.subrange(q7, q8) == ser_bool(ev.success),
        s.subrange(q8, q9) == ",\n      \"error_message\": "@,
        s.subrange(q9, q10) == ser_opt_jstr(ev.error_message),
        s.subrange(q10, q11) == ",\n      \"duration\": "@,
        s.subrange(q11, q12) == ser_opt_num(ev.duration),
        s.subrange(q12, q13) == ",\n      \"response_body\": "@,
        s.subrange(q13, q14) == ser_opt_jstr(ev.response_body),
        s.subrange(q14, q15) == "\n    }"@,
    ensures
        s.subrange(i, q15) == ser_entry(ev),
        q15 == i + ser_entry(ev).len(),
{
    lemma_glue(s, q13, q14, q15);
    assert(s.subrange(q13, q15) =~= ser_entry_from_body_val(ev));
    lemma_glue(s, q12, q13, q15);
    assert(s.subrange(q12, q15) =~= ser_entry_from_body(ev));
    lemma_glue(s, q11, q12, q15);
    assert(s.subrange(q11, q15) =~= ser_entry_from_dur_val(ev));
    lemma_glue(s, q10, q11, q15);
    assert(s.subrange(q10, q15) =~= ser_entry_from_dur(ev));
    lemma_glue(s, q9, q10, q15);
    assert(s.subrange(q9, q15) =~= ser_entry_from_err_val(ev));
    lemma_glue(s, q8, q9, q15);
    assert(s.subrange(q8, q15) =~= ser_entry_from_err(ev));
    lemma_glue(s, q7, q8, q15);
    assert(s.subrange(q7, q15) =~= ser_entry_from_success_val(ev));
    lemma_glue(s, q6, q7, q15);
    assert(s.subrange(q6, q15) =~= ser_entry_from_success(ev));
    lemma_glue(s, q5, q6, q15);
    assert(s.subrange(q5, q15) =~= ser_entry_from_text_val(ev));
    lemma_glue(s, q4, q5, q15);
    assert(s.subrange(q4, q15) =~= ser_entry_from_text(ev));
    lemma_glue(s, q3, q4, q15);
    assert(s.subrange(q3, q15) =~= ser_entry_from_ts_val(ev));
    lemma_glue(s, q2, q3, q15);
    assert(s.subrange(q2, q15) =~= ser_entry_from_ts(ev));
    lemma_glue(s, q1, q2, q15);
    assert(s.subrange(q1, q15) =~= ser_entry_from_id(ev));
    lemma_glue(s, i, q1, q15);
    assert(s.subrange(i, q15) =~= ser_entry(ev));
}

/// Reads one serialized entry.
#[verifier::rlimit(100)]
fn parse_entry(v: &Vec<char>, i: usize) -> (r: Option<(WebhookHistoryEntry, usize)>)
    requires
        i <= v@.len(),
    ensures
        match r {
            Option::Some(p) => {
                &&& i <= p.1 <= v@.len()
                &&& v@.subrange(i as int, p.1 as int) == ser_entry(p.0@)
                &&& p.0@.wf()
            },
            Option::None => true,
        },
        forall|e: EntryView| #[trigger]
            entry_at(v@, i as int, e) ==> (r matches Option::Some(p) && p.0@ == e && p.1 as int == i
                + ser_entry(e).len()),
{
    let ghost s = v@;
    let q1 = match expect_lit(v, i, "    {\n      \"id\": ") {
        Option::Some(q) => q,
        Option::None => {
            proof {
                assert forall|e: EntryView| !entry_at(s, i as int, e) by {
                    if entry_at(s, i as int, e) {
                        lemma_entry_decompose(s, i as int, e);
                    }
                }
            }
            return Option::None;
        },
    };
    let r2 = parse_u64(v, q1);
    proof {
        assert forall|e: EntryView| #[trigger] entry_at(s, i as int, e) implies (r2
            matches Option::Some(p) && p.0 == e.id && p.1 as int == q1 + dec_digits(
            e.id as nat,
        ).len()) by {
            lemma_entry_decompose(s, i as int, e);
            assert(u64_at(s, q1 as int, e.id));
        }
    }
    let (idv, q2) = match r2 {
        Option::Some(p) => p,
        Option::None => {
            return Option::None;
        },
    };
    let r3 = expect_lit(v, q2, ",\n      \"timestamp\": ");
    proof {
        assert forall|e: EntryView| #[trigger] entry_at(s, i as int, e) implies (r3
            matches Option::Some(q) && idv == e.id) by {
            lemma_entry_decompose(s, i as int, e);
            assert(u64_at(s, q1 as int, e.id));
        }
    }
    let q3 = match r3 {
        Option::Some(q) => q,
        Option::None => {
            return Option::None;
        },
    };
    let r4 = parse_i64(v, q3);
    proof {
        assert forall|e: EntryView| #[trigger] entry_at(s, i as int, e) implies (r4
            matches Option::Some(p) && p.0 == e.timestamp && p.1 as int == q3 + ser_i64(
            e.timestamp,
        ).len()) by {
            lemma_entry_decompose(s, i as int, e);
            assert(u64_at(s, q1 as int, e.id));
            assert(i64_at(s, q3 as int, e.timestamp));
        }
    }
    let (tsv, q4) = match r4 {
        Option::Some(p) => p,
        Option::None => {
            return Option::None;
        },
    };
    let r5 = expect_lit(v, q4, ",\n      \"text\": ");
    proof {
        assert forall|e: EntryView| #[trigger] entry_at(s, i as int, e) implies (r5
            matches Option::Some(q)) by {
            lemma_entry_decompose(s, i as int, e);
            assert(u64_at(s, q1 as int, e.id));
            assert(i64_at(s, q3 as int, e.timestamp));
        }
    }
    let q5 = match r5 {
        Option::Some(q) => q,
        Option::None => {
            return Option::None;
        },
    };
    let r6 = parse_jstr(v, q5);
    proof {
        assert forall|e: EntryView| #[trigger] entry_at(s, i as int, e) implies (r6
            matches Option::Some(p) && p.0@ == e.text && p.1 as int == q5 + ser_jstr(
            e.text,
        ).len()) by {
            lemma_entry_decompose(s, i as int, e);
            assert(u64_at(s, q1 as int, e.id));
            assert(i64_at(s, q3 as int, e.timestamp));
            assert(jstr_at(s, q5 as int, e.text));
        }
    }
    let (textv, q6) = match r6 {
        Option::Some(p) => p,
        Option::None => {
            return Option::None;
        },
    };
    let r7 = expect_lit(v, q6, ",\n      \"success\": ");
    proof {
        assert forall|e: EntryView| #[trigger] entry_at(s, i as int, e) implies (r7
            matches Option::Some(q)) by {
            lemma_entry_decompose(s, i as int, e);
            assert(u64_at(s, q1 as int, e.id));
            assert(i64_at(s, q3 as int, e.timestamp));
            assert(jstr_at(s, q5 as int, e.text));
        }
    }
    let q7 = match r7 {
        Option::Some(q) => q,
        Option::None => {
            return Option::None;
        },
    };
    let r8 = parse_bool(v, q7);
    proof {
        assert forall|e: EntryView| #[trigger] entry_at(s, i as int, e) implies (r8
            matches Option::Some(p) && p.0 == e.success && p.1 as int == q7 + ser_bool(
            e.success,
        ).len()) by {
            lemma_entry_decompose(s, i as int, e);
            assert(u64_at(s, q1 as int, e.id));
            assert(i64_at(s, q3 as int, e.timestamp));
            assert(jstr_at(s, q5 as int, e.text));
            assert(bool_at(s, q7 as int, e.success));
        }
    }
    let (succv, q8) = match r8 {
        Option::Some(p) => p,
        Option::None => {
            return Option::None;
        },
    };
    let r9 = expect_lit(v, q8, ",\n      \"error_message\": ");
    proof {
        assert forall|e: EntryView| #[trigger] entry_at(s, i as int, e) implies (r9
            matches Option::Some(q)) by {
            lemma_entry_decompose(s, i as int, e);
            assert(u64_at(s, q1 as int, e.id));
            assert(i64_at(s, q3 as int, e.timestamp));
            assert(jstr_at(s, q5 as int, e.text));
            assert(bool_at(s, q7 as int, e.success));
        }
    }
    let q9 = match r9 {
        Option::Some(q) => q,
        Option::None => {
            return Option::None;
        },
    };
    let r10 = parse_opt_jstr(v, q9);
    proof {
        assert forall|e: EntryView| #[trigger] entry_at(s, i as int, e) implies (r10
            matches Option::Some(p) && view_opt_string(p.0) == e.error_message && p.1 as int == q9
            + ser_opt_jstr(e.error_message).len()) by {
            lemma_entry_decompose(s, i as int, e);
            assert(u64_at(s, q1 as int, e.id));
            assert(i64_at(s, q3 as int, e.timestamp));
            assert(jstr_at(s, q5 as int, e.text));
            assert(bool_at(s, q7 as int, e.success));
            assert(opt_jstr_at(s, q9 as int, e.error_message));
        }
    }
    let (errv, q10) = match r10 {
        Option::Some(p) => p,
        Option::None => {
            return Option::None;
        },
    };
    let r11 = expect_lit(v, q10, ",\n      \"duration\": ");
    proof {
        assert forall|e: EntryView| #[trigger] entry_at(s, i as int, e) implies (r11
            matches Option::Some(q)) by {
            lemma_entry_decompose(s, i as int, e);
            assert(u64_at(s, q1 as int, e.id));
            assert(i64_at(s, q3 as int, e.timestamp));
            assert(jstr_at(s, q5 as int, e.text));
            assert(bool_at(s, q7 as int, e.success));
            assert(opt_jstr_at(s, q9 as int, e.error_message));
        }
    }
    let q11 = match r11 {
        Option::Some(q) => q,
        Option::None => {
            return Option::None;
        },
    };
    let r12 = parse_opt_num(v, q11);
    proof {
        assert forall|e: EntryView| #[trigger] entry_at(s, i as int, e) implies (r12
            matches Option::Some(p) && view_opt_string(p.0) == e.duration && p.1 as int == q11
            + ser_opt_num(e.duration).len()) by {
            lemma_entry_decompose(s, i as int, e);
            assert(u64_at(s, q1 as int, e.id));
            assert(i64_at(s, q3 as int, e.timestamp));
            assert(jstr_at(s, q5 as int, e.text));
            assert(bool_at(s, q7 as int, e.success));
            assert(opt_jstr_at(s, q9 as int, e.error_message));
            assert(opt_num_at(s, q11 as int, e.duration));
        }
    }
    let (durv, q12) = match r12 {
        Option::Some(p) => p,
        Option::None => {
            return Option::None;
        },
    };
    let r13 = expect_lit(v, q12, ",\n      \"response_body\": ");
    proof {
        assert forall|e: EntryView| #[trigger] entry_at(s, i as int, e) implies (r13
            matches Option::Some(q)) by {
            lemma_entry_decompose(s, i as int, e);
            assert(u64_at(s, q1 as int, e.id));
            assert(i64_at(s, q3 as int, e.timestamp));
            assert(jstr_at(s, q5 as int, e.text));
            assert(bool_at(s, q7 as int, e.success));
            assert(opt_jstr_at(s, q9 as int, e.error_message));
            assert(opt_num_at(s, q11 as int, e.duration));
        }
    }
    let q13 = match r13 {
        Option::Some(q) => q,
        Option::None => {
            return Option::None;
        },
    };
    let r14 = parse_opt_jstr(v, q13);
    proof {
        assert forall|e: EntryView| #[trigger] entry_at(s, i as int, e) implies (r14
            matches Option::Some(p) && view_opt_string(p.0) == e.response_body && p.1 as int == q13
            + ser_opt_jstr(e.response_body).len()) by {
            lemma_entry_decompose(s, i as int, e);
            assert(u64_at(s, q1 as int, e.id));
            assert(i64_at(s, q3 as int, e.timestamp));
            assert(jstr_at(s, q5 as int, e.text));
            assert(bool_at(s, q7 as int, e.success));
            assert(opt_jstr_at(s, q9 as int, e.error_message));
            assert(opt_num_at(s, q11 as int, e.duration));
            assert(opt_jstr_at(s, q13 as int, e.response_body));
        }
    }
    let (bodyv, q14) = match r14 {
        Option::Some(p) => p,
        Option::None => {
            return Option::None;
        },
    };
    let r15 = expect_lit(v, q14, "\n    }");
    proof {
        assert forall|e: EntryView| #[trigger] entry_at(s, i as int, e) implies (r15
            matches Option::Some(q) && q as int == i + ser_entry(e).len()) by {
            lemma_entry_decompose(s, i as int, e);
            assert(u64_at(s, q1 as int, e.id));
            assert(i64_at(s, q3 as int, e.timestamp));
            assert(jstr_at(s, q5 as int, e.text));
            assert(bool_at(s, q7 as int, e.success));
            assert(opt_jstr_at(s, q9 as int, e.error_message));
            assert(opt_num_at(s, q11 as int, e.duration));
            assert(opt_jstr_at(s, q13 as int, e.response_body));
        }
    }
    let q15 = match r15 {
        Option::Some(q) => q,
        Option::None => {
            return Option::None;
        },
    };
    let text = chars_to_string(&textv);
    let entry = WebhookHistoryEntry {
        id: idv,
        timestamp: tsv,
        text,
        success: succv,
        error_message: errv,
        duration: durv,
        response_body: bodyv,
    };
    proof {
        let ev = entry@;
        lemma_entry_glue(
            s,
            i as int,
            q1 as int,
            q2 as int,
            q3 as int,
            q4 as int,
            q5 as int,
            q6 as int,
            q7 as int,
            q8 as int,
            q9 as int,
            q10 as int,
            q11 as int,
            q12 as int,
            q13 as int,
            q14 as int,
            q15 as int,
            ev,
        );
        assert forall|e: EntryView| #[trigger] entry_at(s, i as int, e) implies e == ev by {
            assert(e.id == ev.id && e.timestamp == ev.timestamp && e.text == ev.text && e.success
                == ev.success && e.error_message == ev.error_message && e.duration == ev.duration
                && e.response_body == ev.response_body);
        }
    }
    Option::Some((entry, q15))
}

} // verus!

verus! {

// ===== the entries array and the whole file =====

/// The serialized entry list for `es` sits at position `i`, every entry is
/// well formed, and the character after the list is the line break that
/// opens the closing bracket.
pub open spec fn list_at(s: Seq<char>, i: int, es: Seq<EntryView>) -> bool {
    &&& 0 <= i
    &&& es.len() >= 1
    &&& forall|k: int| 0 <= k < es.len() ==> (#[trigger] es[k]).wf()
    &&& i + ser_entries(es).len() < s.len()
    &&& s.subrange(i, i + ser_entries(es).len() as int) == ser_entries(es)
    &&& s[i + ser_entries(es).len() as int] == '\n'
}

/// Splitting a serialized list after its first `k` entries.
proof fn lemma_ser_entries_split(es: Seq<EntryView>, k: int)
    requires
        1 <= k < es.len(),
    ensures
        ser_entries(es) == ser_entries(es.take(k)) + ",\n"@ + ser_entries(es.skip(k)),
    decreases k,
{
    if k == 1 {
        assert(es.take(1) =~= seq![es[0]]);
        assert(ser_entries(seq![es[0]]) == ser_entry(es[0]));
        assert(es.skip(1) =~= es.drop_first());
        assert(ser_entries(es) == ser_entry(es[0]) + ",\n"@ + ser_entries(es.drop_first()));
    } else {
        let df = es.drop_first();
        lemma_ser_entries_split(df, k - 1);
        assert(es.take(k)[0] == es[0]);
        assert(es.take(k).drop_first() =~= df.take(k - 1));
        assert(es.skip(k) =~= df.skip(k - 1));
        assert(es.take(k).len() == k);
        assert(ser_entries(es.take(k)) == ser_entry(es[0]) + ",\n"@ + ser_entries(df.take(k - 1)));
        assert(ser_entries(es) == ser_entry(es[0]) + ",\n"@ + ser_entries(df));
        assert(ser_entry(es[0]) + ",\n"@ + (ser_entries(df.take(k - 1)) + ",\n"@ + ser_entries(
            df.skip(k - 1),
        )) =~= (ser_entry(es[0]) + ",\n"@ + ser_entries(df.take(k - 1))) + ",\n"@ + ser_entries(
            df.skip(k - 1),
        ));
    }
}

/// Reads the entries of a non-empty serialized list, stopping before the
/// line break that closes it.
#[verifier::rlimit(100)]
fn parse_entries(v: &Vec<char>, i: usize) -> (r: Option<(Vec<WebhookHistoryEntry>, usize)>)
    requires
        i <= v@.len(),
    ensures
        match r {
            Option::Some(p) => {
                &&& i <= p.1 <= v@.len()
                &&& p.0.deep_view().len() >= 1
                &&& v@.subrange(i as int, p.1 as int) == ser_entries(p.0.deep_view())
                &&& forall|k: int|
                    0 <= k < p.0.deep_view().len() ==> (#[trigger] p.0.deep_view()[k]).wf()
            },
            Option::None => true,
        },
        forall|es: Seq<EntryView>| #[trigger]
            list_at(v@, i as int, es) ==> (r matches Option::Some(p) && p.0.deep_view() == es && p.1
                as int == i + ser_entries(es).len()),
{
    let ghost s = v@;
    let vlen = v.len();
    let r1 = parse_entry(v, i);
    proof {
        assert forall|es: Seq<EntryView>| #[trigger] list_at(s, i as int, es) implies (r1
            matches Option::Some(p) && p.0@ == es[0] && p.1 as int == i + ser_entry(
            es[0],
        ).len()) by {
            if es.len() == 1 {
                assert(ser_entries(es) == ser_entry(es[0]));
                assert(entry_at(s, i as int, es[0]));
            } else {
                lemma_ser_entries_split(es, 1);
                assert(es.take(1) =~= seq![es[0]]);
                assert(ser_entries(es.take(1)) == ser_entry(es[0]));
                assert(ser_entries(es) =~= ser_entry(es[0]) + (",\n"@ + ser_entries(es.skip(1))));
                lemma_peel(
                    s,
                    i as int,
                    ser_entry(es[0]),
                    ",\n"@ + ser_entries(es.skip(1)),
                );
                assert(es[0].wf());
                assert(entry_at(s, i as int, es[0]));
            }
        }
    }
    let (first, mut cur) = match r1 {
        Option::Some(p) => p,
        Option::None => {
            return Option::None;
        },
    };
    let mut acc: Vec<WebhookHistoryEntry> = Vec::new();
    acc.push(first);
    proof {
        assert(acc@[0] == first);
        assert(acc.deep_view() =~= seq![first@]);
        assert(acc.deep_view()[0] == first@);
        assert(ser_entries(acc.deep_view()) == ser_entry(first@));
        assert forall|es: Seq<EntryView>| #[trigger] list_at(s, i as int, es) implies 1 <= es.len()
            && es.take(1) == acc.deep_view() && cur as int == i + ser_entries(es.take(1)).len() by {
            assert(es.take(1) =~= seq![es[0]]);
            assert(acc.deep_view() =~= seq![es[0]]);
            assert(ser_entries(es.take(1)) == ser_entry(es[0]));
        }
    }
    loop
        invariant
            i <= cur <= s.len(),
            s == v@,
            s.len() <= usize::MAX,
            acc.deep_view().len() >= 1,
            s.subrange(i as int, cur as int) == ser_entries(acc.deep_view()),
            forall|k: int| 0 <= k < acc.deep_view().len() ==> (#[trigger] acc.deep_view()[k]).wf(),
            forall|es: Seq<EntryView>| #[trigger]
                list_at(s, i as int, es) ==> acc.deep_view().len() <= es.len() && es.take(
                    acc.deep_view().len() as int,
                ) == acc.deep_view() && cur as int == i + ser_entries(
                    es.take(acc.deep_view().len() as int),
                ).len(),
        decreases s.len() - cur,
    {
        let ghost k0 = acc.deep_view().len() as int;
        proof {
            assert forall|es: Seq<EntryView>| #[trigger]
                list_at(s, i as int, es) implies (if es.len() == k0 {
                cur < s.len() && s[cur as int] == '\n'
            } else {
                cur + 2 <= s.len() && s.subrange(cur as int, cur + 2) == ",\n"@ && entry_at(
                    s,
                    cur + 2,
                    es[k0],
                ) && i + ser_entries(es.take(k0 + 1)).len() == cur + 2 + ser_entry(es[k0]).len()
            }) by {
                reveal_strlit(",\n");
                assert(",\n"@.len() == 2);
                if es.len() == k0 {
                    assert(es.take(k0) =~= es);
                } else {
                    lemma_ser_entries_split(es, k0);
                    assert(ser_entries(es) =~= ser_entries(es.take(k0)) + (",\n"@ + ser_entries(
                        es.skip(k0),
                    )));
                    lemma_peel(
                        s,
                        i as int,
                        ser_entries(es.take(k0)),
                        ",\n"@ + ser_entries(es.skip(k0)),
                    );
                    lemma_peel(s, cur as int, ",\n"@, ser_entries(es.skip(k0)));
                    let rest = es.skip(k0);
                    assert(rest[0] == es[k0]);
                    assert(es[k0].wf());
                    assert(s.subrange(cur as int, cur + 2) == ",\n"@);
                    assert(s.subrange(cur as int, cur + 2)[0] == ',');
                    assert(s[cur as int] == ',');
                    assert(s.subrange(cur + 2, cur + 2 + ser_entries(rest).len()) == ser_entries(
                        rest,
                    ));
                    if rest.len() == 1 {
                        assert(ser_entries(rest) == ser_entry(es[k0]));
                        assert(entry_at(s, cur + 2, es[k0]));
                        assert(es.take(k0 + 1) =~= es);
                    } else {
                        assert(ser_entries(rest) =~= ser_entry(rest[0]) + (",\n"@ + ser_entries(
                            rest.drop_first(),
                        )));
                        lemma_peel(
                            s,
                            cur + 2,
                            ser_entry(rest[0]),
                            ",\n"@ + ser_entries(rest.drop_first()),
                        );
                        assert(entry_at(s, cur + 2, es[k0]));
                        lemma_ser_entries_split(es, k0 + 1);
                        assert(es.take(k0 + 1).take(k0) =~= es.take(k0));
                        assert(es.take(k0 + 1)[k0] == es[k0]);
                        if k0 + 1 == 1 {
                        } else {
                            lemma_ser_entries_split(es.take(k0 + 1), k0);
                            assert(es.take(k0 + 1).skip(k0) =~= seq![es[k0]]);
                            assert(ser_entries(seq![es[k0]]) == ser_entry(es[k0]));
                        }
                    }
                }
            }
        }
        if cur >= v.len() {
            proof {
                assert forall|es: Seq<EntryView>| !list_at(s, i as int, es) by {
                    if list_at(s, i as int, es) {
                        assert(cur < s.len());
                    }
                }
            }
            return Option::Some((acc, cur));
        }
        let c = v[cur];
        if c != ',' {
            proof {
                reveal_strlit(",\n");
                assert forall|es: Seq<EntryView>| #[trigger]
                    list_at(s, i as int, es) implies acc.deep_view() == es && cur as int == i
                    + ser_entries(es).len() by {
                    if es.len() != k0 {
                        assert(s.subrange(cur as int, cur + 2)[0] == ',');
                        assert(s[cur as int] == ',');
                    }
                    assert(es.take(k0) =~= es);
                }
            }
            return Option::Some((acc, cur));
        }
        let r2 = expect_lit(v, cur, ",\n");
        proof {
            assert forall|es: Seq<EntryView>| #[trigger]
                list_at(s, i as int, es) implies es.len() > k0 && (r2 matches Option::Some(q)) by {
                if es.len() == k0 {
                    assert(s[cur as int] == '\n');
                }
            }
        }
        let c2 = match r2 {
            Option::Some(q) => q,
            Option::None => {
                return Option::None;
            },
        };
        let r3 = parse_entry(v, c2);
        proof {
            assert forall|es: Seq<EntryView>| #[trigger]
                list_at(s, i as int, es) implies (r3 matches Option::Some(p) && p.0@ == es[k0] && p.1
                as int == c2 + ser_entry(es[k0]).len()) by {
                assert(entry_at(s, cur + 2, es[k0]));
            }
        }
        let (en, c3) = match r3 {
            Option::Some(p) => p,
            Option::None => {
                return Option::None;
            },
        };
        let ghost acc0 = acc.deep_view();
        acc.push(en);
        proof {
            assert forall|x: int| 0 <= x < acc.deep_view().len() implies acc.deep_view()[x] == (
            acc0.push(en@))[x] by {
                if x < acc0.len() {
                    assert(acc@[x] == acc@.subrange(0, acc@.len() - 1)[x]);
                }
            }
            assert(acc.deep_view() =~= acc0.push(en@));
            lemma_ser_entries_push(acc0, en@);
            assert(ser_entries(seq![en@]) == ser_entry(en@));
            lemma_glue(s, cur as int, c2 as int, c3 as int);
            lemma_glue(s, i as int, cur as int, c3 as int);
            assert(s.subrange(i as int, c3 as int) =~= ser_entries(acc.deep_view()));
            assert forall|es: Seq<EntryView>| #[trigger]
                list_at(s, i as int, es) implies acc.deep_view().len() <= es.len() && es.take(
                acc.deep_view().len() as int,
            ) == acc.deep_view() && c3 as int == i + ser_entries(
                es.take(acc.deep_view().len() as int),
            ).len() by {
                assert(es.len() > k0);
                assert(en@ == es[k0]);
                assert(es.take(k0 + 1) =~= es.take(k0).push(es[k0]));
                assert(es.take(k0) == acc0);
                assert(acc.deep_view() =~= es.take(k0 + 1));
            }
        }
        cur = c3;
    }
}

} // verus!

verus! {

/// The text `s` is exactly the file format for the store `dv`, and `dv`
/// satisfies the store invariant.
pub open spec fn hist_at(s: Seq<char>, dv: DataView) -> bool {
    &&& dv.inv()
    &&& s == ser_history(dv)
}

/// Ids strictly decreasing between neighbours order the whole ring.
proof fn lemma_desc_pair(es: Seq<EntryView>, a: int, b: int)
    requires
        forall|m: int| 0 <= m && m + 1 < es.len() ==> (#[trigger] es[m]).id > es[m + 1].id,
        0 <= a < b < es.len(),
    ensures
        es[a].id > es[b].id,
    decreases b - a,
{
    if a + 1 < b {
        lemma_desc_pair(es, a + 1, b);
    }
}

/// Reads the whole history file. Hands back a store exactly when the text
/// is the file format of a well-formed store, and then that store: what was
/// saved with `serialize_history` loads back unchanged.
#[verifier::rlimit(100)]
fn parse_history_chars(v: &Vec<char>) -> (r: Option<WebhookHistoryData>)
    ensures
        match r {
            Option::Some(d) => d@.inv() && v@ == ser_history(d@),
            Option::None => true,
        },
        forall|dv: DataView| #[trigger] hist_at(v@, dv) ==> (r matches Option::Some(d) && d@ == dv),
{
    let ghost s = v@;
    let vlen = v.len();
    proof {
        reveal_strlit("{\n  \"entries\": [");
        reveal_strlit("],\n  \"next_id\": ");
        reveal_strlit("\n  ],\n  \"next_id\": ");
        reveal_strlit("\n}");
        reveal_strlit("\n");
        assert forall|dv: DataView| #[trigger] hist_at(s, dv) implies ({
            let p1 = "{\n  \"entries\": ["@.len() as int;
            &&& p1 < s.len()
            &&& s.subrange(0, p1) == "{\n  \"entries\": ["@
            &&& (dv.entries.len() == 0 ==> s[p1] == ']' && ({
                let p2 = p1 + "],\n  \"next_id\": "@.len() as int;
                &&& s.subrange(p1, p2) == "],\n  \"next_id\": "@
                &&& u64_at(s, p2, dv.next_id)
                &&& s.subrange(p2 + dec_digits(dv.next_id as nat).len(), s.len() as int)
                    == "\n}"@
                &&& s.len() == p2 + dec_digits(dv.next_id as nat).len() + 2
            }))
            &&& (dv.entries.len() > 0 ==> s[p1] == '\n' && ({
                let p2 = p1 + 1;
                let p3 = p2 + ser_entries(dv.entries).len() as int;
                let p4 = p3 + "\n  ],\n  \"next_id\": "@.len() as int;
                let p5 = p4 + dec_digits(dv.next_id as nat).len() as int;
                &&& list_at(s, p2, dv.entries)
                &&& s.subrange(p3, p4) == "\n  ],\n  \"next_id\": "@
                &&& u64_at(s, p4, dv.next_id)
                &&& s.subrange(p5, s.len() as int) == "\n}"@
                &&& s.len() == p5 + 2
            }))
        }) by {
            let p1 = "{\n  \"entries\": ["@.len() as int;
            if dv.entries.len() == 0 {
                let tail1 = "],\n  \"next_id\": "@ + (dec_digits(dv.next_id as nat) + "\n}"@);
                assert(s == "{\n  \"entries\": ["@ + tail1);
                assert(s.subrange(0, s.len() as int) =~= s);
                lemma_peel(s, 0, "{\n  \"entries\": ["@, tail1);
                let p2 = p1 + "],\n  \"next_id\": "@.len() as int;
                lemma_peel(s, p1, "],\n  \"next_id\": "@, dec_digits(dv.next_id as nat) + "\n}"@);
                lemma_peel(s, p2, dec_digits(dv.next_id as nat), "\n}"@);
                assert(s.subrange(p1, p2)[0] == ']');
                assert(s[p1] == ']');
                let pd = p2 + dec_digits(dv.next_id as nat).len() as int;
                assert(s.subrange(pd, pd + 2)[0] == '\n');
                assert(s[pd] == '\n');
                assert(!is_dec_digit('\n'));
                assert(s.subrange(pd, s.len() as int) =~= s.subrange(pd, pd + 2));
            } else {
                let p2 = p1 + 1;
                let p3 = p2 + ser_entries(dv.entries).len() as int;
                let p4 = p3 + "\n  ],\n  \"next_id\": "@.len() as int;
                let p5 = p4 + dec_digits(dv.next_id as nat).len() as int;
                let tail1 = "\n"@ + (ser_entries(dv.entries) + ("\n  ],\n  \"next_id\": "@
                    + (dec_digits(dv.next_id as nat) + "\n}"@)));
                assert(s == "{\n  \"entries\": ["@ + tail1);
                assert(s.subrange(0, s.len() as int) =~= s);
                lemma_peel(s, 0, "{\n  \"entries\": ["@, tail1);
                lemma_peel(
                    s,
                    p1,
                    "\n"@,
                    ser_entries(dv.entries) + ("\n  ],\n  \"next_id\": "@ + (dec_digits(
                        dv.next_id as nat,
                    ) + "\n}"@)),
                );
                lemma_peel(
                    s,
                    p2,
                    ser_entries(dv.entries),
                    "\n  ],\n  \"next_id\": "@ + (dec_digits(dv.next_id as nat) + "\n}"@),
                );
                lemma_peel(
                    s,
                    p3,
                    "\n  ],\n  \"next_id\": "@,
                    dec_digits(dv.next_id as nat) + "\n}"@,
                );
                lemma_peel(s, p4, dec_digits(dv.next_id as nat), "\n}"@);
                assert(s.subrange(p1, p2)[0] == '\n');
                assert(s[p1] == '\n');
                assert(s.subrange(p3, p4)[0] == '\n');
                assert(s[p3] == '\n');
                assert(s.subrange(p5, p5 + 2)[0] == '\n');
                assert(s[p5] == '\n');
                assert(!is_dec_digit('\n'));
                assert(s.subrange(p5, s.len() as int) =~= s.subrange(p5, p5 + 2));
            }
        }
    }
    let q1 = match expect_lit(v, 0, "{\n  \"entries\": [") {
        Option::Some(q) => q,
        Option::None => {
            return Option::None;
        },
    };
    if q1 >= vlen {
        proof {
            assert forall|dv: DataView| !hist_at(s, dv) by {
                if hist_at(s, dv) {
                    assert(q1 < s.len());
                }
            }
        }
        return Option::None;
    }
    let c = v[q1];
    if c == ']' {
        let q2 = match expect_lit(v, q1, "],\n  \"next_id\": ") {
            Option::Some(q) => q,
            Option::None => {
                proof {
                    assert forall|dv: DataView| !hist_at(s, dv) by {
                        if hist_at(s, dv) {
                            assert(dv.entries.len() == 0);
                        }
                    }
                }
                return Option::None;
            },
        };
        let r3 = parse_u64(v, q2);
        proof {
            assert forall|dv: DataView| #[trigger] hist_at(s, dv) implies dv.entries.len() == 0 && (
            r3 matches Option::Some(p) && p.0 == dv.next_id && p.1 as int == q2 + dec_digits(
                dv.next_id as nat,
            ).len()) by {
                assert(u64_at(s, q2 as int, dv.next_id));
            }
        }
        let (nid, q3) = match r3 {
            Option::Some(p) => p,
            Option::None => {
                return Option::None;
            },
        };
        let q4 = match expect_lit(v, q3, "\n}") {
            Option::Some(q) => q,
            Option::None => {
                return Option::None;
            },
        };
        if q4 != vlen {
            proof {
                assert forall|dv: DataView| !hist_at(s, dv) by {
                    if hist_at(s, dv) {
                        assert(s.len() == q4 as int);
                    }
                }
            }
            return Option::None;
        }
        if nid < 1 {
            proof {
                assert forall|dv: DataView| !hist_at(s, dv) by {
                    if hist_at(s, dv) {
                        assert(dv.next_id == nid);
                    }
                }
            }
            return Option::None;
        }
        let d = WebhookHistoryData { entries: Vec::new(), next_id: nid };
        proof {
            assert(d@.entries =~= Seq::<EntryView>::empty());
            assert(d@.inv());
            lemma_glue(s, q2 as int, q3 as int, q4 as int);
            lemma_glue(s, q1 as int, q2 as int, q4 as int);
            lemma_glue(s, 0, q1 as int, q4 as int);
            assert(s.subrange(0, q4 as int) =~= ser_history(d@));
            assert(s.subrange(0, s.len() as int) =~= s);
            assert forall|dv: DataView| #[trigger] hist_at(s, dv) implies d@ == dv by {
                assert(dv.entries.len() == 0);
                assert(dv.entries =~= d@.entries);
                assert(dv.next_id == nid);
            }
        }
        Option::Some(d)
    } else if c == '\n' {
        let q2 = q1 + 1;
        proof {
            assert(s.subrange(q1 as int, q2 as int) =~= "\n"@);
        }
        let r3 = parse_entries(v, q2);
        proof {
            assert forall|dv: DataView| #[trigger] hist_at(s, dv) implies dv.entries.len() > 0 && (
            r3 matches Option::Some(p) && p.0.deep_view() == dv.entries && p.1 as int == q2
                + ser_entries(dv.entries).len()) by {
                if dv.entries.len() == 0 {
                    assert(s[q1 as int] == ']');
                }
                assert(list_at(s, q2 as int, dv.entries));
            }
        }
        let (ents, q3) = match r3 {
            Option::Some(p) => p,
            Option::None => {
                return Option::None;
            },
        };
        let q4 = match expect_lit(v, q3, "\n  ],\n  \"next_id\": ") {
            Option::Some(q) => q,
            Option::None => {
                return Option::None;
            },
        };
        let r5 = parse_u64(v, q4);
        proof {
            assert forall|dv: DataView| #[trigger] hist_at(s, dv) implies (r5
                matches Option::Some(p) && p.0 == dv.next_id && p.1 as int == q4 + dec_digits(
                dv.next_id as nat,
            ).len()) by {
                assert(u64_at(s, q4 as int, dv.next_id));
            }
        }
        let (nid, q5) = match r5 {
            Option::Some(p) => p,
            Option::None => {
                return Option::None;
            },
        };
        let q6 = match expect_lit(v, q5, "\n}") {
            Option::Some(q) => q,
            Option::None => {
                return Option::None;
            },
        };
        if q6 != vlen {
            proof {
                assert forall|dv: DataView| !hist_at(s, dv) by {
                    if hist_at(s, dv) {
                        assert(s.len() == q6 as int);
                    }
                }
            }
            return Option::None;
        }
        if nid < 1 || ents.len() > MAX_WEBHOOK_HISTORY_ENTRIES {
            proof {
                assert forall|dv: DataView| !hist_at(s, dv) by {
                    if hist_at(s, dv) {
                        assert(dv.next_id == nid);
                        assert(dv.entries.len() == ents.deep_view().len());
                    }
                }
            }
            return Option::None;
        }
        let mut k: usize = 0;
        while k < ents.len()
            invariant
                k <= ents@.len(),
                s == v@,
                nid >= 1,
                forall|m: int| 0 <= m < k ==> (#[trigger] ents.deep_view()[m]).id < nid,
                forall|m: int|
                    0 <= m < k && m + 1 < ents.deep_view().len() ==> (
                    #[trigger] ents.deep_view()[m]).id > ents.deep_view()[m + 1].id,
                forall|dv: DataView| #[trigger]
                    hist_at(s, dv) ==> dv.entries == ents.deep_view() && dv.next_id == nid,
            decreases ents@.len() - k,
        {
            proof {
                assert(ents.deep_view()[k as int] == ents@[k as int]@);
            }
            if ents[k].id >= nid {
                proof {
                    assert forall|dv: DataView| !hist_at(s, dv) by {
                        if hist_at(s, dv) {
                            assert(dv.entries[k as int].id < dv.next_id);
                        }
                    }
                }
                return Option::None;
            }
            if k + 1 < ents.len() {
                proof {
                    assert(ents.deep_view()[k + 1] == ents@[k + 1]@);
                }
                if ents[k].id <= ents[k + 1].id {
                    proof {
                        assert forall|dv: DataView| !hist_at(s, dv) by {
                            if hist_at(s, dv) {
                                assert(dv.entries[k as int].id > dv.entries[k + 1].id);
                            }
                        }
                    }
                    return Option::None;
                }
            }
            k = k + 1;
        }
        let d = WebhookHistoryData { entries: ents, next_id: nid };
        proof {
            assert forall|a: int, b: int| 0 <= a < b < d@.entries.len() implies (
            #[trigger] d@.entries[a]).id > (#[trigger] d@.entries[b]).id by {
                lemma_desc_pair(d@.entries, a, b);
            }
            assert forall|m: int| 0 <= m < d@.entries.len() implies (
            #[trigger] d@.entries[m]).id < d@.next_id by {
                if m > 0 {
                    lemma_desc_pair(d@.entries, 0, m);
                }
            }
            assert(d@.inv());
            lemma_glue(s, q4 as int, q5 as int, q6 as int);
            lemma_glue(s, q3 as int, q4 as int, q6 as int);
            lemma_glue(s, q2 as int, q3 as int, q6 as int);
            lemma_glue(s, q1 as int, q2 as int, q6 as int);
            lemma_glue(s, 0, q1 as int, q6 as int);
            assert(s.subrange(0, q6 as int) =~= ser_history(d@));
            assert(s.subrange(0, s.len() as int) =~= s);
            assert forall|dv: DataView| #[trigger] hist_at(s, dv) implies d@ == dv by {
                assert(dv.entries == ents.deep_view());
            }
        }
        Option::Some(d)
    } else {
        proof {
            assert forall|dv: DataView| !hist_at(s, dv) by {
                if hist_at(s, dv) {
                    if dv.entries.len() == 0 {
                        assert(s[q1 as int] == ']');
                    } else {
                        assert(s[q1 as int] == '\n');
                    }
                }
            }
        }
        Option::None
    }
}

/// Round-trip law: the serialized text of any well-formed store satisfies
/// `hist_at` for that store, so by `parse_history`'s contract the text
/// parses back to the very store it was written from.
pub proof fn lemma_round_trip(dv: DataView)
    requires
        dv.inv(),
    ensures
        hist_at(ser_history(dv), dv),
{
}

/// Reads the history file format. Exactly the texts written by
/// `serialize_history` for a well-formed store are accepted, and such a
/// text hands back that store: saving and loading round-trips.
pub fn parse_history(text: &str) -> (r: Option<WebhookHistoryData>)
    ensures
        match r {
            Option::Some(d) => d@.inv() && text@ == ser_history(d@),
            Option::None => true,
        },
        forall|dv: DataView| #[trigger]
            hist_at(text@, dv) ==> (r matches Option::Some(d) && d@ == dv),
{
    let chars = str_to_chars(text);
    parse_history_chars(&chars)
}

} // verus!
