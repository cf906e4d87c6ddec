//! Character-level building blocks of the JSON text this crate emits and
//! reads: decimal renderings of integers, string escaping, and the JSON
//! number grammar used for the optional duration field.

use vstd::prelude::*;

verus! {

// ===== decimal digits =====

pub open spec fn is_dec_digit(c: char) -> bool {
    c == '0' || c == '1' || c == '2' || c == '3' || c == '4' || c == '5' || c == '6' || c == '7'
        || c == '8' || c == '9'
}

pub open spec fn digit_val(c: char) -> nat {
    if c == '0' {
        0
    } else if c == '1' {
        1
    } else if c == '2' {
        2
    } else if c == '3' {
        3
    } else if c == '4' {
        4
    } else if c == '5' {
        5
    } else if c == '6' {
        6
    } else if c == '7' {
        7
    } else if c == '8' {
        8
    } else {
        9
    }
}

pub open spec fn digit_char(d: nat) -> char {
    if d == 0 {
        '0'
    } else if d == 1 {
        '1'
    } else if d == 2 {
        '2'
    } else if d == 3 {
        '3'
    } else if d == 4 {
        '4'
    } else if d == 5 {
        '5'
    } else if d == 6 {
        '6'
    } else if d == 7 {
        '7'
    } else if d == 8 {
        '8'
    } else {
        '9'
    }
}

/// The usual decimal rendering of `n`: no sign, no leading zero except for 0.
pub open spec fn dec_digits(n: nat) -> Seq<char>
    decreases n,
{
    if n < 10 {
        seq![digit_char(n)]
    } else {
        dec_digits(n / 10).push(digit_char(n % 10))
    }
}

/// Value of a sequence of decimal digit characters, most significant first.
pub open spec fn seq_val(s: Seq<char>) -> nat
    decreases s.len(),
{
    if s.len() == 0 {
        0
    } else {
        seq_val(s.drop_last()) * 10 + digit_val(s.last())
    }
}

pub proof fn lemma_digit_char(d: nat)
    requires
        d < 10,
    ensures
        is_dec_digit(digit_char(d)),
        digit_val(digit_char(d)) == d,
{
}

/// Shape of a decimal rendering: nonempty, all digits, a leading zero only
/// for the number 0 itself, and its digit value is the number again.
pub proof fn lemma_dec_digits(n: nat)
    ensures
        dec_digits(n).len() >= 1,
        forall|i: int| 0 <= i < dec_digits(n).len() ==> is_dec_digit(#[trigger] dec_digits(n)[i]),
        (dec_digits(n)[0] == '0' <==> n == 0),
        seq_val(dec_digits(n)) == n,
    decreases n,
{
    if n < 10 {
        lemma_digit_char(n);
        assert(dec_digits(n) =~= seq![digit_char(n)]);
        assert(dec_digits(n).drop_last() =~= Seq::<char>::empty());
        assert(dec_digits(n).last() == digit_char(n));
        assert(seq_val(dec_digits(n)) == seq_val(Seq::<char>::empty()) * 10 + digit_val(digit_char(n)));
        assert(seq_val(dec_digits(n)) == n);
    } else {
        lemma_dec_digits(n / 10);
        lemma_digit_char(n % 10);
        let prefix = dec_digits(n / 10);
        assert(dec_digits(n) == prefix.push(digit_char(n % 10)));
        assert(dec_digits(n).drop_last() =~= prefix);
        assert(dec_digits(n)[0] == prefix[0]);
        assert(seq_val(dec_digits(n)) == seq_val(prefix) * 10 + (n % 10));
        assert(n / 10 * 10 + n % 10 == n) by (nonlinear_arith);
        assert(seq_val(dec_digits(n)) == n);
    }
}

/// Appending digits never shrinks the value a digit string denotes.
pub proof fn lemma_seq_val_append(a: Seq<char>, b: Seq<char>)
    ensures
        seq_val(a + b) >= seq_val(a),
    decreases b.len(),
{
    if b.len() == 0 {
        assert(a + b =~= a);
    } else {
        lemma_seq_val_append(a, b.drop_last());
        assert(a + b =~= (a + b.drop_last()).push(b.last()));
        assert((a + b).drop_last() =~= a + b.drop_last());
        assert(seq_val(a + b) == seq_val(a + b.drop_last()) * 10 + digit_val(b.last()));
    }
}

/// Reading a digit back: `digit_char` and `digit_val` are inverses.
pub proof fn lemma_digit_char_inv(c: char)
    requires
        is_dec_digit(c),
    ensures
        digit_val(c) < 10,
        digit_char(digit_val(c)) == c,
{
}

/// A digit string without a leading zero is the decimal rendering of its
/// own value: rendering is injective on such strings.
pub proof fn lemma_dec_digits_of_val(s: Seq<char>)
    requires
        s.len() >= 1,
        forall|i: int| 0 <= i < s.len() ==> is_dec_digit(#[trigger] s[i]),
        s[0] == '0' ==> s.len() == 1,
    ensures
        dec_digits(seq_val(s)) == s,
    decreases s.len(),
{
    if s.len() == 1 {
        lemma_digit_char_inv(s[0]);
        assert(s.drop_last() =~= Seq::<char>::empty());
        assert(seq_val(Seq::<char>::empty()) == 0);
        assert(seq_val(s) == digit_val(s[0]));
        assert(dec_digits(seq_val(s)) =~= seq![digit_char(digit_val(s[0]))]);
        assert(dec_digits(seq_val(s)) =~= s);
    } else {
        let dl = s.drop_last();
        assert(dl[0] == s[0]);
        assert(s[0] != '0');
        lemma_dec_digits_of_val(dl);
        lemma_digit_char_inv(s.last());
        assert(dl =~= seq![dl[0]] + dl.subrange(1, dl.len() as int));
        lemma_seq_val_append(seq![dl[0]], dl.subrange(1, dl.len() as int));
        assert(seq![dl[0]].drop_last() =~= Seq::<char>::empty());
        assert(seq_val(Seq::<char>::empty()) == 0);
        assert(seq_val(seq![dl[0]]) == digit_val(dl[0]));
        assert(is_dec_digit(s[0]));
        assert(digit_val(dl[0]) >= 1);
        assert(seq_val(dl) >= 1);
        let n = seq_val(s);
        assert(n == seq_val(dl) * 10 + digit_val(s.last()));
        assert(n >= 10);
        assert(n / 10 == seq_val(dl) && n % 10 == digit_val(s.last())) by (nonlinear_arith)
            requires
                n == seq_val(dl) * 10 + digit_val(s.last()),
                digit_val(s.last()) < 10,
        ;
        assert(dec_digits(n) == dec_digits(seq_val(dl)).push(digit_char(digit_val(s.last()))));
        assert(dec_digits(n) =~= s);
    }
}

fn char_of_digit(d: u64) -> (c: char)
    requires
        d < 10,
    ensures
        c == digit_char(d as nat),
{
    if d == 0 {
        '0'
    } else if d == 1 {
        '1'
    } else if d == 2 {
        '2'
    } else if d == 3 {
        '3'
    } else if d == 4 {
        '4'
    } else if d == 5 {
        '5'
    } else if d == 6 {
        '6'
    } else if d == 7 {
        '7'
    } else if d == 8 {
        '8'
    } else {
        '9'
    }
}

pub fn push_u64_digits(out: &mut Vec<char>, n: u64)
    ensures
        final(out)@ == old(out)@ + dec_digits(n as nat),
    decreases n,
{
    if n < 10 {
        let c = char_of_digit(n);
        out.push(c);
        assert(final(out)@ =~= old(out)@ + dec_digits(n as nat));
    } else {
        push_u64_digits(out, n / 10);
        let c = char_of_digit(n % 10);
        out.push(c);
        assert(final(out)@ =~= old(out)@ + dec_digits(n as nat));
    }
}

/// Decimal rendering of a signed value: a minus sign for negatives.
pub open spec fn ser_i64(n: i64) -> Seq<char> {
    if n >= 0 {
        dec_digits(n as nat)
    } else {
        seq!['-'] + dec_digits((-(n as int)) as nat)
    }
}

pub fn push_i64_digits(out: &mut Vec<char>, n: i64)
    ensures
        final(out)@ == old(out)@ + ser_i64(n),
{
    if n >= 0 {
        push_u64_digits(out, n as u64);
    } else {
        out.push('-');
        let m: u64 = if n == i64::MIN {
            9223372036854775808u64
        } else {
            (-n) as u64
        };
        assert(m as nat == (-(n as int)) as nat);
        push_u64_digits(out, m);
        assert(final(out)@ =~= old(out)@ + ser_i64(n));
    }
}

// ===== string escaping =====

/// Control characters that have no short escape of their own.
pub open spec fn is_other_ctrl(c: char) -> bool {
    c == '\u{0}' || c == '\u{1}' || c == '\u{2}' || c == '\u{3}' || c == '\u{4}' || c == '\u{5}' || c == '\u{6}' || c == '\u{7}' || c == '\u{8}' || c == '\u{b}' || c == '\u{c}' || c == '\u{e}' || c == '\u{f}' || c == '\u{10}' || c == '\u{11}' || c == '\u{12}' || c == '\u{13}' || c == '\u{14}' || c == '\u{15}' || c == '\u{16}' || c == '\u{17}' || c == '\u{18}' || c == '\u{19}' || c == '\u{1a}' || c == '\u{1b}' || c == '\u{1c}' || c == '\u{1d}' || c == '\u{1e}' || c == '\u{1f}'
}

/// The two lowercase hex digits naming such a character's code point.
pub open spec fn ctrl_hex(c: char) -> Seq<char> {
    if c == '\u{0}' {
        seq!['0', '0']
    } else if c == '\u{1}' {
        seq!['0', '1']
    } else if c == '\u{2}' {
        seq!['0', '2']
    } else if c == '\u{3}' {
        seq!['0', '3']
    } else if c == '\u{4}' {
        seq!['0', '4']
    } else if c == '\u{5}' {
        seq!['0', '5']
    } else if c == '\u{6}' {
        seq!['0', '6']
    } else if c == '\u{7}' {
        seq!['0', '7']
    } else if c == '\u{8}' {
        seq!['0', '8']
    } else if c == '\u{b}' {
        seq!['0', 'b']
    } else if c == '\u{c}' {
        seq!['0', 'c']
    } else if c == '\u{e}' {
        seq!['0', 'e']
    } else if c == '\u{f}' {
        seq!['0', 'f']
    } else if c == '\u{10}' {
        seq!['1', '0']
    } else if c == '\u{11}' {
        seq!['1', '1']
    } else if c == '\u{12}' {
        seq!['1', '2']
    } else if c == '\u{13}' {
        seq!['1', '3']
    } else if c == '\u{14}' {
        seq!['1', '4']
    } else if c == '\u{15}' {
        seq!['1', '5']
    } else if c == '\u{16}' {
        seq!['1', '6']
    } else if c == '\u{17}' {
        seq!['1', '7']
    } else if c == '\u{18}' {
        seq!['1', '8']
    } else if c == '\u{19}' {
        seq!['1', '9']
    } else if c == '\u{1a}' {
        seq!['1', 'a']
    } else if c == '\u{1b}' {
        seq!['1', 'b']
    } else if c == '\u{1c}' {
        seq!['1', 'c']
    } else if c == '\u{1d}' {
        seq!['1', 'd']
    } else if c == '\u{1e}' {
        seq!['1', 'e']
    } else {
        seq!['1', 'f']
    }
}

pub fn is_other_ctrl_exec(c: char) -> (r: bool)
    ensures
        r == is_other_ctrl(c),
{
    c == '\u{0}' || c == '\u{1}' || c == '\u{2}' || c == '\u{3}' || c == '\u{4}' || c == '\u{5}' || c == '\u{6}' || c == '\u{7}' || c == '\u{8}' || c == '\u{b}' || c == '\u{c}' || c == '\u{e}' || c == '\u{f}' || c == '\u{10}' || c == '\u{11}' || c == '\u{12}' || c == '\u{13}' || c == '\u{14}' || c == '\u{15}' || c == '\u{16}' || c == '\u{17}' || c == '\u{18}' || c == '\u{19}' || c == '\u{1a}' || c == '\u{1b}' || c == '\u{1c}' || c == '\u{1d}' || c == '\u{1e}' || c == '\u{1f}'
}

fn ctrl_hex_exec(c: char) -> (r: (char, char))
    requires
        is_other_ctrl(c),
    ensures
        seq![r.0, r.1] == ctrl_hex(c),
{
    if c == '\u{0}' {
        ('0', '0')
    } else if c == '\u{1}' {
        ('0', '1')
    } else if c == '\u{2}' {
        ('0', '2')
    } else if c == '\u{3}' {
        ('0', '3')
    } else if c == '\u{4}' {
        ('0', '4')
    } else if c == '\u{5}' {
        ('0', '5')
    } else if c == '\u{6}' {
        ('0', '6')
    } else if c == '\u{7}' {
        ('0', '7')
    } else if c == '\u{8}' {
        ('0', '8')
    } else if c == '\u{b}' {
        ('0', 'b')
    } else if c == '\u{c}' {
        ('0', 'c')
    } else if c == '\u{e}' {
        ('0', 'e')
    } else if c == '\u{f}' {
        ('0', 'f')
    } else if c == '\u{10}' {
        ('1', '0')
    } else if c == '\u{11}' {
        ('1', '1')
    } else if c == '\u{12}' {
        ('1', '2')
    } else if c == '\u{13}' {
        ('1', '3')
    } else if c == '\u{14}' {
        ('1', '4')
    } else if c == '\u{15}' {
        ('1', '5')
    } else if c == '\u{16}' {
        ('1', '6')
    } else if c == '\u{17}' {
        ('1', '7')
    } else if c == '\u{18}' {
        ('1', '8')
    } else if c == '\u{19}' {
        ('1', '9')
    } else if c == '\u{1a}' {
        ('1', 'a')
    } else if c == '\u{1b}' {
        ('1', 'b')
    } else if c == '\u{1c}' {
        ('1', 'c')
    } else if c == '\u{1d}' {
        ('1', 'd')
    } else if c == '\u{1e}' {
        ('1', 'e')
    } else {
        ('1', 'f')
    }
}

/// The control character a canonical `\u00..` escape names, if any.
pub fn decode_ctrl_hex(h1: char, h2: char) -> (r: Option<char>)
    ensures
        match r {
            Option::Some(c) => is_other_ctrl(c) && ctrl_hex(c) == seq![h1, h2],
            Option::None => forall|c: char| is_other_ctrl(c) ==> ctrl_hex(c) != seq![h1, h2],
        },
{
    let r: Option<char> = if h1 == '0' && h2 == '0' {
        Option::Some('\u{0}')
    } else if h1 == '0' && h2 == '1' {
        Option::Some('\u{1}')
    } else if h1 == '0' && h2 == '2' {
        Option::Some('\u{2}')
    } else if h1 == '0' && h2 == '3' {
        Option::Some('\u{3}')
    } else if h1 == '0' && h2 == '4' {
        Option::Some('\u{4}')
    } else if h1 == '0' && h2 == '5' {
        Option::Some('\u{5}')
    } else if h1 == '0' && h2 == '6' {
        Option::Some('\u{6}')
    } else if h1 == '0' && h2 == '7' {
        Option::Some('\u{7}')
    } else if h1 == '0' && h2 == '8' {
        Option::Some('\u{8}')
    } else if h1 == '0' && h2 == 'b' {
        Option::Some('\u{b}')
    } else if h1 == '0' && h2 == 'c' {
        Option::Some('\u{c}')
    } else if h1 == '0' && h2 == 'e' {
        Option::Some('\u{e}')
    } else if h1 == '0' && h2 == 'f' {
        Option::Some('\u{f}')
    } else if h1 == '1' && h2 == '0' {
        Option::Some('\u{10}')
    } else if h1 == '1' && h2 == '1' {
        Option::Some('\u{11}')
    } else if h1 == '1' && h2 == '2' {
        Option::Some('\u{12}')
    } else if h1 == '1' && h2 == '3' {
        Option::Some('\u{13}')
    } else if h1 == '1' && h2 == '4' {
        Option::Some('\u{14}')
    } else if h1 == '1' && h2 == '5' {
        Option::Some('\u{15}')
    } else if h1 == '1' && h2 == '6' {
        Option::Some('\u{16}')
    } else if h1 == '1' && h2 == '7' {
        Option::Some('\u{17}')
    } else if h1 == '1' && h2 == '8' {
        Option::Some('\u{18}')
    } else if h1 == '1' && h2 == '9' {
        Option::Some('\u{19}')
    } else if h1 == '1' && h2 == 'a' {
        Option::Some('\u{1a}')
    } else if h1 == '1' && h2 == 'b' {
        Option::Some('\u{1b}')
    } else if h1 == '1' && h2 == 'c' {
        Option::Some('\u{1c}')
    } else if h1 == '1' && h2 == 'd' {
        Option::Some('\u{1d}')
    } else if h1 == '1' && h2 == 'e' {
        Option::Some('\u{1e}')
    } else if h1 == '1' && h2 == 'f' {
        Option::Some('\u{1f}')
    } else {
        Option::None
    };
    proof {
        if r is None {
            assert forall|c: char| is_other_ctrl(c) implies ctrl_hex(c) != seq![h1, h2] by {
                assert(ctrl_hex(c)[0] != h1 || ctrl_hex(c)[1] != h2);
            }
        }
    }
    r
}

/// How one character appears inside a JSON string literal.
pub open spec fn esc_char(c: char) -> Seq<char> {
    if c == '"' {
        seq!['\\', '"']
    } else if c == '\\' {
        seq!['\\', '\\']
    } else if c == '\n' {
        seq!['\\', 'n']
    } else if c == '\r' {
        seq!['\\', 'r']
    } else if c == '\t' {
        seq!['\\', 't']
    } else if is_other_ctrl(c) {
        seq!['\\', 'u', '0', '0'] + ctrl_hex(c)
    } else {
        seq![c]
    }
}

/// The body of a JSON string literal for the text `s` (without the quotes).
pub open spec fn esc_string(s: Seq<char>) -> Seq<char>
    decreases s.len(),
{
    if s.len() == 0 {
        Seq::<char>::empty()
    } else {
        esc_char(s[0]) + esc_string(s.subrange(1, s.len() as int))
    }
}

pub proof fn lemma_esc_string_concat(a: Seq<char>, b: Seq<char>)
    ensures
        esc_string(a + b) == esc_string(a) + esc_string(b),
    decreases a.len(),
{
    if a.len() == 0 {
        assert(a + b =~= b);
        assert(esc_string(a) + esc_string(b) =~= esc_string(b));
    } else {
        lemma_esc_string_concat(a.subrange(1, a.len() as int), b);
        assert((a + b).subrange(1, (a + b).len() as int) =~= a.subrange(1, a.len() as int) + b);
        assert((a + b)[0] == a[0]);
        assert(esc_char(a[0]) + (esc_string(a.subrange(1, a.len() as int)) + esc_string(b)) =~= (
        esc_char(a[0]) + esc_string(a.subrange(1, a.len() as int))) + esc_string(b));
    }
}

pub proof fn lemma_esc_string_push(s: Seq<char>, c: char)
    ensures
        esc_string(s.push(c)) == esc_string(s) + esc_char(c),
{
    lemma_esc_string_concat(s, seq![c]);
    assert(s.push(c) =~= s + seq![c]);
    assert(seq![c].subrange(1, 1) =~= Seq::<char>::empty());
    assert(esc_char(c) + Seq::<char>::empty() =~= esc_char(c));
    assert(esc_string(seq![c]) == esc_char(seq![c][0]) + esc_string(seq![c].subrange(1, 1)));
    assert(esc_string(seq![c]) =~= esc_char(c));
}

pub fn push_esc_char(out: &mut Vec<char>, c: char)
    ensures
        final(out)@ == old(out)@ + esc_char(c),
{
    if c == '"' {
        out.push('\\');
        out.push('"');
    } else if c == '\\' {
        out.push('\\');
        out.push('\\');
    } else if c == '\n' {
        out.push('\\');
        out.push('n');
    } else if c == '\r' {
        out.push('\\');
        out.push('r');
    } else if c == '\t' {
        out.push('\\');
        out.push('t');
    } else if is_other_ctrl_exec(c) {
        out.push('\\');
        out.push('u');
        out.push('0');
        out.push('0');
        let (hi, lo) = ctrl_hex_exec(c);
        out.push(hi);
        out.push(lo);
        proof {
            assert(ctrl_hex(c)[0] == hi && ctrl_hex(c)[1] == lo);
        }
    } else {
        out.push(c);
    }
    assert(final(out)@ =~= old(out)@ + esc_char(c));
}

pub fn push_escaped(out: &mut Vec<char>, s: &Vec<char>)
    ensures
        final(out)@ == old(out)@ + esc_string(s@),
{
    let ghost orig = out@;
    let mut i: usize = 0;
    while i < s.len()
        invariant
            i <= s.len(),
            out@ == orig + esc_string(s@.subrange(0, i as int)),
        decreases s.len() - i,
    {
        push_esc_char(out, s[i]);
        proof {
            lemma_esc_string_push(s@.subrange(0, i as int), s@[i as int]);
            assert(s@.subrange(0, i + 1) =~= s@.subrange(0, i as int).push(s@[i as int]));
            assert(out@ =~= orig + esc_string(s@.subrange(0, i + 1)));
        }
        i = i + 1;
    }
    proof {
        assert(s@.subrange(0, s@.len() as int) =~= s@);
    }
}

// ===== the JSON number grammar =====

/// Characters that can occur in a JSON number token.
pub open spec fn is_num_char(c: char) -> bool {
    is_dec_digit(c) || c == '-' || c == '+' || c == '.' || c == 'e' || c == 'E'
}

/// First position at or after `i` holding something other than a digit.
pub open spec fn digits_end(s: Seq<char>, i: int) -> int
    decreases s.len() - i when 0 <= i <= s.len()
{
    if i < s.len() && is_dec_digit(s[i]) {
        digits_end(s, i + 1)
    } else {
        i
    }
}

pub proof fn lemma_digits_end(s: Seq<char>, i: int)
    requires
        0 <= i <= s.len(),
    ensures
        i <= digits_end(s, i) <= s.len(),
        forall|j: int| i <= j < digits_end(s, i) ==> is_dec_digit(#[trigger] s[j]),
        digits_end(s, i) < s.len() ==> !is_dec_digit(s[digits_end(s, i)]),
    decreases s.len() - i,
{
    if i < s.len() && is_dec_digit(s[i]) {
        lemma_digits_end(s, i + 1);
    }
}

/// A region of digits closed by a non-digit pins `digits_end` down.
pub proof fn lemma_digits_end_is(s: Seq<char>, i: int, k: int)
    requires
        0 <= i <= k <= s.len(),
        forall|j: int| i <= j < k ==> is_dec_digit(#[trigger] s[j]),
        k == s.len() || !is_dec_digit(s[k]),
    ensures
        digits_end(s, i) == k,
{
    lemma_digits_end(s, i);
}

pub open spec fn exp_only(s: Seq<char>, p: int) -> bool {
    if p == s.len() {
        true
    } else if s[p] == 'e' || s[p] == 'E' {
        let q: int = if p + 1 < s.len() && (s[p + 1] == '+' || s[p + 1] == '-') {
            p + 2
        } else {
            p + 1
        };
        q <= s.len() && digits_end(s, q) > q && digits_end(s, q) == s.len()
    } else {
        false
    }
}

pub open spec fn frac_exp_ok(s: Seq<char>, p: int) -> bool {
    if p == s.len() {
        true
    } else if s[p] == '.' {
        let q = digits_end(s, p + 1);
        q > p + 1 && exp_only(s, q)
    } else {
        exp_only(s, p)
    }
}

/// The whole of `s` is one well-formed JSON number token.
pub open spec fn is_json_number(s: Seq<char>) -> bool {
    let p0: int = if s.len() > 0 && s[0] == '-' {
        1
    } else {
        0
    };
    let p1 = digits_end(s, p0);
    &&& s.len() > 0
    &&& p0 < s.len()
    &&& p1 > p0
    &&& (s[p0] == '0' ==> p1 == p0 + 1)
    &&& frac_exp_ok(s, p1)
}

/// Every character of a JSON number token is drawn from the number alphabet.
pub proof fn lemma_json_number_chars(s: Seq<char>)
    requires
        is_json_number(s),
    ensures
        s.len() >= 1,
        forall|i: int| 0 <= i < s.len() ==> is_num_char(#[trigger] s[i]),
{
    let p0: int = if s.len() > 0 && s[0] == '-' {
        1
    } else {
        0
    };
    let p1 = digits_end(s, p0);
    lemma_digits_end(s, p0);
    if p1 == s.len() {
    } else if s[p1] == '.' {
        let q = digits_end(s, p1 + 1);
        lemma_digits_end(s, p1 + 1);
        lemma_exp_only_chars(s, q);
    } else {
        lemma_exp_only_chars(s, p1);
    }
}

proof fn lemma_exp_only_chars(s: Seq<char>, p: int)
    requires
        0 <= p <= s.len(),
        exp_only(s, p),
    ensures
        forall|i: int| p <= i < s.len() ==> is_num_char(#[trigger] s[i]),
{
    if p == s.len() {
    } else {
        let q: int = if p + 1 < s.len() && (s[p + 1] == '+' || s[p + 1] == '-') {
            p + 2
        } else {
            p + 1
        };
        lemma_digits_end(s, q);
    }
}

pub fn is_dec_digit_exec(c: char) -> (r: bool)
    ensures
        r == is_dec_digit(c),
{
    c == '0' || c == '1' || c == '2' || c == '3' || c == '4' || c == '5' || c == '6' || c == '7'
        || c == '8' || c == '9'
}

pub fn is_num_char_exec(c: char) -> (r: bool)
    ensures
        r == is_num_char(c),
{
    is_dec_digit_exec(c) || c == '-' || c == '+' || c == '.' || c == 'e' || c == 'E'
}

pub fn digits_end_exec(v: &Vec<char>, i: usize) -> (r: usize)
    requires
        i <= v@.len(),
    ensures
        r as int == digits_end(v@, i as int),
        i <= r <= v@.len(),
{
    let mut j = i;
    while j < v.len() && is_dec_digit_exec(v[j])
        invariant
            i <= j <= v@.len(),
            digits_end(v@, i as int) == digits_end(v@, j as int),
        decreases v@.len() - j,
    {
        j = j + 1;
    }
    proof {
        lemma_digits_end(v@, j as int);
    }
    j
}

/// Decides the JSON number grammar for the characters of `v`.
pub fn is_json_number_exec(v: &Vec<char>) -> (r: bool)
    ensures
        r == is_json_number(v@),
{
    if v.len() == 0 {
        return false;
    }
    let p0: usize = if v[0] == '-' {
        1
    } else {
        0
    };
    if p0 >= v.len() {
        return false;
    }
    let p1 = digits_end_exec(v, p0);
    if p1 <= p0 {
        return false;
    }
    if v[p0] == '0' && p1 != p0 + 1 {
        return false;
    }
    frac_exp_ok_exec(v, p1)
}

fn frac_exp_ok_exec(v: &Vec<char>, p: usize) -> (r: bool)
    requires
        p <= v@.len(),
    ensures
        r == frac_exp_ok(v@, p as int),
{
    if p == v.len() {
        true
    } else if v[p] == '.' {
        let q = digits_end_exec(v, p + 1);
        q > p + 1 && exp_only_exec(v, q)
    } else {
        exp_only_exec(v, p)
    }
}

fn exp_only_exec(v: &Vec<char>, p: usize) -> (r: bool)
    requires
        p <= v@.len(),
    ensures
        r == exp_only(v@, p as int),
{
    if p == v.len() {
        true
    } else if v[p] == 'e' || v[p] == 'E' {
        let q: usize = if p + 1 < v.len() && (v[p + 1] == '+' || v[p + 1] == '-') {
            p + 2
        } else {
            p + 1
        };
        let e = digits_end_exec(v, q);
        e > q && e == v.len()
    } else {
        false
    }
}

// ===== moving between `String` and `Vec<char>` =====

pub fn str_to_chars(s: &str) -> (v: Vec<char>)
    ensures
        v@ == s@,
{
    let n = s.unicode_len();
    let mut v: Vec<char> = Vec::new();
    let mut i: usize = 0;
    while i < n
        invariant
            i <= n,
            n == s@.len(),
            v@ == s@.subrange(0, i as int),
        decreases n - i,
    {
        let c = s.get_char(i);
        v.push(c);
        proof {
            assert(v@ =~= s@.subrange(0, i + 1));
        }
        i = i + 1;
    }
    proof {
        assert(s@.subrange(0, s@.len() as int) =~= s@);
    }
    v
}

pub fn push_str_chars(out: &mut Vec<char>, s: &str)
    ensures
        final(out)@ == old(out)@ + s@,
{
    let ghost orig = out@;
    let n = s.unicode_len();
    let mut i: usize = 0;
    while i < n
        invariant
            i <= n,
            n == s@.len(),
            out@ == orig + s@.subrange(0, i as int),
        decreases n - i,
    {
        let c = s.get_char(i);
        out.push(c);
        proof {
            assert(out@ =~= orig + s@.subrange(0, i + 1));
        }
        i = i + 1;
    }
    proof {
        assert(orig + s@.subrange(0, s@.len() as int) =~= orig + s@);
    }
}

/// Relies on `String: FromIterator<char>`: collecting characters yields the
/// string whose characters they are.
#[verifier::external_body]
pub fn chars_to_string(v: &Vec<char>) -> (r: String)
    ensures
        r@ == v@,
{
    v.iter().collect()
}

} // verus!
