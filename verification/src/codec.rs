//! The persisted text form of a store, written and read by this crate
//! itself: a JSON object `{"sessions":[...]}` whose elements carry the
//! identifier, the description and the timestamp of one session each.
//!
//! The encoder and the parser are both specified as functions on character
//! sequences, and the parser is proved to invert the encoder
//! ([`lemma_parse_enc_store`]). Inside persisted strings, `"` and `\` are
//! escaped with a backslash; other characters are written as they are.

use vstd::prelude::*;
use crate::session::{Session, SessionView};
use crate::store::{Storage, StoreError, unique_ids};
use crate::text::{chars_to_string, str_to_chars};
use vstd::string::*;

verus! {

// ---------------------------------------------------------------------------
// The encoded form, as spec functions.
// ---------------------------------------------------------------------------
/// `{"sessions":[`
pub open spec fn lit_header() -> Seq<char> {
    seq!['{', '"', 's', 'e', 's', 's', 'i', 'o', 'n', 's', '"', ':', '[']
}

/// `{"identifier":"`
pub open spec fn lit_id() -> Seq<char> {
    seq!['{', '"', 'i', 'd', 'e', 'n', 't', 'i', 'f', 'i', 'e', 'r', '"', ':', '"']
}

/// `,"description":"`
pub open spec fn lit_desc() -> Seq<char> {
    seq![',', '"', 'd', 'e', 's', 'c', 'r', 'i', 'p', 't', 'i', 'o', 'n', '"', ':', '"']
}

/// `,"timestamp":`
pub open spec fn lit_ts() -> Seq<char> {
    seq![',', '"', 't', 'i', 'm', 'e', 's', 't', 'a', 'm', 'p', '"', ':']
}

/// The escape of one character inside a persisted string.
pub open spec fn esc_char(c: char) -> Seq<char> {
    if c == '"' {
        seq!['\\', '"']
    } else if c == '\\' {
        seq!['\\', '\\']
    } else {
        seq![c]
    }
}

/// The escape of a whole text.
pub open spec fn esc(s: Seq<char>) -> Seq<char>
    decreases s.len(),
{
    if s.len() == 0 {
        Seq::<char>::empty()
    } else {
        esc_char(s[0]) + esc(s.drop_first())
    }
}

/// The character for one decimal digit.
pub open spec fn digit_char(d: nat) -> char {
    if d == 0 {
        '0'
    } else if d == 1 {
        '1'
    } else if d == 2 {
        '2'
    } else if d == 3 {
        '3'
    } else if d == 4 {
        '4'
    } else if d == 5 {
        '5'
    } else if d == 6 {
        '6'
    } else if d == 7 {
        '7'
    } else if d == 8 {
        '8'
    } else {
        '9'
    }
}

pub open spec fn is_digit(c: char) -> bool {
    c == '0' || c == '1' || c == '2' || c == '3' || c == '4' || c == '5' || c == '6' || c == '7'
        || c == '8' || c == '9'
}

pub open spec fn digit_val(c: char) -> nat {
    if c == '0' {
        0
    } else if c == '1' {
        1
    } else if c == '2' {
        2
    } else if c == '3' {
        3
    } else if c == '4' {
        4
    } else if c == '5' {
        5
    } else if c == '6' {
        6
    } else if c == '7' {
        7
    } else if c == '8' {
        8
    } else {
        9
    }
}

/// The decimal digits of `n`, most significant first.
pub open spec fn dec(n: nat) -> Seq<char>
    decreases n,
{
    if n < 10 {
        seq![digit_char(n)]
    } else {
        dec(n / 10).push(digit_char(n % 10))
    }
}

/// The encoded form of one session.
pub open spec fn enc_session(s: SessionView) -> Seq<char> {
    lit_id() + (esc(s.identifier) + (seq!['"'] + (lit_desc() + (esc(s.description) + (seq!['"']
        + (lit_ts() + (dec(s.timestamp as nat) + seq!['}'])))))))
}

/// The encoded forms of the sessions, separated by commas.
pub open spec fn enc_sessions(l: Seq<SessionView>) -> Seq<char>
    decreases l.len(),
{
    if l.len() == 0 {
        Seq::<char>::empty()
    } else if l.len() == 1 {
        enc_session(l[0])
    } else {
        enc_session(l[0]) + (seq![','] + enc_sessions(l.drop_first()))
    }
}

/// The encoded form of a whole store.
pub open spec fn enc_store(l: Seq<SessionView>) -> Seq<char> {
    lit_header() + (enc_sessions(l) + seq![']', '}'])
}

// ---------------------------------------------------------------------------
// The parser, as spec functions. Each takes the input and a position and
// yields the parsed value with the position after it, or nothing.
// ---------------------------------------------------------------------------
/// Matches the exact characters of `lit` at `i`.
pub open spec fn parse_lit(v: Seq<char>, i: int, lit: Seq<char>) -> Option<int> {
    if 0 <= i && i + lit.len() <= v.len() && v.subrange(i, i + lit.len()) == lit {
        Some(i + lit.len())
    } else {
        None
    }
}

/// Reads an escaped text up to and over its closing quote.
pub open spec fn parse_string(v: Seq<char>, i: int) -> Option<(Seq<char>, int)>
    decreases v.len() - i,
{
    if i < 0 || i >= v.len() {
        None
    } else if v[i] == '"' {
        Some((Seq::<char>::empty(), i + 1))
    } else if v[i] == '\\' {
        if i + 1 >= v.len() {
            None
        } else if v[i + 1] == '"' || v[i + 1] == '\\' {
            match parse_string(v, i + 2) {
                Some((s, j)) => Some((seq![v[i + 1]] + s, j)),
                None => None,
            }
        } else {
            None
        }
    } else {
        match parse_string(v, i + 1) {
            Some((s, j)) => Some((seq![v[i]] + s, j)),
            None => None,
        }
    }
}

/// The position right after the run of digits that starts at `i`.
pub open spec fn digit_run_end(v: Seq<char>, i: int) -> int
    decreases v.len() - i,
{
    if 0 <= i && i < v.len() && is_digit(v[i]) {
        digit_run_end(v, i + 1)
    } else {
        i
    }
}

/// The number written by a sequence of digit characters.
pub open spec fn digits_value(s: Seq<char>) -> nat
    decreases s.len(),
{
    if s.len() == 0 {
        0
    } else {
        digits_value(s.drop_last()) * 10 + digit_val(s.last())
    }
}

/// Reads a nonempty run of digits as a `u64`.
pub open spec fn parse_number(v: Seq<char>, i: int) -> Option<(u64, int)> {
    let j = digit_run_end(v, i);
    if j == i {
        None
    } else {
        let n = digits_value(v.subrange(i, j));
        if n > u64::MAX {
            None
        } else {
            Some((n as u64, j))
        }
    }
}

/// Reads one encoded session.
pub open spec fn parse_session(v: Seq<char>, i: int) -> Option<(SessionView, int)> {
    match parse_lit(v, i, lit_id()) {
        None => None,
        Some(j1) => match parse_string(v, j1) {
            None => None,
            Some((id, j2)) => match parse_lit(v, j2, lit_desc()) {
                None => None,
                Some(j3) => match parse_string(v, j3) {
                    None => None,
                    Some((d, j4)) => match parse_lit(v, j4, lit_ts()) {
                        None => None,
                        Some(j5) => match parse_number(v, j5) {
                            None => None,
                            Some((t, j6)) => if j6 < v.len() && v[j6] == '}' {
                                Some(
                                    (
                                        SessionView {
                                            identifier: id,
                                            description: d,
                                            timestamp: t,
                                        },
                                        j6 + 1,
                                    ),
                                )
                            } else {
                                None
                            },
                        },
                    },
                },
            },
        },
    }
}

/// Reads one or more encoded sessions separated by commas.
pub open spec fn parse_sessions(v: Seq<char>, i: int) -> Option<(Seq<SessionView>, int)>
    decreases v.len() - i,
{
    match parse_session(v, i) {
        None => None,
        Some((s, j)) => if i < j && j < v.len() && v[j] == ',' {
            match parse_sessions(v, j + 1) {
                None => None,
                Some((rest, k)) => Some((seq![s] + rest, k)),
            }
        } else if i < j {
            Some((seq![s], j))
        } else {
            None
        },
    }
}

/// Reads a whole store; the input must be consumed exactly.
pub open spec fn parse_store(v: Seq<char>) -> Option<Seq<SessionView>> {
    match parse_lit(v, 0, lit_header()) {
        None => None,
        Some(j) => if j < v.len() && v[j] == ']' {
            if j + 2 == v.len() && v[j + 1] == '}' {
                Some(Seq::<SessionView>::empty())
            } else {
                None
            }
        } else {
            match parse_sessions(v, j) {
                None => None,
                Some((l, k)) => if k + 2 == v.len() && k < v.len() && v[k] == ']' && v[k + 1]
                    == '}' {
                    Some(l)
                } else {
                    None
                },
            }
        },
    }
}

// ---------------------------------------------------------------------------
// The executable encoder.
// ---------------------------------------------------------------------------
/// Escaping distributes over concatenation.
pub proof fn lemma_esc_concat(a: Seq<char>, b: Seq<char>)
    ensures
        esc(a + b) == esc(a) + esc(b),
    decreases a.len(),
{
    if a.len() == 0 {
        assert(a + b =~= b);
        assert(esc(a) + esc(b) =~= esc(b));
    } else {
        lemma_esc_concat(a.drop_first(), b);
        assert((a + b).drop_first() =~= a.drop_first() + b);
        assert((a + b)[0] == a[0]);
        assert(esc(a + b) =~= esc(a) + esc(b));
    }
}

fn digit_char_exec(d: u64) -> (r: char)
    requires
        d < 10,
    ensures
        r == digit_char(d as nat),
{
    if d == 0 {
        '0'
    } else if d == 1 {
        '1'
    } else if d == 2 {
        '2'
    } else if d == 3 {
        '3'
    } else if d == 4 {
        '4'
    } else if d == 5 {
        '5'
    } else if d == 6 {
        '6'
    } else if d == 7 {
        '7'
    } else if d == 8 {
        '8'
    } else {
        '9'
    }
}

fn push_lit_header(buf: &mut Vec<char>)
    ensures
        final(buf)@ == old(buf)@ + lit_header(),
{
    buf.push('{');
    buf.push('"');
    buf.push('s');
    buf.push('e');
    buf.push('s');
    buf.push('s');
    buf.push('i');
    buf.push('o');
    buf.push('n');
    buf.push('s');
    buf.push('"');
    buf.push(':');
    buf.push('[');
    proof {
        assert(buf@ =~= old(buf)@ + lit_header());
    }
}

fn push_lit_id(buf: &mut Vec<char>)
    ensures
        final(buf)@ == old(buf)@ + lit_id(),
{
    buf.push('{');
    buf.push('"');
    buf.push('i');
    buf.push('d');
    buf.push('e');
    buf.push('n');
    buf.push('t');
    buf.push('i');
    buf.push('f');
    buf.push('i');
    buf.push('e');
    buf.push('r');
    buf.push('"');
    buf.push(':');
    buf.push('"');
    proof {
        assert(buf@ =~= old(buf)@ + lit_id());
    }
}

fn push_lit_desc(buf: &mut Vec<char>)
    ensures
        final(buf)@ == old(buf)@ + lit_desc(),
{
    buf.push(',');
    buf.push('"');
    buf.push('d');
    buf.push('e');
    buf.push('s');
    buf.push('c');
    buf.push('r');
    buf.push('i');
    buf.push('p');
    buf.push('t');
    buf.push('i');
    buf.push('o');
    buf.push('n');
    buf.push('"');
    buf.push(':');
    buf.push('"');
    proof {
        assert(buf@ =~= old(buf)@ + lit_desc());
    }
}

fn push_lit_ts(buf: &mut Vec<char>)
    ensures
        final(buf)@ == old(buf)@ + lit_ts(),
{
    buf.push(',');
    buf.push('"');
    buf.push('t');
    buf.push('i');
    buf.push('m');
    buf.push('e');
    buf.push('s');
    buf.push('t');
    buf.push('a');
    buf.push('m');
    buf.push('p');
    buf.push('"');
    buf.push(':');
    proof {
        assert(buf@ =~= old(buf)@ + lit_ts());
    }
}

fn push_esc(buf: &mut Vec<char>, s: &String)
    ensures
        final(buf)@ == old(buf)@ + esc(s@),
{
    let n = s.as_str().unicode_len();
    let mut i: usize = 0;
    while i < n
        invariant
            i <= n,
            n == s@.len(),
            buf@ == old(buf)@ + esc(s@.subrange(0, i as int)),
        decreases n - i,
    {
        let c = s.as_str().get_char(i);
        if c == '"' {
            buf.push('\\');
            buf.push('"');
        } else if c == '\\' {
            buf.push('\\');
            buf.push('\\');
        } else {
            buf.push(c);
        }
        proof {
            lemma_esc_concat(s@.subrange(0, i as int), seq![s@[i as int]]);
            assert(s@.subrange(0, i + 1 as int) =~= s@.subrange(0, i as int) + seq![
                s@[i as int],
            ]);
            assert(seq![s@[i as int]].drop_first() =~= Seq::<char>::empty());
            assert(esc_char(s@[i as int]) + esc(Seq::<char>::empty()) =~= esc_char(s@[i as int]));
            assert(esc(seq![s@[i as int]]) =~= esc_char(s@[i as int]));
            assert(buf@ =~= old(buf)@ + esc(s@.subrange(0, i + 1 as int)));
        }
        i += 1;
    }
    proof {
        assert(s@.subrange(0, n as int) =~= s@);
    }
}

fn push_dec(buf: &mut Vec<char>, n: u64)
    ensures
        final(buf)@ == old(buf)@ + dec(n as nat),
    decreases n,
{
    if n < 10 {
        buf.push(digit_char_exec(n));
        proof {
            assert(buf@ =~= old(buf)@ + dec(n as nat));
        }
    } else {
        push_dec(buf, n / 10);
        buf.push(digit_char_exec(n % 10));
        proof {
            assert(buf@ =~= old(buf)@ + dec(n as nat));
        }
    }
}

fn push_session(buf: &mut Vec<char>, s: &Session)
    ensures
        final(buf)@ == old(buf)@ + enc_session(s@),
{
    push_lit_id(buf);
    push_esc(buf, &s.identifier);
    buf.push('"');
    push_lit_desc(buf);
    push_esc(buf, &s.description);
    buf.push('"');
    push_lit_ts(buf);
    push_dec(buf, s.timestamp);
    buf.push('}');
    proof {
        assert(buf@ =~= old(buf)@ + enc_session(s@));
    }
}

/// `enc_sessions` of a sequence one session longer.
pub proof fn lemma_enc_sessions_push(l: Seq<SessionView>, s: SessionView)
    ensures
        enc_sessions(l.push(s)) == if l.len() == 0 {
            enc_session(s)
        } else {
            enc_sessions(l) + (seq![','] + enc_session(s))
        },
    decreases l.len(),
{
    if l.len() == 0 {
        assert(l.push(s) =~= seq![s]);
        assert(enc_sessions(seq![s]) == enc_session(seq![s][0]));
    } else {
        lemma_enc_sessions_push(l.drop_first(), s);
        assert(l.push(s).drop_first() =~= l.drop_first().push(s));
        assert(l.push(s)[0] == l[0]);
        if l.len() == 1 {
            assert(l.drop_first().len() == 0);
            assert(enc_sessions(l.push(s)) == enc_session(l[0]) + (seq![','] + enc_session(s)));
            assert(enc_sessions(l) == enc_session(l[0]));
            assert(enc_sessions(l.push(s)) =~= enc_sessions(l) + (seq![','] + enc_session(s)));
        } else {
            assert(enc_sessions(l.push(s)) == enc_session(l[0]) + (seq![','] + enc_sessions(
                l.drop_first().push(s),
            )));
            assert(enc_sessions(l.push(s)) =~= enc_sessions(l) + (seq![','] + enc_session(s)));
        }
    }
}

/// The persisted text of a whole store.
pub fn to_json(storage: &Storage) -> (r: String)
    ensures
        r@ == enc_store(storage@),
{
    let mut buf: Vec<char> = Vec::new();
    push_lit_header(&mut buf);
    let n = storage.sessions.len();
    let mut i: usize = 0;
    while i < n
        invariant
            i <= n,
            n == storage.sessions.len(),
            buf@ == lit_header() + enc_sessions(storage@.subrange(0, i as int)),
        decreases n - i,
    {
        if i > 0 {
            buf.push(',');
        }
        push_session(&mut buf, &storage.sessions[i]);
        proof {
            lemma_enc_sessions_push(storage@.subrange(0, i as int), storage@[i as int]);
            assert(storage@.subrange(0, i + 1 as int) =~= storage@.subrange(0, i as int).push(
                storage@[i as int],
            ));
            assert(buf@ =~= lit_header() + enc_sessions(storage@.subrange(0, i + 1 as int)));
        }
        i += 1;
    }
    buf.push(']');
    buf.push('}');
    proof {
        assert(storage@.subrange(0, n as int) =~= storage@);
        assert(buf@ =~= enc_store(storage@));
    }
    chars_to_string(&buf)
}

// ---------------------------------------------------------------------------
// The parser inverts the encoder.
// ---------------------------------------------------------------------------
/// A subrange known to be a concatenation splits into its two parts.
pub proof fn lemma_subrange_split(v: Seq<char>, i: int, a: Seq<char>, b: Seq<char>)
    requires
        0 <= i,
        i + a.len() + b.len() <= v.len(),
        v.subrange(i, i + a.len() + b.len()) == a + b,
    ensures
        v.subrange(i, i + a.len()) == a,
        v.subrange(i + a.len(), i + a.len() + b.len()) == b,
{
    let al = a.len() as int;
    let bl = b.len() as int;
    assert forall|k: int| 0 <= k < al implies v.subrange(i, i + al)[k] == a[k] by {
        assert(v.subrange(i, i + al + bl)[k] == (a + b)[k]);
    }
    assert(v.subrange(i, i + al) =~= a);
    assert forall|k: int| 0 <= k < bl implies v.subrange(i + al, i + al + bl)[k] == b[k] by {
        assert(v.subrange(i, i + al + bl)[al + k] == (a + b)[al + k]);
    }
    assert(v.subrange(i + al, i + al + bl) =~= b);
}

/// The string parser inverts escaping: right after the escape of `s` and a
/// closing quote, it yields `s` again.
pub proof fn lemma_parse_esc(v: Seq<char>, i: int, s: Seq<char>)
    requires
        0 <= i,
        i + esc(s).len() + 1 <= v.len(),
        v.subrange(i, i + esc(s).len()) == esc(s),
        v[i + esc(s).len()] == '"',
    ensures
        parse_string(v, i) == Some((s, i + esc(s).len() + 1)),
    decreases s.len(),
{
    if s.len() == 0 {
        assert(esc(s).len() == 0);
        assert(v[i] == '"');
    } else {
        let c = s[0];
        let e0 = esc_char(c);
        let s1 = s.drop_first();
        assert(esc(s) == e0 + esc(s1));
        lemma_subrange_split(v, i, e0, esc(s1));
        let o = i + e0.len();
        assert(v[i] == v.subrange(i, i + e0.len())[0]);
        assert(v[i] == e0[0]);
        lemma_parse_esc(v, o, s1);
        if c == '"' {
            assert(v[i + 1] == v.subrange(i, i + e0.len())[1]);
            assert(v[i] == '\\');
            assert(v[i + 1] == '"');
            assert(seq![v[i + 1]] + s1 =~= s);
        } else if c == '\\' {
            assert(v[i + 1] == v.subrange(i, i + e0.len())[1]);
            assert(v[i] == '\\');
            assert(v[i + 1] == '\\');
            assert(seq![v[i + 1]] + s1 =~= s);
        } else {
            assert(v[i] == c);
            assert(seq![v[i]] + s1 =~= s);
        }
    }
}

/// Every character written for a number is a digit.
pub proof fn lemma_dec_digits(n: nat)
    ensures
        dec(n).len() >= 1,
        forall|k: int| 0 <= k < dec(n).len() ==> is_digit(#[trigger] dec(n)[k]),
    decreases n,
{
    if n < 10 {
        assert(is_digit(digit_char(n)));
    } else {
        lemma_dec_digits(n / 10);
        assert forall|k: int| 0 <= k < dec(n).len() implies is_digit(#[trigger] dec(n)[k]) by {
            if k < dec(n).len() - 1 {
                assert(dec(n)[k] == dec(n / 10)[k]);
            } else {
                assert(dec(n)[k] == digit_char(n % 10));
            }
        }
    }
}

/// Reading back the decimal digits of `n` yields `n`.
pub proof fn lemma_digits_value_dec(n: nat)
    ensures
        digits_value(dec(n)) == n,
    decreases n,
{
    if n < 10 {
        let s = seq![digit_char(n)];
        assert(s.drop_last() =~= Seq::<char>::empty());
        assert(digits_value(Seq::<char>::empty()) == 0);
        assert(s.last() == digit_char(n));
        assert(digits_value(s) == 0 * 10 + digit_val(digit_char(n)));
        assert(digit_val(digit_char(n)) == n);
    } else {
        lemma_digits_value_dec(n / 10);
        assert(dec(n).drop_last() =~= dec(n / 10));
        assert(dec(n).last() == digit_char(n % 10));
        assert(digit_val(digit_char(n % 10)) == n % 10);
        assert(digits_value(dec(n)) == (n / 10) * 10 + n % 10);
        assert((n / 10) * 10 + n % 10 == n) by {
            vstd::arithmetic::div_mod::lemma_fundamental_div_mod(n as int, 10);
        }
    }
}

/// Where a digit run is known to stop, `digit_run_end` stops there.
pub proof fn lemma_digit_run(v: Seq<char>, i: int, j: int)
    requires
        0 <= i <= j <= v.len(),
        forall|k: int| i <= k < j ==> is_digit(#[trigger] v[k]),
        j == v.len() || !is_digit(v[j]),
    ensures
        digit_run_end(v, i) == j,
    decreases j - i,
{
    if i < j {
        lemma_digit_run(v, i + 1, j);
    }
}

/// The number parser inverts decimal writing.
pub proof fn lemma_parse_dec(v: Seq<char>, i: int, n: u64)
    requires
        0 <= i,
        i + dec(n as nat).len() <= v.len(),
        v.subrange(i, i + dec(n as nat).len()) == dec(n as nat),
        i + dec(n as nat).len() == v.len() || !is_digit(v[i + dec(n as nat).len()]),
    ensures
        parse_number(v, i) == Some((n, i + dec(n as nat).len())),
{
    let d = dec(n as nat);
    let l = d.len() as int;
    lemma_dec_digits(n as nat);
    assert forall|k: int| i <= k < i + l implies is_digit(#[trigger] v[k]) by {
        assert(v.subrange(i, i + l)[k - i] == d[k - i]);
    }
    lemma_digit_run(v, i, i + l);
    lemma_digits_value_dec(n as nat);
    assert(digits_value(v.subrange(i, i + l)) == n);
}

/// The session parser inverts the session encoder.
pub proof fn lemma_parse_enc_session(v: Seq<char>, i: int, s: SessionView)
    requires
        0 <= i,
        i + enc_session(s).len() <= v.len(),
        v.subrange(i, i + enc_session(s).len()) == enc_session(s),
    ensures
        parse_session(v, i) == Some((s, i + enc_session(s).len())),
{
    let q = seq!['"'];
    let cb = seq!['}'];
    let d = dec(s.timestamp as nat);
    let rest7 = d + cb;
    let rest6 = lit_ts() + rest7;
    let rest5 = q + rest6;
    let rest4 = esc(s.description) + rest5;
    let rest3 = lit_desc() + rest4;
    let rest2 = q + rest3;
    let rest1 = esc(s.identifier) + rest2;
    assert(enc_session(s) == lit_id() + rest1);
    lemma_subrange_split(v, i, lit_id(), rest1);
    let o1 = i + lit_id().len();
    lemma_subrange_split(v, o1, esc(s.identifier), rest2);
    let o2 = o1 + esc(s.identifier).len();
    lemma_subrange_split(v, o2, q, rest3);
    assert(v[o2] == '"') by {
        assert(v.subrange(o2, o2 + 1)[0] == q[0]);
    }
    lemma_parse_esc(v, o1, s.identifier);
    let o3 = o2 + 1;
    lemma_subrange_split(v, o3, lit_desc(), rest4);
    let o4 = o3 + lit_desc().len();
    lemma_subrange_split(v, o4, esc(s.description), rest5);
    let o5 = o4 + esc(s.description).len();
    lemma_subrange_split(v, o5, q, rest6);
    assert(v[o5] == '"') by {
        assert(v.subrange(o5, o5 + 1)[0] == q[0]);
    }
    lemma_parse_esc(v, o4, s.description);
    let o6 = o5 + 1;
    lemma_subrange_split(v, o6, lit_ts(), rest7);
    let o7 = o6 + lit_ts().len();
    lemma_subrange_split(v, o7, d, cb);
    let o8 = o7 + d.len();
    assert(v[o8] == '}') by {
        assert(v.subrange(o8, o8 + 1)[0] == cb[0]);
    }
    assert(!is_digit(v[o8]));
    lemma_parse_dec(v, o7, s.timestamp);
    assert(parse_lit(v, i, lit_id()) == Some(o1));
    assert(parse_lit(v, o3, lit_desc()) == Some(o4));
    assert(parse_lit(v, o6, lit_ts()) == Some(o7));
    assert(o8 + 1 == i + enc_session(s).len());
    assert(SessionView {
        identifier: s.identifier,
        description: s.description,
        timestamp: s.timestamp,
    } =~= s);
}

/// The session-list parser inverts the session-list encoder, up to the
/// closing bracket.
pub proof fn lemma_parse_enc_sessions(v: Seq<char>, i: int, l: Seq<SessionView>)
    requires
        l.len() > 0,
        0 <= i,
        i + enc_sessions(l).len() < v.len(),
        v.subrange(i, i + enc_sessions(l).len()) == enc_sessions(l),
        v[i + enc_sessions(l).len()] == ']',
    ensures
        parse_sessions(v, i) == Some((l, i + enc_sessions(l).len())),
    decreases l.len(),
{
    if l.len() == 1 {
        assert(enc_sessions(l) == enc_session(l[0]));
        lemma_parse_enc_session(v, i, l[0]);
        let j = i + enc_session(l[0]).len();
        assert(enc_session(l[0]).len() >= lit_id().len());
        assert(v[j] == ']');
        assert(seq![l[0]] =~= l);
    } else {
        let head = l[0];
        let tail = l.drop_first();
        let sep_rest = seq![','] + enc_sessions(tail);
        assert(enc_sessions(l) == enc_session(head) + sep_rest);
        lemma_subrange_split(v, i, enc_session(head), sep_rest);
        lemma_parse_enc_session(v, i, head);
        let j = i + enc_session(head).len();
        lemma_subrange_split(v, j, seq![','], enc_sessions(tail));
        assert(v[j] == ',') by {
            assert(v.subrange(j, j + 1)[0] == seq![','][0]);
        }
        assert(enc_session(head).len() >= lit_id().len());
        lemma_parse_enc_sessions(v, j + 1, tail);
        assert(seq![head] + tail =~= l);
    }
}

/// Law: parsing the encoded form of any store yields exactly its sessions,
/// in order, with identical identifiers, descriptions and timestamps.
#[verifier::rlimit(100)]
pub proof fn lemma_parse_enc_store(l: Seq<SessionView>)
    ensures
        parse_store(enc_store(l)) == Some(l),
{
    let v = enc_store(l);
    let body = enc_sessions(l) + seq![']', '}'];
    assert(v == lit_header() + body);
    assert(v.subrange(0, v.len() as int) =~= v);
    lemma_subrange_split(v, 0, lit_header(), body);
    let j = lit_header().len() as int;
    assert(parse_lit(v, 0, lit_header()) == Some(j));
    lemma_subrange_split(v, j, enc_sessions(l), seq![']', '}']);
    let k = j + enc_sessions(l).len();
    assert(v[k] == ']' && v[k + 1] == '}') by {
        assert(v.subrange(k, k + 2)[0] == seq![']', '}'][0]);
        assert(v.subrange(k, k + 2)[1] == seq![']', '}'][1]);
    }
    assert(k + 2 == v.len());
    if l.len() == 0 {
        assert(enc_sessions(l).len() == 0);
        assert(v[j] == ']');
    } else {
        assert(v[j] == '{') by {
            assert(v.subrange(j, k)[0] == enc_sessions(l)[0]);
            assert(enc_sessions(l)[0] == enc_session(l[0])[0]);
            assert(enc_session(l[0])[0] == lit_id()[0]);
        }
        lemma_parse_enc_sessions(v, j, l);
    }
}

// ---------------------------------------------------------------------------
// The executable parser. Each function mirrors its spec counterpart and is
// proved to return exactly what that spec function says.
// ---------------------------------------------------------------------------
fn is_digit_exec(c: char) -> (r: bool)
    ensures
        r == is_digit(c),
{
    c == '0' || c == '1' || c == '2' || c == '3' || c == '4' || c == '5' || c == '6' || c == '7'
        || c == '8' || c == '9'
}

fn digit_val_exec(c: char) -> (r: u64)
    requires
        is_digit(c),
    ensures
        r == digit_val(c),
{
    if c == '0' {
        0
    } else if c == '1' {
        1
    } else if c == '2' {
        2
    } else if c == '3' {
        3
    } else if c == '4' {
        4
    } else if c == '5' {
        5
    } else if c == '6' {
        6
    } else if c == '7' {
        7
    } else if c == '8' {
        8
    } else {
        9
    }
}

fn parse_lit_exec(v: &Vec<char>, i: usize, lit: &Vec<char>) -> (r: Option<usize>)
    requires
        i <= v@.len(),
    ensures
        match r {
            Some(j) => parse_lit(v@, i as int, lit@) == Some(j as int) && i <= j <= v@.len(),
            None => parse_lit(v@, i as int, lit@) is None,
        },
{
    if v.len() - i < lit.len() {
        return None;
    }
    let mut k: usize = 0;
    while k < lit.len()
        invariant
            k <= lit.len(),
            i + lit.len() <= v@.len(),
            v@.len() <= usize::MAX,
            forall|m: int| 0 <= m < k ==> v@[i + m] == lit@[m],
        decreases lit.len() - k,
    {
        if v[i + k] != lit[k] {
            proof {
                assert(v@.subrange(i as int, i + lit@.len())[k as int] == v@[i + k]);
            }
            return None;
        }
        k += 1;
    }
    proof {
        assert(v@.subrange(i as int, i + lit@.len()) =~= lit@);
    }
    Some(i + lit.len())
}

fn parse_string_exec(v: &Vec<char>, i: usize) -> (r: Option<(Vec<char>, usize)>)
    ensures
        match r {
            Some(p) => parse_string(v@, i as int) == Some((p.0@, p.1 as int)) && i < p.1
                <= v@.len(),
            None => parse_string(v@, i as int) is None,
        },
    decreases v@.len() - i,
{
    if i >= v.len() {
        return None;
    }
    let c = v[i];
    if c == '"' {
        let empty: Vec<char> = Vec::new();
        proof {
            assert(empty@ =~= Seq::<char>::empty());
        }
        return Some((empty, i + 1));
    }
    if c == '\\' {
        if i + 1 >= v.len() {
            return None;
        }
        let c2 = v[i + 1];
        if c2 == '"' || c2 == '\\' {
            match parse_string_exec(v, i + 2) {
                Some((mut s, j)) => {
                    let ghost tail = s@;
                    s.insert(0, c2);
                    proof {
                        assert(s@ =~= seq![c2] + tail);
                    }
                    Some((s, j))
                },
                None => None,
            }
        } else {
            None
        }
    } else {
        match parse_string_exec(v, i + 1) {
            Some((mut s, j)) => {
                let ghost tail = s@;
                s.insert(0, c);
                proof {
                    assert(s@ =~= seq![c] + tail);
                }
                Some((s, j))
            },
            None => None,
        }
    }
}

/// What `digit_run_end` finds: digits up to it, and none right after.
proof fn lemma_digit_run_end_props(v: Seq<char>, i: int)
    requires
        0 <= i <= v.len(),
    ensures
        i <= digit_run_end(v, i) <= v.len(),
        forall|k: int| i <= k < digit_run_end(v, i) ==> is_digit(#[trigger] v[k]),
        digit_run_end(v, i) == v.len() || !is_digit(v[digit_run_end(v, i)]),
    decreases v.len() - i,
{
    if i < v.len() && is_digit(v[i]) {
        lemma_digit_run_end_props(v, i + 1);
    }
}

/// The value of a longer digit prefix is at least the value of a shorter one.
proof fn lemma_digits_value_mono(v: Seq<char>, i: int, a: int, b: int)
    requires
        0 <= i <= a <= b <= v.len(),
    ensures
        digits_value(v.subrange(i, b)) >= digits_value(v.subrange(i, a)),
    decreases b - a,
{
    if a < b {
        lemma_digits_value_mono(v, i, a, b - 1);
        assert(v.subrange(i, b).drop_last() =~= v.subrange(i, b - 1));
        let x = digits_value(v.subrange(i, b - 1));
        assert(digits_value(v.subrange(i, b)) == x * 10 + digit_val(v.subrange(i, b).last()));
        assert(x * 10 >= x);
    }
}

fn parse_number_exec(v: &Vec<char>, i: usize) -> (r: Option<(u64, usize)>)
    requires
        i <= v@.len(),
    ensures
        match r {
            Some(p) => parse_number(v@, i as int) == Some((p.0, p.1 as int)) && i < p.1
                <= v@.len(),
            None => parse_number(v@, i as int) is None,
        },
{
    let ghost e = digit_run_end(v@, i as int);
    proof {
        lemma_digit_run_end_props(v@, i as int);
    }
    if i >= v.len() {
        return None;
    }
    if !is_digit_exec(v[i]) {
        return None;
    }
    let n = v.len();
    let mut j: usize = i;
    let mut acc: u64 = 0;
    while j < n && is_digit_exec(v[j])
        invariant
            i <= j <= e,
            n == v@.len(),
            e == digit_run_end(v@, i as int),
            i <= e <= n,
            forall|k: int| i <= k < e ==> is_digit(#[trigger] v@[k]),
            e == n || !is_digit(v@[e as int]),
            acc == digits_value(v@.subrange(i as int, j as int)),
        decreases n - j,
    {
        let d = digit_val_exec(v[j]);
        let ghost prefix = v@.subrange(i as int, j as int);
        proof {
            assert(v@.subrange(i as int, j + 1 as int).drop_last() =~= prefix);
            assert(v@.subrange(i as int, j + 1 as int).last() == v@[j as int]);
        }
        let m = match acc.checked_mul(10) {
            Some(m) => m,
            None => {
                proof {
                    assert(digits_value(v@.subrange(i as int, j + 1 as int)) > u64::MAX);
                    lemma_digits_value_mono(v@, i as int, j + 1, e);
                    assert(i < e);
                }
                return None;
            },
        };
        let x = match m.checked_add(d) {
            Some(x) => x,
            None => {
                proof {
                    assert(digits_value(v@.subrange(i as int, j + 1 as int)) > u64::MAX);
                    lemma_digits_value_mono(v@, i as int, j + 1, e);
                    assert(i < e);
                }
                return None;
            },
        };
        acc = x;
        j += 1;
    }
    proof {
        if j < e {
            assert(is_digit(v@[j as int]));
            assert(false);
        }
        assert(j == e);
        assert(i < e);
    }
    Some((acc, j))
}

fn make_lit_id() -> (r: Vec<char>)
    ensures
        r@ == lit_id(),
{
    let mut r: Vec<char> = Vec::new();
    push_lit_id(&mut r);
    proof {
        assert(r@ =~= lit_id());
    }
    r
}

fn make_lit_desc() -> (r: Vec<char>)
    ensures
        r@ == lit_desc(),
{
    let mut r: Vec<char> = Vec::new();
    push_lit_desc(&mut r);
    proof {
        assert(r@ =~= lit_desc());
    }
    r
}

fn make_lit_ts() -> (r: Vec<char>)
    ensures
        r@ == lit_ts(),
{
    let mut r: Vec<char> = Vec::new();
    push_lit_ts(&mut r);
    proof {
        assert(r@ =~= lit_ts());
    }
    r
}

fn parse_session_exec(v: &Vec<char>, i: usize) -> (r: Option<(Session, usize)>)
    requires
        i <= v@.len(),
    ensures
        match r {
            Some(p) => parse_session(v@, i as int) == Some((p.0@, p.1 as int)) && i < p.1
                <= v@.len(),
            None => parse_session(v@, i as int) is None,
        },
{
    let lid = make_lit_id();
    let j1 = match parse_lit_exec(v, i, &lid) {
        Some(j) => j,
        None => {
            return None;
        },
    };
    let (ids, j2) = match parse_string_exec(v, j1) {
        Some(p) => p,
        None => {
            return None;
        },
    };
    let ldesc = make_lit_desc();
    let j3 = match parse_lit_exec(v, j2, &ldesc) {
        Some(j) => j,
        None => {
            return None;
        },
    };
    let (ds, j4) = match parse_string_exec(v, j3) {
        Some(p) => p,
        None => {
            return None;
        },
    };
    let lts = make_lit_ts();
    let j5 = match parse_lit_exec(v, j4, &lts) {
        Some(j) => j,
        None => {
            return None;
        },
    };
    let (t, j6) = match parse_number_exec(v, j5) {
        Some(p) => p,
        None => {
            return None;
        },
    };
    if j6 < v.len() && v[j6] == '}' {
        let sess = Session {
            identifier: chars_to_string(&ids),
            description: chars_to_string(&ds),
            timestamp: t,
        };
        proof {
            assert(sess@ =~= SessionView { identifier: ids@, description: ds@, timestamp: t });
        }
        Some((sess, j6 + 1))
    } else {
        None
    }
}

fn parse_sessions_exec(v: &Vec<char>, i: usize) -> (r: Option<(Vec<Session>, usize)>)
    requires
        i <= v@.len(),
    ensures
        match r {
            Some(p) => parse_sessions(v@, i as int) == Some(
                (p.0@.map_values(|s: Session| s@), p.1 as int),
            ) && i < p.1 <= v@.len(),
            None => parse_sessions(v@, i as int) is None,
        },
    decreases v@.len() - i,
{
    let (sess, j) = match parse_session_exec(v, i) {
        Some(p) => p,
        None => {
            return None;
        },
    };
    if j < v.len() && v[j] == ',' {
        match parse_sessions_exec(v, j + 1) {
            Some((mut rest, k)) => {
                let ghost tailviews = rest@.map_values(|s: Session| s@);
                let ghost sv = sess@;
                rest.insert(0, sess);
                proof {
                    assert(rest@.map_values(|s: Session| s@) =~= seq![sv] + tailviews);
                }
                Some((rest, k))
            },
            None => None,
        }
    } else {
        let mut one: Vec<Session> = Vec::new();
        let ghost sv = sess@;
        one.push(sess);
        proof {
            assert(one@.map_values(|s: Session| s@) =~= seq![sv]);
        }
        Some((one, j))
    }
}

/// Reads a store back from its persisted text. The result is exactly what
/// the spec-level parser says: the sessions of the text when it is
/// well-formed and their identifiers are unique, and a format error
/// otherwise.
pub fn from_json(s: &str) -> (r: Result<Storage, StoreError>)
    ensures
        match r {
            Ok(st) => st.wf() && parse_store(s@) == Some(st@),
            Err(e) => e == StoreError::StorageFormat && match parse_store(s@) {
                Some(l) => !unique_ids(l),
                None => true,
            },
        },
{
    let v = str_to_chars(s);
    let mut lh: Vec<char> = Vec::new();
    push_lit_header(&mut lh);
    proof {
        assert(lh@ =~= lit_header());
    }
    let j = match parse_lit_exec(&v, 0, &lh) {
        Some(j) => j,
        None => {
            return Err(StoreError::StorageFormat);
        },
    };
    if j < v.len() && v[j] == ']' {
        if v.len() - j == 2 && v[j + 1] == '}' {
            let st = Storage { sessions: Vec::new() };
            proof {
                assert(st@ =~= Seq::<SessionView>::empty());
            }
            Ok(st)
        } else {
            Err(StoreError::StorageFormat)
        }
    } else {
        let (ss, k) = match parse_sessions_exec(&v, j) {
            Some(p) => p,
            None => {
                return Err(StoreError::StorageFormat);
            },
        };
        if v.len() >= 2 && k == v.len() - 2 && v[k] == ']' && v[k + 1] == '}' {
            let st = Storage { sessions: ss };
            if st.has_duplicate_ids() {
                Err(StoreError::StorageFormat)
            } else {
                Ok(st)
            }
        } else {
            Err(StoreError::StorageFormat)
        }
    }
}

} // verus!
