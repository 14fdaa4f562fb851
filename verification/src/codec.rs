//! The stored form of a schedule: a JSON-shaped list of entry records,
//! each holding the original date text, the label, and the resolved date
//! as an ISO-8601 UTC timestamp. Encoding and decoding are inverse to one
//! another, so a stored schedule reads back exactly as it was saved; a
//! blob of any other shape fails to decode, which a storage backend
//! reports as an absent schedule.

use vstd::prelude::*;
use crate::chars::{chars_to_string, str_to_chars};
use crate::entry::{Entry, EntryView, wf_entry, wf_schedule};
use crate::fmt::{dec_digits, digit_char, digit_char_exec, push_dec};
use crate::parse::{digit_of, digit_val, is_digit};
use crate::time::{days_in_month, wf_time, UtcTime, MAX_YEAR};

verus! {

// ---------------------------------------------------------------------
// String escaping
// ---------------------------------------------------------------------
/// How one character is written inside a quoted string: quote and
/// backslash escaped, everything else as itself.
pub open spec fn escape_char(c: char) -> Seq<char> {
    if c == '"' {
        seq!['\\', '"']
    } else if c == '\\' {
        seq!['\\', '\\']
    } else {
        seq![c]
    }
}

pub open spec fn escape_str(s: Seq<char>) -> Seq<char>
    decreases s.len(),
{
    if s.len() == 0 {
        Seq::empty()
    } else {
        escape_char(s.first()) + escape_str(s.drop_first())
    }
}

proof fn lemma_escape_push(s: Seq<char>, c: char)
    ensures
        escape_str(s.push(c)) == escape_str(s) + escape_char(c),
    decreases s.len(),
{
    if s.len() == 0 {
        assert(s.push(c).drop_first() =~= Seq::<char>::empty());
        assert(s =~= Seq::<char>::empty());
        assert(escape_str(Seq::<char>::empty()) == Seq::<char>::empty());
        assert(s.push(c).first() == c);
        assert(escape_str(s.push(c)) == escape_char(c) + Seq::<char>::empty());
        assert(escape_str(s.push(c)) =~= escape_str(s) + escape_char(c));
    } else {
        assert(s.push(c).drop_first() =~= s.drop_first().push(c));
        assert(s.push(c).first() == s.first());
        lemma_escape_push(s.drop_first(), c);
        assert(escape_str(s.push(c)) =~= escape_str(s) + escape_char(c));
    }
}

// ---------------------------------------------------------------------
// Numbers
// ---------------------------------------------------------------------
/// A value below one hundred as exactly two digits.
pub open spec fn pad2(v: int) -> Seq<char> {
    seq![digit_char(v / 10), digit_char(v % 10)]
}

/// The stored form of a resolved date: ISO-8601 UTC, seconds precision.
pub open spec fn encode_time(t: UtcTime) -> Seq<char> {
    dec_digits(t.year as nat) + seq!['-'] + pad2(t.month as int) + seq!['-'] + pad2(t.day as int)
        + seq!['T'] + pad2(t.hour as int) + seq![':'] + pad2(t.minute as int) + seq![':'] + pad2(
        t.second as int,
    ) + seq!['Z']
}

/// Length of the run of digits a sequence starts with.
pub open spec fn digits_prefix_len(s: Seq<char>) -> int
    decreases s.len(),
{
    if s.len() > 0 && is_digit(s.first()) {
        1 + digits_prefix_len(s.drop_first())
    } else {
        0
    }
}

/// Value of an all-digit sequence, read as a decimal number.
pub open spec fn digits_value(s: Seq<char>) -> int
    decreases s.len(),
{
    if s.len() == 0 {
        0
    } else {
        digits_value(s.drop_last()) * 10 + digit_val(s.last())
    }
}

/// Reads the leading run of digits (one to ten of them) as a number, and
/// returns it with what follows.
pub open spec fn parse_number(s: Seq<char>) -> Option<(int, Seq<char>)> {
    let k = digits_prefix_len(s);
    if 1 <= k <= 10 {
        Some((digits_value(s.take(k)), s.skip(k)))
    } else {
        None
    }
}

// ---------------------------------------------------------------------
// Decoding, one layer at a time; each spec consumes a prefix and hands
// back the rest.
// ---------------------------------------------------------------------
/// The character an escape code stands for.
pub open spec fn unescape_code(c: char) -> Option<char> {
    if c == '"' {
        Some('"')
    } else if c == '\\' {
        Some('\\')
    } else if c == '/' {
        Some('/')
    } else if c == 'n' {
        Some('\n')
    } else if c == 't' {
        Some('\t')
    } else if c == 'r' {
        Some('\r')
    } else {
        None
    }
}

/// Reads a quoted string's body up to and including its closing quote.
pub open spec fn unescape_prefix(s: Seq<char>) -> Option<(Seq<char>, Seq<char>)>
    decreases s.len(),
{
    if s.len() == 0 {
        None
    } else if s.first() == '"' {
        Some((Seq::empty(), s.drop_first()))
    } else if s.first() == '\\' {
        if s.len() >= 2 {
            match unescape_code(s[1]) {
                Some(c) => match unescape_prefix(s.skip(2)) {
                    Some(p) => Some((seq![c] + p.0, p.1)),
                    None => None,
                },
                None => None,
            }
        } else {
            None
        }
    } else {
        match unescape_prefix(s.drop_first()) {
            Some(p) => Some((seq![s.first()] + p.0, p.1)),
            None => None,
        }
    }
}

/// Reads an ISO-8601 UTC timestamp with in-range fields.
pub open spec fn decode_time(s: Seq<char>) -> Option<(UtcTime, Seq<char>)> {
    match parse_number(s) {
        None => None,
        Some((y, r1)) => if r1.len() > 0 && r1.first() == '-' {
            match parse_number(r1.drop_first()) {
                None => None,
                Some((mo, r2)) => if r2.len() > 0 && r2.first() == '-' {
                    match parse_number(r2.drop_first()) {
                        None => None,
                        Some((d, r3)) => if r3.len() > 0 && r3.first() == 'T' {
                            match parse_number(r3.drop_first()) {
                                None => None,
                                Some((h, r4)) => if r4.len() > 0 && r4.first() == ':' {
                                    match parse_number(r4.drop_first()) {
                                        None => None,
                                        Some((mi, r5)) => if r5.len() > 0 && r5.first() == ':' {
                                            match parse_number(r5.drop_first()) {
                                                None => None,
                                                Some((se, r6)) => if r6.len() > 0 && r6.first()
                                                    == 'Z' && 1 <= y <= MAX_YEAR && 1 <= mo <= 12
                                                    && 1 <= d <= days_in_month(y, mo) && h <= 23
                                                    && mi <= 59 && se <= 59 {
                                                    Some(
                                                        (
                                                            UtcTime {
                                                                year: y as i64,
                                                                month: mo as u8,
                                                                day: d as u8,
                                                                hour: h as u8,
                                                                minute: mi as u8,
                                                                second: se as u8,
                                                            },
                                                            r6.drop_first(),
                                                        ),
                                                    )
                                                } else {
                                                    None
                                                },
                                            }
                                        } else {
                                            None
                                        },
                                    }
                                } else {
                                    None
                                },
                            }
                        } else {
                            None
                        },
                    }
                } else {
                    None
                },
            }
        } else {
            None
        },
    }
}

/// Reads one stored entry record.
pub open spec fn decode_entry_prefix(s: Seq<char>) -> Option<(EntryView, Seq<char>)> {
    if s.len() >= 12 && s.take(12) == "{\"datestr\":\""@ {
        match unescape_prefix(s.skip(12)) {
            None => None,
            Some((ds, r1)) => if r1.len() >= 10 && r1.take(10) == ",\"label\":\""@ {
                match unescape_prefix(r1.skip(10)) {
                    None => None,
                    Some((lb, r2)) => if r2.len() >= 9 && r2.take(9) == ",\"date\":\""@ {
                        match decode_time(r2.skip(9)) {
                            None => None,
                            Some((t, r3)) => if r3.len() >= 2 && r3.take(2) == "\"}"@ {
                                Some(
                                    (
                                        EntryView { datestr: ds, label: lb, date: Some(t) },
                                        r3.skip(2),
                                    ),
                                )
                            } else {
                                None
                            },
                        }
                    } else {
                        None
                    },
                }
            } else {
                None
            },
        }
    } else {
        None
    }
}

/// Reads one or more comma-separated entry records.
pub open spec fn decode_entries_prefix(s: Seq<char>) -> Option<(Seq<EntryView>, Seq<char>)>
    decreases s.len(),
{
    match decode_entry_prefix(s) {
        None => None,
        Some((e, r)) => if r.len() < s.len() && r.len() > 0 && r.first() == ',' {
            match decode_entries_prefix(r.drop_first()) {
                None => None,
                Some((es, r2)) => Some((seq![e] + es, r2)),
            }
        } else {
            Some((seq![e], r))
        },
    }
}

/// A whole stored schedule: `[]`, or records between brackets.
pub open spec fn decode_schedule_spec(s: Seq<char>) -> Option<Seq<EntryView>> {
    if s.len() >= 1 && s.first() == '[' {
        if s.len() == 2 && s[1] == ']' {
            Some(Seq::empty())
        } else {
            match decode_entries_prefix(s.drop_first()) {
                None => None,
                Some((es, r)) => if r =~= seq![']'] {
                    Some(es)
                } else {
                    None
                },
            }
        }
    } else {
        None
    }
}

// ---------------------------------------------------------------------
// Encoding
// ---------------------------------------------------------------------
/// One stored entry record.
pub open spec fn encode_entry(e: EntryView) -> Seq<char> {
    "{\"datestr\":\""@ + escape_str(e.datestr) + "\",\"label\":\""@ + escape_str(e.label)
        + "\",\"date\":\""@ + encode_time(e.date.unwrap()) + "\"}"@
}

/// Records joined by commas.
pub open spec fn encode_entries(s: Seq<EntryView>) -> Seq<char>
    decreases s.len(),
{
    if s.len() == 0 {
        Seq::empty()
    } else if s.len() == 1 {
        encode_entry(s[0])
    } else {
        encode_entry(s.first()) + seq![','] + encode_entries(s.drop_first())
    }
}

/// The whole stored form.
pub open spec fn encode_schedule_spec(s: Seq<EntryView>) -> Seq<char> {
    seq!['['] + encode_entries(s) + seq![']']
}

/// Appends a literal's characters.
fn push_lit(out: &mut Vec<char>, lit: &str)
    ensures
        final(out)@ == old(out)@ + lit@,
{
    let cs: Vec<char> = str_to_chars(lit);
    let n: usize = cs.len();
    let mut i: usize = 0;
    while i < n
        invariant
            i <= n,
            n == cs@.len(),
            cs@ == lit@,
            out@ == old(out)@ + cs@.take(i as int),
        decreases n - i,
    {
        out.push(cs[i]);
        proof {
            assert(cs@.take(i as int + 1) =~= cs@.take(i as int).push(cs@[i as int]));
            assert(out@ =~= old(out)@ + cs@.take(i as int + 1));
        }
        i = i + 1;
    }
    proof {
        assert(cs@.take(n as int) =~= lit@);
    }
}

/// Appends a string body in escaped form.
fn push_escaped(out: &mut Vec<char>, s: &str)
    ensures
        final(out)@ == old(out)@ + escape_str(s@),
{
    let cs: Vec<char> = str_to_chars(s);
    let n: usize = cs.len();
    let mut i: usize = 0;
    proof {
        assert(escape_str(cs@.take(0)) =~= Seq::<char>::empty());
        assert(out@ =~= old(out)@ + escape_str(cs@.take(0)));
    }
    while i < n
        invariant
            i <= n,
            n == cs@.len(),
            cs@ == s@,
            out@ == old(out)@ + escape_str(cs@.take(i as int)),
        decreases n - i,
    {
        let c: char = cs[i];
        if c == '"' {
            out.push('\\');
            out.push('"');
        } else if c == '\\' {
            out.push('\\');
            out.push('\\');
        } else {
            out.push(c);
        }
        proof {
            lemma_escape_push(cs@.take(i as int), cs@[i as int]);
            assert(cs@.take(i as int + 1) =~= cs@.take(i as int).push(cs@[i as int]));
            assert(out@ =~= old(out)@ + escape_str(cs@.take(i as int + 1)));
        }
        i = i + 1;
    }
    proof {
        assert(cs@.take(n as int) =~= s@);
    }
}

/// Appends a value below one hundred as two digits.
fn push_pad2(out: &mut Vec<char>, v: u8)
    requires
        v <= 99,
    ensures
        final(out)@ == old(out)@ + pad2(v as int),
{
    out.push(digit_char_exec(v / 10));
    out.push(digit_char_exec(v % 10));
    proof {
        assert(out@ =~= old(out)@ + pad2(v as int));
    }
}

/// Appends a resolved date in its stored ISO-8601 form.
fn push_time(out: &mut Vec<char>, t: &UtcTime)
    requires
        wf_time(*t),
    ensures
        final(out)@ == old(out)@ + encode_time(*t),
{
    push_dec(out, t.year as u64);
    out.push('-');
    push_pad2(out, t.month);
    out.push('-');
    push_pad2(out, t.day);
    out.push('T');
    push_pad2(out, t.hour);
    out.push(':');
    push_pad2(out, t.minute);
    out.push(':');
    push_pad2(out, t.second);
    out.push('Z');
    proof {
        assert(out@ =~= old(out)@ + encode_time(*t));
    }
}

/// Appends one entry record.
fn push_entry(out: &mut Vec<char>, e: &Entry)
    requires
        wf_entry(e@),
    ensures
        final(out)@ == old(out)@ + encode_entry(e@),
{
    push_lit(out, "{\"datestr\":\"");
    push_escaped(out, e.datestr.as_str());
    push_lit(out, "\",\"label\":\"");
    push_escaped(out, e.label.as_str());
    push_lit(out, "\",\"date\":\"");
    match &e.date {
        Some(t) => push_time(out, t),
        None => {
            proof {
                assert(false);
            }
        },
    }
    push_lit(out, "\"}");
    proof {
        assert(out@ =~= old(out)@ + encode_entry(e@));
    }
}

/// Writes a schedule in its stored form.
pub fn encode_schedule(es: &Vec<Entry>) -> (r: String)
    requires
        wf_schedule(es.deep_view()),
    ensures
        r@ == encode_schedule_spec(es.deep_view()),
{
    let ghost s = es.deep_view();
    let mut out: Vec<char> = Vec::new();
    out.push('[');
    let n: usize = es.len();
    let mut i: usize = 0;
    while i < n
        invariant
            i <= n,
            n == s.len(),
            s == es.deep_view(),
            wf_schedule(s),
            out@ == seq!['['] + encode_entries(s.take(i as int)),
        decreases n - i,
    {
        proof {
            assert(es@[i as int].deep_view() == s[i as int]);
            assert(wf_entry(s[i as int]));
        }
        if i > 0 {
            out.push(',');
        }
        push_entry(&mut out, &es[i]);
        proof {
            let t = s.take(i as int);
            assert(s.take(i as int + 1) =~= t.push(s[i as int]));
            if i == 0 {
                assert(encode_entries(t.push(s[i as int])) == encode_entry(s[i as int]));
                assert(out@ =~= seq!['['] + encode_entries(s.take(i as int + 1)));
            } else {
                lemma_encode_entries_push(t, s[i as int]);
                assert(out@ =~= seq!['['] + encode_entries(s.take(i as int + 1)));
            }
        }
        i = i + 1;
    }
    out.push(']');
    proof {
        assert(s.take(n as int) =~= s);
        assert(out@ =~= encode_schedule_spec(s));
    }
    chars_to_string(&out)
}

proof fn lemma_concat_shuffle_sep(a: Seq<char>, b: Seq<char>, c: Seq<char>)
    ensures
        a + seq![','] + (b + seq![','] + c) == (a + seq![','] + b) + seq![','] + c,
{
    assert(a + seq![','] + (b + seq![','] + c) =~= (a + seq![','] + b) + seq![','] + c);
}

proof fn lemma_encode_entries_push(s: Seq<EntryView>, e: EntryView)
    requires
        s.len() >= 1,
    ensures
        encode_entries(s.push(e)) == encode_entries(s) + seq![','] + encode_entry(e),
    decreases s.len(),
{
    if s.len() == 1 {
        assert(s.push(e).drop_first() =~= seq![e]);
        assert(s.push(e).first() == s[0]);
        assert(encode_entries(s.push(e).drop_first()) == encode_entry(e));
        assert(encode_entries(s.push(e)) == encode_entry(s[0]) + seq![','] + encode_entry(e));
        assert(encode_entries(s) == encode_entry(s[0]));
    } else {
        assert(s.push(e).drop_first() =~= s.drop_first().push(e));
        assert(s.push(e).first() == s.first());
        lemma_encode_entries_push(s.drop_first(), e);
        let a = encode_entry(s.first());
        let b = encode_entries(s.drop_first());
        let c = encode_entry(e);
        assert(encode_entries(s.push(e)) == a + seq![','] + (b + seq![','] + c));
        lemma_concat_shuffle_sep(a, b, c);
        assert(encode_entries(s) == a + seq![','] + b);
    }
}

// ---------------------------------------------------------------------
// The executable decoder
// ---------------------------------------------------------------------
pub open spec fn pow10(k: nat) -> nat
    decreases k,
{
    if k == 0 {
        1
    } else {
        10 * pow10((k - 1) as nat)
    }
}

proof fn lemma_digits_value_bound(s: Seq<char>)
    requires
        forall|k: int| 0 <= k < s.len() ==> is_digit(s[k]),
    ensures
        0 <= digits_value(s) < pow10(s.len() as nat),
    decreases s.len(),
{
    if s.len() > 0 {
        lemma_digits_value_bound(s.drop_last());
        assert(is_digit(s.last()));
        assert(0 <= digit_val(s.last()) <= 9);
    }
}

proof fn lemma_digits_prefix_len_eq(s: Seq<char>, m: int)
    requires
        0 <= m <= s.len(),
        forall|k: int| 0 <= k < m ==> is_digit(s[k]),
        m == s.len() || !is_digit(s[m]),
    ensures
        digits_prefix_len(s) == m,
    decreases m,
{
    if m == 0 {
    } else {
        assert(is_digit(s[0]));
        assert forall|k: int| 0 <= k < m - 1 implies is_digit(s.drop_first()[k]) by {
            assert(s.drop_first()[k] == s[k + 1]);
        }
        if m < s.len() {
            assert(s.drop_first()[m - 1] == s[m]);
        }
        lemma_digits_prefix_len_eq(s.drop_first(), m - 1);
    }
}

fn parse_number_exec(v: &Vec<char>, i: usize) -> (r: Option<(u64, usize)>)
    requires
        i <= v@.len(),
    ensures
        match r {
            Some(p) => i < p.1 <= v@.len() && p.0 <= 9999999999 && parse_number(
                v@.skip(i as int),
            ) == Some((p.0 as int, v@.skip(p.1 as int))),
            None => parse_number(v@.skip(i as int)) is None,
        },
{
    let ghost s = v@.skip(i as int);
    let n: usize = v.len();
    let m: usize = digits_run_end(v, i);
    proof {
        assert forall|k: int| 0 <= k < m - i implies is_digit(s[k]) by {
            assert(s[k] == v@[i + k]);
        }
        if m < n {
            assert(s[m - i] == v@[m as int]);
        }
        lemma_digits_prefix_len_eq(s, m as int - i as int);
    }
    if m == i || m - i > 10 {
        return None;
    }
    let mut acc: u64 = 0;
    let mut t: usize = i;
    proof {
        assert(v@.subrange(i as int, i as int) =~= Seq::<char>::empty());
    }
    while t < m
        invariant
            i <= t <= m <= n,
            n == v@.len(),
            m - i <= 10,
            forall|k: int| i <= k < m ==> is_digit(v@[k]),
            acc == digits_value(v@.subrange(i as int, t as int)),
            acc < pow10((t - i) as nat),
        decreases m - t,
    {
        let d: u8 = match digit_of_run(v, t) {
            Some(d) => d,
            None => {
                proof {
                    assert(false);
                }
                0
            },
        };
        proof {
            lemma_pow10_values();
            assert(v@.subrange(i as int, t as int + 1).drop_last() =~= v@.subrange(
                i as int,
                t as int,
            ));
            assert(v@.subrange(i as int, t as int + 1).last() == v@[t as int]);
        }
        acc = acc * 10 + (d as u64);
        t = t + 1;
    }
    proof {
        lemma_pow10_values();
        assert(v@.subrange(i as int, m as int) =~= s.take(m as int - i as int));
        assert(v@.skip(m as int) =~= s.skip(m as int - i as int));
    }
    Some((acc, m))
}

/// Position just past the run of digits starting at `i`.
fn digits_run_end(v: &Vec<char>, i: usize) -> (m: usize)
    requires
        i <= v@.len(),
    ensures
        i <= m <= v@.len(),
        forall|k: int| i <= k < m ==> is_digit(v@[k]),
        m == v@.len() || !is_digit(v@[m as int]),
{
    let n: usize = v.len();
    let mut m: usize = i;
    while m < n
        invariant
            i <= m <= n,
            n == v@.len(),
            forall|k: int| i <= k < m ==> is_digit(v@[k]),
        decreases n - m,
    {
        match digit_of_run(v, m) {
            None => {
                return m;
            },
            Some(_) => {},
        }
        m = m + 1;
    }
    m
}

/// The digit at one position, if the character there is a digit.
fn digit_of_run(v: &Vec<char>, k: usize) -> (r: Option<u8>)
    requires
        k < v@.len(),
    ensures
        match r {
            Some(d) => digit_of(v@[k as int]) == Some(d as int) && d <= 9,
            None => !is_digit(v@[k as int]),
        },
{
    crate::parse::digit_of_exec(v[k])
}

proof fn lemma_pow10_values()
    ensures
        pow10(0) == 1,
        pow10(1) == 10,
        pow10(2) == 100,
        pow10(3) == 1000,
        pow10(4) == 10000,
        pow10(5) == 100000,
        pow10(6) == 1000000,
        pow10(7) == 10000000,
        pow10(8) == 100000000,
        pow10(9) == 1000000000,
        pow10(10) == 10000000000,
{
    assert(pow10(0) == 1);
    assert(pow10(1) == 10);
    assert(pow10(2) == 100);
    assert(pow10(3) == 1000);
    assert(pow10(4) == 10000);
    assert(pow10(5) == 100000);
    assert(pow10(6) == 1000000);
    assert(pow10(7) == 10000000);
    assert(pow10(8) == 100000000);
    assert(pow10(9) == 1000000000);
    assert(pow10(10) == 10000000000);
}

fn unescape_code_exec(c: char) -> (r: Option<char>)
    ensures
        r == unescape_code(c),
{
    if c == '"' {
        Some('"')
    } else if c == '\\' {
        Some('\\')
    } else if c == '/' {
        Some('/')
    } else if c == 'n' {
        Some('\n')
    } else if c == 't' {
        Some('\t')
    } else if c == 'r' {
        Some('\r')
    } else {
        None
    }
}

fn unescape_exec(v: &Vec<char>, i: usize) -> (r: Option<(Vec<char>, usize)>)
    requires
        i <= v@.len(),
    ensures
        match r {
            Some(p) => i < p.1 <= v@.len() && unescape_prefix(v@.skip(i as int)) == Some(
                (p.0@, v@.skip(p.1 as int)),
            ),
            None => unescape_prefix(v@.skip(i as int)) is None,
        },
    decreases v@.len() - i,
{
    let ghost s = v@.skip(i as int);
    let n: usize = v.len();
    if i >= n {
        return None;
    }
    proof {
        assert(s.first() == v@[i as int]);
        assert(s.drop_first() =~= v@.skip(i as int + 1));
    }
    if v[i] == '"' {
        return Some((Vec::new(), i + 1));
    }
    if v[i] == '\\' {
        if i + 1 < n {
            proof {
                assert(s[1] == v@[i as int + 1]);
                assert(s.skip(2) =~= v@.skip(i as int + 2));
            }
            match unescape_code_exec(v[i + 1]) {
                Some(c) => match unescape_exec(v, i + 2) {
                    Some((mut u, j)) => {
                        let ghost u0 = u@;
                        u.insert(0, c);
                        proof {
                            assert(u@ =~= seq![c] + u0);
                        }
                        Some((u, j))
                    },
                    None => None,
                },
                None => None,
            }
        } else {
            proof {
                assert(s.len() == 1);
            }
            None
        }
    } else {
        match unescape_exec(v, i + 1) {
            Some((mut u, j)) => {
                let ghost u0 = u@;
                let c: char = v[i];
                u.insert(0, c);
                proof {
                    assert(u@ =~= seq![c] + u0);
                }
                Some((u, j))
            },
            None => None,
        }
    }
}

fn match_lit(v: &Vec<char>, i: usize, lit: &str) -> (r: Option<usize>)
    requires
        i <= v@.len(),
    ensures
        match r {
            Some(j) => i + lit@.len() == j && j <= v@.len() && v@.subrange(i as int, j as int)
                == lit@,
            None => !(i + lit@.len() <= v@.len() && v@.subrange(
                i as int,
                i as int + lit@.len() as int,
            ) == lit@),
        },
{
    let cs: Vec<char> = str_to_chars(lit);
    let m: usize = cs.len();
    let n: usize = v.len();
    if n - i < m {
        return None;
    }
    let mut k: usize = 0;
    while k < m
        invariant
            k <= m,
            m == cs@.len(),
            cs@ == lit@,
            i + m <= n,
            n == v@.len(),
            forall|t: int| 0 <= t < k ==> v@[i + t] == cs@[t],
        decreases m - k,
    {
        if v[i + k] != cs[k] {
            proof {
                assert(v@.subrange(i as int, i as int + m as int)[k as int] == v@[i as int
                    + k as int]);
            }
            return None;
        }
        k = k + 1;
    }
    proof {
        assert(v@.subrange(i as int, i as int + m as int) =~= cs@);
    }
    Some((i + m))
}

#[verifier::rlimit(60)]
fn decode_time_exec(v: &Vec<char>, i: usize) -> (r: Option<(UtcTime, usize)>)
    requires
        i <= v@.len(),
    ensures
        match r {
            Some(p) => i < p.1 <= v@.len() && decode_time(v@.skip(i as int)) == Some(
                (p.0, v@.skip(p.1 as int)),
            ) && wf_time(p.0),
            None => decode_time(v@.skip(i as int)) is None,
        },
{
    let n: usize = v.len();
    let y_j = parse_number_exec(v, i);
    match y_j {
        None => None,
        Some((y, j1)) => {
            proof {
                if j1 < n {
                    assert(v@.skip(j1 as int).first() == v@[j1 as int]);
                    assert(v@.skip(j1 as int).drop_first() =~= v@.skip(j1 as int + 1));
                }
            }
            if !(j1 < n && v[j1] == '-') {
                return None;
            }
            match parse_number_exec(v, j1 + 1) {
                None => None,
                Some((mo, j2)) => {
                    proof {
                        if j2 < n {
                            assert(v@.skip(j2 as int).first() == v@[j2 as int]);
                            assert(v@.skip(j2 as int).drop_first() =~= v@.skip(j2 as int + 1));
                        }
                    }
                    if !(j2 < n && v[j2] == '-') {
                        return None;
                    }
                    match parse_number_exec(v, j2 + 1) {
                        None => None,
                        Some((d, j3)) => {
                            proof {
                                if j3 < n {
                                    assert(v@.skip(j3 as int).first() == v@[j3 as int]);
                                    assert(v@.skip(j3 as int).drop_first() =~= v@.skip(j3 as int + 1));
                                }
                            }
                            if !(j3 < n && v[j3] == 'T') {
                                return None;
                            }
                            match parse_number_exec(v, j3 + 1) {
                                None => None,
                                Some((h, j4)) => {
                                    proof {
                                        if j4 < n {
                                            assert(v@.skip(j4 as int).first() == v@[j4 as int]);
                                            assert(v@.skip(j4 as int).drop_first() =~= v@.skip(j4 as int + 1));
                                        }
                                    }
                                    if !(j4 < n && v[j4] == ':') {
                                        return None;
                                    }
                                    match parse_number_exec(v, j4 + 1) {
                                        None => None,
                                        Some((mi, j5)) => {
                                            proof {
                                                if j5 < n {
                                                    assert(v@.skip(j5 as int).first() == v@[
                                                        j5 as int]);
                                                    assert(v@.skip(j5 as int).drop_first()
                                                        =~= v@.skip(j5 as int + 1));
                                                }
                                            }
                                            if !(j5 < n && v[j5] == ':') {
                                                return None;
                                            }
                                            match parse_number_exec(v, j5 + 1) {
                                                None => None,
                                                Some((se, j6)) => {
                                                    proof {
                                                        if j6 < n {
                                                            assert(v@.skip(j6 as int).first()
                                                                == v@[j6 as int]);
                                                            assert(v@.skip(j6 as int).drop_first()
                                                                =~= v@.skip(j6 as int + 1));
                                                        }
                                                    }
                                                    finish_time(v, i, y, mo, d, h, mi, se, j6)
                                                },
                                            }
                                        },
                                    }
                                },
                            }
                        },
                    }
                },
            }
        },
    }
}

/// Range-checks decoded timestamp fields.
fn finish_time(v: &Vec<char>, i: usize, y: u64, mo: u64, d: u64, h: u64, mi: u64, se: u64, j6: usize) -> (r:
    Option<(UtcTime, usize)>)
    requires
        i < j6 <= v@.len(),
        ({
            let s = v@.skip(i as int);
            decode_time(s) == (if j6 < v@.len() && v@[j6 as int] == 'Z' && 1 <= y <= MAX_YEAR && 1
                <= mo <= 12 && 1 <= d <= days_in_month(y as int, mo as int) && h <= 23 && mi <= 59
                && se <= 59 {
                Some(
                    (
                        UtcTime {
                            year: y as i64,
                            month: mo as u8,
                            day: d as u8,
                            hour: h as u8,
                            minute: mi as u8,
                            second: se as u8,
                        },
                        v@.skip(j6 as int + 1),
                    ),
                )
            } else {
                None::<(UtcTime, Seq<char>)>
            })
        }),
    ensures
        match r {
            Some(p) => i < p.1 <= v@.len() && decode_time(v@.skip(i as int)) == Some(
                (p.0, v@.skip(p.1 as int)),
            ) && wf_time(p.0),
            None => decode_time(v@.skip(i as int)) is None,
        },
{
    let n: usize = v.len();
    if !(j6 < n && v[j6] == 'Z') {
        return None;
    }
    if !(1 <= y && y <= 2147483647) {
        return None;
    }
    if !(1 <= mo && mo <= 12) {
        return None;
    }
    let dim: u8 = crate::time::dim_exec(y as i64, mo as u8);
    if !(1 <= d && d <= dim as u64) {
        return None;
    }
    if !(h <= 23 && mi <= 59 && se <= 59) {
        return None;
    }
    let t = UtcTime {
        year: y as i64,
        month: mo as u8,
        day: d as u8,
        hour: h as u8,
        minute: mi as u8,
        second: se as u8,
    };
    Some((t, j6 + 1))
}

fn decode_entry_exec(v: &Vec<char>, i: usize) -> (r: Option<(Entry, usize)>)
    requires
        i <= v@.len(),
    ensures
        match r {
            Some(p) => i < p.1 <= v@.len() && decode_entry_prefix(v@.skip(i as int)) == Some(
                (p.0@, v@.skip(p.1 as int)),
            ) && wf_entry(p.0@),
            None => decode_entry_prefix(v@.skip(i as int)) is None,
        },
{
    let ghost s = v@.skip(i as int);
    let n: usize = v.len();
    proof {
        reveal_strlit("{\"datestr\":\"");
        reveal_strlit(",\"label\":\"");
        reveal_strlit(",\"date\":\"");
        reveal_strlit("\"}");
        if i + 12 <= n {
            assert(s.take(12) =~= v@.subrange(i as int, i as int + 12));
        }
    }
    let j1: usize = match match_lit(v, i, "{\"datestr\":\"") {
        None => {
            return None;
        },
        Some(j) => j,
    };
    proof {
        assert(s.skip(12) =~= v@.skip(j1 as int));
    }
    let (ds, j2): (Vec<char>, usize) = match unescape_exec(v, j1) {
        None => {
            return None;
        },
        Some(p) => p,
    };
    proof {
        if j2 + 10 <= n {
            assert(v@.skip(j2 as int).take(10) =~= v@.subrange(j2 as int, j2 as int + 10));
        }
    }
    let j3: usize = match match_lit(v, j2, ",\"label\":\"") {
        None => {
            return None;
        },
        Some(j) => j,
    };
    proof {
        assert(v@.skip(j2 as int).skip(10) =~= v@.skip(j3 as int));
    }
    let (lb, j4): (Vec<char>, usize) = match unescape_exec(v, j3) {
        None => {
            return None;
        },
        Some(p) => p,
    };
    proof {
        if j4 + 9 <= n {
            assert(v@.skip(j4 as int).take(9) =~= v@.subrange(j4 as int, j4 as int + 9));
        }
    }
    let j5: usize = match match_lit(v, j4, ",\"date\":\"") {
        None => {
            return None;
        },
        Some(j) => j,
    };
    proof {
        assert(v@.skip(j4 as int).skip(9) =~= v@.skip(j5 as int));
    }
    let (t, j6): (UtcTime, usize) = match decode_time_exec(v, j5) {
        None => {
            return None;
        },
        Some(p) => p,
    };
    proof {
        if j6 + 2 <= n {
            assert(v@.skip(j6 as int).take(2) =~= v@.subrange(j6 as int, j6 as int + 2));
        }
    }
    let j7: usize = match match_lit(v, j6, "\"}") {
        None => {
            return None;
        },
        Some(j) => j,
    };
    proof {
        assert(v@.skip(j6 as int).skip(2) =~= v@.skip(j7 as int));
    }
    let e = Entry { datestr: chars_to_string(&ds), label: chars_to_string(&lb), date: Some(t) };
    Some((e, j7))
}

fn decode_entries_exec(v: &Vec<char>, start: usize) -> (r: Option<(Vec<Entry>, usize)>)
    requires
        start <= v@.len(),
    ensures
        match r {
            Some(p) => p.1 <= v@.len() && decode_entries_prefix(v@.skip(start as int)) == Some(
                (p.0.deep_view(), v@.skip(p.1 as int)),
            ) && wf_schedule(p.0.deep_view()),
            None => decode_entries_prefix(v@.skip(start as int)) is None,
        },
{
    let n: usize = v.len();
    let mut acc: Vec<Entry> = Vec::new();
    let mut cur: usize = start;
    proof {
        assert(acc.deep_view() =~= Seq::<EntryView>::empty());
    }
    loop
        invariant
            start <= cur <= n,
            n == v@.len(),
            wf_schedule(acc.deep_view()),
            match decode_entries_prefix(v@.skip(cur as int)) {
                Some(p) => decode_entries_prefix(v@.skip(start as int)) == Some(
                    (acc.deep_view() + p.0, p.1),
                ),
                None => decode_entries_prefix(v@.skip(start as int)) is None,
            },
        decreases n - cur,
    {
        let ghost scur = v@.skip(cur as int);
        match decode_entry_exec(v, cur) {
            None => {
                return None;
            },
            Some((e, j)) => {
                let ghost acc0 = acc.deep_view();
                proof {
                    assert(v@.skip(j as int).len() < scur.len());
                    if j < n {
                        assert(v@.skip(j as int).first() == v@[j as int]);
                        assert(v@.skip(j as int).drop_first() =~= v@.skip(j as int + 1));
                    }
                }
                if j < n && v[j] == ',' {
                    acc.push(e);
                    proof {
                        assert(acc.deep_view() =~= acc0.push(e@));
                        match decode_entries_prefix(v@.skip(j as int + 1)) {
                            Some(p) => {
                                assert(acc0 + (seq![e@] + p.0) =~= acc0.push(e@) + p.0);
                            },
                            None => {},
                        }
                    }
                    cur = j + 1;
                } else {
                    acc.push(e);
                    proof {
                        assert(acc.deep_view() =~= acc0.push(e@));
                        assert(decode_entries_prefix(scur) == Some((seq![e@], v@.skip(j as int))));
                        assert(acc0 + seq![e@] =~= acc0.push(e@));
                    }
                    return Some((acc, j));
                }
            },
        }
    }
}

// ---------------------------------------------------------------------
// Decoding inverts encoding
// ---------------------------------------------------------------------
proof fn lemma_unescape_escape(s: Seq<char>, rest: Seq<char>)
    ensures
        unescape_prefix(escape_str(s) + seq!['"'] + rest) == Some((s, rest)),
    decreases s.len(),
{
    let big = escape_str(s) + seq!['"'] + rest;
    if s.len() == 0 {
        assert(escape_str(s) == Seq::<char>::empty());
        assert(big.first() == '"');
        assert(big.drop_first() =~= rest);
    } else {
        let c = s.first();
        let tail = s.drop_first();
        lemma_unescape_escape(tail, rest);
        let inner = escape_str(tail) + seq!['"'] + rest;
        assert(escape_str(s) == escape_char(c) + escape_str(tail));
        if c == '"' {
            assert(big =~= seq!['\\', '"'] + inner);
            assert(big.first() == '\\');
            assert(big[1] == '"');
            assert(unescape_code('"') == Some('"'));
            assert(big.skip(2) =~= inner);
            assert(seq![c] + tail =~= s);
        } else if c == '\\' {
            assert(big =~= seq!['\\', '\\'] + inner);
            assert(big.first() == '\\');
            assert(big[1] == '\\');
            assert(unescape_code('\\') == Some('\\'));
            assert(big.skip(2) =~= inner);
            assert(seq![c] + tail =~= s);
        } else {
            assert(big =~= seq![c] + inner);
            assert(big.first() == c);
            assert(big.drop_first() =~= inner);
            assert(seq![c] + tail =~= s);
        }
    }
}

proof fn lemma_dec_digits_all(n: nat)
    ensures
        forall|k: int| 0 <= k < dec_digits(n).len() ==> is_digit(#[trigger] dec_digits(n)[k]),
        dec_digits(n).len() >= 1,
    decreases n,
{
    if n < 10 {
        assert(is_digit(digit_char(n as int)));
    } else {
        lemma_dec_digits_all(n / 10);
        assert(is_digit(digit_char((n % 10) as int)));
        assert forall|k: int| 0 <= k < dec_digits(n).len() implies is_digit(
            #[trigger] dec_digits(n)[k],
        ) by {
            if k < dec_digits(n).len() - 1 {
                assert(dec_digits(n)[k] == dec_digits(n / 10)[k]);
            } else {
                assert(dec_digits(n)[k] == digit_char((n % 10) as int));
            }
        }
    }
}

proof fn lemma_dec_digits_len(n: nat, k: nat)
    requires
        n < pow10(k),
        k >= 1,
    ensures
        dec_digits(n).len() <= k,
    decreases n,
{
    if n < 10 {
    } else {
        if k == 1 {
            lemma_pow10_values();
            assert(false);
        }
        vstd::arithmetic::div_mod::lemma_fundamental_div_mod(n as int, 10);
        assert(n == 10 * (n as int / 10) + n as int % 10);
        assert(pow10(k) == 10 * pow10((k - 1) as nat));
        assert(n / 10 < pow10((k - 1) as nat));
        lemma_dec_digits_len(n / 10, (k - 1) as nat);
    }
}

proof fn lemma_dec_digits_value(n: nat)
    ensures
        digits_value(dec_digits(n)) == n,
    decreases n,
{
    if n < 10 {
        assert(seq![digit_char(n as int)].drop_last() =~= Seq::<char>::empty());
        assert(digits_value(Seq::<char>::empty()) == 0);
        assert(digit_val(digit_char(n as int)) == n);
    } else {
        lemma_dec_digits_value(n / 10);
        let d = dec_digits(n);
        assert(d.drop_last() =~= dec_digits(n / 10));
        assert(d.last() == digit_char((n % 10) as int));
        assert(digit_val(digit_char((n % 10) as int)) == n % 10);
        vstd::arithmetic::div_mod::lemma_fundamental_div_mod(n as int, 10);
    }
}

proof fn lemma_parse_digits(pre: Seq<char>, rest: Seq<char>, value: int)
    requires
        forall|k: int| 0 <= k < pre.len() ==> is_digit(#[trigger] pre[k]),
        1 <= pre.len() <= 10,
        rest.len() == 0 || !is_digit(rest.first()),
        digits_value(pre) == value,
    ensures
        parse_number(pre + rest) == Some((value, rest)),
{
    let s = pre + rest;
    assert forall|k: int| 0 <= k < pre.len() implies is_digit(s[k]) by {
        assert(s[k] == pre[k]);
    }
    if pre.len() < s.len() {
        assert(s[pre.len() as int] == rest.first());
    }
    lemma_digits_prefix_len_eq(s, pre.len() as int);
    assert(s.take(pre.len() as int) =~= pre);
    assert(s.skip(pre.len() as int) =~= rest);
}

proof fn lemma_pad2_digits(v: int)
    requires
        0 <= v <= 99,
    ensures
        forall|k: int| 0 <= k < pad2(v).len() ==> is_digit(#[trigger] pad2(v)[k]),
        pad2(v).len() == 2,
        digits_value(pad2(v)) == v,
{
    assert(pad2(v)[0] == digit_char(v / 10));
    assert(pad2(v)[1] == digit_char(v % 10));
    assert(is_digit(digit_char(v / 10)));
    assert(is_digit(digit_char(v % 10)));
    assert(pad2(v).drop_last() =~= seq![digit_char(v / 10)]);
    assert(pad2(v).last() == digit_char(v % 10));
    assert(seq![digit_char(v / 10)].drop_last() =~= Seq::<char>::empty());
    assert(seq![digit_char(v / 10)].last() == digit_char(v / 10));
    assert(digits_value(Seq::<char>::empty()) == 0);
    assert(digits_value(seq![digit_char(v / 10)]) == digit_val(digit_char(v / 10)));
    assert(digits_value(pad2(v)) == digit_val(digit_char(v / 10)) * 10 + digit_val(
        digit_char(v % 10),
    ));
    assert(digit_val(digit_char(v / 10)) == v / 10);
    assert(digit_val(digit_char(v % 10)) == v % 10);
    vstd::arithmetic::div_mod::lemma_fundamental_div_mod(v, 10);
}

#[verifier::rlimit(100)]
proof fn lemma_decode_encode_time(t: UtcTime, rest: Seq<char>)
    requires
        wf_time(t),
    ensures
        decode_time(encode_time(t) + rest) == Some((t, rest)),
{
    let yd = dec_digits(t.year as nat);
    lemma_dec_digits_all(t.year as nat);
    lemma_pow10_values();
    lemma_dec_digits_len(t.year as nat, 10);
    lemma_dec_digits_value(t.year as nat);
    lemma_pad2_digits(t.month as int);
    lemma_pad2_digits(t.day as int);
    lemma_pad2_digits(t.hour as int);
    lemma_pad2_digits(t.minute as int);
    lemma_pad2_digits(t.second as int);
    let s0 = encode_time(t) + rest;
    let r1 = seq!['-'] + pad2(t.month as int) + seq!['-'] + pad2(t.day as int) + seq!['T'] + pad2(
        t.hour as int,
    ) + seq![':'] + pad2(t.minute as int) + seq![':'] + pad2(t.second as int) + seq!['Z'] + rest;
    assert(s0 =~= yd + r1);
    assert(!is_digit('-'));
    lemma_parse_digits(yd, r1, t.year as int);
    assert(r1.first() == '-');
    let r1b = pad2(t.month as int) + (seq!['-'] + pad2(t.day as int) + seq!['T'] + pad2(
        t.hour as int,
    ) + seq![':'] + pad2(t.minute as int) + seq![':'] + pad2(t.second as int) + seq!['Z'] + rest);
    assert(r1.drop_first() =~= r1b);
    let r2 = seq!['-'] + pad2(t.day as int) + seq!['T'] + pad2(t.hour as int) + seq![':'] + pad2(
        t.minute as int,
    ) + seq![':'] + pad2(t.second as int) + seq!['Z'] + rest;
    assert(r1b =~= pad2(t.month as int) + r2);
    lemma_parse_digits(pad2(t.month as int), r2, t.month as int);
    assert(r2.first() == '-');
    let r2b = pad2(t.day as int) + (seq!['T'] + pad2(t.hour as int) + seq![':'] + pad2(
        t.minute as int,
    ) + seq![':'] + pad2(t.second as int) + seq!['Z'] + rest);
    assert(r2.drop_first() =~= r2b);
    let r3 = seq!['T'] + pad2(t.hour as int) + seq![':'] + pad2(t.minute as int) + seq![':']
        + pad2(t.second as int) + seq!['Z'] + rest;
    assert(r2b =~= pad2(t.day as int) + r3);
    assert(!is_digit('T'));
    lemma_parse_digits(pad2(t.day as int), r3, t.day as int);
    assert(r3.first() == 'T');
    let r3b = pad2(t.hour as int) + (seq![':'] + pad2(t.minute as int) + seq![':'] + pad2(
        t.second as int,
    ) + seq!['Z'] + rest);
    assert(r3.drop_first() =~= r3b);
    let r4 = seq![':'] + pad2(t.minute as int) + seq![':'] + pad2(t.second as int) + seq!['Z']
        + rest;
    assert(r3b =~= pad2(t.hour as int) + r4);
    assert(!is_digit(':'));
    lemma_parse_digits(pad2(t.hour as int), r4, t.hour as int);
    assert(r4.first() == ':');
    let r4b = pad2(t.minute as int) + (seq![':'] + pad2(t.second as int) + seq!['Z'] + rest);
    assert(r4.drop_first() =~= r4b);
    let r5 = seq![':'] + pad2(t.second as int) + seq!['Z'] + rest;
    assert(r4b =~= pad2(t.minute as int) + r5);
    lemma_parse_digits(pad2(t.minute as int), r5, t.minute as int);
    assert(r5.first() == ':');
    let r5b = pad2(t.second as int) + (seq!['Z'] + rest);
    assert(r5.drop_first() =~= r5b);
    let r6 = seq!['Z'] + rest;
    assert(!is_digit('Z'));
    lemma_parse_digits(pad2(t.second as int), r6, t.second as int);
    assert(r6.first() == 'Z');
    assert(r6.drop_first() =~= rest);
    let tt = UtcTime {
        year: (t.year as int) as i64,
        month: (t.month as int) as u8,
        day: (t.day as int) as u8,
        hour: (t.hour as int) as u8,
        minute: (t.minute as int) as u8,
        second: (t.second as int) as u8,
    };
    assert(tt == t);
}

#[verifier::rlimit(100)]
proof fn lemma_decode_encode_entry(e: EntryView, rest: Seq<char>)
    requires
        wf_entry(e),
    ensures
        decode_entry_prefix(encode_entry(e) + rest) == Some((e, rest)),
        encode_entry(e).len() >= 12,
{
    reveal_strlit("{\"datestr\":\"");
    reveal_strlit("\",\"label\":\"");
    reveal_strlit(",\"label\":\"");
    reveal_strlit("\",\"date\":\"");
    reveal_strlit(",\"date\":\"");
    reveal_strlit("\"}");
    let t = e.date.unwrap();
    let s = encode_entry(e) + rest;
    let lit1 = "{\"datestr\":\""@;
    assert(lit1.len() == 12);
    let rest1 = ",\"label\":\""@ + escape_str(e.label) + seq!['"'] + (",\"date\":\""@
        + encode_time(t) + "\"}"@ + rest);
    assert(("\",\"label\":\""@) =~= seq!['"'] + ",\"label\":\""@);
    assert(("\",\"date\":\""@) =~= seq!['"'] + ",\"date\":\""@);
    assert(s =~= lit1 + (escape_str(e.datestr) + seq!['"'] + rest1));
    assert(s.take(12) =~= lit1);
    assert(s.skip(12) =~= escape_str(e.datestr) + seq!['"'] + rest1);
    lemma_unescape_escape(e.datestr, rest1);
    assert((",\"label\":\""@).len() == 10);
    let rest2 = ",\"date\":\""@ + encode_time(t) + "\"}"@ + rest;
    assert(rest1.take(10) =~= ",\"label\":\""@);
    assert(rest1.skip(10) =~= escape_str(e.label) + seq!['"'] + rest2);
    lemma_unescape_escape(e.label, rest2);
    assert((",\"date\":\""@).len() == 9);
    let rest3 = encode_time(t) + ("\"}"@ + rest);
    assert(rest2.take(9) =~= ",\"date\":\""@);
    assert(rest2.skip(9) =~= rest3);
    lemma_decode_encode_time(t, "\"}"@ + rest);
    let rest4 = "\"}"@ + rest;
    assert(rest4.take(2) =~= "\"}"@);
    assert(rest4.skip(2) =~= rest);
    assert(EntryView { datestr: e.datestr, label: e.label, date: Some(t) } == e);
}

#[verifier::rlimit(100)]
proof fn lemma_decode_encode_entries(s: Seq<EntryView>, rest: Seq<char>)
    requires
        s.len() >= 1,
        wf_schedule(s),
        rest.len() == 0 || rest.first() != ',',
    ensures
        decode_entries_prefix(encode_entries(s) + rest) == Some((s, rest)),
    decreases s.len(),
{
    let big = encode_entries(s) + rest;
    if s.len() == 1 {
        assert(wf_entry(s[0]));
        assert(encode_entries(s) == encode_entry(s[0]));
        lemma_decode_encode_entry(s[0], rest);
        assert(big.len() >= 12 + rest.len());
        assert(seq![s[0]] =~= s);
    } else {
        assert(wf_entry(s[0]));
        assert(encode_entries(s) == encode_entry(s.first()) + seq![','] + encode_entries(
            s.drop_first(),
        ));
        let inner_rest = seq![','] + (encode_entries(s.drop_first()) + rest);
        assert(big =~= encode_entry(s.first()) + inner_rest);
        lemma_decode_encode_entry(s.first(), inner_rest);
        assert(inner_rest.first() == ',');
        assert(inner_rest.len() < big.len());
        assert(inner_rest.drop_first() =~= encode_entries(s.drop_first()) + rest);
        assert forall|k: int| 0 <= k < s.drop_first().len() implies wf_entry(
            #[trigger] s.drop_first()[k],
        ) by {
            assert(s.drop_first()[k] == s[k + 1]);
        }
        lemma_decode_encode_entries(s.drop_first(), rest);
        assert(seq![s.first()] + s.drop_first() =~= s);
    }
}

/// Decoding reads back exactly what encoding wrote: a stored schedule
/// returns as it was saved, entries and order alike.
pub proof fn lemma_codec_roundtrip(s: Seq<EntryView>)
    requires
        wf_schedule(s),
    ensures
        decode_schedule_spec(encode_schedule_spec(s)) == Some(s),
{
    let b = encode_schedule_spec(s);
    assert(b.first() == '[');
    if s.len() == 0 {
        assert(encode_entries(s) == Seq::<char>::empty());
        assert(b =~= seq!['[', ']']);
        assert(b.len() == 2 && b[1] == ']');
    } else {
        assert(wf_entry(s[0]));
        lemma_decode_encode_entry(s[0], Seq::<char>::empty());
        if s.len() == 1 {
            assert(encode_entries(s).len() >= 12);
        } else {
            assert(encode_entries(s) == encode_entry(s.first()) + seq![','] + encode_entries(
                s.drop_first(),
            ));
            assert(encode_entries(s).len() >= 12);
        }
        assert(b.len() > 2);
        assert(b.drop_first() =~= encode_entries(s) + seq![']']);
        lemma_decode_encode_entries(s, seq![']']);
        assert(decode_entries_prefix(b.drop_first()) == Some((s, seq![']'])));
    }
}

/// A schedule stored in date order is read back whole and still in date
/// order: storing through the codec keeps both the entries and the sort.
pub proof fn lemma_storage_keeps_order(s: Seq<EntryView>)
    requires
        wf_schedule(s),
        crate::entry::sorted_by_date(s),
    ensures
        decode_schedule_spec(encode_schedule_spec(s)) == Some(s),
        crate::entry::sorted_by_date(decode_schedule_spec(encode_schedule_spec(s)).unwrap()),
{
    lemma_codec_roundtrip(s);
}

/// Reads a stored blob back into a schedule, or reports that it does not
/// decode. Any failure leaves the stored schedule unreadable, which a
/// backend reports as absent.
pub fn decode_schedule(blob: &str) -> (r: Option<Vec<Entry>>)
    ensures
        match r {
            Some(es) => decode_schedule_spec(blob@) == Some(es.deep_view()) && wf_schedule(
                es.deep_view(),
            ),
            None => decode_schedule_spec(blob@) is None,
        },
{
    let v: Vec<char> = str_to_chars(blob);
    let n: usize = v.len();
    proof {
        if n > 0 {
            assert(v@.first() == v@[0]);
        }
    }
    if n == 0 || v[0] != '[' {
        return None;
    }
    if n == 2 && v[1] == ']' {
        let es: Vec<Entry> = Vec::new();
        proof {
            assert(es.deep_view() =~= Seq::<EntryView>::empty());
        }
        return Some(es);
    }
    proof {
        assert(v@.drop_first() =~= v@.skip(1));
    }
    match decode_entries_exec(&v, 1) {
        None => None,
        Some((es, j)) => {
            if j < n && j == n - 1 && v[j] == ']' {
                proof {
                    assert(v@.skip(j as int) =~= seq![']']);
                }
                Some(es)
            } else {
                proof {
                    if j < n {
                        assert(v@.skip(j as int)[0] == v@[j as int]);
                    }
                    assert(!(v@.skip(j as int) =~= seq![']']));
                }
                None
            }
        },
    }
}

} // verus!
