//! Plain-text rendering of schedules: the summary and the one-line form
//! of a single entry, for a reply layer to send verbatim.

use vstd::prelude::*;
use crate::chars::chars_to_string;
use crate::entry::{Entry, EntryView, entry_ts, wf_entry, wf_schedule};

verus! {

/// The decimal digit character for a value below ten.
pub open spec fn digit_char(d: int) -> char {
    if d == 0 {
        '0'
    } else if d == 1 {
        '1'
    } else if d == 2 {
        '2'
    } else if d == 3 {
        '3'
    } else if d == 4 {
        '4'
    } else if d == 5 {
        '5'
    } else if d == 6 {
        '6'
    } else if d == 7 {
        '7'
    } else if d == 8 {
        '8'
    } else {
        '9'
    }
}

/// Decimal digits of a non-negative number, most significant first, no
/// leading zeros (a lone zero for zero).
pub open spec fn dec_digits(n: nat) -> Seq<char>
    decreases n,
{
    if n < 10 {
        seq![digit_char(n as int)]
    } else {
        dec_digits(n / 10).push(digit_char((n % 10) as int))
    }
}

/// Decimal form of an integer, `-` first when negative.
pub open spec fn int_digits(n: int) -> Seq<char> {
    if n < 0 {
        seq!['-'] + dec_digits((-n) as nat)
    } else {
        dec_digits(n as nat)
    }
}

pub(crate) fn digit_char_exec(d: u8) -> (c: char)
    requires
        d <= 9,
    ensures
        c == digit_char(d as int),
{
    if d == 0 {
        '0'
    } else if d == 1 {
        '1'
    } else if d == 2 {
        '2'
    } else if d == 3 {
        '3'
    } else if d == 4 {
        '4'
    } else if d == 5 {
        '5'
    } else if d == 6 {
        '6'
    } else if d == 7 {
        '7'
    } else if d == 8 {
        '8'
    } else {
        '9'
    }
}

/// Appends the decimal digits of `n`.
pub(crate) fn push_dec(out: &mut Vec<char>, n: u64)
    ensures
        final(out)@ == old(out)@ + dec_digits(n as nat),
    decreases n,
{
    if n < 10 {
        out.push(digit_char_exec(n as u8));
        proof {
            assert(out@ =~= old(out)@ + dec_digits(n as nat));
        }
    } else {
        push_dec(out, n / 10);
        out.push(digit_char_exec((n % 10) as u8));
        proof {
            assert(out@ =~= old(out)@ + dec_digits(n as nat));
        }
    }
}

/// The decimal form of an integer as a string.
pub fn int_to_string(n: i64) -> (r: String)
    requires
        n > i64::MIN,
    ensures
        r@ == int_digits(n as int),
{
    let mut v: Vec<char> = Vec::new();
    if n < 0 {
        v.push('-');
        push_dec(&mut v, (-n) as u64);
        proof {
            assert(v@ =~= int_digits(n as int));
        }
    } else {
        push_dec(&mut v, n as u64);
    }
    chars_to_string(&v)
}

/// The one-line rendering of an entry: a timestamp tag and the label.
pub open spec fn format_entry_spec(e: EntryView) -> Seq<char> {
    "<t:"@ + int_digits(entry_ts(e)) + ":F>: "@ + e.label
}

/// Renders one entry as the reply layer sends it.
pub fn format_entry(e: &Entry) -> (r: String)
    requires
        wf_entry(e@),
    ensures
        r@ == format_entry_spec(e@),
{
    let ts: i64 = match &e.date {
        Some(t) => t.timestamp(),
        None => {
            proof {
                assert(false);
            }
            0
        },
    };
    let mut r = String::new();
    r.append("<t:");
    let digits: String = int_to_string(ts);
    r.append(digits.as_str());
    r.append(":F>: ");
    r.append(e.label.as_str());
    r
}

/// Entry lines joined by newlines.
pub open spec fn joined_entries(s: Seq<EntryView>) -> Seq<char>
    decreases s.len(),
{
    if s.len() == 0 {
        Seq::empty()
    } else if s.len() == 1 {
        format_entry_spec(s[0])
    } else {
        format_entry_spec(s.first()) + seq!['\n'] + joined_entries(s.drop_first())
    }
}

/// The full summary of a schedule.
pub open spec fn format_schedule_spec(s: Seq<EntryView>) -> Seq<char> {
    "Found these entries:\n"@ + joined_entries(s)
}

proof fn lemma_concat_shuffle(a: Seq<char>, b: Seq<char>, c: Seq<char>)
    ensures
        a + seq!['\n'] + (b + seq!['\n'] + c) == (a + seq!['\n'] + b) + seq!['\n'] + c,
{
    assert(a + seq!['\n'] + (b + seq!['\n'] + c) =~= (a + seq!['\n'] + b) + seq!['\n'] + c);
}

proof fn lemma_joined_push(s: Seq<EntryView>, e: EntryView)
    requires
        s.len() >= 1,
    ensures
        joined_entries(s.push(e)) == joined_entries(s) + seq!['\n'] + format_entry_spec(e),
    decreases s.len(),
{
    if s.len() == 1 {
        assert(s.push(e).drop_first() =~= seq![e]);
        assert(s.push(e).first() == s[0]);
        assert(joined_entries(s.push(e).drop_first()) == format_entry_spec(e));
        assert(joined_entries(s.push(e)) == format_entry_spec(s[0]) + seq!['\n']
            + format_entry_spec(e));
        assert(joined_entries(s) == format_entry_spec(s[0]));
    } else {
        assert(s.push(e).drop_first() =~= s.drop_first().push(e));
        assert(s.push(e).first() == s.first());
        lemma_joined_push(s.drop_first(), e);
        let a = format_entry_spec(s.first());
        let b = joined_entries(s.drop_first());
        let c = format_entry_spec(e);
        assert(joined_entries(s.push(e)) == a + seq!['\n'] + (b + seq!['\n'] + c));
        lemma_concat_shuffle(a, b, c);
        assert(joined_entries(s) == a + seq!['\n'] + b);
    }
}

/// Renders the whole schedule summary.
pub fn format_schedule(es: &Vec<Entry>) -> (r: String)
    requires
        wf_schedule(es.deep_view()),
    ensures
        r@ == format_schedule_spec(es.deep_view()),
{
    let ghost s = es.deep_view();
    let mut r = String::new();
    r.append("Found these entries:\n");
    let n: usize = es.len();
    let mut i: usize = 0;
    while i < n
        invariant
            i <= n,
            n == s.len(),
            s == es.deep_view(),
            wf_schedule(s),
            r@ == "Found these entries:\n"@ + joined_entries(s.take(i as int)),
        decreases n - i,
    {
        proof {
            assert(es@[i as int].deep_view() == s[i as int]);
            assert(wf_entry(s[i as int]));
        }
        if i > 0 {
            r.append("\n");
            proof {
                reveal_strlit("\n");
            }
        }
        let line: String = format_entry(&es[i]);
        r.append(line.as_str());
        proof {
            let t = s.take(i as int);
            assert(s.take(i as int + 1) =~= t.push(s[i as int]));
            if i == 0 {
                assert(joined_entries(t.push(s[i as int])) == format_entry_spec(s[i as int]));
                assert(r@ =~= "Found these entries:\n"@ + joined_entries(s.take(i as int + 1)));
            } else {
                lemma_joined_push(t, s[i as int]);
                assert(r@ =~= "Found these entries:\n"@ + joined_entries(s.take(i as int + 1)));
            }
        }
        i = i + 1;
    }
    proof {
        assert(s.take(n as int) =~= s);
    }
    r
}

} // verus!
