//! The schedule parser: listing lines to dated, time-ordered entries.
//!
//! A line is split on the fixed ` - ` delimiter into a date token and a
//! label; the token is read as `<day>/<month> <hour><AM|PM>
//! <minute>:<second>`, taken in the current calendar year at a fixed
//! +10:00 offset, and resolved to a UTC time. Lines that do not split, or
//! whose token does not parse, are dropped one by one; only a batch with
//! no surviving line at all is reported as "no valid entries".

use vstd::prelude::*;
use crate::chars::str_to_chars;
use crate::entry::{Entry, EntryView, entry_ts, sorted_by_date, wf_entry, wf_schedule};
use crate::time::{UtcTime, days_in_month, spec_utc_of_plus10, wf_time, MAX_YEAR};

verus! {

// ---------------------------------------------------------------------
// Splitting a line on ` - `
// ---------------------------------------------------------------------
pub open spec fn delim_at(s: Seq<char>, i: int) -> bool {
    &&& 0 <= i
    &&& i + 3 <= s.len()
    &&& s[i] == ' '
    &&& s[i + 1] == '-'
    &&& s[i + 2] == ' '
}

/// The delimiter occurs at `i`, nowhere earlier, and nowhere at or past
/// the end of the match: exactly the cut that splitting on the leftmost
/// occurrence leaves a remainder free of further occurrences.
pub open spec fn split_witness(s: Seq<char>, i: int) -> bool {
    &&& delim_at(s, i)
    &&& forall|j: int| 0 <= j < i ==> !delim_at(s, j)
    &&& forall|j: int| i + 3 <= j ==> !delim_at(s, j)
}

/// The line splits on ` - ` into exactly two parts.
pub open spec fn is_two_part(s: Seq<char>) -> bool {
    exists|i: int| split_witness(s, i)
}

pub open spec fn split_pos(s: Seq<char>) -> int {
    choose|i: int| split_witness(s, i)
}

proof fn lemma_split_witness_unique(s: Seq<char>, a: int, b: int)
    requires
        split_witness(s, a),
        split_witness(s, b),
    ensures
        a == b,
{
    if a < b {
        assert(!delim_at(s, a));
    }
    if b < a {
        assert(!delim_at(s, b));
    }
}

/// First position at or after `from` where the delimiter occurs.
fn find_delim(v: &Vec<char>, from: usize) -> (r: Option<usize>)
    ensures
        match r {
            Some(p) => from <= p && delim_at(v@, p as int) && forall|j: int|
                from <= j < p ==> !delim_at(v@, j),
            None => forall|j: int| from <= j ==> !delim_at(v@, j),
        },
{
    let n: usize = v.len();
    let mut i: usize = from;
    loop
        invariant
            from <= i,
            n == v@.len(),
            forall|j: int| from <= j < i ==> !delim_at(v@, j),
        decreases n + 3 - i,
    {
        if n < 3 || i > n - 3 {
            return None;
        }
        if v[i] == ' ' && v[i + 1] == '-' && v[i + 2] == ' ' {
            return Some(i);
        }
        i = i + 1;
    }
}

/// Splits a line on ` - ` into date token and label, if it splits into
/// exactly two parts.
pub fn split_line(line: &str) -> (r: Option<(String, String)>)
    ensures
        match r {
            Some(parts) => {
                &&& is_two_part(line@)
                &&& parts.0@ == line@.take(split_pos(line@))
                &&& parts.1@ == line@.skip(split_pos(line@) + 3)
            },
            None => !is_two_part(line@),
        },
{
    let v: Vec<char> = str_to_chars(line);
    let n: usize = v.len();
    match find_delim(&v, 0) {
        None => {
            proof {
                assert(forall|i: int| !split_witness(line@, i));
            }
            None
        },
        Some(p) => {
            match find_delim(&v, p + 3) {
                Some(q) => {
                    proof {
                        assert forall|i: int| !split_witness(line@, i) by {
                            if split_witness(line@, i) {
                                if i <= p {
                                    assert(delim_at(line@, q as int));
                                } else {
                                    assert(delim_at(line@, p as int));
                                }
                            }
                        }
                    }
                    None
                },
                None => {
                    proof {
                        assert(split_witness(line@, p as int));
                        lemma_split_witness_unique(line@, p as int, split_pos(line@));
                    }
                    let d: String = line.substring_char(0, p).to_owned();
                    let l: String = line.substring_char(p + 3, n).to_owned();
                    proof {
                        assert(d@ =~= line@.take(p as int));
                        assert(l@ =~= line@.skip(p as int + 3));
                    }
                    Some((d, l))
                },
            }
        },
    }
}

// ---------------------------------------------------------------------
// The date token grammar
// ---------------------------------------------------------------------
/// The value of a decimal digit character.
pub open spec fn digit_of(c: char) -> Option<int> {
    if c == '0' {
        Some(0)
    } else if c == '1' {
        Some(1)
    } else if c == '2' {
        Some(2)
    } else if c == '3' {
        Some(3)
    } else if c == '4' {
        Some(4)
    } else if c == '5' {
        Some(5)
    } else if c == '6' {
        Some(6)
    } else if c == '7' {
        Some(7)
    } else if c == '8' {
        Some(8)
    } else if c == '9' {
        Some(9)
    } else {
        None
    }
}

pub open spec fn is_digit(c: char) -> bool {
    digit_of(c) is Some
}

pub open spec fn digit_val(c: char) -> int {
    digit_of(c).unwrap()
}

/// The value of a decimal digit character, executable side.
pub(crate) fn digit_of_exec(c: char) -> (r: Option<u8>)
    ensures
        match r {
            Some(d) => digit_of(c) == Some(d as int) && d <= 9,
            None => digit_of(c) is None,
        },
{
    if c == '0' {
        Some(0)
    } else if c == '1' {
        Some(1)
    } else if c == '2' {
        Some(2)
    } else if c == '3' {
        Some(3)
    } else if c == '4' {
        Some(4)
    } else if c == '5' {
        Some(5)
    } else if c == '6' {
        Some(6)
    } else if c == '7' {
        Some(7)
    } else if c == '8' {
        Some(8)
    } else if c == '9' {
        Some(9)
    } else {
        None
    }
}

/// A number of one or two digits starting at `i`: its value and the
/// position just past it. Two digits are taken when two are there.
pub open spec fn num2_at(s: Seq<char>, i: int) -> Option<(int, int)> {
    if 0 <= i < s.len() && is_digit(s[i]) {
        if i + 1 < s.len() && is_digit(s[i + 1]) {
            Some((10 * digit_val(s[i]) + digit_val(s[i + 1]), i + 2))
        } else {
            Some((digit_val(s[i]), i + 1))
        }
    } else {
        None
    }
}

/// An `AM`/`PM` marker at `i`, either case: whether it is PM, and the
/// position just past it.
pub open spec fn ampm_at(s: Seq<char>, i: int) -> Option<(bool, int)> {
    if 0 <= i && i + 2 <= s.len() && (s[i + 1] == 'M' || s[i + 1] == 'm') {
        if s[i] == 'A' || s[i] == 'a' {
            Some((false, i + 2))
        } else if s[i] == 'P' || s[i] == 'p' {
            Some((true, i + 2))
        } else {
            None
        }
    } else {
        None
    }
}

/// The fields of a whole date token `<day>/<month> <hour><AM|PM>
/// <minute>:<second>`, if the token has exactly that shape.
pub open spec fn date_fields(s: Seq<char>) -> Option<(int, int, int, bool, int, int)> {
    match num2_at(s, 0) {
        None => None,
        Some((day, i1)) => if i1 < s.len() && s[i1] == '/' {
            match num2_at(s, i1 + 1) {
                None => None,
                Some((mon, i2)) => if i2 < s.len() && s[i2] == ' ' {
                    match num2_at(s, i2 + 1) {
                        None => None,
                        Some((hr, i3)) => match ampm_at(s, i3) {
                            None => None,
                            Some((pm, i4)) => if i4 < s.len() && s[i4] == ' ' {
                                match num2_at(s, i4 + 1) {
                                    None => None,
                                    Some((min, i5)) => if i5 < s.len() && s[i5] == ':' {
                                        match num2_at(s, i5 + 1) {
                                            None => None,
                                            Some((sec, i6)) => if i6 == s.len() {
                                                Some((day, mon, hr, pm, min, sec))
                                            } else {
                                                None
                                            },
                                        }
                                    } else {
                                        None
                                    },
                                }
                            } else {
                                None
                            },
                        },
                    }
                } else {
                    None
                },
            }
        } else {
            None
        },
    }
}

/// A 12-hour reading with its AM/PM marker, on the 24-hour clock.
pub open spec fn hour24(hr: int, pm: bool) -> int {
    if pm {
        if hr == 12 {
            12
        } else {
            hr + 12
        }
    } else {
        if hr == 12 {
            0
        } else {
            hr
        }
    }
}

/// The UTC time a date token resolves to in the given year: fields in
/// range, a real calendar date, read at +10:00 and stepped back to UTC —
/// provided the step stays on the supported calendar.
pub open spec fn resolved_time(s: Seq<char>, year: int) -> Option<UtcTime> {
    match date_fields(s) {
        None => None,
        Some((day, mon, hr, pm, min, sec)) => if 1 <= year <= MAX_YEAR && 1 <= mon <= 12 && 1
            <= day <= days_in_month(year, mon) && 1 <= hr <= 12 && min <= 59 && sec <= 59 {
            let local = UtcTime {
                year: year as i64,
                month: mon as u8,
                day: day as u8,
                hour: hour24(hr, pm) as u8,
                minute: min as u8,
                second: sec as u8,
            };
            let utc = spec_utc_of_plus10(local);
            if wf_time(utc) {
                Some(utc)
            } else {
                None
            }
        } else {
            None
        },
    }
}

fn num2_at_exec(v: &Vec<char>, i: usize) -> (r: Option<(u8, usize)>)
    ensures
        match r {
            Some(p) => num2_at(v@, i as int) == Some((p.0 as int, p.1 as int)) && i < p.1
                <= v@.len() && p.0 < 100,
            None => num2_at(v@, i as int) is None,
        },
{
    let n: usize = v.len();
    if i < n {
        match digit_of_exec(v[i]) {
            None => None,
            Some(d0) => {
                if i + 1 < n {
                    match digit_of_exec(v[i + 1]) {
                        None => Some((d0, i + 1)),
                        Some(d1) => Some((10 * d0 + d1, i + 2)),
                    }
                } else {
                    Some((d0, i + 1))
                }
            },
        }
    } else {
        None
    }
}

/// Resolves a date token against the given calendar year.
pub fn parse_date_token(v: &Vec<char>, year: i32) -> (r: Option<UtcTime>)
    ensures
        r == resolved_time(v@, year as int),
        match r {
            Some(t) => wf_time(t),
            None => true,
        },
{
    let n: usize = v.len();
    let day_i1: Option<(u8, usize)> = num2_at_exec(v, 0);
    match day_i1 {
        None => None,
        Some((day, i1)) => {
            if !(i1 < n && v[i1] == '/') {
                return None;
            }
            match num2_at_exec(v, i1 + 1) {
                None => None,
                Some((mon, i2)) => {
                    if !(i2 < n && v[i2] == ' ') {
                        return None;
                    }
                    match num2_at_exec(v, i2 + 1) {
                        None => None,
                        Some((hr, i3)) => {
                            let ampm: Option<(bool, usize)> = if i3 + 2 <= n && (v[i3 + 1] == 'M'
                                || v[i3 + 1] == 'm') {
                                if v[i3] == 'A' || v[i3] == 'a' {
                                    Some((false, i3 + 2))
                                } else if v[i3] == 'P' || v[i3] == 'p' {
                                    Some((true, i3 + 2))
                                } else {
                                    None
                                }
                            } else {
                                None
                            };
                            match ampm {
                                None => None,
                                Some((pm, i4)) => {
                                    if !(i4 < n && v[i4] == ' ') {
                                        return None;
                                    }
                                    match num2_at_exec(v, i4 + 1) {
                                        None => None,
                                        Some((min, i5)) => {
                                            if !(i5 < n && v[i5] == ':') {
                                                return None;
                                            }
                                            match num2_at_exec(v, i5 + 1) {
                                                None => None,
                                                Some((sec, i6)) => {
                                                    if i6 != n {
                                                        return None;
                                                    }
                                                    finish_token(year, day, mon, hr, pm, min, sec, Ghost(v@))
                                                },
                                            }
                                        },
                                    }
                                },
                            }
                        },
                    }
                },
            }
        },
    }
}

/// Range-checks parsed fields and steps the local reading back to UTC.
fn finish_token(
    year: i32,
    day: u8,
    mon: u8,
    hr: u8,
    pm: bool,
    min: u8,
    sec: u8,
    toks: Ghost<Seq<char>>,
) -> (r: Option<UtcTime>)
    requires
        date_fields(toks@) == Some(
            (day as int, mon as int, hr as int, pm, min as int, sec as int),
        ),
    ensures
        r == resolved_time(toks@, year as int),
        match r {
            Some(t) => wf_time(t),
            None => true,
        },
{
    if !(1 <= year) {
        return None;
    }
    if !(1 <= mon && mon <= 12) {
        return None;
    }
    let dim: u8 = if mon == 2 {
        if (year % 4 == 0 && year % 100 != 0) || year % 400 == 0 {
            29
        } else {
            28
        }
    } else if mon == 4 || mon == 6 || mon == 9 || mon == 11 {
        30
    } else {
        31
    };
    if !(1 <= day && day <= dim) {
        return None;
    }
    if !(1 <= hr && hr <= 12) {
        return None;
    }
    if !(min <= 59 && sec <= 59) {
        return None;
    }
    let h24: u8 = if pm {
        if hr == 12 {
            12
        } else {
            hr + 12
        }
    } else {
        if hr == 12 {
            0
        } else {
            hr
        }
    };
    let local = UtcTime {
        year: year as i64,
        month: mon,
        day: day,
        hour: h24,
        minute: min,
        second: sec,
    };
    let utc = local.to_utc_from_plus10();
    if utc.year >= 1 {
        Some(utc)
    } else {
        None
    }
}

// ---------------------------------------------------------------------
// Whole batches of lines
// ---------------------------------------------------------------------
/// A line survives: it splits in two and its date token resolves.
pub open spec fn line_valid(l: Seq<char>, year: int) -> bool {
    is_two_part(l) && resolved_time(l.take(split_pos(l)), year) is Some
}

/// The entry a surviving line yields.
pub open spec fn line_entry(l: Seq<char>, year: int) -> EntryView {
    EntryView {
        datestr: l.take(split_pos(l)),
        label: l.skip(split_pos(l) + 3),
        date: resolved_time(l.take(split_pos(l)), year),
    }
}

/// The entries of the surviving lines, in line order.
pub open spec fn valid_entries(lines: Seq<Seq<char>>, year: int) -> Seq<EntryView>
    decreases lines.len(),
{
    if lines.len() == 0 {
        Seq::empty()
    } else {
        let rest = valid_entries(lines.drop_first(), year);
        if line_valid(lines.first(), year) {
            seq![line_entry(lines.first(), year)] + rest
        } else {
            rest
        }
    }
}

pub proof fn lemma_valid_entries_push(lines: Seq<Seq<char>>, l: Seq<char>, year: int)
    ensures
        valid_entries(lines.push(l), year) == if line_valid(l, year) {
            valid_entries(lines, year).push(line_entry(l, year))
        } else {
            valid_entries(lines, year)
        },
    decreases lines.len(),
{
    if lines.len() == 0 {
        assert(lines.push(l).drop_first() =~= Seq::<Seq<char>>::empty());
        assert(lines.push(l).first() == l);
        assert(valid_entries(lines.push(l).drop_first(), year) =~= Seq::<EntryView>::empty());
        assert(valid_entries(lines, year) =~= Seq::<EntryView>::empty());
        if line_valid(l, year) {
            assert(valid_entries(lines.push(l), year) =~= valid_entries(lines, year).push(
                line_entry(l, year),
            ));
        } else {
            assert(valid_entries(lines.push(l), year) =~= valid_entries(lines, year));
        }
    } else {
        assert(lines.push(l).drop_first() =~= lines.drop_first().push(l));
        assert(lines.push(l).first() == lines.first());
        lemma_valid_entries_push(lines.drop_first(), l, year);
        assert(valid_entries(lines.push(l).drop_first(), year) == valid_entries(
            lines.drop_first().push(l),
            year,
        ));
        if line_valid(l, year) {
            assert(valid_entries(lines.push(l), year) =~= valid_entries(lines, year).push(
                line_entry(l, year),
            ));
        } else {
            assert(valid_entries(lines.push(l), year) =~= valid_entries(lines, year));
        }
    }
}

/// Every entry a surviving line yields is well-formed.
pub proof fn lemma_valid_entries_wf(lines: Seq<Seq<char>>, year: int)
    ensures
        wf_schedule(valid_entries(lines, year)),
    decreases lines.len(),
{
    if lines.len() > 0 {
        lemma_valid_entries_wf(lines.drop_first(), year);
    }
}

/// Converts listing lines to the dated entries of the lines that parse,
/// in ascending date order, or reports that no line parsed. The `None`
/// outcome is distinct from an empty schedule: it means nothing was found.
/// The `Some` outcome is pinned exactly — the stable date-order
/// arrangement of the valid lines' entries — so equal batches parsed
/// against equal years yield equal schedules.
pub fn parse_schedule(lines: &Vec<String>, year: i32) -> (r: Option<Vec<Entry>>)
    ensures
        match r {
            Some(es) => {
                &&& valid_entries(lines.deep_view(), year as int).len() > 0
                &&& es.deep_view() == sort_by_date_spec(
                    valid_entries(lines.deep_view(), year as int),
                )
                &&& es.deep_view().to_multiset() == valid_entries(
                    lines.deep_view(),
                    year as int,
                ).to_multiset()
                &&& sorted_by_date(es.deep_view())
                &&& wf_schedule(es.deep_view())
            },
            None => valid_entries(lines.deep_view(), year as int).len() == 0,
        },
{
    let ghost all = lines.deep_view();
    let mut es: Vec<Entry> = Vec::new();
    let mut k: usize = 0;
    while k < lines.len()
        invariant
            k <= lines@.len(),
            all == lines.deep_view(),
            es.deep_view() == valid_entries(all.take(k as int), year as int),
        decreases lines@.len() - k,
    {
        let ghost prev = es.deep_view();
        let line: &String = &lines[k];
        proof {
            assert(all.take(k as int + 1) =~= all.take(k as int).push(all[k as int]));
            lemma_valid_entries_push(all.take(k as int), all[k as int], year as int);
            assert(all[k as int] == line@);
        }
        if let Some((datestr, label)) = split_line(line.as_str()) {
            let dchars: Vec<char> = str_to_chars(datestr.as_str());
            if let Some(t) = parse_date_token(&dchars, year) {
                let e = Entry { datestr, label, date: Some(t) };
                proof {
                    assert(e@ == line_entry(line@, year as int));
                }
                es.push(e);
                proof {
                    assert(es.deep_view() =~= prev.push(e@));
                }
            } else {
                proof {
                    assert(!line_valid(line@, year as int));
                }
            }
        } else {
            proof {
                assert(!line_valid(line@, year as int));
            }
        }
        k = k + 1;
    }
    proof {
        assert(all.take(all.len() as int) =~= all);
    }
    if es.len() == 0 {
        proof {
            assert(valid_entries(all, year as int).len() == es.deep_view().len());
        }
        None
    } else {
        proof {
            lemma_valid_entries_wf(all, year as int);
        }
        sort_entries(&mut es);
        Some(es)
    }
}

/// Where an entry lands among entries already in date order: before the
/// first strictly later one, so after every one with an equal date.
pub open spec fn insert_by_date(s: Seq<EntryView>, e: EntryView) -> Seq<EntryView>
    decreases s.len(),
{
    if s.len() == 0 {
        seq![e]
    } else if entry_ts(s.first()) > entry_ts(e) {
        seq![e] + s
    } else {
        seq![s.first()] + insert_by_date(s.drop_first(), e)
    }
}

/// The date order of a schedule, settled entry by entry from the front:
/// entries with equal dates keep their relative order, so the arrangement
/// is a function of the input sequence alone.
pub open spec fn sort_by_date_spec(s: Seq<EntryView>) -> Seq<EntryView>
    decreases s.len(),
{
    if s.len() == 0 {
        Seq::empty()
    } else {
        insert_by_date(sort_by_date_spec(s.drop_last()), s.last())
    }
}

proof fn lemma_insert_by_date_at(s: Seq<EntryView>, e: EntryView, pos: int)
    requires
        sorted_by_date(s),
        0 <= pos <= s.len(),
        forall|i: int| 0 <= i < pos ==> entry_ts(s[i]) <= entry_ts(e),
        forall|i: int| pos <= i < s.len() ==> entry_ts(e) < entry_ts(#[trigger] s[i]),
    ensures
        insert_by_date(s, e) == s.insert(pos, e),
    decreases s.len(),
{
    if s.len() == 0 {
        assert(insert_by_date(s, e) =~= s.insert(0, e));
    } else if pos == 0 {
        assert(entry_ts(e) < entry_ts(s[0]));
        assert(s.first() == s[0]);
        assert(seq![e] + s =~= s.insert(0, e));
    } else {
        assert(entry_ts(s[0]) <= entry_ts(e));
        assert(sorted_by_date(s.drop_first())) by {
            assert forall|i: int, j: int|
                0 <= i < j < s.drop_first().len() implies entry_ts(
                #[trigger] s.drop_first()[i],
            ) <= entry_ts(#[trigger] s.drop_first()[j]) by {
                assert(s.drop_first()[i] == s[i + 1]);
                assert(s.drop_first()[j] == s[j + 1]);
            }
        }
        assert forall|i: int| 0 <= i < pos - 1 implies entry_ts(s.drop_first()[i]) <= entry_ts(
            e,
        ) by {
            assert(s.drop_first()[i] == s[i + 1]);
        }
        assert forall|i: int|
            pos - 1 <= i < s.drop_first().len() implies entry_ts(e) < entry_ts(
            #[trigger] s.drop_first()[i],
        ) by {
            assert(s.drop_first()[i] == s[i + 1]);
        }
        lemma_insert_by_date_at(s.drop_first(), e, pos - 1);
        assert(seq![s.first()] + s.drop_first().insert(pos - 1, e) =~= s.insert(pos, e));
    }
}

proof fn lemma_sort_spec_push(s: Seq<EntryView>, e: EntryView)
    ensures
        sort_by_date_spec(s.push(e)) == insert_by_date(sort_by_date_spec(s), e),
{
    assert(s.push(e).drop_last() =~= s);
    assert(s.push(e).last() == e);
}

/// A single well-formed line yields exactly one entry, holding the line's
/// own date text and label, dated by its token read in the given year and
/// stepped back from the fixed +10:00 offset to UTC: on the timeline,
/// exactly ten hours before the stated local time.
pub proof fn lemma_wellformed_line_parses(l: Seq<char>, year: int)
    requires
        line_valid(l, year),
    ensures
        valid_entries(seq![l], year) =~= seq![line_entry(l, year)],
        line_entry(l, year).date == resolved_time(l.take(split_pos(l)), year),
        line_entry(l, year).datestr == l.take(split_pos(l)),
        line_entry(l, year).label == l.skip(split_pos(l) + 3),
        ({
            let fields = date_fields(l.take(split_pos(l)));
            match fields {
                Some((day, mon, hr, pm, min, sec)) => {
                    let local = UtcTime {
                        year: year as i64,
                        month: mon as u8,
                        day: day as u8,
                        hour: hour24(hr, pm) as u8,
                        minute: min as u8,
                        second: sec as u8,
                    };
                    line_entry(l, year).date == Some(spec_utc_of_plus10(local))
                        && crate::time::ts_of(line_entry(l, year).date.unwrap())
                        == crate::time::ts_of(local) - 36000
                },
                None => false,
            }
        }),
{
    assert(seq![l].first() == l);
    assert(seq![l].drop_first() =~= Seq::<Seq<char>>::empty());
    assert(valid_entries(seq![l].drop_first(), year) =~= Seq::<EntryView>::empty());
    let ds = l.take(split_pos(l));
    match date_fields(ds) {
        Some((day, mon, hr, pm, min, sec)) => {
            let local = UtcTime {
                year: year as i64,
                month: mon as u8,
                day: day as u8,
                hour: hour24(hr, pm) as u8,
                minute: min as u8,
                second: sec as u8,
            };
            assert(wf_time(local));
            assert(resolved_time(ds, year) == Some(spec_utc_of_plus10(local)));
            crate::time::lemma_utc_of_plus10_ts(local);
        },
        None => {
            assert(false);
        },
    }
}

/// A line that does not parse is dropped without touching what the other
/// lines of the batch yield.
pub proof fn lemma_invalid_line_dropped(lines: Seq<Seq<char>>, i: int, year: int)
    requires
        0 <= i < lines.len(),
        !line_valid(lines[i], year),
    ensures
        valid_entries(lines, year) == valid_entries(lines.remove(i), year),
    decreases lines.len(),
{
    if i == 0 {
        assert(lines.remove(0) =~= lines.drop_first());
    } else {
        assert(lines.remove(i).first() == lines.first());
        assert(lines.remove(i).drop_first() =~= lines.drop_first().remove(i - 1));
        assert(lines.drop_first()[i - 1] == lines[i]);
        lemma_invalid_line_dropped(lines.drop_first(), i - 1, year);
    }
}

/// A batch with no valid line yields no entries at all; the parser then
/// reports the distinct no-valid-entries outcome rather than an empty
/// schedule.
pub proof fn lemma_all_invalid_yields_nothing(lines: Seq<Seq<char>>, year: int)
    requires
        forall|i: int| 0 <= i < lines.len() ==> !line_valid(#[trigger] lines[i], year),
    ensures
        valid_entries(lines, year).len() == 0,
    decreases lines.len(),
{
    if lines.len() > 0 {
        assert(!line_valid(lines[0], year));
        assert forall|i: int| 0 <= i < lines.drop_first().len() implies !line_valid(
            #[trigger] lines.drop_first()[i],
            year,
        ) by {
            assert(lines.drop_first()[i] == lines[i + 1]);
        }
        lemma_all_invalid_yields_nothing(lines.drop_first(), year);
    }
}

/// A batch of well-formed lines only: the parser keeps every line, one
/// entry per line, each holding that line's own date text and label.
pub proof fn lemma_all_wellformed_batch(lines: Seq<Seq<char>>, year: int)
    requires
        forall|i: int| 0 <= i < lines.len() ==> line_valid(#[trigger] lines[i], year),
    ensures
        valid_entries(lines, year).len() == lines.len(),
        forall|i: int| 0 <= i < lines.len() ==> valid_entries(lines, year)[i] == line_entry(
            #[trigger] lines[i],
            year,
        ),
    decreases lines.len(),
{
    if lines.len() > 0 {
        assert(line_valid(lines[0], year));
        assert forall|i: int| 0 <= i < lines.drop_first().len() implies line_valid(
            #[trigger] lines.drop_first()[i],
            year,
        ) by {
            assert(lines.drop_first()[i] == lines[i + 1]);
        }
        lemma_all_wellformed_batch(lines.drop_first(), year);
        assert forall|i: int|
            0 <= i < lines.len() implies valid_entries(lines, year)[i] == line_entry(
            #[trigger] lines[i],
            year,
        ) by {
            if i == 0 {
                assert(valid_entries(lines, year)[0] == line_entry(lines.first(), year));
            } else {
                assert(valid_entries(lines, year)[i] == valid_entries(lines.drop_first(), year)[i
                    - 1]);
                assert(lines.drop_first()[i - 1] == lines[i]);
            }
        }
    }
}

// ---------------------------------------------------------------------
// Per-line diagnostics
// ---------------------------------------------------------------------
/// Why a listing line was dropped.
#[derive(Clone, Copy, PartialEq, Eq, Structural, Debug)]
pub enum DropReason {
    /// The line does not split on ` - ` into exactly two parts.
    NoDelimiter,
    /// The date token does not resolve to a calendar time.
    BadDate,
}

/// A dropped line, kept with the reason it failed, for the caller to log.
pub struct DroppedLine {
    pub text: String,
    pub reason: DropReason,
}

/// The mathematical image of a dropped line.
pub struct DroppedLineView {
    pub text: Seq<char>,
    pub reason: DropReason,
}

impl View for DroppedLine {
    type V = DroppedLineView;

    open spec fn view(&self) -> DroppedLineView {
        DroppedLineView { text: self.text@, reason: self.reason }
    }
}

impl DeepView for DroppedLine {
    type V = DroppedLineView;

    open spec fn deep_view(&self) -> DroppedLineView {
        self.view()
    }
}

/// The reason an invalid line fails.
pub open spec fn drop_reason_of(l: Seq<char>) -> DropReason {
    if !is_two_part(l) {
        DropReason::NoDelimiter
    } else {
        DropReason::BadDate
    }
}

/// The dropped lines of a batch, each with its reason, in line order.
pub open spec fn dropped_of(lines: Seq<Seq<char>>, year: int) -> Seq<DroppedLineView>
    decreases lines.len(),
{
    if lines.len() == 0 {
        Seq::empty()
    } else {
        let rest = dropped_of(lines.drop_first(), year);
        if line_valid(lines.first(), year) {
            rest
        } else {
            seq![
                DroppedLineView { text: lines.first(), reason: drop_reason_of(lines.first()) },
            ] + rest
        }
    }
}

proof fn lemma_dropped_of_push(lines: Seq<Seq<char>>, l: Seq<char>, year: int)
    ensures
        dropped_of(lines.push(l), year) == if line_valid(l, year) {
            dropped_of(lines, year)
        } else {
            dropped_of(lines, year).push(DroppedLineView { text: l, reason: drop_reason_of(l) })
        },
    decreases lines.len(),
{
    if lines.len() == 0 {
        assert(lines.push(l).drop_first() =~= Seq::<Seq<char>>::empty());
        assert(lines.push(l).first() == l);
        assert(dropped_of(lines.push(l).drop_first(), year) =~= Seq::<DroppedLineView>::empty());
        assert(dropped_of(lines, year) =~= Seq::<DroppedLineView>::empty());
        if !line_valid(l, year) {
            assert(dropped_of(lines.push(l), year) =~= dropped_of(lines, year).push(
                DroppedLineView { text: l, reason: drop_reason_of(l) },
            ));
        }
    } else {
        assert(lines.push(l).drop_first() =~= lines.drop_first().push(l));
        assert(lines.push(l).first() == lines.first());
        lemma_dropped_of_push(lines.drop_first(), l, year);
        if line_valid(l, year) {
            assert(dropped_of(lines.push(l), year) =~= dropped_of(lines, year));
        } else {
            assert(dropped_of(lines.push(l), year) =~= dropped_of(lines, year).push(
                DroppedLineView { text: l, reason: drop_reason_of(l) },
            ));
        }
    }
}

/// The lines a parse of this batch drops, each with the reason it failed:
/// the per-line diagnostics that belong with `parse_schedule`.
pub fn dropped_lines(lines: &Vec<String>, year: i32) -> (r: Vec<DroppedLine>)
    ensures
        r.deep_view() == dropped_of(lines.deep_view(), year as int),
{
    let ghost all = lines.deep_view();
    let mut out: Vec<DroppedLine> = Vec::new();
    let mut k: usize = 0;
    proof {
        assert(out.deep_view() =~= Seq::<DroppedLineView>::empty());
        assert(all.take(0) =~= Seq::<Seq<char>>::empty());
    }
    while k < lines.len()
        invariant
            k <= lines@.len(),
            all == lines.deep_view(),
            out.deep_view() == dropped_of(all.take(k as int), year as int),
        decreases lines@.len() - k,
    {
        let ghost prev = out.deep_view();
        let line: &String = &lines[k];
        proof {
            assert(all.take(k as int + 1) =~= all.take(k as int).push(all[k as int]));
            lemma_dropped_of_push(all.take(k as int), all[k as int], year as int);
            assert(all[k as int] == line@);
        }
        let mut dropped: Option<DropReason> = None;
        if let Some((datestr, _label)) = split_line(line.as_str()) {
            let dchars: Vec<char> = str_to_chars(datestr.as_str());
            if parse_date_token(&dchars, year).is_none() {
                dropped = Some(DropReason::BadDate);
                proof {
                    assert(!line_valid(line@, year as int));
                    assert(drop_reason_of(line@) == DropReason::BadDate);
                }
            } else {
                proof {
                    assert(line_valid(line@, year as int));
                }
            }
        } else {
            dropped = Some(DropReason::NoDelimiter);
            proof {
                assert(!line_valid(line@, year as int));
                assert(drop_reason_of(line@) == DropReason::NoDelimiter);
            }
        }
        if let Some(reason) = dropped {
            let d = DroppedLine { text: line.clone(), reason };
            proof {
                assert(d@ == (DroppedLineView { text: line@, reason: drop_reason_of(line@) }));
            }
            out.push(d);
            proof {
                assert(out.deep_view() =~= prev.push(d@));
            }
        }
        k = k + 1;
    }
    proof {
        assert(all.take(all.len() as int) =~= all);
    }
    out
}

/// Compares two dated entries by resolved date.
fn entry_le(a: &Entry, b: &Entry) -> (r: bool)
    requires
        wf_entry(a@),
        wf_entry(b@),
    ensures
        r == (entry_ts(a@) <= entry_ts(b@)),
{
    let ta: i64 = match &a.date {
        Some(t) => t.timestamp(),
        None => {
            proof {
                assert(false);
            }
            0
        },
    };
    let tb: i64 = match &b.date {
        Some(t) => t.timestamp(),
        None => {
            proof {
                assert(false);
            }
            0
        },
    };
    ta <= tb
}

/// Sorts a schedule ascending by resolved date. The outcome is pinned
/// exactly: the stable arrangement `sort_by_date_spec`, so equal inputs
/// sort to equal sequences and equally-dated entries keep their order.
pub fn sort_entries(es: &mut Vec<Entry>)
    requires
        wf_schedule(old(es).deep_view()),
    ensures
        final(es).deep_view() == sort_by_date_spec(old(es).deep_view()),
        sorted_by_date(final(es).deep_view()),
        final(es).deep_view().to_multiset() == old(es).deep_view().to_multiset(),
        wf_schedule(final(es).deep_view()),
        final(es).deep_view().len() == old(es).deep_view().len(),
{
    broadcast use vstd::seq_lib::group_to_multiset_ensures;
    broadcast use vstd::multiset::group_multiset_axioms;

    let ghost orig = old(es).deep_view();
    let ghost mut k: int = 0;
    let mut out: Vec<Entry> = Vec::new();
    proof {
        assert(orig.skip(0) =~= orig);
        assert(orig.take(0) =~= Seq::<EntryView>::empty());
        assert(sort_by_date_spec(orig.take(0)) == Seq::<EntryView>::empty());
        assert(out.deep_view() =~= Seq::<EntryView>::empty());
    }
    while es.len() > 0
        invariant
            0 <= k <= orig.len(),
            es.deep_view() == orig.skip(k),
            out.deep_view() == sort_by_date_spec(orig.take(k)),
            sorted_by_date(out.deep_view()),
            wf_schedule(out.deep_view()),
            wf_schedule(es.deep_view()),
            out.deep_view().to_multiset().add(es.deep_view().to_multiset())
                == orig.to_multiset(),
            out.deep_view().len() + es.deep_view().len() == orig.len(),
        decreases es.len(),
    {
        let ghost rest0 = es.deep_view();
        let e: Entry = es.remove(0);
        proof {
            assert(es.deep_view() =~= rest0.remove(0));
            vstd::seq_lib::to_multiset_remove::<EntryView>(rest0, 0);
            vstd::seq_lib::to_multiset_contains::<EntryView>(rest0, rest0[0]);
            assert(rest0.contains(rest0[0]));
            assert(e@ == rest0[0]);
            assert(e@ == orig[k]);
            assert(es.deep_view() =~= orig.skip(k + 1));
        }
        let pos: usize = insert_position(&out, &e);
        let ghost out0 = out.deep_view();
        out.insert(pos, e);
        proof {
            assert(out.deep_view() =~= out0.insert(pos as int, e@));
            lemma_insert_by_date_at(out0, e@, pos as int);
            lemma_sort_spec_push(orig.take(k), orig[k]);
            assert(orig.take(k).push(orig[k]) =~= orig.take(k + 1));
            assert(out.deep_view() == sort_by_date_spec(orig.take(k + 1)));
            k = k + 1;
            vstd::seq_lib::to_multiset_insert::<EntryView>(out0, pos as int, e@);
            assert(out.deep_view().to_multiset().add(es.deep_view().to_multiset())
                =~= orig.to_multiset());
            out0.insert_ensures(pos as int, e@);
            assert forall|i: int, j: int|
                0 <= i < j < out.deep_view().len() implies entry_ts(#[trigger] out.deep_view()[i])
                <= entry_ts(#[trigger] out.deep_view()[j]) by {
                let s = out0.insert(pos as int, e@);
                if j < pos {
                    assert(s[i] == out0[i] && s[j] == out0[j]);
                } else if i < pos && j == pos {
                    assert(s[i] == out0[i] && s[j] == e@);
                } else if i < pos && j > pos {
                    assert(s[i] == out0[i] && s[j] == out0[j - 1]);
                } else if i == pos {
                    assert(s[i] == e@ && s[j] == out0[j - 1]);
                } else {
                    assert(s[i] == out0[i - 1] && s[j] == out0[j - 1]);
                }
            }
        }
    }
    *es = out;
    proof {
        assert(k == orig.len());
        assert(orig.take(k) =~= orig);
        vstd::seq_lib::to_multiset_len::<EntryView>(es.deep_view());
        vstd::seq_lib::to_multiset_len::<EntryView>(orig);
    }
}

/// First position whose entry is strictly later than `e`; inserting at
/// that position keeps the schedule sorted.
fn insert_position(out: &Vec<Entry>, e: &Entry) -> (pos: usize)
    requires
        sorted_by_date(out.deep_view()),
        wf_schedule(out.deep_view()),
        wf_entry(e@),
    ensures
        pos <= out.deep_view().len(),
        forall|i: int| 0 <= i < pos ==> entry_ts(out.deep_view()[i]) <= entry_ts(e@),
        forall|i: int| pos <= i < out.deep_view().len() ==> entry_ts(e@) < entry_ts(
            out.deep_view()[i],
        ),
{
    let n: usize = out.len();
    let mut pos: usize = 0;
    while pos < n
        invariant
            pos <= n,
            n == out.deep_view().len(),
            sorted_by_date(out.deep_view()),
            wf_schedule(out.deep_view()),
            wf_entry(e@),
            forall|i: int| 0 <= i < pos ==> entry_ts(out.deep_view()[i]) <= entry_ts(e@),
        decreases n - pos,
    {
        proof {
            assert(out@[pos as int].deep_view() == out.deep_view()[pos as int]);
        }
        if !entry_le(&out[pos], e) {
            proof {
                assert forall|i: int|
                    pos <= i < out.deep_view().len() implies entry_ts(e@) < entry_ts(
                    #[trigger] out.deep_view()[i],
                ) by {
                    if pos < i {
                        assert(entry_ts(out.deep_view()[pos as int]) <= entry_ts(
                            out.deep_view()[i],
                        ));
                    }
                }
            }
            return pos;
        }
        pos = pos + 1;
    }
    pos
}

} // verus!
