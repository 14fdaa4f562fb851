//! Picking the schedule listing out of a message: the lines after the
//! first line that carries the `**schedule**` marker, up to the first
//! blank line.

use vstd::prelude::*;
use crate::chars::{char_is_whitespace, chars_to_string, is_ws_char, str_to_chars};

verus! {

/// Index of the first line break, or the length when there is none.
pub open spec fn line_break_at(s: Seq<char>) -> int
    decreases s.len(),
{
    if s.len() == 0 {
        0
    } else if s.first() == '\n' {
        0
    } else {
        1 + line_break_at(s.drop_first())
    }
}

/// The text split at line breaks; a text without any is one line.
pub open spec fn split_lines(s: Seq<char>) -> Seq<Seq<char>>
    decreases s.len(),
{
    let k = line_break_at(s);
    if 0 <= k < s.len() {
        seq![s.take(k)] + split_lines(s.skip(k + 1))
    } else {
        seq![s]
    }
}

/// The schedule marker occurs at `i` in the line.
pub open spec fn marker_at(l: Seq<char>, i: int) -> bool {
    0 <= i && i + 12 <= l.len() && l.subrange(i, i + 12) == "**schedule**"@
}

pub open spec fn has_marker(l: Seq<char>) -> bool {
    exists|i: int| marker_at(l, i)
}

/// Nothing on the line but whitespace; what trimming leaves empty.
pub open spec fn is_blank(l: Seq<char>) -> bool {
    forall|k: int| 0 <= k < l.len() ==> is_ws_char(#[trigger] l[k])
}

/// Index of the first line with the marker, or the number of lines.
pub open spec fn first_marker_line(ls: Seq<Seq<char>>) -> int
    decreases ls.len(),
{
    if ls.len() == 0 {
        0
    } else if has_marker(ls.first()) {
        0
    } else {
        1 + first_marker_line(ls.drop_first())
    }
}

/// The leading lines up to the first blank one.
pub open spec fn take_until_blank(ls: Seq<Seq<char>>) -> Seq<Seq<char>>
    decreases ls.len(),
{
    if ls.len() == 0 {
        Seq::empty()
    } else if is_blank(ls.first()) {
        Seq::empty()
    } else {
        seq![ls.first()] + take_until_blank(ls.drop_first())
    }
}

/// The listing lines of a message: those after the first marker line, up
/// to the first blank line; none when no line carries the marker.
pub open spec fn extracted_lines(content: Seq<char>) -> Seq<Seq<char>> {
    let ls = split_lines(content);
    let m = first_marker_line(ls);
    if m < ls.len() {
        take_until_blank(ls.skip(m + 1))
    } else {
        Seq::empty()
    }
}

proof fn lemma_line_break_at(s: Seq<char>, k: int)
    requires
        0 <= k <= s.len(),
        forall|j: int| 0 <= j < k ==> s[j] != '\n',
        k == s.len() || s[k] == '\n',
    ensures
        line_break_at(s) == k,
    decreases k,
{
    if k == 0 {
    } else {
        assert(s[0] != '\n');
        assert forall|j: int| 0 <= j < k - 1 implies s.drop_first()[j] != '\n' by {
            assert(s.drop_first()[j] == s[j + 1]);
        }
        if k < s.len() {
            assert(s.drop_first()[k - 1] == s[k]);
        }
        lemma_line_break_at(s.drop_first(), k - 1);
    }
}

/// The characters of one span of a line.
fn span_string(v: &Vec<char>, a: usize, b: usize) -> (r: String)
    requires
        a <= b <= v@.len(),
    ensures
        r@ == v@.subrange(a as int, b as int),
{
    let mut out: Vec<char> = Vec::new();
    let mut i: usize = a;
    proof {
        assert(out@ =~= v@.subrange(a as int, a as int));
    }
    while i < b
        invariant
            a <= i <= b <= v@.len(),
            out@ == v@.subrange(a as int, i as int),
        decreases b - i,
    {
        out.push(v[i]);
        proof {
            assert(v@.subrange(a as int, i as int + 1) =~= v@.subrange(a as int, i as int).push(
                v@[i as int],
            ));
        }
        i = i + 1;
    }
    chars_to_string(&out)
}

/// Splits a message into its lines.
fn split_into_lines(content: &str) -> (r: Vec<String>)
    ensures
        r.deep_view() == split_lines(content@),
{
    let v: Vec<char> = str_to_chars(content);
    let n: usize = v.len();
    let mut done: Vec<String> = Vec::new();
    let mut start: usize = 0;
    let mut i: usize = 0;
    proof {
        assert(v@.skip(0) =~= v@);
        assert(done.deep_view() =~= Seq::<Seq<char>>::empty());
        assert(Seq::<Seq<char>>::empty() + split_lines(v@) =~= split_lines(v@));
    }
    while i < n
        invariant
            start <= i <= n,
            n == v@.len(),
            v@ == content@,
            forall|j: int| start <= j < i ==> v@[j] != '\n',
            split_lines(content@) == done.deep_view() + split_lines(v@.skip(start as int)),
        decreases n - i,
    {
        if v[i] == '\n' {
            let line: String = span_string(&v, start, i);
            let ghost done0 = done.deep_view();
            done.push(line);
            proof {
                let s = v@.skip(start as int);
                assert forall|j: int| 0 <= j < i - start implies s[j] != '\n' by {
                    assert(s[j] == v@[start + j]);
                }
                assert(s[i - start] == v@[i as int]);
                lemma_line_break_at(s, i as int - start as int);
                assert(s.take(i as int - start as int) =~= v@.subrange(start as int, i as int));
                assert(s.skip(i as int - start as int + 1) =~= v@.skip(i as int + 1));
                assert(done.deep_view() =~= done0.push(line@));
                assert(done0 + (seq![line@] + split_lines(v@.skip(i as int + 1)))
                    =~= done0.push(line@) + split_lines(v@.skip(i as int + 1)));
            }
            start = i + 1;
        }
        i = i + 1;
    }
    let line: String = span_string(&v, start, n);
    let ghost done0 = done.deep_view();
    done.push(line);
    proof {
        let s = v@.skip(start as int);
        assert forall|j: int| 0 <= j < n - start implies s[j] != '\n' by {
            assert(s[j] == v@[start + j]);
        }
        lemma_line_break_at(s, n as int - start as int);
        assert(s =~= v@.subrange(start as int, n as int));
        assert(done.deep_view() =~= done0.push(line@));
        assert(split_lines(s) == seq![s]);
        assert(done0 + seq![s] =~= done0.push(line@));
    }
    done
}

/// Whether two spans of characters agree.
fn span_eq(v: &Vec<char>, i: usize, pat: &Vec<char>) -> (r: bool)
    requires
        i + pat@.len() <= v@.len(),
    ensures
        r == (v@.subrange(i as int, i as int + pat@.len() as int) == pat@),
{
    let m: usize = pat.len();
    let n: usize = v.len();
    let mut k: usize = 0;
    while k < m
        invariant
            k <= m,
            m == pat@.len(),
            n == v@.len(),
            i + m <= n,
            forall|t: int| 0 <= t < k ==> v@[i + t] == pat@[t],
        decreases m - k,
    {
        if v[i + k] != pat[k] {
            proof {
                assert(v@.subrange(i as int, i as int + m as int)[k as int] == v@[i as int
                    + k as int]);
            }
            return false;
        }
        k = k + 1;
    }
    proof {
        assert(v@.subrange(i as int, i as int + m as int) =~= pat@);
    }
    true
}

/// Whether the line carries the `**schedule**` marker.
fn line_has_marker(l: &String) -> (r: bool)
    ensures
        r == has_marker(l@),
{
    let v: Vec<char> = str_to_chars(l.as_str());
    let pat: Vec<char> = str_to_chars("**schedule**");
    let n: usize = v.len();
    proof {
        reveal_strlit("**schedule**");
        assert(pat@.len() == 12);
    }
    if n < 12 {
        return false;
    }
    let mut j: usize = 0;
    while j <= n - 12
        invariant
            j <= n - 12 + 1,
            12 <= n,
            n == v@.len(),
            v@ == l@,
            pat@ == "**schedule**"@,
            pat@.len() == 12,
            forall|t: int| 0 <= t < j ==> !marker_at(l@, t),
        decreases n - j,
    {
        if span_eq(&v, j, &pat) {
            proof {
                assert(marker_at(l@, j as int));
            }
            return true;
        }
        j = j + 1;
    }
    proof {
        assert forall|t: int| !marker_at(l@, t) by {
            if t + 12 <= l@.len() && t >= 0 {
                assert(t < j);
            }
        }
    }
    false
}

/// Whether trimming would leave the line empty.
fn line_is_blank(l: &String) -> (r: bool)
    ensures
        r == is_blank(l@),
{
    let v: Vec<char> = str_to_chars(l.as_str());
    let n: usize = v.len();
    let mut k: usize = 0;
    while k < n
        invariant
            k <= n,
            n == v@.len(),
            v@ == l@,
            forall|t: int| 0 <= t < k ==> is_ws_char(#[trigger] l@[t]),
        decreases n - k,
    {
        if !char_is_whitespace(v[k]) {
            return false;
        }
        k = k + 1;
    }
    true
}

proof fn lemma_first_marker(ls: Seq<Seq<char>>, m: int)
    requires
        0 <= m <= ls.len(),
        forall|j: int| 0 <= j < m ==> !has_marker(#[trigger] ls[j]),
        m == ls.len() || has_marker(ls[m]),
    ensures
        first_marker_line(ls) == m,
    decreases m,
{
    if m == 0 {
    } else {
        assert(!has_marker(ls[0]));
        assert forall|j: int| 0 <= j < m - 1 implies !has_marker(#[trigger] ls.drop_first()[j]) by {
            assert(ls.drop_first()[j] == ls[j + 1]);
        }
        if m < ls.len() {
            assert(ls.drop_first()[m - 1] == ls[m]);
        }
        lemma_first_marker(ls.drop_first(), m - 1);
    }
}

proof fn lemma_take_until(ls: Seq<Seq<char>>, a: int, b: int)
    requires
        0 <= a <= b <= ls.len(),
        forall|j: int| a <= j < b ==> !is_blank(#[trigger] ls[j]),
    ensures
        take_until_blank(ls.skip(a)) == ls.subrange(a, b) + take_until_blank(ls.skip(b)),
    decreases b - a,
{
    if a == b {
        assert(ls.subrange(a, b) =~= Seq::<Seq<char>>::empty());
        assert(Seq::<Seq<char>>::empty() + take_until_blank(ls.skip(b)) =~= take_until_blank(
            ls.skip(b),
        ));
    } else {
        let s = ls.skip(a);
        assert(s.first() == ls[a]);
        assert(!is_blank(s.first()));
        assert(s.drop_first() =~= ls.skip(a + 1));
        lemma_take_until(ls, a + 1, b);
        assert(seq![ls[a]] + (ls.subrange(a + 1, b) + take_until_blank(ls.skip(b)))
            =~= ls.subrange(a, b) + take_until_blank(ls.skip(b)));
    }
}

/// The listing lines of a message: those after the first `**schedule**`
/// marker line, up to the first blank line.
pub fn extract_schedule_lines(content: &str) -> (r: Vec<String>)
    ensures
        r.deep_view() == extracted_lines(content@),
{
    let lines: Vec<String> = split_into_lines(content);
    let ghost ls = split_lines(content@);
    let n: usize = lines.len();
    let mut m: usize = 0;
    while m < n
        invariant
            m <= n,
            n == ls.len(),
            lines.deep_view() == ls,
            forall|j: int| 0 <= j < m ==> !has_marker(#[trigger] ls[j]),
        ensures
            m <= n,
            forall|j: int| 0 <= j < m ==> !has_marker(#[trigger] ls[j]),
            m < n ==> has_marker(ls[m as int]),
        decreases n - m,
    {
        proof {
            assert(lines@[m as int].deep_view() == ls[m as int]);
        }
        if line_has_marker(&lines[m]) {
            break ;
        }
        m = m + 1;
    }
    proof {
        assert(m as int <= ls.len());
    }
    if m >= n {
        proof {
            lemma_first_marker(ls, n as int);
        }
        let r: Vec<String> = Vec::new();
        proof {
            assert(r.deep_view() =~= Seq::<Seq<char>>::empty());
        }
        return r;
    }
    proof {
        assert(has_marker(ls[m as int]));
        lemma_first_marker(ls, m as int);
    }
    let mut out: Vec<String> = Vec::new();
    let mut cur: usize = m + 1;
    while cur < n
        invariant
            m + 1 <= cur <= n,
            n == ls.len(),
            lines.deep_view() == ls,
            out.deep_view() == ls.subrange(m as int + 1, cur as int),
            forall|j: int| m + 1 <= j < cur ==> !is_blank(#[trigger] ls[j]),
        ensures
            m + 1 <= cur <= n,
            out.deep_view() == ls.subrange(m as int + 1, cur as int),
            forall|j: int| m + 1 <= j < cur ==> !is_blank(#[trigger] ls[j]),
            cur < n ==> is_blank(ls[cur as int]),
        decreases n - cur,
    {
        proof {
            assert(lines@[cur as int].deep_view() == ls[cur as int]);
        }
        if line_is_blank(&lines[cur]) {
            break ;
        }
        let ghost out0 = out.deep_view();
        out.push(lines[cur].clone());
        proof {
            assert(out.deep_view() =~= out0.push(ls[cur as int]));
            assert(ls.subrange(m as int + 1, cur as int + 1) =~= ls.subrange(
                m as int + 1,
                cur as int,
            ).push(ls[cur as int]));
        }
        cur = cur + 1;
    }
    proof {
        lemma_take_until(ls, m as int + 1, cur as int);
        if cur < n {
            assert(ls.skip(cur as int).first() == ls[cur as int]);
            assert(take_until_blank(ls.skip(cur as int)) == Seq::<Seq<char>>::empty());
        } else {
            assert(ls.skip(cur as int) =~= Seq::<Seq<char>>::empty());
            assert(take_until_blank(ls.skip(cur as int)) == Seq::<Seq<char>>::empty());
        }
        assert(ls.subrange(m as int + 1, cur as int) + Seq::<Seq<char>>::empty() =~= ls.subrange(
            m as int + 1,
            cur as int,
        ));
        assert(out.deep_view() == extracted_lines(content@));
    }
    out
}

} // verus!
