//! The next-event query: the first entry of a stored schedule strictly
//! after a reference time.

use vstd::prelude::*;
use crate::entry::{Entry, EntryView, entry_ts, sorted_by_date, wf_entry, wf_schedule};

verus! {

/// Index of the first entry whose resolved date is strictly after `now`,
/// scanning in stored order.
pub open spec fn next_index(s: Seq<EntryView>, now: int) -> Option<int>
    decreases s.len(),
{
    if s.len() == 0 {
        None
    } else if entry_ts(s.first()) > now {
        Some(0)
    } else {
        match next_index(s.drop_first(), now) {
            Some(i) => Some(i + 1),
            None => None,
        }
    }
}

/// `next_index` names the first strictly-later entry, and reports nothing
/// upcoming exactly when no entry is strictly later.
pub proof fn lemma_next_index_first(s: Seq<EntryView>, now: int)
    ensures
        match next_index(s, now) {
            Some(i) => 0 <= i < s.len() && entry_ts(s[i]) > now && forall|j: int|
                0 <= j < i ==> entry_ts(s[j]) <= now,
            None => forall|j: int| 0 <= j < s.len() ==> entry_ts(s[j]) <= now,
        },
    decreases s.len(),
{
    if s.len() > 0 && !(entry_ts(s.first()) > now) {
        lemma_next_index_first(s.drop_first(), now);
        match next_index(s.drop_first(), now) {
            Some(i) => {
                assert(s.drop_first()[i] == s[i + 1]);
                assert forall|j: int| 0 <= j < i + 1 implies entry_ts(s[j]) <= now by {
                    if j > 0 {
                        assert(s.drop_first()[j - 1] == s[j]);
                    }
                }
            },
            None => {
                assert forall|j: int| 0 <= j < s.len() implies entry_ts(s[j]) <= now by {
                    if j > 0 {
                        assert(s.drop_first()[j - 1] == s[j]);
                    }
                }
            },
        }
    }
}

/// First entry strictly after `now`, or `None` when nothing is upcoming.
pub fn next_entry(es: &Vec<Entry>, now: i64) -> (r: Option<usize>)
    requires
        wf_schedule(es.deep_view()),
    ensures
        match r {
            Some(i) => next_index(es.deep_view(), now as int) == Some(i as int),
            None => next_index(es.deep_view(), now as int) is None,
        },
{
    let ghost s = es.deep_view();
    let n: usize = es.len();
    let mut i: usize = 0;
    while i < n
        invariant
            i <= n,
            n == s.len(),
            s == es.deep_view(),
            wf_schedule(s),
            forall|j: int| 0 <= j < i ==> entry_ts(s[j]) <= now as int,
        decreases n - i,
    {
        proof {
            assert(es@[i as int].deep_view() == s[i as int]);
        }
        let ts: i64 = match &es[i].date {
            Some(t) => t.timestamp(),
            None => {
                proof {
                    assert(wf_entry(s[i as int]));
                    assert(false);
                }
                0
            },
        };
        if ts > now {
            proof {
                lemma_skip_next_index(s, now as int, i as int);
            }
            return Some(i);
        }
        i = i + 1;
    }
    proof {
        lemma_none_next_index(s, now as int);
    }
    None
}

/// When the first `i` entries are not after `now` and entry `i` is,
/// the query answers `i`.
proof fn lemma_skip_next_index(s: Seq<EntryView>, now: int, i: int)
    requires
        0 <= i < s.len(),
        forall|j: int| 0 <= j < i ==> entry_ts(s[j]) <= now,
        entry_ts(s[i]) > now,
    ensures
        next_index(s, now) == Some(i),
    decreases i,
{
    if i == 0 {
    } else {
        assert(entry_ts(s.first()) <= now);
        assert forall|j: int| 0 <= j < i - 1 implies entry_ts(s.drop_first()[j]) <= now by {
            assert(s.drop_first()[j] == s[j + 1]);
        }
        assert(s.drop_first()[i - 1] == s[i]);
        lemma_skip_next_index(s.drop_first(), now, i - 1);
    }
}

/// When no entry is after `now`, the query reports nothing upcoming.
proof fn lemma_none_next_index(s: Seq<EntryView>, now: int)
    requires
        forall|j: int| 0 <= j < s.len() ==> entry_ts(s[j]) <= now,
    ensures
        next_index(s, now) is None,
    decreases s.len(),
{
    if s.len() > 0 {
        assert forall|j: int| 0 <= j < s.len() - 1 implies entry_ts(s.drop_first()[j]) <= now by {
            assert(s.drop_first()[j] == s[j + 1]);
        }
        lemma_none_next_index(s.drop_first(), now);
    }
}

/// With three entries in ascending date order and `now` strictly between
/// the first and the second, the upcoming entry is the second one.
pub proof fn lemma_next_between_first_two(s: Seq<EntryView>, now: int)
    requires
        s.len() == 3,
        sorted_by_date(s),
        entry_ts(s[0]) < now < entry_ts(s[1]),
    ensures
        next_index(s, now) == Some(1int),
{
    lemma_skip_next_index(s, now, 1);
}

/// With `now` at or past the last of three entries, nothing is upcoming.
pub proof fn lemma_next_after_last(s: Seq<EntryView>, now: int)
    requires
        s.len() == 3,
        sorted_by_date(s),
        entry_ts(s[2]) <= now,
    ensures
        next_index(s, now) is None,
{
    assert(entry_ts(s[0]) <= entry_ts(s[2]));
    assert(entry_ts(s[1]) <= entry_ts(s[2]));
    lemma_none_next_index(s, now);
}

} // verus!
