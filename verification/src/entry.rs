//! The schedule data model: one event (`Entry`) and the shape invariants of
//! a schedule (every entry dated, entries in ascending date order).

use vstd::prelude::*;
use crate::time::{UtcTime, ts_of, wf_time};

verus! {

/// One scheduled event: the date text as it stood in the listing, the
/// event's label, and the resolved UTC time once the text has parsed.
pub struct Entry {
    pub datestr: String,
    pub label: String,
    pub date: Option<UtcTime>,
}

/// The mathematical image of an `Entry`.
pub struct EntryView {
    pub datestr: Seq<char>,
    pub label: Seq<char>,
    pub date: Option<UtcTime>,
}

impl View for Entry {
    type V = EntryView;

    open spec fn view(&self) -> EntryView {
        EntryView { datestr: self.datestr@, label: self.label@, date: self.date }
    }
}

impl DeepView for Entry {
    type V = EntryView;

    open spec fn deep_view(&self) -> EntryView {
        self.view()
    }
}

impl Entry {
    /// A not-yet-resolved entry, as the parser first builds one from the
    /// two halves of a listing line.
    pub fn new(datestr: String, label: String) -> (e: Entry)
        ensures
            e@ == (EntryView { datestr: datestr@, label: label@, date: None }),
    {
        Entry { datestr, label, date: None }
    }
}

/// An entry fit to be part of a schedule: resolved, to a well-formed time.
pub open spec fn wf_entry(e: EntryView) -> bool {
    match e.date {
        Some(t) => wf_time(t),
        None => false,
    }
}

/// The timestamp an entry is ordered by.
pub open spec fn entry_ts(e: EntryView) -> int {
    match e.date {
        Some(t) => ts_of(t),
        None => 0,
    }
}

pub open spec fn wf_schedule(s: Seq<EntryView>) -> bool {
    forall|i: int| 0 <= i < s.len() ==> wf_entry(#[trigger] s[i])
}

/// Ascending by resolved date.
pub open spec fn sorted_by_date(s: Seq<EntryView>) -> bool {
    forall|i: int, j: int| 0 <= i < j < s.len() ==> entry_ts(s[i]) <= entry_ts(s[j])
}

} // verus!
