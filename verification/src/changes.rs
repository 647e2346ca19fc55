//! The change log: an append-only, timestamp-ordered sequence of change
//! records, queryable by "all changes since timestamp T".

use vstd::prelude::*;

use crate::row::{RowData, Value};

verus! {

/// One recorded change.
#[derive(Clone, Debug)]
pub enum ChangeEvent {
    /// A row was inserted; its content is the row stored under `id`.
    Inserted { entity: usize, id: u32 },
    /// A row was removed; `row` is its full content at removal, since later
    /// lookups cannot resurrect it.
    Removed { entity: usize, id: u32, row: RowData },
    /// A scalar attribute changed in place.
    AttrChanged { entity: usize, id: u32, attr: usize, old_value: Value, new_value: Value },
    /// A foreign key changed in place.
    FkChanged { entity: usize, id: u32, rel: usize, old_target: Option<u32>, new_target: Option<u32> },
}

/// A change record: the caller-supplied timestamp, then the event.
#[derive(Clone, Debug)]
pub struct ChangeRec {
    pub at: u64,
    pub event: ChangeEvent,
}

/// Timestamps never decrease along the log.
pub open spec fn log_sorted(s: Seq<ChangeRec>) -> bool {
    forall|i: int, j: int| 0 <= i <= j < s.len() ==> (#[trigger] s[i]).at <= (#[trigger] s[j]).at
}

/// All records with timestamp at least `t`, in original order: the suffix of
/// the (sorted) log that starts at the first such record.
pub fn since<'a>(log: &'a Vec<ChangeRec>, t: u64) -> (r: Vec<&'a ChangeRec>)
    requires
        log_sorted(log@),
    ensures
        r@.len() <= log@.len(),
        forall|i: int|
            0 <= i < r@.len() ==> *(#[trigger] r@[i]) == log@[log@.len() - r@.len() + i],
        forall|i: int| 0 <= i < r@.len() ==> (#[trigger] r@[i]).at >= t,
        forall|j: int| 0 <= j < log@.len() - r@.len() ==> (#[trigger] log@[j]).at < t,
{
    let n = log.len();
    let mut k: usize = 0;
    while k < n && log[k].at < t
        invariant
            n == log@.len(),
            k <= n,
            forall|j: int| 0 <= j < k ==> (#[trigger] log@[j]).at < t,
        decreases n - k,
    {
        k += 1;
    }
    let ghost cut = k as int;
    let mut r: Vec<&ChangeRec> = Vec::new();
    while k < n
        invariant
            n == log@.len(),
            cut <= k <= n,
            r@.len() == k - cut,
            log_sorted(log@),
            forall|j: int| 0 <= j < cut ==> (#[trigger] log@[j]).at < t,
            cut < n ==> log@[cut].at >= t,
            forall|i: int| 0 <= i < r@.len() ==> *(#[trigger] r@[i]) == log@[cut + i],
        decreases n - k,
    {
        r.push(&log[k]);
        k += 1;
    }
    proof {
        assert forall|i: int| 0 <= i < r@.len() implies (#[trigger] r@[i]).at >= t by {
            assert(*r@[i] == log@[cut + i]);
            assert(log@[cut].at >= t);
            assert(log@[cut].at <= log@[cut + i].at);
        }
    }
    r
}

} // verus!
