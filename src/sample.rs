//! Generating records with random priorities and sleep times.
use vstd::prelude::*;
use rand::Rng;
use crate::record::{label_of, Process};

verus! {

/// Least priority a record can draw.
pub const PRIORITY_MIN: i32 = 0;

/// Bound, exclusive, on the priority a record can draw.
pub const PRIORITY_END: i32 = 100;

/// Least sleep time a record can draw.
pub const SLEEP_MIN: i32 = 100;

/// Bound, exclusive, on the sleep time a record can draw.
pub const SLEEP_END: i32 = 2000;

/// How many records a requested count gives: none for a negative count.
pub open spec fn record_count(count: int) -> nat {
    if count < 0 { 0 } else { count as nat }
}

/// Whether `p` is a well-formed record with identifier `i`: both random
/// fields in their ranges and the label derived from `i`.
pub open spec fn is_record_at(p: Process, i: int) -> bool {
    &&& p.id == i
    &&& PRIORITY_MIN <= p.priority < PRIORITY_END
    &&& SLEEP_MIN <= p.sleep_time < SLEEP_END
    &&& p.description@ == label_of(i)
}

/// Whether `records` is what a request for `count` records may give.
pub open spec fn is_generated(records: Seq<Process>, count: int) -> bool {
    &&& records.len() == record_count(count)
    &&& forall|i: int| 0 <= i < records.len() ==> is_record_at(#[trigger] records[i], i)
}

/// Relies on rand's `thread_rng` and `Rng::gen_range`: a value drawn from
/// `lo..hi`, which must not be empty (`gen_range` panics on an empty range).
#[verifier::external_body]
fn random_in_range(lo: i32, hi: i32) -> (r: i32)
    requires
        lo < hi,
    ensures
        lo <= r < hi,
{
    rand::thread_rng().gen_range(lo..hi)
}

/// Generates `count` records, none for a negative count. Record `i` has
/// identifier `i`; its priority and sleep time are drawn at random within
/// their ranges.
pub fn generate_processes(count: i32) -> (r: Vec<Process>)
    ensures
        is_generated(r@, count as int),
        forall|i: int, j: int|
            0 <= i < j < r@.len() ==> #[trigger] r@[i].id != #[trigger] r@[j].id,
        forall|i: int| 0 <= i < r@.len() ==> 0 <= #[trigger] r@[i].id < record_count(count as int),
{
    let mut records: Vec<Process> = Vec::new();
    let mut i: i32 = 0;
    while i < count
        invariant
            0 <= i,
            i <= count || count < 0,
            count < 0 ==> i == 0,
            records@.len() == i,
            forall|k: int| 0 <= k < records@.len() ==> is_record_at(#[trigger] records@[k], k),
        decreases count - i,
    {
        let priority = random_in_range(PRIORITY_MIN, PRIORITY_END);
        let sleep_time = random_in_range(SLEEP_MIN, SLEEP_END);
        records.push(Process::new(i, priority, sleep_time));
        i = i + 1;
    }
    records
}

} // verus!
