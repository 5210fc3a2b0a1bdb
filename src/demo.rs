//! Filling a FIFO queue and a min-heap with the same records, checking their
//! sizes, and draining both.
//!
//! The records live once, in a `Vec`; both containers hold slots into it, so
//! the two views can never disagree about a record.
use vstd::prelude::*;
use vstd::multiset::Multiset;
use std::collections::VecDeque;
use crate::min_heap::{is_sorted_by_priority, Entry, MinHeap};
use crate::record::Process;
use crate::sample::{generate_processes, is_generated, record_count};

verus! {

broadcast use vstd::seq_lib::group_to_multiset_ensures, vstd::multiset::group_multiset_axioms;

/// The slots `0..n` in order.
pub open spec fn slots_in_order(n: nat) -> Seq<usize> {
    Seq::new(n, |i: int| i as usize)
}

/// The heap entries for `records`: each record's priority with its slot.
pub open spec fn entries_of(records: Seq<Process>) -> Seq<Entry> {
    Seq::new(records.len(), |i: int| (records[i].priority, i as usize))
}

/// Whether `order` lists every slot of `records` exactly once, in
/// non-decreasing order of the records' priorities.
pub open spec fn is_priority_order(order: Seq<usize>, records: Seq<Process>) -> bool {
    &&& order.len() == records.len()
    &&& forall|k: int| 0 <= k < order.len() ==> #[trigger] order[k] < records.len()
    &&& order.no_duplicates()
    &&& forall|a: int, b: int|
        0 <= a < b < order.len() ==> #[trigger] records[order[a] as int].priority
            <= #[trigger] records[order[b] as int].priority
}

/// A queue that holds the slot of every record, in order.
pub fn fill_queue(records: &Vec<Process>) -> (q: VecDeque<usize>)
    ensures
        q@ == slots_in_order(records@.len()),
{
    let mut q: VecDeque<usize> = VecDeque::new();
    let mut i: usize = 0;
    while i < records.len()
        invariant
            i <= records@.len(),
            q@ == slots_in_order(i as nat),
        decreases records@.len() - i,
    {
        q.push_back(i);
        i = i + 1;
        assert(q@ =~= slots_in_order(i as nat));
    }
    q
}

/// Empties `q` from the front, returning what it held in the order it held it.
pub fn drain_queue(q: &mut VecDeque<usize>) -> (out: Vec<usize>)
    ensures
        out@ == old(q)@,
        final(q)@.len() == 0,
{
    let mut out: Vec<usize> = Vec::new();
    loop
        invariant
            out@ + q@ == old(q)@,
        ensures
            out@ == old(q)@,
            q@.len() == 0,
        decreases q@.len(),
    {
        match q.pop_front() {
            Some(slot) => {
                out.push(slot);
            },
            None => {
                assert(out@ + q@ =~= out@);
                break;
            },
        }
    }
    out
}

/// A heap that holds every record's priority with its slot.
pub fn fill_heap(records: &Vec<Process>) -> (h: MinHeap)
    ensures
        h.wf(),
        h@ == entries_of(records@).to_multiset(),
{
    let mut h = MinHeap::new();
    let mut i: usize = 0;
    while i < records.len()
        invariant
            i <= records@.len(),
            h.wf(),
            h@ == entries_of(records@).subrange(0, i as int).to_multiset(),
        decreases records@.len() - i,
    {
        h.push(records[i].priority, i);
        assert(entries_of(records@).subrange(0, i + 1) =~= entries_of(records@).subrange(
            0,
            i as int,
        ).push((records@[i as int].priority, i)));
        i = i + 1;
    }
    assert(entries_of(records@).subrange(0, i as int) =~= entries_of(records@));
    h
}

/// Empties `h`, returning its entries in non-decreasing order of priority.
pub fn drain_heap(h: &mut MinHeap) -> (out: Vec<Entry>)
    requires
        old(h).wf(),
    ensures
        out@.to_multiset() == old(h)@,
        is_sorted_by_priority(out@),
        final(h).wf(),
        final(h)@.len() == 0,
{
    let mut out: Vec<Entry> = Vec::new();
    loop
        invariant
            h.wf(),
            out@.to_multiset().add(h@) == old(h)@,
            is_sorted_by_priority(out@),
            forall|k: int, x: Entry| 0 <= k < out@.len() && #[trigger] h@.contains(x) ==> #[trigger] out@[k].0 <= x.0,
        ensures
            h.wf(),
            out@.to_multiset() == old(h)@,
            is_sorted_by_priority(out@),
            h@.len() == 0,
        decreases h@.len(),
    {
        let ghost held = h@;
        match h.pop() {
            Some(e) => {
                let ghost before = out@;
                out.push(e);
                assert(out@ =~= before.push(e));
                assert(out@.to_multiset().add(h@) =~= old(h)@);
                assert(forall|k: int| 0 <= k < before.len() ==> #[trigger] out@[k] == before[k]);
                assert forall|k: int, x: Entry| 0 <= k < out@.len() && #[trigger] h@.contains(x) implies #[trigger] out@[k].0
                    <= x.0 by {
                    if x != e {
                        assert(h@.count(x) == held.count(x));
                    }
                    assert(held.contains(x));
                    if k < before.len() {
                        assert(before[k].0 <= x.0);
                    }
                }
            },
            None => {
                assert(out@.to_multiset().add(h@) =~= out@.to_multiset());
                break;
            },
        }
    }
    out
}

/// The slots of `entries`, in the same order.
fn slots_of(entries: &Vec<Entry>) -> (r: Vec<usize>)
    ensures
        r@.len() == entries@.len(),
        forall|k: int| 0 <= k < r@.len() ==> #[trigger] r@[k] == entries@[k].1,
{
    let mut r: Vec<usize> = Vec::new();
    let mut k: usize = 0;
    while k < entries.len()
        invariant
            k <= entries@.len(),
            r@.len() == k,
            forall|j: int| 0 <= j < k ==> #[trigger] r@[j] == entries@[j].1,
        decreases entries@.len() - k,
    {
        r.push(entries[k].1);
        k = k + 1;
    }
    r
}

proof fn lemma_drained_entries_order(records: Seq<Process>, out: Seq<Entry>, order: Seq<usize>)
    requires
        records.len() <= usize::MAX,
        out.to_multiset() == entries_of(records).to_multiset(),
        is_sorted_by_priority(out),
        order.len() == out.len(),
        forall|k: int| 0 <= k < order.len() ==> #[trigger] order[k] == out[k].1,
    ensures
        is_priority_order(order, records),
{
    let all = entries_of(records);
    assert forall|k: int| 0 <= k < out.len() implies #[trigger] out[k].1 < records.len()
        && out[k].0 == records[out[k].1 as int].priority by {
        assert(out.to_multiset().count(out[k]) > 0);
        assert(all.contains(out[k]));
        let i = choose|i: int| 0 <= i < all.len() && all[i] == out[k];
        assert(all[i] == (records[i].priority, i as usize));
    }
    assert(all.no_duplicates()) by {
        assert forall|i: int, j: int| 0 <= i < all.len() && 0 <= j < all.len() && i != j implies all[i]
            != all[j] by {
            assert(all[i].1 == i as usize);
            assert(all[j].1 == j as usize);
        }
    }
    all.lemma_multiset_has_no_duplicates();
    out.lemma_multiset_has_no_duplicates_conv();
    assert(order.len() == records.len()) by {
        assert(out.to_multiset().len() == all.to_multiset().len());
    }
    assert forall|k: int| 0 <= k < order.len() implies #[trigger] order[k] < records.len() by {
        assert(out[k].1 < records.len());
    }
    assert(order.no_duplicates()) by {
        assert forall|a: int, b: int| 0 <= a < order.len() && 0 <= b < order.len() && a != b implies order[a]
            != order[b] by {
            assert(out[a].1 < records.len() && out[b].1 < records.len());
            assert(out[a] != out[b]);
        }
    }
    assert forall|a: int, b: int| 0 <= a < b < order.len() implies #[trigger] records[order[a] as int].priority
        <= #[trigger] records[order[b] as int].priority by {
        assert(out[a].1 < records.len() && out[b].1 < records.len());
        assert(out[a].0 <= out[b].0);
    }
}

/// The container whose size disagreed with the number of records.
#[derive(Debug, Clone, Copy, PartialEq, Eq, Structural)]
pub enum SizeMismatch {
    /// The min-heap.
    Heap,
    /// The FIFO queue.
    Queue,
}

/// The outcome of one run: the records generated, each container's size once
/// filled, and the order in which each container gave up its records' slots.
pub struct Demonstration {
    pub records: Vec<Process>,
    pub heap_len: usize,
    pub queue_len: usize,
    pub queue_order: Vec<usize>,
    pub heap_order: Vec<usize>,
}

/// Generates `count` records (none for a negative count), fills a queue and a
/// min-heap with them, checks that each holds one entry per record, and
/// drains the queue and then the heap.
pub fn run(count: i32) -> (r: Result<Demonstration, SizeMismatch>)
    ensures
        r is Ok,
        r matches Ok(d) ==> {
            &&& is_generated(d.records@, count as int)
            &&& d.queue_len == record_count(count as int)
            &&& d.heap_len == record_count(count as int)
            &&& d.queue_order@ == slots_in_order(record_count(count as int))
            &&& forall|k: int|
                0 <= k < d.queue_order@.len() ==> d.records@[#[trigger] d.queue_order@[k] as int].id
                    == k
            &&& is_priority_order(d.heap_order@, d.records@)
        },
{
    let records = generate_processes(count);
    let expected: usize = if count < 0 { 0 } else { count as usize };
    let mut heap = fill_heap(&records);
    let mut queue = fill_queue(&records);
    proof {
        entries_of(records@).to_multiset_ensures();
    }
    let heap_len = heap.len();
    let queue_len = queue.len();
    if heap_len != expected {
        return Err(SizeMismatch::Heap);
    }
    if queue_len != expected {
        return Err(SizeMismatch::Queue);
    }
    let queue_order = drain_queue(&mut queue);
    let drained = drain_heap(&mut heap);
    let heap_order = slots_of(&drained);
    proof {
        lemma_drained_entries_order(records@, drained@, heap_order@);
    }
    Ok(Demonstration { records, heap_len, queue_len, queue_order, heap_order })
}

} // verus!
