//! A binary min-heap of `(priority, slot)` entries: the entry with the least
//! priority leaves first; among equal priorities the order is unspecified.
use vstd::prelude::*;
use vstd::multiset::Multiset;

verus! {

broadcast use vstd::seq_lib::group_to_multiset_ensures, vstd::multiset::group_multiset_axioms;

/// One heap entry: a priority and the slot of the record it stands for.
pub type Entry = (i32, usize);

pub open spec fn parent(i: int) -> int {
    (i - 1) / 2
}

/// Whether every entry of `s` but the first has a priority no less than its parent's.
pub open spec fn is_heap(s: Seq<Entry>) -> bool {
    forall|i: int| 0 < i < s.len() ==> s[parent(i)].0 <= #[trigger] s[i].0
}

/// Whether `s` is in non-decreasing order of priority.
pub open spec fn is_sorted_by_priority(s: Seq<Entry>) -> bool {
    forall|i: int, j: int| 0 <= i < j < s.len() ==> #[trigger] s[i].0 <= #[trigger] s[j].0
}

/// A priority queue that always hands out an entry of least priority next.
pub struct MinHeap {
    entries: Vec<Entry>,
}

proof fn lemma_root_is_least(s: Seq<Entry>, i: int)
    requires
        is_heap(s),
        0 <= i < s.len(),
    ensures
        s[0].0 <= s[i].0,
    decreases i,
{
    if i > 0 {
        lemma_root_is_least(s, parent(i));
    }
}

proof fn lemma_swap_keeps_contents(s: Seq<Entry>, i: int, j: int)
    requires
        0 <= i < s.len(),
        0 <= j < s.len(),
    ensures
        s.update(i, s[j]).update(j, s[i]).to_multiset() =~= s.to_multiset(),
{
    broadcast use vstd::seq_lib::to_multiset_update;

    let s1 = s.update(i, s[j]);
    if i != j {
        assert(s1[j] == s[j]);
    }
    assert(s.to_multiset().count(s[i]) > 0);
}

impl MinHeap {
    /// The entries held, with their multiplicities.
    pub closed spec fn view(&self) -> Multiset<Entry> {
        self.entries@.to_multiset()
    }

    /// The heap order holds of the entries.
    pub closed spec fn wf(&self) -> bool {
        is_heap(self.entries@)
    }

    /// An empty heap.
    pub fn new() -> (r: MinHeap)
        ensures
            r.wf(),
            r@.len() == 0,
    {
        MinHeap { entries: Vec::new() }
    }

    /// How many entries the heap holds.
    pub fn len(&self) -> (r: usize)
        ensures
            r == self@.len(),
    {
        self.entries.len()
    }

    fn swap_entries(&mut self, i: usize, j: usize)
        requires
            i < old(self).entries@.len(),
            j < old(self).entries@.len(),
        ensures
            final(self).entries@ == old(self).entries@.update(i as int, old(self).entries@[j as int]).update(
                j as int,
                old(self).entries@[i as int],
            ),
            final(self)@ == old(self)@,
    {
        let a = self.entries[i];
        let b = self.entries[j];
        self.entries.set(i, b);
        self.entries.set(j, a);
        proof {
            lemma_swap_keeps_contents(old(self).entries@, i as int, j as int);
        }
    }

    /// Adds an entry.
    pub fn push(&mut self, priority: i32, slot: usize)
        requires
            old(self).wf(),
        ensures
            final(self).wf(),
            final(self)@ == old(self)@.insert((priority, slot)),
    {
        self.entries.push((priority, slot));
        let mut k: usize = self.entries.len() - 1;
        while k > 0 && self.entries[k].0 < self.entries[(k - 1) / 2].0
            invariant
                k < self.entries@.len(),
                self@ == old(self)@.insert((priority, slot)),
                forall|i: int|
                    0 < i < self.entries@.len() && i != k ==> self.entries@[parent(i)].0
                        <= #[trigger] self.entries@[i].0,
                forall|i: int|
                    0 < i < self.entries@.len() && parent(i) == k && k > 0 ==> self.entries@[parent(
                        k as int,
                    )].0 <= #[trigger] self.entries@[i].0,
            decreases k,
        {
            let p = (k - 1) / 2;
            let ghost before = self.entries@;
            self.swap_entries(k, p);
            proof {
                let s = self.entries@;
                assert forall|i: int| 0 < i < s.len() && i != p implies s[parent(i)].0
                    <= #[trigger] s[i].0 by {
                    if i == k {
                    } else if parent(i) == p {
                        assert(before[p as int].0 <= before[i].0);
                    } else if parent(i) == k {
                    } else {
                    }
                }
                assert forall|i: int| 0 < i < s.len() && parent(i) == p && p > 0 implies s[parent(
                    p as int,
                )].0 <= #[trigger] s[i].0 by {
                    assert(before[parent(p as int)].0 <= before[p as int].0);
                    if i != k {
                        assert(before[p as int].0 <= before[i].0);
                    }
                }
            }
            k = p;
        }
    }

    /// Removes and returns an entry of least priority, or `None` when empty.
    pub fn pop(&mut self) -> (r: Option<Entry>)
        requires
            old(self).wf(),
        ensures
            final(self).wf(),
            match r {
                None => old(self)@.len() == 0 && final(self)@ == old(self)@,
                Some(e) => {
                    &&& old(self)@.contains(e)
                    &&& final(self)@ == old(self)@.remove(e)
                    &&& forall|x: Entry| old(self)@.contains(x) ==> e.0 <= x.0
                },
            },
    {
        let n = self.entries.len();
        if n == 0 {
            return None;
        }
        proof {
            assert forall|x: Entry| old(self)@.contains(x) implies self.entries@[0].0 <= x.0 by {
                let i = choose|i: int| 0 <= i < self.entries@.len() && self.entries@[i] == x;
                lemma_root_is_least(self.entries@, i);
            }
        }
        let ghost least = self.entries@[0];
        self.swap_entries(0, n - 1);
        let top = self.entries.pop().unwrap();
        proof {
            let s = old(self).entries@.update(0, old(self).entries@[n - 1]).update(
                n - 1,
                old(self).entries@[0],
            );
            assert(self.entries@ =~= s.drop_last());
            assert(s =~= self.entries@.push(top));
            assert(top == least);
        }
        let len = self.entries.len();
        let mut k: usize = 0;
        loop
            invariant
                len == self.entries@.len(),
                k < len || len == 0,
                self@ == old(self)@.remove(least),
                forall|i: int|
                    0 < i < self.entries@.len() && parent(i) != k ==> self.entries@[parent(i)].0
                        <= #[trigger] self.entries@[i].0,
                forall|i: int|
                    0 < i < self.entries@.len() && parent(i) == k && k > 0 ==> self.entries@[parent(
                        k as int,
                    )].0 <= #[trigger] self.entries@[i].0,
            ensures
                self@ == old(self)@.remove(least),
                is_heap(self.entries@),
            decreases len - k,
        {
            if k >= len / 2 {
                proof {
                    assert forall|i: int| 0 < i < self.entries@.len() implies self.entries@[parent(i)].0
                        <= #[trigger] self.entries@[i].0 by {
                        if parent(i) == k {
                            assert(i >= 2 * k + 1);
                        }
                    }
                }
                break;
            }
            let l = 2 * k + 1;
            let r = l + 1;
            let c = if r < len && self.entries[r].0 < self.entries[l].0 { r } else { l };
            if self.entries[c].0 >= self.entries[k].0 {
                proof {
                    assert forall|i: int| 0 < i < self.entries@.len() && parent(i) == k implies self.entries@[k as int].0
                        <= #[trigger] self.entries@[i].0 by {
                        assert(i == l || i == r);
                    }
                    assert forall|i: int| 0 < i < self.entries@.len() implies self.entries@[parent(i)].0
                        <= #[trigger] self.entries@[i].0 by {
                        if parent(i) == k {
                            assert(i == l || i == r);
                        }
                    }
                }
                break;
            }
            let ghost before = self.entries@;
            self.swap_entries(k, c);
            proof {
                let s = self.entries@;
                assert(parent(c as int) == k);
                assert forall|i: int| 0 < i < s.len() && parent(i) != c implies s[parent(i)].0
                    <= #[trigger] s[i].0 by {
                    if i == c {
                    } else if parent(i) == k {
                        assert(i == l || i == r);
                    } else if i == k {
                        assert(before[parent(k as int)].0 <= before[c as int].0);
                    } else {
                    }
                }
                assert forall|i: int| 0 < i < s.len() && parent(i) == c && c > 0 implies s[parent(
                    c as int,
                )].0 <= #[trigger] s[i].0 by {
                    assert(before[c as int].0 <= before[i].0);
                }
            }
            k = c;
        }
        Some(top)
    }
}

} // verus!
