//! The open list of the search: a binary heap of entries, least first.
//!
//! Entries are ordered by their estimated total cost; among equal
//! estimates the lower cost so far comes first, and among equal costs the
//! node that was discovered earlier.

use vstd::multiset::Multiset;
use vstd::prelude::*;
use vstd::seq_lib::to_multiset_build;
use vstd::seq_lib::to_multiset_remove;
use vstd::seq_lib::to_multiset_update;

verus! {

/// One entry of the open list: a node, by its index in the node table, with
/// the cost of the path that reached it and the estimate of the whole route
/// through it.
#[derive(Clone, Copy, Debug)]
pub struct SmallestCostHolder {
    pub estimated_cost: u64,
    pub cost: u64,
    pub index: usize,
}

impl SmallestCostHolder {
    /// `self` leaves the open list no later than `other`: its estimate is
    /// lower; or the estimates are equal and its cost is lower; or those
    /// are equal too and its index is not higher.
    pub open spec fn spec_precedes(self, other: Self) -> bool {
        self.estimated_cost < other.estimated_cost || (self.estimated_cost == other.estimated_cost
            && (self.cost < other.cost || (self.cost == other.cost && self.index <= other.index)))
    }

    pub fn precedes(&self, other: &Self) -> (b: bool)
        ensures
            b == self.spec_precedes(*other),
    {
        self.estimated_cost < other.estimated_cost || (self.estimated_cost == other.estimated_cost
            && (self.cost < other.cost || (self.cost == other.cost && self.index <= other.index)))
    }
}

/// `entry` is in `entries` and precedes every entry there.
pub open spec fn is_least(entries: Multiset<SmallestCostHolder>, entry: SmallestCostHolder) -> bool {
    &&& entries.count(entry) > 0
    &&& forall|other: SmallestCostHolder| #[trigger]
        entries.count(other) > 0 ==> entry.spec_precedes(other)
}

/// A list has one least entry at most.
pub proof fn lemma_least_unique(
    entries: Multiset<SmallestCostHolder>,
    a: SmallestCostHolder,
    b: SmallestCostHolder,
)
    requires
        is_least(entries, a),
        is_least(entries, b),
    ensures
        a == b,
{
    assert(a.spec_precedes(b));
    assert(b.spec_precedes(a));
}

/// The position above `i` in the heap.
pub open spec fn above(i: int) -> int {
    (i - 1) / 2
}

/// Every entry but the one at `hole` is preceded by the entry above it, and
/// the entries below `hole` are preceded by the entry above `hole`.
pub open spec fn heap_but(heap: Seq<SmallestCostHolder>, hole: int) -> bool {
    &&& forall|j: int|
        1 <= j < heap.len() && j != hole ==> heap[above(j)].spec_precedes(#[trigger] heap[j])
    &&& forall|j: int|
        1 <= j < heap.len() && above(j) == hole && hole >= 1 ==> heap[above(hole)].spec_precedes(
            #[trigger] heap[j],
        )
}

/// Every entry but those below `hole` is preceded by the entry above it,
/// and the entries below `hole` are preceded by the entry above `hole`.
pub open spec fn heap_below(heap: Seq<SmallestCostHolder>, hole: int) -> bool {
    &&& forall|j: int|
        1 <= j < heap.len() && above(j) != hole ==> heap[above(j)].spec_precedes(
            #[trigger] heap[j],
        )
    &&& forall|j: int|
        1 <= j < heap.len() && above(j) == hole && hole >= 1 ==> heap[above(hole)].spec_precedes(
            #[trigger] heap[j],
        )
}

/// Every entry is preceded by the entry above it.
pub open spec fn is_heap(heap: Seq<SmallestCostHolder>) -> bool {
    forall|j: int| 1 <= j < heap.len() ==> heap[above(j)].spec_precedes(#[trigger] heap[j])
}

/// The first entry of a heap precedes every entry.
pub proof fn lemma_heap_top(heap: Seq<SmallestCostHolder>, i: int)
    requires
        is_heap(heap),
        0 <= i < heap.len(),
    ensures
        heap[0].spec_precedes(heap[i]),
    decreases i,
{
    if i > 0 {
        lemma_heap_top(heap, above(i));
        assert(heap[above(i)].spec_precedes(heap[i]));
    }
}

/// An entry that is put in and taken out again leaves the list what it was.
pub proof fn lemma_insert_remove(entries: Multiset<SmallestCostHolder>, entry: SmallestCostHolder)
    ensures
        entries.insert(entry).remove(entry) == entries,
{
    broadcast use vstd::multiset::group_multiset_axioms;

    assert(entries.insert(entry).remove(entry) =~= entries);
}

/// An entry of the list that is taken out and put in again leaves the list
/// what it was.
pub proof fn lemma_remove_insert(entries: Multiset<SmallestCostHolder>, entry: SmallestCostHolder)
    requires
        entries.count(entry) > 0,
    ensures
        entries.remove(entry).insert(entry) == entries,
{
    broadcast use vstd::multiset::group_multiset_axioms;

    assert(entries.remove(entry).insert(entry) =~= entries);
}

/// Two entries that change places leave the list what it was.
pub proof fn lemma_swap_keeps_entries(heap: Seq<SmallestCostHolder>, i: int, j: int)
    requires
        0 <= i < heap.len(),
        0 <= j < heap.len(),
    ensures
        heap.update(i, heap[j]).update(j, heap[i]).to_multiset() == heap.to_multiset(),
{
    let entries = heap.to_multiset();
    let once = heap.update(i, heap[j]);
    to_multiset_update(heap, i, heap[j]);
    to_multiset_update(once, j, heap[i]);
    assert(once[j] == heap[j]);
    let more = entries.insert(heap[j]);
    assert(more.count(heap[i]) > 0) by {
        broadcast use vstd::multiset::group_multiset_axioms;

        vstd::seq_lib::to_multiset_contains(heap, heap[i]);
        assert(heap.contains(heap[i]));
    }
    lemma_remove_insert(more, heap[i]);
    lemma_insert_remove(entries, heap[j]);
}

/// A priority queue of [`SmallestCostHolder`]s, least first.
pub struct Frontier {
    heap: Vec<SmallestCostHolder>,
}

impl View for Frontier {
    type V = Multiset<SmallestCostHolder>;

    closed spec fn view(&self) -> Multiset<SmallestCostHolder> {
        self.heap@.to_multiset()
    }
}

impl Frontier {
    /// The invariant of the list. It holds of a new list and is kept by
    /// every method.
    pub closed spec fn wf(&self) -> bool {
        is_heap(self.heap@)
    }

    pub fn new() -> (frontier: Self)
        ensures
            frontier.wf(),
            frontier@ == Multiset::<SmallestCostHolder>::empty(),
    {
        let frontier = Frontier { heap: Vec::new() };
        proof {
            vstd::seq_lib::to_multiset_len(frontier.heap@);
            vstd::multiset::lemma_multiset_empty_len(frontier.heap@.to_multiset());
        }
        frontier
    }

    pub fn len(&self) -> (n: usize)
        ensures
            n == self@.len(),
    {
        proof {
            vstd::seq_lib::to_multiset_len(self.heap@);
        }
        self.heap.len()
    }

    pub fn is_empty(&self) -> (b: bool)
        ensures
            b == (self@.len() == 0),
    {
        proof {
            vstd::seq_lib::to_multiset_len(self.heap@);
        }
        self.heap.len() == 0
    }

    fn swap(&mut self, i: usize, j: usize)
        requires
            i < old(self).heap@.len(),
            j < old(self).heap@.len(),
        ensures
            final(self).heap@ == old(self).heap@.update(i as int, old(self).heap@[j as int]).update(
                j as int,
                old(self).heap@[i as int],
            ),
            final(self)@ == old(self)@,
    {
        proof {
            lemma_swap_keeps_entries(self.heap@, i as int, j as int);
        }
        let a = self.heap[i];
        let b = self.heap[j];
        self.heap.set(i, b);
        self.heap.set(j, a);
    }

    /// Adds `entry`.
    pub fn push(&mut self, entry: SmallestCostHolder)
        requires
            old(self).wf(),
        ensures
            final(self).wf(),
            final(self)@ == old(self)@.insert(entry),
    {
        proof {
            to_multiset_build(self.heap@, entry);
        }
        self.heap.push(entry);
        let mut i = self.heap.len() - 1;
        while i > 0 && !self.heap[(i - 1) / 2].precedes(&self.heap[i])
            invariant
                i < self.heap@.len(),
                self@ == old(self)@.insert(entry),
                heap_but(self.heap@, i as int),
            decreases i,
        {
            let up = (i - 1) / 2;
            let ghost before = self.heap@;
            self.swap(up, i);
            proof {
                let after = self.heap@;
                assert(before[i as int].spec_precedes(before[up as int]));
                assert forall|j: int| 1 <= j < after.len() && j != up implies after[above(
                    j,
                )].spec_precedes(#[trigger] after[j]) by {
                    if j == i {
                    } else if above(j) == i {
                        assert(before[above(i as int)].spec_precedes(before[j]));
                    } else if above(j) == up {
                        assert(before[above(j)].spec_precedes(before[j]));
                    } else {
                        assert(before[above(j)].spec_precedes(before[j]));
                    }
                }
                assert forall|j: int|
                    1 <= j < after.len() && above(j) == up && up >= 1 implies after[above(
                    up as int,
                )].spec_precedes(#[trigger] after[j]) by {
                    assert(before[above(up as int)].spec_precedes(before[up as int]));
                    if j != i {
                        assert(before[above(j)].spec_precedes(before[j]));
                    }
                }
            }
            i = up;
        }
    }

    /// Takes out the entry that precedes all others; `None` when the list
    /// is empty.
    pub fn pop(&mut self) -> (least: Option<SmallestCostHolder>)
        requires
            old(self).wf(),
        ensures
            final(self).wf(),
            match least {
                None => old(self)@.len() == 0 && final(self)@ == old(self)@,
                Some(entry) => is_least(old(self)@, entry) && final(self)@ == old(self)@.remove(
                    entry,
                ),
            },
    {
        let n = self.heap.len();
        proof {
            vstd::seq_lib::to_multiset_len(self.heap@);
        }
        if n == 0 {
            return None;
        }
        let least = self.heap[0];
        let ghost full = self.heap@;
        proof {
            broadcast use vstd::multiset::group_multiset_axioms;

            vstd::seq_lib::to_multiset_contains(full, least);
            assert(full.contains(least));
            assert forall|other: SmallestCostHolder| #[trigger]
                full.to_multiset().count(other) > 0 implies least.spec_precedes(other) by {
                vstd::seq_lib::to_multiset_contains(full, other);
                let k = choose|k: int| 0 <= k < full.len() && full[k] == other;
                lemma_heap_top(full, k);
            }
        }
        let last = match self.heap.pop() {
            Some(last) => last,
            None => {
                assert(false);
                least
            },
        };
        proof {
            to_multiset_remove(full, n - 1);
            assert(full.remove(n - 1) =~= self.heap@);
        }
        if n == 1 {
            return Some(least);
        }
        let ghost short = self.heap@;
        self.heap.set(0, last);
        proof {
            to_multiset_update(short, 0, last);
            assert(short[0] == least);
            assert(full.to_multiset().count(last) > 0) by {
                vstd::seq_lib::to_multiset_contains(full, last);
                assert(full[n - 1] == last);
                assert(full.contains(last));
            }
            lemma_remove_insert(full.to_multiset(), last);
        }
        let m = n - 1;
        let mut i: usize = 0;
        loop
            invariant_except_break
                m == self.heap@.len(),
                i < m,
                self@ == old(self)@.remove(least),
                heap_below(self.heap@, i as int),
            ensures
                self@ == old(self)@.remove(least),
                is_heap(self.heap@),
            decreases m - i,
        {
            if i >= m / 2 {
                assert forall|j: int| 1 <= j < self.heap@.len() implies self.heap@[above(
                    j,
                )].spec_precedes(#[trigger] self.heap@[j]) by {
                    assert(above(j) != i);
                }
                break ;
            }
            let left = 2 * i + 1;
            let right = left + 1;
            let down = if right < m && !self.heap[left].precedes(&self.heap[right]) {
                right
            } else {
                left
            };
            if self.heap[i].precedes(&self.heap[down]) {
                assert forall|j: int| 1 <= j < self.heap@.len() implies self.heap@[above(
                    j,
                )].spec_precedes(#[trigger] self.heap@[j]) by {
                    if above(j) == i {
                        assert(j == left || j == right);
                    }
                }
                break ;
            }
            let ghost before = self.heap@;
            self.swap(i, down);
            proof {
                let after = self.heap@;
                assert(before[down as int].spec_precedes(before[i as int]));
                assert forall|j: int|
                    1 <= j < after.len() && above(j) != down implies after[above(
                    j,
                )].spec_precedes(#[trigger] after[j]) by {
                    if j == i {
                        assert(before[above(i as int)].spec_precedes(before[down as int]));
                    } else if above(j) == i {
                        assert(j == left || j == right);
                    } else {
                        assert(before[above(j)].spec_precedes(before[j]));
                    }
                }
                assert forall|j: int|
                    1 <= j < after.len() && above(j) == down && down >= 1 implies after[above(
                    down as int,
                )].spec_precedes(#[trigger] after[j]) by {
                    assert(before[above(j)].spec_precedes(before[j]));
                }
            }
            i = down;
        }
        Some(least)
    }
}

} // verus!
