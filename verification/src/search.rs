//! Best-first search over grid cells, one step at a time.
//!
//! The search does not know where successors come from: a caller takes the
//! next entry with [`Search::next`], decides whether it is the goal, asks
//! whoever knows the terrain for the cells that can be reached from it, and
//! hands them to [`Search::expand`]. Between those calls the search is an
//! ordinary value, so the caller may wait for as long as it needs.

use crate::frontier::Frontier;
use crate::frontier::SmallestCostHolder;
use crate::frontier::is_least;
use crate::grid::euclid_floor;
use crate::grid::lemma_floor_sqrt_exists;
use crate::grid::spec_euclid_floor;
use crate::grid::spec_squared_distance;
use crate::node_table::Cell;
use crate::node_table::Link;
use crate::node_table::NodeTable;
use crate::node_table::key_absent;
use crate::node_table::table_entries;
use crate::node_table::table_get_index;
use crate::node_table::table_index_of;
use crate::node_table::table_insert_full;
use crate::node_table::table_len;
use crate::node_table::table_new;
use vstd::multiset::Multiset;
use vstd::prelude::*;

verus! {

/// A grid cell together with what was observed of the terrain under it.
/// Two nodes are the same node when their positions are equal.
#[derive(Debug)]
pub struct Node<H> {
    pub position: Cell,
    pub height: H,
}

impl<H: Copy> Clone for Node<H> {
    fn clone(&self) -> (copy: Self)
        ensures
            copy == *self,
    {
        Node { position: self.position, height: self.height }
    }
}

impl<H: Copy> Copy for Node<H> {

}

impl<H> PartialEq for Node<H> {
    fn eq(&self, other: &Self) -> (same: bool) {
        self.position.0 == other.position.0 && self.position.1 == other.position.1
    }
}

impl<H> vstd::std_specs::cmp::PartialEqSpecImpl for Node<H> {
    open spec fn obeys_eq_spec() -> bool {
        true
    }

    open spec fn eq_spec(&self, other: &Self) -> bool {
        self.position == other.position
    }
}

/// How the search estimates what is left of the way from a cell.
#[derive(Clone, Copy, Debug)]
pub enum Heuristic {
    /// Nothing is assumed: the search is breadth-first over equal costs.
    Zero,
    /// The straight-line distance to `goal`, in whole cells.
    Euclid { goal: Cell },
}

impl Heuristic {
    /// The estimate for `cell`.
    pub open spec fn spec_estimate(self, cell: Cell) -> int {
        match self {
            Heuristic::Zero => 0,
            Heuristic::Euclid { goal } => spec_euclid_floor(cell, goal),
        }
    }

    pub fn estimate(&self, cell: Cell) -> (h: u64)
        ensures
            h == self.spec_estimate(cell),
    {
        match self {
            Heuristic::Zero => 0,
            Heuristic::Euclid { goal } => euclid_floor(cell, *goal),
        }
    }
}

/// No estimate is negative.
pub proof fn lemma_estimate_nonnegative(heuristic: Heuristic, cell: Cell)
    ensures
        0 <= heuristic.spec_estimate(cell),
{
    match heuristic {
        Heuristic::Zero => {},
        Heuristic::Euclid { goal } => {
            let n = spec_squared_distance(cell, goal);
            assert(0 <= n) by (nonlinear_arith)
                requires
                    n == spec_squared_distance(cell, goal),
            ;
            lemma_floor_sqrt_exists(n);
        },
    }
}

/// An entry that has left the open list.
#[derive(Debug)]
pub struct Visit<H> {
    /// The index of the node in the order in which nodes were discovered.
    pub index: usize,
    pub node: Node<H>,
    /// The cost of the path by which this entry reached the node.
    pub cost: u64,
    /// The estimate of the whole route through the node that the entry was
    /// ordered by.
    pub estimated_cost: u64,
    /// A cheaper path to the node has been found since the entry was made.
    pub stale: bool,
}

impl<H> Visit<H> {
    /// The entry of the open list that the visit stands for.
    pub open spec fn entry(self) -> SmallestCostHolder {
        SmallestCostHolder {
            estimated_cost: self.estimated_cost,
            cost: self.cost,
            index: self.index,
        }
    }
}

/// The search as a mathematical value.
pub struct SearchState<H> {
    /// Every discovered cell with its parent's index and its best cost, in
    /// order of discovery.
    pub table: Seq<(Cell, Link)>,
    /// The terrain height recorded for each discovered cell.
    pub heights: Seq<H>,
    /// The open list.
    pub open: Multiset<SmallestCostHolder>,
    /// The entry taken by the last `next`, until it is expanded.
    pub current: Option<SmallestCostHolder>,
    pub heuristic: Heuristic,
}

/// `a + b`, or the largest cost where the sum is larger.
pub open spec fn spec_saturating_sum(a: int, b: int) -> int {
    if a + b > u64::MAX {
        u64::MAX as int
    } else {
        a + b
    }
}

/// The position of `cell` in the table, where it has one.
pub open spec fn spec_index_of(table: Seq<(Cell, Link)>, cell: Cell) -> Option<int> {
    if exists|i: int| 0 <= i < table.len() && (#[trigger] table[i]).0 == cell {
        Some(choose|i: int| 0 <= i < table.len() && (#[trigger] table[i]).0 == cell)
    } else {
        None
    }
}

/// No cell occurs twice in the table.
pub open spec fn distinct_cells(table: Seq<(Cell, Link)>) -> bool {
    forall|i: int, j: int|
        0 <= i < table.len() && 0 <= j < table.len() && i != j ==> (#[trigger] table[i]).0 != (
        #[trigger] table[j]).0
}

/// The best cost recorded for the node at `i`.
pub open spec fn best_of(table: Seq<(Cell, Link)>, i: int) -> int {
    table[i].1.1 as int
}

/// The index recorded as the parent of the node at `i`.
pub open spec fn parent_of(table: Seq<(Cell, Link)>, i: int) -> int {
    table[i].1.0 as int
}

/// The table starts with the start node, which has no parent and costs
/// nothing; every other node has a parent in the table that costs no more
/// than it does; and no cell occurs twice.
pub open spec fn table_ok(table: Seq<(Cell, Link)>) -> bool {
    &&& 1 <= table.len() <= usize::MAX
    &&& distinct_cells(table)
    &&& table[0].1 == (usize::MAX, 0u64)
    &&& forall|i: int|
        1 <= i < table.len() ==> 0 <= #[trigger] parent_of(table, i) < table.len() && best_of(
            table,
            parent_of(table, i),
        ) <= best_of(table, i)
}

impl<H> SearchState<H> {
    /// The state of a search that has only its start node.
    pub open spec fn initial(start: Node<H>, heuristic: Heuristic) -> Self {
        SearchState {
            table: seq![(start.position, (usize::MAX, 0u64))],
            heights: seq![start.height],
            open: Multiset::empty().insert(
                SmallestCostHolder { estimated_cost: 0, cost: 0, index: 0 },
            ),
            current: None,
            heuristic,
        }
    }

    /// The best cost found so far for the node at `i`.
    pub open spec fn best(self, i: int) -> int {
        best_of(self.table, i)
    }

    /// The index of the node from which the node at `i` was reached.
    pub open spec fn parent(self, i: int) -> int {
        parent_of(self.table, i)
    }

    pub open spec fn node(self, i: int) -> Node<H> {
        Node { position: self.table[i].0, height: self.heights[i] }
    }

    /// An entry names a discovered node, costs at least that node's best
    /// cost, and carries an estimate between its cost and its cost plus the
    /// heuristic.
    pub open spec fn entry_ok(self, e: SmallestCostHolder) -> bool {
        &&& e.index < self.table.len()
        &&& self.best(e.index as int) <= e.cost
        &&& e.cost <= e.estimated_cost
        &&& e.estimated_cost <= spec_saturating_sum(
            e.cost as int,
            self.heuristic.spec_estimate(self.table[e.index as int].0),
        )
    }

    /// What holds of every search, whatever it was fed.
    pub open spec fn well_formed(self) -> bool {
        &&& table_ok(self.table)
        &&& self.heights.len() == self.table.len()
        &&& forall|e: SmallestCostHolder| #[trigger] self.open.count(e) > 0 ==> self.entry_ok(e)
        &&& self.current matches Some(e) ==> self.entry_ok(e)
    }

    /// The visit that `entry` stands for.
    pub open spec fn visit_of(self, entry: SmallestCostHolder) -> Visit<H> {
        Visit {
            index: entry.index,
            node: self.node(entry.index as int),
            cost: entry.cost,
            estimated_cost: entry.estimated_cost,
            stale: entry.cost > self.best(entry.index as int),
        }
    }

    /// The state after `entry` was taken from the open list.
    pub open spec fn take(self, entry: SmallestCostHolder) -> Self {
        SearchState { open: self.open.remove(entry), current: Some(entry), ..self }
    }

    /// The state after one successor of the node at `from`, reached there at
    /// `cost`, was considered: a cell not seen before is recorded, a cell
    /// seen before at a higher cost is re-parented, and either gets a new
    /// entry in the open list; anything else changes nothing. A successor
    /// whose cost cannot be represented is passed over, and so is a new cell
    /// once the table holds as many nodes as an index can count.
    pub open spec fn relax(self, from: int, cost: int, successor: Node<H>, step: int) -> Self {
        let new_cost = cost + step;
        if new_cost > u64::MAX {
            self
        } else {
            let estimate = spec_saturating_sum(
                new_cost,
                self.heuristic.spec_estimate(successor.position),
            );
            let link = (from as usize, new_cost as u64);
            match spec_index_of(self.table, successor.position) {
                None => if self.table.len() >= usize::MAX {
                    self
                } else {
                    SearchState {
                        table: self.table.push((successor.position, link)),
                        heights: self.heights.push(successor.height),
                        open: self.open.insert(
                            SmallestCostHolder {
                                estimated_cost: estimate as u64,
                                cost: new_cost as u64,
                                index: self.table.len() as usize,
                            },
                        ),
                        ..self
                    }
                },
                Some(n) => if self.best(n) > new_cost {
                    SearchState {
                        table: self.table.update(n, (successor.position, link)),
                        open: self.open.insert(
                            SmallestCostHolder {
                                estimated_cost: estimate as u64,
                                cost: new_cost as u64,
                                index: n as usize,
                            },
                        ),
                        ..self
                    }
                } else {
                    self
                },
            }
        }
    }

    /// The state after the first `count` of `successors` were considered in
    /// turn.
    pub open spec fn relax_all(
        self,
        from: int,
        cost: int,
        successors: Seq<(Node<H>, u64)>,
        count: nat,
    ) -> Self
        decreases count,
    {
        if count == 0 {
            self
        } else {
            let before = self.relax_all(from, cost, successors, (count - 1) as nat);
            let (successor, step) = successors[count - 1];
            before.relax(from, cost, successor, step as int)
        }
    }

    /// The index of the node that is about to be expanded: that of the
    /// current entry, where there is one and it is not stale.
    pub open spec fn expanding(self) -> Option<int> {
        match self.current {
            Some(e) => if e.cost <= self.best(e.index as int) {
                Some(e.index as int)
            } else {
                None
            },
            None => None,
        }
    }

    /// The state after the current entry was expanded with `successors`.
    /// Nothing is considered where there is no current entry or where the
    /// entry is stale.
    pub open spec fn expand(self, successors: Seq<(Node<H>, u64)>) -> Self {
        match self.current {
            None => self,
            Some(e) => if e.cost > self.best(e.index as int) {
                SearchState { current: None, ..self }
            } else {
                let relaxed = self.relax_all(
                    e.index as int,
                    e.cost as int,
                    successors,
                    successors.len(),
                );
                SearchState { current: None, ..relaxed }
            },
        }
    }
}

/// Considering one successor keeps a well-formed state well-formed.
pub proof fn lemma_relax_well_formed<H>(
    s: SearchState<H>,
    from: int,
    cost: int,
    successor: Node<H>,
    step: int,
)
    requires
        s.well_formed(),
        0 <= from < s.table.len(),
        s.best(from) == cost,
        0 <= step,
    ensures
        s.relax(from, cost, successor, step).well_formed(),
        s.relax(from, cost, successor, step).current == s.current,
        s.relax(from, cost, successor, step).heuristic == s.heuristic,
        s.relax(from, cost, successor, step).table.len() >= s.table.len(),
        s.relax(from, cost, successor, step).best(from) == cost,
        forall|i: int|
            0 <= i < s.table.len() ==> #[trigger] s.relax(from, cost, successor, step).node(i)
                == s.node(i),
{
    broadcast use vstd::multiset::group_multiset_axioms;

    let t = s.relax(from, cost, successor, step);
    let new_cost = cost + step;
    lemma_estimate_nonnegative(s.heuristic, successor.position);
    if new_cost <= u64::MAX {
        match spec_index_of(s.table, successor.position) {
            None => if s.table.len() < usize::MAX {
                assert forall|i: int, j: int|
                    0 <= i < t.table.len() && 0 <= j < t.table.len() && i != j implies (
                #[trigger] t.table[i]).0 != (#[trigger] t.table[j]).0 by {
                    if i == s.table.len() {
                        assert(s.table[j].0 != successor.position);
                    } else if j == s.table.len() {
                        assert(s.table[i].0 != successor.position);
                    }
                }
                assert forall|i: int| 1 <= i < t.table.len() implies 0 <= #[trigger] parent_of(
                    t.table,
                    i,
                ) < t.table.len() && best_of(t.table, parent_of(t.table, i)) <= best_of(
                    t.table,
                    i,
                ) by {
                    if i < s.table.len() {
                        assert(parent_of(t.table, i) == parent_of(s.table, i));
                    }
                }
                assert forall|e: SmallestCostHolder| #[trigger]
                    t.open.count(e) > 0 implies t.entry_ok(e) by {
                    if s.open.count(e) > 0 {
                        assert(s.entry_ok(e));
                    }
                }
            },
            Some(n) => {
                if s.best(n) > new_cost {
                    assert(n != from);
                    assert(n != 0);
                    assert forall|i: int, j: int|
                        0 <= i < t.table.len() && 0 <= j < t.table.len() && i != j implies (
                    #[trigger] t.table[i]).0 != (#[trigger] t.table[j]).0 by {
                        assert(s.table[i].0 != s.table[j].0);
                    }
                    assert forall|i: int| 1 <= i < t.table.len() implies 0 <= #[trigger] parent_of(
                        t.table,
                        i,
                    ) < t.table.len() && best_of(t.table, parent_of(t.table, i)) <= best_of(
                        t.table,
                        i,
                    ) by {
                        if i != n {
                            assert(parent_of(t.table, i) == parent_of(s.table, i));
                            assert(best_of(s.table, parent_of(s.table, i)) <= best_of(s.table, i));
                        }
                    }
                    assert forall|e: SmallestCostHolder| #[trigger]
                        t.open.count(e) > 0 implies t.entry_ok(e) by {
                        if s.open.count(e) > 0 {
                            assert(s.entry_ok(e));
                        }
                    }
                }
            },
        }
    }
}

/// The node at `p` is cheaper than the node at `i`, or as cheap and settled
/// earlier.
pub open spec fn rank_below(table: Seq<(Cell, Link)>, stamps: Seq<nat>, p: int, i: int) -> bool {
    best_of(table, p) < best_of(table, i) || (best_of(table, p) == best_of(table, i) && stamps[p]
        < stamps[i])
}

/// Every node but the first ranks above its parent.
pub open spec fn ranked(table: Seq<(Cell, Link)>, stamps: Seq<nat>) -> bool {
    forall|i: int|
        1 <= i < table.len() ==> rank_below(table, stamps, #[trigger] parent_of(table, i), i)
}

/// Considering successors never changes a node that is in the table.
pub proof fn lemma_relax_all_keeps_nodes<H>(
    s: SearchState<H>,
    from: int,
    cost: int,
    successors: Seq<(Node<H>, u64)>,
    count: nat,
)
    requires
        s.well_formed(),
        0 <= from < s.table.len(),
        s.best(from) == cost,
        count <= successors.len(),
    ensures
        s.relax_all(from, cost, successors, count).well_formed(),
        s.relax_all(from, cost, successors, count).best(from) == cost,
        s.table.len() <= s.relax_all(from, cost, successors, count).table.len(),
        forall|i: int|
            0 <= i < s.table.len() ==> #[trigger] s.relax_all(from, cost, successors, count).node(i)
                == s.node(i),
    decreases count,
{
    if count > 0 {
        lemma_relax_all_keeps_nodes(s, from, cost, successors, (count - 1) as nat);
        let before = s.relax_all(from, cost, successors, (count - 1) as nat);
        lemma_relax_well_formed(
            before,
            from,
            cost,
            successors[count - 1].0,
            successors[count - 1].1 as int,
        );
        let after = s.relax_all(from, cost, successors, count);
        assert forall|i: int| 0 <= i < s.table.len() implies #[trigger] after.node(i) == s.node(
            i,
        ) by {
            assert(before.node(i) == s.node(i));
        }
    }
}

/// Expanding the current entry never changes a node that is in the table.
pub proof fn lemma_expand_keeps_nodes<H>(s: SearchState<H>, successors: Seq<(Node<H>, u64)>)
    requires
        s.well_formed(),
    ensures
        s.table.len() <= s.expand(successors).table.len(),
        forall|i: int|
            0 <= i < s.table.len() ==> #[trigger] s.expand(successors).node(i) == s.node(i),
{
    if let Some(e) = s.current {
        if e.cost <= s.best(e.index as int) {
            assert(s.entry_ok(e));
            lemma_relax_all_keeps_nodes(
                s,
                e.index as int,
                e.cost as int,
                successors,
                successors.len(),
            );
            let relaxed = s.relax_all(e.index as int, e.cost as int, successors, successors.len());
            assert forall|i: int| 0 <= i < s.table.len() implies #[trigger] s.expand(
                successors,
            ).node(i) == s.node(i) by {
                assert(relaxed.node(i) == s.node(i));
            }
        }
    }
}

/// A step that a node offered: the index of the node, the cell that the
/// step leads to, and the cost of the step.
pub type Step = (int, Cell, int);

/// The steps that the node at `from` offers when it is expanded with
/// `successors`.
pub open spec fn spec_offers<H>(from: int, successors: Seq<(Node<H>, u64)>) -> Set<Step> {
    Set::new(
        |step: Step|
            exists|m: int|
                0 <= m < successors.len() && step == (
                    from,
                    (#[trigger] successors[m]).0.position,
                    successors[m].1 as int,
                ),
    )
}

/// The node at `i` is linked to its parent by a step of cost `w` that the
/// parent offered, and the parent's cost and the step's are no more than
/// the node's cost.
pub open spec fn link_by(table: Seq<(Cell, Link)>, offered: Set<Step>, i: int, w: int) -> bool {
    &&& offered.contains((parent_of(table, i), table[i].0, w))
    &&& 0 <= w
    &&& best_of(table, parent_of(table, i)) + w <= best_of(table, i)
}

/// The node at `i` is linked to its parent by a step that the parent
/// offered.
pub open spec fn linked(table: Seq<(Cell, Link)>, offered: Set<Step>, i: int) -> bool {
    exists|w: int| #[trigger] link_by(table, offered, i, w)
}

/// Every node but the first is linked to its parent by a step that the
/// parent offered, and only nodes of the table have offered steps.
pub open spec fn links_offered(table: Seq<(Cell, Link)>, offered: Set<Step>) -> bool {
    &&& forall|i: int| 1 <= i < table.len() ==> #[trigger] linked(table, offered, i)
    &&& forall|step: Step| #[trigger] offered.contains(step) ==> 0 <= step.0 < table.len()
}

/// `indices` is the way from the start to the node at `index`: it starts
/// at the first node, ends at `index`, and each of its nodes but the first
/// is a later node of the table whose parent is the node before it.
pub open spec fn is_chain(table: Seq<(Cell, Link)>, indices: Seq<int>, index: int) -> bool {
    &&& indices.len() >= 1
    &&& indices.first() == 0
    &&& indices.last() == index
    &&& forall|k: int|
        0 <= k < indices.len() - 1 ==> 1 <= #[trigger] indices[k + 1] < table.len() && indices[k]
            == parent_of(table, indices[k + 1])
}

/// A table has one way at most from the start to a node.
pub proof fn lemma_chain_unique(table: Seq<(Cell, Link)>, a: Seq<int>, b: Seq<int>, index: int)
    requires
        is_chain(table, a, index),
        is_chain(table, b, index),
    ensures
        a == b,
    decreases a.len(),
{
    if a.len() == 1 || b.len() == 1 {
        if a.len() > 1 {
            assert(1 <= a[a.len() - 2 + 1]);
        }
        if b.len() > 1 {
            assert(1 <= b[b.len() - 2 + 1]);
        }
        assert(a =~= b);
    } else {
        let before = parent_of(table, index);
        assert(a[a.len() - 2] == parent_of(table, a[a.len() - 2 + 1]));
        assert(b[b.len() - 2] == parent_of(table, b[b.len() - 2 + 1]));
        let a0 = a.drop_last();
        let b0 = b.drop_last();
        assert forall|k: int| 0 <= k < a0.len() - 1 implies 1 <= #[trigger] a0[k + 1] < table.len()
            && a0[k] == parent_of(table, a0[k + 1]) by {
            assert(1 <= a[k + 1]);
        }
        assert forall|k: int| 0 <= k < b0.len() - 1 implies 1 <= #[trigger] b0[k + 1] < table.len()
            && b0[k] == parent_of(table, b0[k + 1]) by {
            assert(1 <= b[k + 1]);
        }
        lemma_chain_unique(table, a0, b0, before);
        assert(a =~= a0.push(index));
        assert(b =~= b0.push(index));
    }
}

/// `path` is the nodes on the way from the start to the node at `index`.
pub open spec fn leads_to<H>(s: SearchState<H>, path: Seq<Node<H>>, index: int) -> bool {
    exists|indices: Seq<int>| #[trigger]
        is_chain(s.table, indices, index) && path == indices.map_values(|k: int| s.node(k))
}

/// The sum of `costs`.
pub open spec fn total(costs: Seq<int>) -> int
    decreases costs.len(),
{
    if costs.len() == 0 {
        0
    } else {
        total(costs.drop_last()) + costs.last()
    }
}

/// The search itself: the open list, the table of discovered nodes and the
/// heights recorded for them.
pub struct Search<H> {
    frontier: Frontier,
    table: NodeTable,
    heights: Vec<H>,
    heuristic: Heuristic,
    current: Option<SmallestCostHolder>,
    /// When each node last got a better cost; later is larger.
    stamps: Ghost<Seq<nat>>,
    clock: Ghost<nat>,
    /// Every step that an expanded node has offered.
    offered: Ghost<Set<Step>>,
}

impl<H> View for Search<H> {
    type V = SearchState<H>;

    closed spec fn view(&self) -> SearchState<H> {
        SearchState {
            table: table_entries(self.table),
            heights: self.heights@,
            open: self.frontier@,
            current: self.current,
            heuristic: self.heuristic,
        }
    }
}

impl<H: Copy> Search<H> {
    /// The moment at which the node at `i` last got a better cost.
    pub closed spec fn stamp(&self, i: int) -> nat {
        self.stamps@[i]
    }

    /// Every step that a node was expanded with so far: the index of the
    /// node, the cell that the step leads to, and the cost of the step.
    pub closed spec fn offered(&self) -> Set<Step> {
        self.offered@
    }

    /// The invariant of the search. It holds of a new search and is kept by
    /// every method.
    pub closed spec fn wf(&self) -> bool {
        &&& self@.well_formed()
        &&& self.frontier.wf()
        &&& self.stamps@.len() == self@.table.len()
        &&& forall|i: int| 0 <= i < self.stamps@.len() ==> #[trigger] self.stamps@[i] < self.clock@
        &&& ranked(table_entries(self.table), self.stamps@)
        &&& links_offered(table_entries(self.table), self.offered@)
    }

    /// A search that is in order has a well-formed state.
    pub proof fn lemma_wf_state(&self)
        requires
            self.wf(),
        ensures
            self@.well_formed(),
    {
    }

    /// The indices of the nodes on the way from the start to the node at
    /// `i`, both included, following each node's parent.
    pub closed spec fn trail(&self, i: int) -> Seq<int>
        decreases self@.best(i), self.stamp(i),
        when self.wf() && 0 <= i < self@.table.len()
    {
        if i == 0 {
            seq![0int]
        } else {
            self.trail(self@.parent(i)).push(i)
        }
    }

    /// `trail` by cases: the start alone, or the parent's trail and then the
    /// node itself.
    pub proof fn lemma_trail_unfold(&self, i: int)
        requires
            self.wf(),
            0 <= i < self@.table.len(),
        ensures
            i == 0 ==> self.trail(i) == seq![0int],
            i != 0 ==> 0 <= self@.parent(i) < self@.table.len() && self.trail(i) == self.trail(
                self@.parent(i),
            ).push(i),
    {
    }

    /// A trail starts at the start and ends at the node it leads to.
    pub proof fn lemma_trail_ends(&self, i: int)
        requires
            self.wf(),
            0 <= i < self@.table.len(),
        ensures
            self.trail(i).len() >= 1,
            self.trail(i).first() == 0,
            self.trail(i).last() == i,
        decreases self@.best(i), self.stamp(i),
    {
        if i != 0 {
            assert(rank_below(
                table_entries(self.table),
                self.stamps@,
                parent_of(table_entries(self.table), i),
                i,
            ));
            self.lemma_trail_ends(self@.parent(i));
        }
    }

    /// The steps of a trail were offered: each node of the trail offered a
    /// step to the cell of the next, and the costs of these steps, which
    /// the lemma hands back, add up to no more than the best cost of the
    /// node that the trail leads to.
    pub proof fn lemma_trail_offered(&self, i: int) -> (costs: Seq<int>)
        requires
            self.wf(),
            0 <= i < self@.table.len(),
        ensures
            costs.len() + 1 == self.trail(i).len(),
            forall|k: int|
                0 <= k < costs.len() ==> 0 <= #[trigger] costs[k] && 0 <= self.trail(i)[k + 1]
                    < self@.table.len() && self.offered().contains(
                    (self.trail(i)[k], self@.table[self.trail(i)[k + 1]].0, costs[k]),
                ),
            0 <= total(costs) <= self@.best(i),
        decreases self@.best(i), self.stamp(i),
    {
        if i == 0 {
            Seq::empty()
        } else {
            let table = table_entries(self.table);
            let p = self@.parent(i);
            assert(rank_below(table, self.stamps@, parent_of(table, i), i));
            assert(linked(table, self.offered@, i));
            let w = choose|w: int| #[trigger] link_by(table, self.offered@, i, w);
            let before = self.lemma_trail_offered(p);
            self.lemma_trail_ends(p);
            let costs = before.push(w);
            assert(costs.drop_last() =~= before);
            assert forall|k: int| 0 <= k < costs.len() implies 0 <= #[trigger] costs[k] && 0
                <= self.trail(i)[k + 1] < self@.table.len() && self.offered().contains(
                (self.trail(i)[k], self@.table[self.trail(i)[k + 1]].0, costs[k]),
            ) by {
                if k < before.len() {
                    assert(costs[k] == before[k]);
                    assert(self.trail(i)[k] == self.trail(p)[k]);
                    assert(self.trail(i)[k + 1] == self.trail(p)[k + 1]);
                }
            }
            costs
        }
    }

    /// A trail is the way from the start to the node that it leads to.
    pub proof fn lemma_trail_is_chain(&self, i: int)
        requires
            self.wf(),
            0 <= i < self@.table.len(),
        ensures
            is_chain(self@.table, self.trail(i), i),
        decreases self@.best(i), self.stamp(i),
    {
        self.lemma_trail_ends(i);
        if i != 0 {
            let p = self@.parent(i);
            assert(rank_below(
                table_entries(self.table),
                self.stamps@,
                parent_of(table_entries(self.table), i),
                i,
            ));
            self.lemma_trail_is_chain(p);
            self.lemma_trail_ends(p);
            let longer = self.trail(i);
            let shorter = self.trail(p);
            assert forall|k: int| 0 <= k < longer.len() - 1 implies 1 <= #[trigger] longer[k + 1]
                < self@.table.len() && longer[k] == parent_of(self@.table, longer[k + 1]) by {
                if k < shorter.len() - 1 {
                    assert(longer[k + 1] == shorter[k + 1]);
                    assert(longer[k] == shorter[k]);
                    assert(1 <= shorter[k + 1]);
                }
            }
        }
    }

    /// A route is the nodes on the way from the start to the node that it
    /// leads to.
    pub proof fn lemma_route_leads(&self, i: int)
        requires
            self.wf(),
            0 <= i < self@.table.len(),
        ensures
            leads_to(self@, self.route(i), i),
    {
        self.lemma_trail_is_chain(i);
        let indices = self.trail(i);
        assert(self.route(i) =~= indices.map_values(|k: int| self@.node(k)));
    }

    /// A route starts at the start node and ends at the node it leads to.
    pub proof fn lemma_route_ends(&self, i: int)
        requires
            self.wf(),
            0 <= i < self@.table.len(),
        ensures
            self.route(i).len() >= 1,
            self.route(i).first() == self@.node(0),
            self.route(i).last() == self@.node(i),
    {
        self.lemma_trail_ends(i);
    }

    /// The nodes on the way from the start to the node at `i`.
    pub open spec fn route(&self, i: int) -> Seq<Node<H>> {
        self.trail(i).map_values(|k: int| self@.node(k))
    }

    /// A search that knows only `start`, at cost zero.
    pub fn new(start: Node<H>, heuristic: Heuristic) -> (search: Self)
        ensures
            search.wf(),
            search@ == SearchState::initial(start, heuristic),
            search.offered() == Set::<Step>::empty(),
    {
        let mut frontier = Frontier::new();
        frontier.push(SmallestCostHolder { estimated_cost: 0, cost: 0, index: 0 });
        let mut table = table_new();
        let _ = table_insert_full(&mut table, start.position, (usize::MAX, 0));
        let mut heights: Vec<H> = Vec::new();
        heights.push(start.height);
        proof {
            lemma_estimate_nonnegative(heuristic, start.position);
        }
        let stamps: Ghost<Seq<nat>> = Ghost(Seq::<nat>::empty().push(0nat));
        let clock: Ghost<nat> = Ghost(1nat);
        let offered: Ghost<Set<Step>> = Ghost(Set::empty());
        let search = Search {
            frontier,
            table,
            heights,
            heuristic,
            current: None,
            stamps,
            clock,
            offered,
        };
        assert(search@.table =~= seq![(start.position, (usize::MAX, 0u64))]);
        assert(search@.heights =~= seq![start.height]);
        proof {
            broadcast use vstd::multiset::group_multiset_axioms;

        }
        search
    }

    /// The number of nodes discovered so far.
    pub fn len(&self) -> (n: usize)
        ensures
            n == self@.table.len(),
    {
        table_len(&self.table)
    }

    /// The node at `index` in order of discovery.
    pub fn node_at(&self, index: usize) -> (node: Option<Node<H>>)
        requires
            self.wf(),
        ensures
            node == if index < self@.table.len() {
                Some(self@.node(index as int))
            } else {
                None
            },
    {
        match table_get_index(&self.table, index) {
            Some((cell, _)) => Some(Node { position: cell, height: self.heights[index] }),
            None => None,
        }
    }

    /// Takes the least entry out of the open list and makes it the current
    /// one. `None` means that the open list is empty: every node that can
    /// be reached has been seen.
    pub fn next(&mut self) -> (visit: Option<Visit<H>>)
        requires
            old(self).wf(),
        ensures
            final(self).wf(),
            final(self).offered() == old(self).offered(),
            match visit {
                None => old(self)@.open.len() == 0 && final(self)@ == (SearchState {
                    current: None,
                    ..old(self)@
                }),
                Some(v) => {
                    &&& is_least(old(self)@.open, v.entry())
                    &&& final(self)@ == old(self)@.take(v.entry())
                    &&& v == old(self)@.visit_of(v.entry())
                },
            },
    {
        match self.frontier.pop() {
            None => {
                self.current = None;
                None
            },
            Some(entry) => {
                self.current = Some(entry);
                proof {
                    broadcast use vstd::multiset::group_multiset_axioms;

                    assert(old(self)@.entry_ok(entry));
                    assert forall|e: SmallestCostHolder| #[trigger]
                        self@.open.count(e) > 0 implies self@.entry_ok(e) by {
                        assert(old(self)@.open.count(e) > 0);
                        assert(old(self)@.entry_ok(e));
                    }
                }
                match table_get_index(&self.table, entry.index) {
                    Some((cell, link)) => Some(
                        Visit {
                            index: entry.index,
                            node: Node { position: cell, height: self.heights[entry.index] },
                            cost: entry.cost,
                            estimated_cost: entry.estimated_cost,
                            stale: entry.cost > link.1,
                        },
                    ),
                    None => {
                        assert(false);
                        None
                    },
                }
            },
        }
    }

    /// Considers one successor of the node at `from`, whose best cost is
    /// `cost`.
    fn relax_one(&mut self, from: usize, cost: u64, successor: Node<H>, step: u64)
        requires
            old(self).wf(),
            from < old(self)@.table.len(),
            old(self)@.best(from as int) == cost,
            old(self).offered().contains((from as int, successor.position, step as int)),
        ensures
            final(self).wf(),
            final(self).offered() == old(self).offered(),
            final(self)@ == old(self)@.relax(from as int, cost as int, successor, step as int),
    {
        proof {
            lemma_relax_well_formed(old(self)@, from as int, cost as int, successor, step as int);
            lemma_estimate_nonnegative(self.heuristic, successor.position);
            self.lemma_wf_state();
        }
        let new_cost = match cost.checked_add(step) {
            Some(sum) => sum,
            None => {
                return ;
            },
        };
        let estimate = new_cost.saturating_add(self.heuristic.estimate(successor.position));
        let link: Link = (from, new_cost);
        let ghost before = old(self)@.table;
        let ghost stamps_before = self.stamps@;
        match table_index_of(&self.table, successor.position) {
            None => {
                proof {
                    lemma_index_of_absent(before, successor.position);
                }
                let n = table_len(&self.table);
                if n == usize::MAX {
                    return ;
                }
                let _ = table_insert_full(&mut self.table, successor.position, link);
                self.heights.push(successor.height);
                self.frontier.push(
                    SmallestCostHolder { estimated_cost: estimate, cost: new_cost, index: n },
                );
                self.stamps = Ghost(stamps_before.push(self.clock@));
                self.clock = Ghost(self.clock@ + 1);
                proof {
                    let after = table_entries(self.table);
                    assert(after == before.push((successor.position, link)));
                    assert forall|i: int| 1 <= i < after.len() implies rank_below(
                        after,
                        self.stamps@,
                        #[trigger] parent_of(after, i),
                        i,
                    ) by {
                        if i < before.len() {
                            assert(parent_of(after, i) == parent_of(before, i));
                            assert(rank_below(before, stamps_before, parent_of(before, i), i));
                        }
                    }
                    assert forall|i: int| 1 <= i < after.len() implies #[trigger] linked(
                        after,
                        self.offered@,
                        i,
                    ) by {
                        if i < before.len() {
                            assert(linked(before, self.offered@, i));
                            let w = choose|w: int| #[trigger] link_by(before, self.offered@, i, w);
                            assert(link_by(after, self.offered@, i, w));
                        } else {
                            assert(link_by(after, self.offered@, i, step as int));
                        }
                    }
                }
            },
            Some(n) => {
                proof {
                    lemma_index_of_found(before, successor.position, n as int);
                }
                let known = table_get_index(&self.table, n);
                let best = match known {
                    Some((_, (_, best))) => best,
                    None => {
                        assert(false);
                        0
                    },
                };
                if best > new_cost {
                    let _ = table_insert_full(&mut self.table, successor.position, link);
                    self.frontier.push(
                        SmallestCostHolder { estimated_cost: estimate, cost: new_cost, index: n },
                    );
                    self.stamps = Ghost(stamps_before.update(n as int, self.clock@));
                    self.clock = Ghost(self.clock@ + 1);
                    proof {
                        let after = table_entries(self.table);
                        assert(after == before.update(n as int, (successor.position, link)));
                        assert(n != from);
                        assert forall|i: int| 1 <= i < after.len() implies rank_below(
                            after,
                            self.stamps@,
                            #[trigger] parent_of(after, i),
                            i,
                        ) by {
                            if i != n {
                                assert(parent_of(after, i) == parent_of(before, i));
                                assert(rank_below(before, stamps_before, parent_of(before, i), i));
                            }
                        }
                        assert forall|i: int| 1 <= i < after.len() implies #[trigger] linked(
                            after,
                            self.offered@,
                            i,
                        ) by {
                            if i != n {
                                assert(linked(before, self.offered@, i));
                                let w = choose|w: int| #[trigger]
                                    link_by(before, self.offered@, i, w);
                                assert(link_by(after, self.offered@, i, w));
                            } else {
                                assert(link_by(after, self.offered@, i, step as int));
                            }
                        }
                    }
                }
            },
        }
    }

    /// Expands the current entry: each of `successors`, a node next to the
    /// current one and the cost of the step to it, is considered in turn.
    /// A stale entry, or none, leaves the search as it is but for the
    /// current entry, which is given up.
    pub fn expand(&mut self, successors: Vec<(Node<H>, u64)>)
        requires
            old(self).wf(),
        ensures
            final(self).wf(),
            final(self)@ == old(self)@.expand(successors@),
            final(self).offered() == match old(self)@.expanding() {
                Some(from) => old(self).offered().union(spec_offers(from, successors@)),
                None => old(self).offered(),
            },
    {
        let entry = match self.current {
            None => {
                return ;
            },
            Some(entry) => entry,
        };
        let best = match table_get_index(&self.table, entry.index) {
            Some((_, (_, best))) => best,
            None => {
                assert(false);
                0
            },
        };
        if entry.cost <= best {
            let ghost offers = spec_offers(entry.index as int, successors@);
            proof {
                let table = table_entries(self.table);
                let wider = self.offered@.union(offers);
                assert forall|i: int| 1 <= i < table.len() implies #[trigger] linked(
                    table,
                    wider,
                    i,
                ) by {
                    assert(linked(table, self.offered@, i));
                    let w = choose|w: int| #[trigger] link_by(table, self.offered@, i, w);
                    assert(link_by(table, wider, i, w));
                }
            }
            self.offered = Ghost(self.offered@.union(offers));
            let mut k: usize = 0;
            while k < successors.len()
                invariant
                    0 <= k <= successors.len(),
                    self.wf(),
                    self.offered@ == old(self).offered@.union(offers),
                    offers == spec_offers(entry.index as int, successors@),
                    entry.index < self@.table.len(),
                    self@.best(entry.index as int) == entry.cost,
                    self@ == old(self)@.relax_all(
                        entry.index as int,
                        entry.cost as int,
                        successors@,
                        k as nat,
                    ),
                decreases successors.len() - k,
            {
                let successor = successors[k].0;
                let step = successors[k].1;
                proof {
                    assert(offers.contains((entry.index as int, successor.position, step as int)));
                    lemma_relax_well_formed(
                        self@,
                        entry.index as int,
                        entry.cost as int,
                        successor,
                        step as int,
                    );
                }
                self.relax_one(entry.index, entry.cost, successor, step);
                k += 1;
            }
        }
        proof {
            self.lemma_wf_state();
        }
        self.current = None;
    }

    /// The nodes on the way from the start to the node at `index`, the
    /// start first.
    pub fn path_to(&self, index: usize) -> (path: Vec<Node<H>>)
        requires
            self.wf(),
            index < self@.table.len(),
        ensures
            path@ == self.route(index as int),
    {
        let mut backwards: Vec<Node<H>> = Vec::new();
        let ghost mut tail: Seq<int> = Seq::empty();
        let mut i = index;
        loop
            invariant_except_break
                self.wf(),
                i < self@.table.len(),
                self.trail(index as int) == self.trail(i as int) + tail,
                backwards@.len() == tail.len(),
                forall|k: int|
                    0 <= k < tail.len() ==> backwards@[k] == self@.node(tail[tail.len() - 1 - k]),
            ensures
                self.trail(index as int) == tail,
                backwards@.len() == tail.len(),
                forall|k: int|
                    0 <= k < tail.len() ==> backwards@[k] == self@.node(tail[tail.len() - 1 - k]),
            decreases self@.best(i as int), self.stamp(i as int),
        {
            proof {
                self.lemma_trail_unfold(i as int);
            }
            let (cell, link) = match table_get_index(&self.table, i) {
                Some(pair) => pair,
                None => {
                    assert(false);
                    ((0, 0), (0, 0))
                },
            };
            backwards.push(Node { position: cell, height: self.heights[i] });
            let ghost here = i as int;
            proof {
                let longer = seq![here] + tail;
                assert forall|k: int| 0 <= k < longer.len() implies backwards@[k] == self@.node(
                    longer[longer.len() - 1 - k],
                ) by {
                    if k < tail.len() {
                        assert(longer[longer.len() - 1 - k] == tail[tail.len() - 1 - k]);
                    }
                }
                if here != 0 {
                    assert(self.trail(index as int) =~= self.trail(self@.parent(here)) + longer);
                } else {
                    assert(self.trail(index as int) =~= longer);
                }
                tail = longer;
            }
            if i == 0 {
                break ;
            }
            i = link.0;
        }
        let mut path: Vec<Node<H>> = Vec::new();
        let mut k = backwards.len();
        while k > 0
            invariant
                0 <= k <= backwards.len(),
                backwards@.len() == tail.len(),
                path@.len() == backwards.len() - k,
                forall|j: int| 0 <= j < path@.len() ==> path@[j] == self@.node(tail[j]),
                forall|j: int|
                    0 <= j < tail.len() ==> backwards@[j] == self@.node(tail[tail.len() - 1 - j]),
            decreases k,
        {
            k -= 1;
            path.push(backwards[k]);
        }
        assert(path@ =~= self.route(index as int));
        path
    }
}

/// A cell that the table holds at `i`, and nowhere else, is found at `i`.
pub proof fn lemma_index_of_found(table: Seq<(Cell, Link)>, cell: Cell, i: int)
    requires
        distinct_cells(table),
        0 <= i < table.len(),
        table[i].0 == cell,
    ensures
        spec_index_of(table, cell) == Some(i),
{
    let j = choose|j: int| 0 <= j < table.len() && (#[trigger] table[j]).0 == cell;
    if i != j {
        assert(table[i].0 != table[j].0);
    }
}

/// A cell that no pair of the table has is not found.
pub proof fn lemma_index_of_absent(table: Seq<(Cell, Link)>, cell: Cell)
    requires
        key_absent(table, cell),
    ensures
        spec_index_of(table, cell) is None,
{
}

} // verus!
