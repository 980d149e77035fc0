//! Why the search finds a cheapest route on open ground.
//!
//! On a grid where every cell may be entered and every step costs one, the
//! cheapest route between two cells has as many steps as their Manhattan
//! distance. This file proves that a search with the straight-line
//! heuristic reports exactly that cost when it takes the goal from the
//! open list. The proof follows the search step by step: it states what
//! holds of the search between two steps ([`on_open_ground`]), shows that
//! a new search has it and that each step keeps it, and derives the cost
//! from it.

use crate::frontier::SmallestCostHolder;
use crate::frontier::is_least;
use crate::grid::lemma_floor_sqrt_below_sum;
use crate::grid::lemma_floor_sqrt_exists;
use crate::grid::spec_floor_sqrt;
use crate::grid::spec_gap;
use crate::grid::spec_manhattan;
use crate::grid::spec_neighbours;
use crate::grid::spec_shift;
use crate::grid::spec_squared_distance;
use crate::node_table::Cell;
use crate::node_table::Link;
use crate::pathfinder::spec_admitted;
use crate::pathfinder::spec_keep;
use crate::pathfinder::spec_toward;
use crate::terrain::Terrain;
use crate::search::Heuristic;
use crate::search::Node;
use crate::search::SearchState;
use crate::search::best_of;
use crate::search::lemma_relax_well_formed;
use crate::search::spec_index_of;
use crate::search::spec_saturating_sum;
use vstd::multiset::Multiset;
use vstd::prelude::*;

verus! {

/// The open list holds `e`, an entry for the node at `n` at cost `c`.
pub open spec fn names(open: Multiset<SmallestCostHolder>, e: SmallestCostHolder, n: int, c: int) -> bool {
    open.count(e) > 0 && e.index == n && e.cost == c
}

/// The table holds `cell` at `n`.
pub open spec fn holds(table: Seq<(Cell, Link)>, n: int, cell: Cell) -> bool {
    0 <= n < table.len() && table[n].0 == cell
}

/// The table holds `cell` at a cost of at most `bound`.
pub open spec fn reached(table: Seq<(Cell, Link)>, cell: Cell, bound: int) -> bool {
    exists|n: int| #[trigger] holds(table, n, cell) && best_of(table, n) <= bound
}

/// The open list has an entry for the node at `n` at that node's best cost.
pub open spec fn waits<H>(s: SearchState<H>, n: int) -> bool {
    exists|e: SmallestCostHolder| #[trigger] names(s.open, e, n, s.best(n))
}

/// The current entry is for the node at `n` at that node's best cost.
pub open spec fn in_hand<H>(s: SearchState<H>, n: int) -> bool {
    s.current matches Some(e) && e.index == n && e.cost == s.best(n)
}

/// Every neighbour of `cell` is in the table at a cost of at most `bound`.
pub open spec fn neighbours_reached(table: Seq<(Cell, Link)>, cell: Cell, bound: int) -> bool {
    forall|m: int|
        0 <= m < spec_neighbours(cell).len() ==> reached(
            table,
            #[trigger] spec_neighbours(cell)[m],
            bound,
        )
}

/// What holds of a search from `start` for `goal` on open ground: no node
/// is recorded cheaper than its distance from the start, and every node
/// that neither waits in the open list at its best cost nor is in hand
/// has been expanded, so that it is not the goal and all its neighbours
/// are recorded one step dearer at most. An entry in hand costs no more
/// than the distance from the start to the goal.
pub open spec fn on_open_ground<H>(s: SearchState<H>, start: Cell, goal: Cell) -> bool {
    &&& s.well_formed()
    &&& s.heuristic == Heuristic::Euclid { goal }
    &&& s.table[0].0 == start
    &&& forall|n: int|
        0 <= n < s.table.len() ==> spec_manhattan(start, (#[trigger] s.table[n]).0) <= s.best(n)
    &&& forall|n: int|
        0 <= n < s.table.len() && !waits(s, n) && !in_hand(s, n) ==> (#[trigger] s.table[n]).0
            != goal && neighbours_reached(s.table, s.table[n].0, s.best(n) + 1)
    &&& s.current matches Some(e) ==> e.cost <= spec_manhattan(start, goal)
}

/// The coordinate `i` steps from `a` toward `b`.
pub open spec fn toward(a: int, b: int, i: int) -> int {
    if a <= b {
        a + i
    } else {
        a - i
    }
}

/// The cell `i` steps along the route that first closes the gap between
/// the columns and then the gap between the rows.
pub open spec fn stair(start: Cell, goal: Cell, i: int) -> Cell {
    let across = spec_gap(start.0 as int, goal.0 as int);
    if i <= across {
        (toward(start.0 as int, goal.0 as int, i) as i32, start.1)
    } else {
        (goal.0, toward(start.1 as int, goal.1 as int, i - across) as i32)
    }
}

/// The staircase leads from the start to the goal, one step at a time, and
/// each of its cells is as far from the start as it has steps behind it
/// and as far from the goal as it has steps before it.
pub proof fn lemma_stair(start: Cell, goal: Cell, i: int)
    requires
        0 <= i <= spec_manhattan(start, goal),
    ensures
        spec_manhattan(start, stair(start, goal, i)) == i,
        spec_manhattan(stair(start, goal, i), goal) == spec_manhattan(start, goal) - i,
        i == 0 ==> stair(start, goal, i) == start,
        i == spec_manhattan(start, goal) ==> stair(start, goal, i) == goal,
        i < spec_manhattan(start, goal) ==> exists|m: int|
            0 <= m < spec_neighbours(stair(start, goal, i)).len() && #[trigger] spec_neighbours(
                stair(start, goal, i),
            )[m] == stair(start, goal, i + 1),
{
    let here = stair(start, goal, i);
    if i < spec_manhattan(start, goal) {
        let there = stair(start, goal, i + 1);
        lemma_neighbour_listed(here, there);
    }
}

/// A cell one step from `c` along one axis is among the neighbours of `c`.
pub proof fn lemma_neighbour_listed(c: Cell, y: Cell)
    requires
        spec_manhattan(c, y) == 1,
    ensures
        exists|m: int| 0 <= m < spec_neighbours(c).len() && #[trigger] spec_neighbours(c)[m] == y,
{
    let up = spec_shift(c, 0, 1);
    let right = spec_shift(c, 1, 0);
    let down = spec_shift(c, 0, -1);
    let left = spec_shift(c, -1, 0);
    let all = spec_neighbours(c);
    let n_up: int = if up is Some { 1 } else { 0 };
    let n_right: int = if right is Some { 1 } else { 0 };
    let n_down: int = if down is Some { 1 } else { 0 };
    if up == Some(y) {
        assert(all[0] == y);
    } else if right == Some(y) {
        assert(all[n_up] == y);
    } else if down == Some(y) {
        assert(all[n_up + n_right] == y);
    } else {
        assert(left == Some(y));
        assert(all[n_up + n_right + n_down] == y);
    }
}

/// A neighbour of a cell is one step from it.
pub proof fn lemma_neighbour_is_near(c: Cell, m: int)
    requires
        0 <= m < spec_neighbours(c).len(),
    ensures
        spec_manhattan(c, spec_neighbours(c)[m]) == 1,
{
    let up = spec_shift(c, 0, 1);
    let right = spec_shift(c, 1, 0);
    let down = spec_shift(c, 0, -1);
    let left = spec_shift(c, -1, 0);
    let all = spec_neighbours(c);
    let n_up: int = if up is Some { 1 } else { 0 };
    let n_right: int = if right is Some { 1 } else { 0 };
    let n_down: int = if down is Some { 1 } else { 0 };
    if up is Some && m == 0 {
        assert(all[m] == up->0);
    } else if right is Some && m == n_up {
        assert(all[m] == right->0);
    } else if down is Some && m == n_up + n_right {
        assert(all[m] == down->0);
    } else {
        assert(left is Some && m == n_up + n_right + n_down);
        assert(all[m] == left->0);
    }
}

/// The straight-line estimate never exceeds the number of steps that are
/// left.
pub proof fn lemma_estimate_admissible(goal: Cell, cell: Cell)
    ensures
        0 <= (Heuristic::Euclid { goal }).spec_estimate(cell) <= spec_manhattan(cell, goal),
{
    let n = spec_squared_distance(cell, goal);
    let dx = spec_gap(cell.0 as int, goal.0 as int);
    let dy = spec_gap(cell.1 as int, goal.1 as int);
    assert(0 <= n) by (nonlinear_arith)
        requires
            n == dx * dx + dy * dy,
    ;
    lemma_floor_sqrt_exists(n);
    lemma_floor_sqrt_below_sum(dx, dy, spec_floor_sqrt(n));
}

/// The open list holds `e`, and the estimate of `e` is at most `bound`.
pub open spec fn estimates_within(
    open: Multiset<SmallestCostHolder>,
    e: SmallestCostHolder,
    bound: int,
) -> bool {
    open.count(e) > 0 && e.estimated_cost <= bound
}

/// Between two steps, the open list of a search on open ground holds an
/// entry whose estimate is no more than the distance from the start to the
/// goal: the first cell of the staircase that still waits to be expanded.
pub proof fn lemma_walk<H>(s: SearchState<H>, start: Cell, goal: Cell, i: int, n: int)
    requires
        on_open_ground(s, start, goal),
        s.current is None,
        0 <= i <= spec_manhattan(start, goal),
        holds(s.table, n, stair(start, goal, i)),
        s.best(n) == i,
    ensures
        exists|e: SmallestCostHolder| #[trigger]
            estimates_within(s.open, e, spec_manhattan(start, goal)),
    decreases spec_manhattan(start, goal) - i,
{
    lemma_stair(start, goal, i);
    let here = stair(start, goal, i);
    if waits(s, n) {
        let e = choose|e: SmallestCostHolder| #[trigger] names(s.open, e, n, s.best(n));
        assert(s.entry_ok(e));
        lemma_estimate_admissible(goal, here);
        assert(estimates_within(s.open, e, spec_manhattan(start, goal)));
    } else {
        assert(!in_hand(s, n));
        assert(s.table[n].0 != goal);
        assert(neighbours_reached(s.table, s.table[n].0, s.best(n) + 1));
        let there = stair(start, goal, i + 1);
        let m = choose|m: int|
            0 <= m < spec_neighbours(here).len() && #[trigger] spec_neighbours(here)[m] == there;
        assert(reached(s.table, spec_neighbours(here)[m], s.best(n) + 1));
        let n2 = choose|n2: int| #[trigger] holds(s.table, n2, there) && best_of(s.table, n2) <= i + 1;
        lemma_stair(start, goal, i + 1);
        assert(spec_manhattan(start, s.table[n2].0) <= s.best(n2));
        lemma_walk(s, start, goal, i + 1, n2);
    }
}

/// On open ground the entry that the search takes next costs no more than
/// the distance from the start to the goal.
pub proof fn lemma_next_cost_bounded<H>(
    s: SearchState<H>,
    start: Cell,
    goal: Cell,
    next: SmallestCostHolder,
)
    requires
        on_open_ground(s, start, goal),
        s.current is None,
        is_least(s.open, next),
    ensures
        next.cost <= next.estimated_cost <= spec_manhattan(start, goal),
{
    lemma_stair(start, goal, 0);
    assert(holds(s.table, 0, stair(start, goal, 0)));
    lemma_walk(s, start, goal, 0, 0);
    let e = choose|e: SmallestCostHolder| #[trigger]
        estimates_within(s.open, e, spec_manhattan(start, goal));
    assert(next.spec_precedes(e));
    assert(s.entry_ok(next));
}

/// The cost that a search on open ground reports for the goal is the
/// Manhattan distance from the start: when the entry that the search takes
/// next is for the goal's cell, its cost is that distance.
pub proof fn lemma_goal_cost<H>(
    s: SearchState<H>,
    start: Cell,
    goal: Cell,
    next: SmallestCostHolder,
)
    requires
        on_open_ground(s, start, goal),
        s.current is None,
        is_least(s.open, next),
        s.table[next.index as int].0 == goal,
    ensures
        next.cost == spec_manhattan(start, goal),
{
    lemma_next_cost_bounded(s, start, goal, next);
    assert(s.entry_ok(next));
    let n = next.index as int;
    assert(spec_manhattan(start, s.table[n].0) <= s.best(n));
}

/// A new search is a search on open ground.
pub proof fn lemma_initial_on_open_ground<H>(start: Node<H>, goal: Cell)
    ensures
        on_open_ground(
            SearchState::initial(start, Heuristic::Euclid { goal }),
            start.position,
            goal,
        ),
{
    broadcast use vstd::multiset::group_multiset_axioms;

    let s = SearchState::initial(start, Heuristic::Euclid { goal });
    let first = SmallestCostHolder { estimated_cost: 0, cost: 0, index: 0 };
    lemma_estimate_admissible(goal, start.position);
    assert(names(s.open, first, 0, s.best(0)));
    assert(waits(s, 0));
    assert forall|e: SmallestCostHolder| #[trigger] s.open.count(e) > 0 implies s.entry_ok(e) by {
        assert(e == first);
    }
}

/// Taking the next entry keeps a search on open ground.
pub proof fn lemma_take_on_open_ground<H>(
    s: SearchState<H>,
    start: Cell,
    goal: Cell,
    next: SmallestCostHolder,
)
    requires
        on_open_ground(s, start, goal),
        s.current is None,
        is_least(s.open, next),
    ensures
        on_open_ground(s.take(next), start, goal),
{
    broadcast use vstd::multiset::group_multiset_axioms;

    let t = s.take(next);
    lemma_next_cost_bounded(s, start, goal, next);
    assert forall|e: SmallestCostHolder| #[trigger] t.open.count(e) > 0 implies t.entry_ok(e) by {
        assert(s.open.count(e) > 0);
        assert(s.entry_ok(e));
    }
    assert(s.entry_ok(next));
    assert forall|n: int|
        0 <= n < t.table.len() && !waits(t, n) && !in_hand(t, n) implies (#[trigger] t.table[n]).0
        != goal && neighbours_reached(t.table, t.table[n].0, t.best(n) + 1) by {
        if waits(s, n) {
            let e = choose|e: SmallestCostHolder| #[trigger] names(s.open, e, n, s.best(n));
            if e == next {
                assert(in_hand(t, n));
            } else {
                assert(names(t.open, e, n, t.best(n)));
            }
        }
        assert(!in_hand(s, n));
    }
}

/// One of `successors` is the cell `y`.
pub open spec fn offered<H>(successors: Seq<(Node<H>, u64)>, y: Cell) -> bool {
    exists|m: int| 0 <= m < successors.len() && (#[trigger] successors[m]).0.position == y
}

/// `successors` is what open ground offers from `cell`: every successor is
/// at most one step away and costs one, and every neighbour of `cell` is
/// among them.
pub open spec fn open_ground_successors<H>(cell: Cell, successors: Seq<(Node<H>, u64)>) -> bool {
    &&& forall|m: int|
        0 <= m < successors.len() ==> (#[trigger] successors[m]).1 == 1 && spec_manhattan(
            cell,
            successors[m].0.position,
        ) <= 1
    &&& forall|j: int|
        0 <= j < spec_neighbours(cell).len() ==> offered(
            successors,
            #[trigger] spec_neighbours(cell)[j],
        )
}

/// The entry is for a node that `s` did not know or knew at a higher cost.
pub open spec fn fresh_entry<H>(s: SearchState<H>, e: SmallestCostHolder) -> bool {
    e.index >= s.table.len() || e.cost < s.best(e.index as int)
}

/// Among the entries that `t` has and `s` had not, one is for the node at
/// `n` at its best cost.
pub open spec fn waits_since<H>(s: SearchState<H>, t: SearchState<H>, n: int) -> bool {
    exists|e: SmallestCostHolder|
        s.open.count(e) < t.open.count(e) && #[trigger] names(t.open, e, n, t.best(n))
}

/// How a state `t` relates to the state `s` from which the expansion of
/// the node at `from`, at cost `cost`, set out: nodes are only added and
/// only get cheaper, entries are only added, and every node that was added
/// or got cheaper has a new entry at its best cost.
pub open spec fn progress<H>(
    s: SearchState<H>,
    t: SearchState<H>,
    from: int,
    cost: int,
    start: Cell,
) -> bool {
    &&& t.well_formed()
    &&& t.current == s.current
    &&& t.heuristic == s.heuristic
    &&& s.table.len() <= t.table.len()
    &&& forall|n: int|
        0 <= n < s.table.len() ==> (#[trigger] t.table[n]).0 == s.table[n].0 && t.best(n)
            <= s.best(n)
    &&& forall|n: int|
        0 <= n < t.table.len() ==> spec_manhattan(start, (#[trigger] t.table[n]).0) <= t.best(n)
    &&& forall|e: SmallestCostHolder| s.open.count(e) <= #[trigger] t.open.count(e)
    &&& forall|e: SmallestCostHolder|
        s.open.count(e) < #[trigger] t.open.count(e) ==> fresh_entry(s, e)
    &&& forall|n: int|
        0 <= n < t.table.len() && (n >= s.table.len() || t.best(n) < s.best(n))
            ==> #[trigger] waits_since(s, t, n)
    &&& 0 <= from < s.table.len()
    &&& t.best(from) == cost
}

/// One successor considered: the relation to the state at the outset is
/// kept, cells that were reached stay reached, and the successor itself is
/// reached one step dearer than the node it was reached from.
pub proof fn lemma_relax_progress<H>(
    s: SearchState<H>,
    t: SearchState<H>,
    from: int,
    cost: int,
    successor: Node<H>,
    start: Cell,
)
    requires
        progress(s, t, from, cost, start),
        t.table.len() < usize::MAX,
        cost + 1 <= u64::MAX,
        spec_manhattan(t.table[from].0, successor.position) <= 1,
    ensures
        progress(s, t.relax(from, cost, successor, 1), from, cost, start),
        t.relax(from, cost, successor, 1).table.len() <= t.table.len() + 1,
        reached(t.relax(from, cost, successor, 1).table, successor.position, cost + 1),
        forall|y: Cell, b: int| #[trigger]
            reached(t.table, y, b) ==> reached(t.relax(from, cost, successor, 1).table, y, b),
{
    broadcast use vstd::multiset::group_multiset_axioms;

    let u = t.relax(from, cost, successor, 1);
    lemma_relax_well_formed(t, from, cost, successor, 1);
    assert(spec_manhattan(start, t.table[from].0) <= t.best(from));
    let estimate = spec_saturating_sum(cost + 1, t.heuristic.spec_estimate(successor.position));
    match spec_index_of(t.table, successor.position) {
        None => {
            let fresh = t.table.len() as int;
            let added = SmallestCostHolder {
                estimated_cost: estimate as u64,
                cost: (cost + 1) as u64,
                index: fresh as usize,
            };
            assert(u.open == t.open.insert(added));
            assert(holds(u.table, fresh, successor.position));
            assert(names(u.open, added, fresh, u.best(fresh)));
            assert(s.open.count(added) < u.open.count(added));
            assert forall|n: int|
                0 <= n < u.table.len() && (n >= s.table.len() || u.best(n) < s.best(n))
                implies #[trigger] waits_since(s, u, n) by {
                if n < fresh {
                    assert(waits_since(s, t, n));
                    let e = choose|e: SmallestCostHolder|
                        s.open.count(e) < t.open.count(e) && #[trigger] names(
                            t.open,
                            e,
                            n,
                            t.best(n),
                        );
                    assert(names(u.open, e, n, u.best(n)));
                }
            }
            assert forall|e: SmallestCostHolder|
                s.open.count(e) < #[trigger] u.open.count(e) implies fresh_entry(s, e) by {
                if e != added {
                    assert(s.open.count(e) < t.open.count(e));
                }
            }
            assert forall|y: Cell, b: int| #[trigger] reached(t.table, y, b) implies reached(
                u.table,
                y,
                b,
            ) by {
                let n = choose|n: int| #[trigger] holds(t.table, n, y) && best_of(t.table, n) <= b;
                assert(holds(u.table, n, y));
            }
        },
        Some(n0) => {
            assert(holds(t.table, n0, successor.position));
            if t.best(n0) > cost + 1 {
                let added = SmallestCostHolder {
                    estimated_cost: estimate as u64,
                    cost: (cost + 1) as u64,
                    index: n0 as usize,
                };
                assert(u.open == t.open.insert(added));
                assert(holds(u.table, n0, successor.position));
                assert(names(u.open, added, n0, u.best(n0)));
                assert(s.open.count(added) < u.open.count(added));
                assert forall|n: int|
                    0 <= n < u.table.len() && (n >= s.table.len() || u.best(n) < s.best(n))
                    implies #[trigger] waits_since(s, u, n) by {
                    if n != n0 {
                        assert(waits_since(s, t, n));
                        let e = choose|e: SmallestCostHolder|
                            s.open.count(e) < t.open.count(e) && #[trigger] names(
                                t.open,
                                e,
                                n,
                                t.best(n),
                            );
                        assert(names(u.open, e, n, u.best(n)));
                    }
                }
                assert forall|e: SmallestCostHolder|
                    s.open.count(e) < #[trigger] u.open.count(e) implies fresh_entry(s, e) by {
                    if e != added {
                        assert(s.open.count(e) < t.open.count(e));
                    }
                }
                assert forall|y: Cell, b: int| #[trigger] reached(t.table, y, b) implies reached(
                    u.table,
                    y,
                    b,
                ) by {
                    let n = choose|n: int| #[trigger] holds(t.table, n, y) && best_of(t.table, n) <= b;
                    assert(holds(u.table, n, y));
                }
            } else {
                assert(reached(u.table, successor.position, cost + 1));
            }
        },
    }
}

/// The first `count` successors considered: as [`lemma_relax_progress`],
/// for all of them.
pub proof fn lemma_relax_all_progress<H>(
    s: SearchState<H>,
    from: int,
    cost: int,
    successors: Seq<(Node<H>, u64)>,
    count: nat,
    start: Cell,
)
    requires
        progress(s, s, from, cost, start),
        count <= successors.len(),
        s.table.len() + count <= usize::MAX,
        cost + 1 <= u64::MAX,
        forall|m: int|
            0 <= m < successors.len() ==> (#[trigger] successors[m]).1 == 1 && spec_manhattan(
                s.table[from].0,
                successors[m].0.position,
            ) <= 1,
    ensures
        progress(s, s.relax_all(from, cost, successors, count), from, cost, start),
        s.relax_all(from, cost, successors, count).table.len() <= s.table.len() + count,
        forall|m: int|
            0 <= m < count ==> reached(
                s.relax_all(from, cost, successors, count).table,
                (#[trigger] successors[m]).0.position,
                cost + 1,
            ),
        forall|y: Cell, b: int| #[trigger]
            reached(s.table, y, b) ==> reached(
                s.relax_all(from, cost, successors, count).table,
                y,
                b,
            ),
    decreases count,
{
    if count > 0 {
        let before = s.relax_all(from, cost, successors, (count - 1) as nat);
        lemma_relax_all_progress(s, from, cost, successors, (count - 1) as nat, start);
        let successor = successors[count - 1].0;
        assert(successors[count - 1].1 == 1);
        assert(before.table[from].0 == s.table[from].0);
        lemma_relax_progress(s, before, from, cost, successor, start);
        let after = before.relax(from, cost, successor, 1);
        assert(after == s.relax_all(from, cost, successors, count));
        assert forall|m: int| 0 <= m < count implies reached(
            after.table,
            (#[trigger] successors[m]).0.position,
            cost + 1,
        ) by {
            if m < count - 1 {
                assert(reached(before.table, successors[m].0.position, cost + 1));
            }
        }
        assert forall|y: Cell, b: int| #[trigger] reached(s.table, y, b) implies reached(
            after.table,
            y,
            b,
        ) by {
            assert(reached(before.table, y, b));
        }
    }
}

/// Giving up a stale entry keeps a search on open ground.
pub proof fn lemma_stale_expand<H>(
    s: SearchState<H>,
    start: Cell,
    goal: Cell,
    successors: Seq<(Node<H>, u64)>,
)
    requires
        on_open_ground(s, start, goal),
        s.current matches Some(e) && e.cost > s.best(e.index as int),
    ensures
        on_open_ground(s.expand(successors), start, goal),
        s.expand(successors).current is None,
{
    let u = s.expand(successors);
    assert forall|n: int|
        0 <= n < u.table.len() && !waits(u, n) && !in_hand(u, n) implies (#[trigger] u.table[n]).0
        != goal && neighbours_reached(u.table, u.table[n].0, u.best(n) + 1) by {
        if waits(s, n) {
            let e = choose|e: SmallestCostHolder| #[trigger] names(s.open, e, n, s.best(n));
            assert(names(u.open, e, n, u.best(n)));
        }
        assert(!in_hand(s, n));
    }
    assert forall|e: SmallestCostHolder| #[trigger] u.open.count(e) > 0 implies u.entry_ok(e) by {
        assert(s.entry_ok(e));
    }
}

/// Expanding a node that is not the goal with what open ground offers
/// keeps a search on open ground, as long as the table has room for the
/// successors.
pub proof fn lemma_expand_on_open_ground<H>(
    s: SearchState<H>,
    start: Cell,
    goal: Cell,
    successors: Seq<(Node<H>, u64)>,
)
    requires
        on_open_ground(s, start, goal),
        s.current matches Some(e) && s.table[e.index as int].0 != goal && open_ground_successors(
            s.table[e.index as int].0,
            successors,
        ),
        s.table.len() + successors.len() <= usize::MAX,
    ensures
        on_open_ground(s.expand(successors), start, goal),
        s.expand(successors).current is None,
{
    let e = s.current->0;
    let from = e.index as int;
    let cost = e.cost as int;
    let u = s.expand(successors);
    assert(s.entry_ok(e));
    if e.cost > s.best(from) {
        lemma_stale_expand(s, start, goal, successors);
    } else {
        lemma_relax_all_progress(s, from, cost, successors, successors.len(), start);
        let t = s.relax_all(from, cost, successors, successors.len());
        assert forall|e: SmallestCostHolder| #[trigger] u.open.count(e) > 0 implies u.entry_ok(
            e,
        ) by {
            assert(t.entry_ok(e));
        }
        assert forall|n: int|
            0 <= n < u.table.len() && !waits(u, n) && !in_hand(u, n) implies (
        #[trigger] u.table[n]).0 != goal && neighbours_reached(
            u.table,
            u.table[n].0,
            u.best(n) + 1,
        ) by {
            if n >= s.table.len() || t.best(n) < s.best(n) {
                assert(waits_since(s, t, n));
                let e = choose|e: SmallestCostHolder|
                    s.open.count(e) < t.open.count(e) && #[trigger] names(t.open, e, n, t.best(n));
                assert(names(u.open, e, n, u.best(n)));
            } else if n == from {
                let cell = s.table[from].0;
                assert(t.table[from].0 == cell);
                assert forall|j: int| 0 <= j < spec_neighbours(cell).len() implies reached(
                    u.table,
                    #[trigger] spec_neighbours(cell)[j],
                    u.best(n) + 1,
                ) by {
                    assert(offered(successors, spec_neighbours(cell)[j]));
                    let m = choose|m: int|
                        0 <= m < successors.len() && (#[trigger] successors[m]).0.position
                            == spec_neighbours(cell)[j];
                    assert(reached(t.table, successors[m].0.position, cost + 1));
                }
            } else {
                assert(t.table[n].0 == s.table[n].0);
                if waits(s, n) {
                    let e = choose|e: SmallestCostHolder| #[trigger] names(s.open, e, n, s.best(n));
                    assert(s.open.count(e) <= t.open.count(e));
                    assert(names(u.open, e, n, u.best(n)));
                }
                assert(!in_hand(s, n));
                let cell = s.table[n].0;
                assert(neighbours_reached(s.table, cell, s.best(n) + 1));
                assert forall|j: int| 0 <= j < spec_neighbours(cell).len() implies reached(
                    u.table,
                    #[trigger] spec_neighbours(cell)[j],
                    u.best(n) + 1,
                ) by {
                    assert(reached(s.table, spec_neighbours(cell)[j], s.best(n) + 1));
                }
            }
        }
    }
}

/// A filter that refuses nothing keeps every cell.
pub proof fn lemma_keep_all(all: Seq<Cell>, keep: Seq<bool>, count: nat)
    requires
        count <= all.len(),
        keep.len() == all.len(),
        forall|i: int| 0 <= i < keep.len() ==> keep[i],
    ensures
        spec_keep(all, keep, count) == all.take(count as int),
    decreases count,
{
    if count > 0 {
        lemma_keep_all(all, keep, (count - 1) as nat);
        assert(all.take(count as int) =~= all.take(count - 1).push(all[count - 1]));
    } else {
        assert(all.take(0) =~= Seq::<Cell>::empty());
    }
}

/// Where no answer is blocked, every cell becomes a successor, one step
/// away.
pub proof fn lemma_admitted_all<H: Copy>(
    current: Node<H>,
    cells: Seq<Cell>,
    samples: Seq<Terrain<H>>,
    count: nat,
)
    requires
        count <= cells.len(),
        count <= samples.len(),
        forall|i: int| 0 <= i < count ==> !(#[trigger] samples[i]).spec_blocked(),
    ensures
        spec_admitted(current, cells, samples, count).len() == count,
        forall|i: int|
            0 <= i < count ==> (#[trigger] spec_admitted(current, cells, samples, count)[i]).1 == 1
                && spec_admitted(current, cells, samples, count)[i].0.position == cells[i],
    decreases count,
{
    if count > 0 {
        lemma_admitted_all(current, cells, samples, (count - 1) as nat);
    }
}

/// The pathfinder on open ground: where the filter refuses no cell and no
/// answer of the oracle is blocked, the successors that the main search
/// makes of a node are what open ground offers.
pub proof fn lemma_pathfinder_on_open_ground<H: Copy>(
    current: Node<H>,
    end: Cell,
    keep: Seq<bool>,
    samples: Seq<Terrain<H>>,
)
    requires
        keep.len() == spec_toward(current.position, end).len(),
        forall|i: int| 0 <= i < keep.len() ==> keep[i],
        samples.len() == keep.len(),
        forall|i: int| 0 <= i < samples.len() ==> !(#[trigger] samples[i]).spec_blocked(),
    ensures
        open_ground_successors(
            current.position,
            spec_admitted(
                current,
                spec_keep(spec_toward(current.position, end), keep, keep.len()),
                samples,
                samples.len(),
            ),
        ),
{
    let all = spec_toward(current.position, end);
    let near = spec_neighbours(current.position);
    lemma_keep_all(all, keep, keep.len());
    assert(all.take(all.len() as int) =~= all);
    let out = spec_admitted(current, all, samples, samples.len());
    lemma_admitted_all(current, all, samples, samples.len());
    assert forall|m: int| 0 <= m < out.len() implies (#[trigger] out[m]).1 == 1 && spec_manhattan(
        current.position,
        out[m].0.position,
    ) <= 1 by {
        if m < near.len() {
            lemma_neighbour_is_near(current.position, m);
            assert(all[m] == near[m]);
        } else {
            assert(all[m] == end);
        }
    }
    assert forall|j: int| 0 <= j < near.len() implies offered(out, #[trigger] near[j]) by {
        assert(all[j] == near[j]);
        assert(out[j].0.position == near[j]);
    }
}

} // verus!
