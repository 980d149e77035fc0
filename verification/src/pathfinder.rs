//! The pathfinder's rules: which cells a search may try next, what a height
//! report makes of each of them, when a segment may be walked straight, and
//! how the pieces of a route are put together.
//!
//! Nothing here talks to the height oracle. The caller asks it, reduces each
//! answer to a [`Terrain`], and hands the answers in.

use crate::grid::neighbours;
use crate::grid::push_some;
use crate::grid::spec_neighbours;
use crate::grid::spec_within_one_step;
use crate::grid::within_one_step;
use crate::node_table::Cell;
use crate::search::Node;
use crate::terrain::Terrain;
use crate::terrain::all_clear;
use crate::terrain::spec_all_clear;
use vstd::prelude::*;

verus! {

/// The first `count` cells of `all` that `keep` marks, in order.
pub open spec fn spec_keep(all: Seq<Cell>, keep: Seq<bool>, count: nat) -> Seq<Cell>
    decreases count,
{
    if count == 0 {
        Seq::empty()
    } else {
        let before = spec_keep(all, keep, (count - 1) as nat);
        if keep[count - 1] {
            before.push(all[count - 1])
        } else {
            before
        }
    }
}

/// `kept` is what is left of `all` when `filter` is asked about each cell
/// in turn and the cells it refuses are dropped.
pub open spec fn filtered_by<F: Fn(Cell) -> bool>(filter: F, all: Seq<Cell>, kept: Seq<Cell>) -> bool {
    exists|keep: Seq<bool>|
        {
            &&& keep.len() == all.len()
            &&& forall|i: int| 0 <= i < all.len() ==> call_ensures(filter, (all[i],), #[trigger] keep[i])
            &&& kept == spec_keep(all, keep, all.len())
        }
}

/// The cells to try from `current` on the way to `end`: its neighbours,
/// and `end` itself once more where it is at most one step away.
pub open spec fn spec_toward(current: Cell, end: Cell) -> Seq<Cell> {
    push_some(
        spec_neighbours(current),
        if spec_within_one_step(end, current) {
            Some(end)
        } else {
            None
        },
    )
}

/// The discrete part of the pathfinder's settings: the predicate that says
/// which cells may be entered at all.
pub struct DirectPathfinder<F> {
    pub filter: F,
}

impl<F: Fn(Cell) -> bool> DirectPathfinder<F> {
    /// The filter can be asked about every cell.
    pub open spec fn filter_total(&self) -> bool {
        forall|c: Cell| call_requires(self.filter, (c,))
    }

    /// `all` without the cells that the filter refuses.
    pub fn permitted(&self, all: Vec<Cell>) -> (kept: Vec<Cell>)
        requires
            self.filter_total(),
        ensures
            filtered_by(self.filter, all@, kept@),
    {
        let mut kept: Vec<Cell> = Vec::new();
        let ghost mut keep: Seq<bool> = Seq::empty();
        let mut i: usize = 0;
        while i < all.len()
            invariant
                0 <= i <= all.len(),
                self.filter_total(),
                keep.len() == i,
                forall|j: int| 0 <= j < i ==> call_ensures(self.filter, (all@[j],), #[trigger] keep[j]),
                kept@ == spec_keep(all@, keep, i as nat),
            decreases all.len() - i,
        {
            let cell = all[i];
            let ok = (self.filter)(cell);
            proof {
                let longer = keep.push(ok);
                lemma_keep_prefix(all@, keep, longer, i as nat);
                keep = longer;
            }
            if ok {
                kept.push(cell);
            }
            i += 1;
        }
        kept
    }

    /// The cells that a search for a safe start may try from `current`: its
    /// four neighbours, less those that the filter refuses.
    pub fn candidates_around(&self, current: Cell) -> (cells: Vec<Cell>)
        requires
            self.filter_total(),
        ensures
            filtered_by(self.filter, spec_neighbours(current), cells@),
    {
        self.permitted(neighbours(current))
    }

    /// The cells that the search for `end` may try from `current`: its four
    /// neighbours and, where `end` is at most one step away, `end` once
    /// more, less those that the filter refuses.
    pub fn candidates_toward(&self, current: Cell, end: Cell) -> (cells: Vec<Cell>)
        requires
            self.filter_total(),
        ensures
            filtered_by(self.filter, spec_toward(current, end), cells@),
    {
        let mut all = neighbours(current);
        if within_one_step(end, current) {
            all.push(end);
        }
        self.permitted(all)
    }

    /// Whether the straight segment whose intermediate poses gave `samples`
    /// may be walked: every pose has data and is not blocked.
    pub fn traverse_to<H: Copy>(&self, samples: &Vec<Terrain<H>>) -> (ok: bool)
        ensures
            ok == spec_all_clear(samples@),
    {
        all_clear(samples)
    }
}

/// What `spec_keep` makes of the first `count` cells does not depend on
/// later marks.
pub proof fn lemma_keep_prefix(all: Seq<Cell>, keep: Seq<bool>, longer: Seq<bool>, count: nat)
    requires
        count <= keep.len() <= longer.len(),
        forall|i: int| 0 <= i < keep.len() ==> keep[i] == longer[i],
    ensures
        spec_keep(all, keep, count) == spec_keep(all, longer, count),
    decreases count,
{
    if count > 0 {
        lemma_keep_prefix(all, keep, longer, (count - 1) as nat);
    }
}

/// The successors that a search for a safe start makes of the first `count`
/// answers: every cell is kept, one step away, at the mean sampled height
/// or, where nothing was sampled, at the current height.
pub open spec fn spec_settled<H: Copy>(
    current: Node<H>,
    cells: Seq<Cell>,
    samples: Seq<Terrain<H>>,
    count: nat,
) -> Seq<(Node<H>, u64)>
    decreases count,
{
    if count == 0 {
        Seq::empty()
    } else {
        spec_settled(current, cells, samples, (count - 1) as nat).push(
            (
                Node {
                    position: cells[count - 1],
                    height: samples[count - 1].spec_height_from(current.height),
                },
                1u64,
            ),
        )
    }
}

/// The successors that the search for the goal makes of the first `count`
/// answers: as [`spec_settled`], but a blocked cell is left out.
pub open spec fn spec_admitted<H: Copy>(
    current: Node<H>,
    cells: Seq<Cell>,
    samples: Seq<Terrain<H>>,
    count: nat,
) -> Seq<(Node<H>, u64)>
    decreases count,
{
    if count == 0 {
        Seq::empty()
    } else {
        let before = spec_admitted(current, cells, samples, (count - 1) as nat);
        if samples[count - 1].spec_blocked() {
            before
        } else {
            before.push(
                (
                    Node {
                        position: cells[count - 1],
                        height: samples[count - 1].spec_height_from(current.height),
                    },
                    1u64,
                ),
            )
        }
    }
}

/// The shorter of two lengths.
pub open spec fn spec_shorter(a: nat, b: nat) -> nat {
    if a <= b {
        a
    } else {
        b
    }
}

/// The search that leads the rover out of a place where it may not stand.
pub struct DirectPathfinderSafefinder;

impl DirectPathfinderSafefinder {
    /// The successors of `current`, given the candidate cells and the
    /// oracle's answer for each. Cells and answers are paired in order, and
    /// what is left over of the longer list is ignored.
    pub fn successors<H: Copy>(
        &self,
        current: Node<H>,
        cells: &Vec<Cell>,
        samples: &Vec<Terrain<H>>,
    ) -> (out: Vec<(Node<H>, u64)>)
        ensures
            out@ == spec_settled(
                current,
                cells@,
                samples@,
                spec_shorter(cells@.len(), samples@.len()),
            ),
    {
        let n = if cells.len() <= samples.len() {
            cells.len()
        } else {
            samples.len()
        };
        let mut out: Vec<(Node<H>, u64)> = Vec::new();
        let mut i: usize = 0;
        while i < n
            invariant
                0 <= i <= n,
                n <= cells.len(),
                n <= samples.len(),
                out@ == spec_settled(current, cells@, samples@, i as nat),
            decreases n - i,
        {
            let height = samples[i].height_from(current.height);
            out.push((Node { position: cells[i], height }, 1));
            i += 1;
        }
        out
    }

    /// The rover may stand on a cell whose terrain is unknown or not
    /// blocked.
    pub fn success<H: Copy>(&self, sample: &Terrain<H>) -> (ok: bool)
        ensures
            ok == !sample.spec_blocked(),
    {
        !sample.blocked()
    }
}

/// The search from the safe start to the goal.
pub struct DirectPathfinderModule {
    pub end_node: Cell,
}

impl DirectPathfinderModule {
    /// The successors of `current`, given the candidate cells and the
    /// oracle's answer for each: a blocked cell is rejected, any other is
    /// one step away. Cells and answers are paired in order, and what is
    /// left over of the longer list is ignored.
    pub fn successors<H: Copy>(
        &self,
        current: Node<H>,
        cells: &Vec<Cell>,
        samples: &Vec<Terrain<H>>,
    ) -> (out: Vec<(Node<H>, u64)>)
        ensures
            out@ == spec_admitted(
                current,
                cells@,
                samples@,
                spec_shorter(cells@.len(), samples@.len()),
            ),
    {
        let n = if cells.len() <= samples.len() {
            cells.len()
        } else {
            samples.len()
        };
        let mut out: Vec<(Node<H>, u64)> = Vec::new();
        let mut i: usize = 0;
        while i < n
            invariant
                0 <= i <= n,
                n <= cells.len(),
                n <= samples.len(),
                out@ == spec_admitted(current, cells@, samples@, i as nat),
            decreases n - i,
        {
            if !samples[i].blocked() {
                let height = samples[i].height_from(current.height);
                out.push((Node { position: cells[i], height }, 1));
            }
            i += 1;
        }
        out
    }

    /// The goal is reached at the goal's cell, whatever height was recorded
    /// there.
    pub fn success<H: Copy>(&self, node: &Node<H>) -> (ok: bool)
        ensures
            ok == (node.position == self.end_node),
    {
        node.position.0 == self.end_node.0 && node.position.1 == self.end_node.1
    }
}

/// Splits the route that led to a safe start: its last node is where the
/// main search starts, and the nodes before it are walked first. Without
/// such a route the main search starts at `origin` and nothing is walked
/// first.
pub fn adopt_start<H: Copy>(safe_route: Option<Vec<Node<H>>>, origin: Node<H>) -> (split: (
    Vec<Node<H>>,
    Node<H>,
))
    ensures
        match safe_route {
            Some(route) if route@.len() > 0 => split.0@ == route@.drop_last() && split.1
                == route@.last(),
            _ => split.0@ == Seq::<Node<H>>::empty() && split.1 == origin,
        },
{
    match safe_route {
        None => (Vec::new(), origin),
        Some(route) => {
            let mut route = route;
            match route.pop() {
                Some(last) => (route, last),
                None => (route, origin),
            }
        },
    }
}

/// What `assemble` appends to the nodes walked first: the main route,
/// with the goal added where the route is its start alone.
pub open spec fn spec_main_route<H>(post_path: Seq<Node<H>>, end_node: Node<H>) -> Seq<Node<H>> {
    if post_path.len() == 1 {
        post_path.push(end_node)
    } else {
        post_path
    }
}

/// Joins the nodes that lead to the safe start with the route from there
/// to the goal.
pub fn assemble<H: Copy>(pre_path: Vec<Node<H>>, post_path: Vec<Node<H>>, end_node: Node<H>) -> (path:
    Vec<Node<H>>)
    ensures
        path@ == pre_path@ + spec_main_route(post_path@, end_node),
{
    let mut path = pre_path;
    let mut rest = post_path;
    if rest.len() == 1 {
        rest.push(end_node);
    }
    path.append(&mut rest);
    path
}

} // verus!
