//! Line-of-sight smoothing of a route: consecutive waypoints `a, b, c`
//! collapse into `a, c` wherever the rover can walk straight from `a` to
//! `c`.
//!
//! Whether it can is not decided here. The [`Smoother`] names the next pair
//! to test, the caller tests it against the terrain, and the answer decides
//! which waypoint is kept.

use vstd::prelude::*;

verus! {

/// The indices of the waypoints kept so far, given the answers so far. The
/// answer at `j` is for the waypoint at `j + 2`: a refusal keeps the
/// waypoint before it. The first waypoint is always kept.
pub open spec fn kept_indices(answers: Seq<bool>) -> Seq<int>
    decreases answers.len(),
{
    if answers.len() == 0 {
        seq![0int]
    } else {
        let before = kept_indices(answers.drop_last());
        if answers.last() {
            before
        } else {
            before.push(answers.len() as int)
        }
    }
}

/// The index of the waypoint from which the next segment is tested.
pub open spec fn anchor(answers: Seq<bool>) -> int {
    kept_indices(answers).last()
}

/// The waypoints of `path` at `indices`.
pub open spec fn pick<P>(path: Seq<P>, indices: Seq<int>) -> Seq<P> {
    indices.map_values(|i: int| path[i])
}

/// A smoother as a mathematical value: the route and the answers given.
pub struct SmootherView<P> {
    pub path: Seq<P>,
    pub answers: Seq<bool>,
}

impl<P> SmootherView<P> {
    /// The pair of waypoints to test next, while a waypoint is left.
    pub open spec fn pending(self) -> Option<(P, P)> {
        if self.answers.len() + 2 < self.path.len() {
            Some((self.path[anchor(self.answers)], self.path[self.answers.len() as int + 2]))
        } else {
            None
        }
    }

    /// The smoothed route with `end` as its last point: the waypoints kept,
    /// then `end` in place of the last waypoint considered.
    pub open spec fn finished(self, end: P) -> Seq<P> {
        pick(self.path, kept_indices(self.answers)).push(end)
    }
}

/// The kept indices start at the first waypoint, rise strictly, and stay
/// below the index of the last waypoint considered.
pub proof fn lemma_kept_indices_rise(answers: Seq<bool>)
    ensures
        kept_indices(answers).len() >= 1,
        kept_indices(answers)[0] == 0,
        forall|k: int|
            0 <= k < kept_indices(answers).len() ==> 0 <= #[trigger] kept_indices(answers)[k]
                <= answers.len(),
        forall|k: int, l: int|
            0 <= k < l < kept_indices(answers).len() ==> kept_indices(answers)[k] < kept_indices(
                answers,
            )[l],
    decreases answers.len(),
{
    if answers.len() > 0 {
        lemma_kept_indices_rise(answers.drop_last());
    }
}

/// Walks a route once and keeps the waypoints that cannot be skipped.
pub struct Smoother<P> {
    path: Vec<P>,
    kept: Vec<P>,
    start: usize,
    next: usize,
    answers: Ghost<Seq<bool>>,
}

impl<P> View for Smoother<P> {
    type V = SmootherView<P>;

    closed spec fn view(&self) -> SmootherView<P> {
        SmootherView { path: self.path@, answers: self.answers@ }
    }
}

impl<P: Copy> Smoother<P> {
    /// The invariant of a smoother. It holds of a new one and is kept by
    /// every method.
    pub closed spec fn wf(&self) -> bool {
        &&& self.path@.len() >= 2
        &&& self.next == self.answers@.len() + 2
        &&& self.next <= self.path@.len()
        &&& self.start == anchor(self.answers@)
        &&& self.kept@ == pick(self.path@, kept_indices(self.answers@))
    }

    /// A smoother for `path`, or `None` where `path` has fewer than two
    /// waypoints and so no segment.
    pub fn new(path: Vec<P>) -> (smoother: Option<Self>)
        ensures
            smoother is Some <==> path@.len() >= 2,
            smoother matches Some(s) ==> s.wf() && s@ == (SmootherView {
                path: path@,
                answers: Seq::<bool>::empty(),
            }),
    {
        if path.len() < 2 {
            return None;
        }
        let mut kept: Vec<P> = Vec::new();
        kept.push(path[0]);
        let answers: Ghost<Seq<bool>> = Ghost(Seq::empty());
        let smoother = Smoother { path, kept, start: 0, next: 2, answers };
        assert(smoother.kept@ =~= pick(smoother.path@, kept_indices(smoother.answers@)));
        Some(smoother)
    }

    /// The segment to test next, from the last waypoint kept to the next
    /// waypoint not yet considered; `None` once the whole route was walked.
    pub fn pending(&self) -> (pair: Option<(P, P)>)
        requires
            self.wf(),
        ensures
            pair == self@.pending(),
    {
        if self.next < self.path.len() {
            proof {
                lemma_kept_indices_rise(self.answers@);
            }
            Some((self.path[self.start], self.path[self.next]))
        } else {
            None
        }
    }

    /// Records whether the pending segment can be walked. Where it cannot,
    /// the waypoint before its far end is kept and becomes the start of the
    /// next segment. With no segment pending nothing changes.
    pub fn answer(&mut self, traversable: bool)
        requires
            old(self).wf(),
        ensures
            final(self).wf(),
            final(self)@.path == old(self)@.path,
            final(self)@.answers == if old(self)@.pending() is Some {
                old(self)@.answers.push(traversable)
            } else {
                old(self)@.answers
            },
    {
        if self.next >= self.path.len() {
            return ;
        }
        let ghost longer = self.answers@.push(traversable);
        proof {
            assert(longer.drop_last() =~= self.answers@);
            lemma_kept_indices_rise(self.answers@);
        }
        if !traversable {
            let last = self.next - 1;
            self.kept.push(self.path[last]);
            self.start = last;
            proof {
                assert(self.kept@ =~= pick(self.path@, kept_indices(longer)));
            }
        }
        self.next = self.next + 1;
        self.answers = Ghost(longer);
    }

    /// The smoothed route: the waypoints kept, then `end`.
    pub fn finish(self, end: P) -> (route: Vec<P>)
        requires
            self.wf(),
        ensures
            route@ == self@.finished(end),
    {
        let mut route = self.kept;
        route.push(end);
        route
    }
}

/// The segment from the waypoint at `a` to the waypoint at `b` was tested
/// and found walkable.
pub open spec fn tested_walkable(answers: Seq<bool>, a: int, b: int) -> bool {
    &&& 2 <= b < answers.len() + 2
    &&& answers[b - 2]
    &&& anchor(answers.take(b - 2)) == a
}

/// The segment from the waypoint at `a` to the waypoint at `b` is one of
/// the route's own steps or was tested and found walkable.
pub open spec fn segment_sound(answers: Seq<bool>, a: int, b: int) -> bool {
    b == a + 1 || tested_walkable(answers, a, b)
}

/// The waypoints of the smoothed route, by index: those kept, then the last
/// one considered.
pub open spec fn smoothed_indices(answers: Seq<bool>) -> Seq<int> {
    kept_indices(answers).push(answers.len() as int + 1)
}

/// A test that was made stays made when further answers come in.
pub proof fn lemma_tested_stays(answers: Seq<bool>, more: bool, a: int, b: int)
    requires
        tested_walkable(answers, a, b),
    ensures
        tested_walkable(answers.push(more), a, b),
{
    assert(answers.push(more).take(b - 2) =~= answers.take(b - 2));
}

/// Every segment of the smoothed route is sound: it is a step of the
/// route as it was given, or the caller said that it can be walked.
pub proof fn lemma_smoothed_segments_sound(answers: Seq<bool>)
    ensures
        forall|k: int|
            0 <= k < smoothed_indices(answers).len() - 1 ==> segment_sound(
                answers,
                #[trigger] smoothed_indices(answers)[k],
                smoothed_indices(answers)[k + 1],
            ),
    decreases answers.len(),
{
    let idx = smoothed_indices(answers);
    if answers.len() == 0 {
        assert(idx[0] == 0 && idx[1] == 1);
    } else {
        let earlier = answers.drop_last();
        let before = smoothed_indices(earlier);
        lemma_smoothed_segments_sound(earlier);
        lemma_kept_indices_rise(earlier);
        assert(earlier.push(answers.last()) =~= answers);
        assert forall|k: int| 0 <= k < idx.len() - 1 implies segment_sound(
            answers,
            #[trigger] idx[k],
            idx[k + 1],
        ) by {
            if answers.last() {
                if k < idx.len() - 2 {
                    assert(idx[k] == before[k] && idx[k + 1] == before[k + 1]);
                    assert(segment_sound(earlier, before[k], before[k + 1]));
                    if before[k + 1] != before[k] + 1 {
                        lemma_tested_stays(earlier, answers.last(), before[k], before[k + 1]);
                    }
                } else {
                    assert(answers.take(answers.len() - 1) =~= earlier);
                    assert(tested_walkable(answers, idx[k], idx[k + 1]));
                }
            } else {
                if k < idx.len() - 2 {
                    assert(idx[k] == before[k] && idx[k + 1] == before[k + 1]);
                    assert(segment_sound(earlier, before[k], before[k + 1]));
                    if before[k + 1] != before[k] + 1 {
                        lemma_tested_stays(earlier, answers.last(), before[k], before[k + 1]);
                    }
                }
            }
        }
    }
}

/// The indices of the smoothed route start at the first waypoint, rise
/// strictly, and end at the last waypoint considered: the smoothed route
/// is the route as it was given with waypoints left out.
pub proof fn lemma_smoothed_indices_rise(answers: Seq<bool>)
    ensures
        smoothed_indices(answers).len() >= 2,
        smoothed_indices(answers).first() == 0,
        smoothed_indices(answers).last() == answers.len() + 1,
        forall|k: int, l: int|
            0 <= k < l < smoothed_indices(answers).len() ==> smoothed_indices(answers)[k]
                < smoothed_indices(answers)[l],
{
    lemma_kept_indices_rise(answers);
}

/// The length of the route from the waypoint at `a` to the waypoint at `b`,
/// step by step, where `distance` measures one step.
pub open spec fn length_between<P>(
    path: Seq<P>,
    distance: spec_fn(P, P) -> int,
    a: int,
    b: int,
) -> int
    decreases b - a,
{
    if b <= a {
        0
    } else {
        length_between(path, distance, a, b - 1) + distance(path[b - 1], path[b])
    }
}

/// The length of the route that visits the waypoints at `indices` in turn.
pub open spec fn length_along<P>(
    path: Seq<P>,
    distance: spec_fn(P, P) -> int,
    indices: Seq<int>,
) -> int
    decreases indices.len(),
{
    if indices.len() <= 1 {
        0
    } else {
        length_along(path, distance, indices.drop_last()) + distance(
            path[indices[indices.len() - 2]],
            path[indices.last()],
        )
    }
}

/// Going by way of a third point is never shorter.
pub open spec fn triangle_inequality<P>(distance: spec_fn(P, P) -> int) -> bool {
    forall|a: P, b: P, c: P| #[trigger] distance(a, c) <= distance(a, b) + #[trigger] distance(b, c)
}

/// The straight segment between two waypoints is no longer than the route
/// between them.
pub proof fn lemma_chord<P>(path: Seq<P>, distance: spec_fn(P, P) -> int, a: int, b: int)
    requires
        triangle_inequality(distance),
        a < b,
    ensures
        distance(path[a], path[b]) <= length_between(path, distance, a, b),
    decreases b - a,
{
    if b - 1 > a {
        lemma_chord(path, distance, a, b - 1);
        assert(distance(path[a], path[b]) <= distance(path[a], path[b - 1]) + distance(
            path[b - 1],
            path[b],
        ));
    } else {
        assert(length_between(path, distance, a, a) == 0);
    }
}

/// The route from `a` to `c` is the route from `a` to `b` and then from
/// `b` to `c`.
pub proof fn lemma_length_splits<P>(
    path: Seq<P>,
    distance: spec_fn(P, P) -> int,
    a: int,
    b: int,
    c: int,
)
    requires
        a <= b <= c,
    ensures
        length_between(path, distance, a, c) == length_between(path, distance, a, b)
            + length_between(path, distance, b, c),
    decreases c - b,
{
    if b < c {
        lemma_length_splits(path, distance, a, b, c - 1);
    }
}

/// A route that leaves waypoints out is no longer than the route it was
/// made from.
pub proof fn lemma_shortcut<P>(path: Seq<P>, distance: spec_fn(P, P) -> int, indices: Seq<int>)
    requires
        triangle_inequality(distance),
        indices.len() >= 1,
        forall|k: int, l: int| 0 <= k < l < indices.len() ==> indices[k] < indices[l],
    ensures
        length_along(path, distance, indices) <= length_between(
            path,
            distance,
            indices.first(),
            indices.last(),
        ),
    decreases indices.len(),
{
    if indices.len() >= 2 {
        let shorter = indices.drop_last();
        let a = indices[indices.len() - 2];
        let b = indices.last();
        lemma_shortcut(path, distance, shorter);
        lemma_chord(path, distance, a, b);
        assert(shorter.first() == indices.first());
        assert(shorter.last() == a);
        if indices.len() > 2 {
            assert(indices[0] < indices[indices.len() - 2]);
        }
        lemma_length_splits(path, distance, indices.first(), a, b);
    } else {
        assert(length_between(path, distance, indices.first(), indices.last()) == 0);
    }
}

/// Smoothing never makes a route longer, whatever the answers were and by
/// whatever distance the route is measured, as long as the distance obeys
/// the triangle inequality.
pub proof fn lemma_smoothing_shortens<P>(
    path: Seq<P>,
    distance: spec_fn(P, P) -> int,
    answers: Seq<bool>,
)
    requires
        triangle_inequality(distance),
    ensures
        length_along(path, distance, smoothed_indices(answers)) <= length_between(
            path,
            distance,
            0,
            answers.len() as int + 1,
        ),
{
    lemma_smoothed_indices_rise(answers);
    lemma_shortcut(path, distance, smoothed_indices(answers));
}

} // verus!
