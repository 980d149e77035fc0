//! The localizer's rules: which phase follows which, what an observation
//! stream updates, how a weight update is carried out, and which particle
//! a sample selects.
//!
//! Weights and samples are numbers that are never negative. The rules
//! below need only their order, so they take each as an unsigned integer
//! that orders as the number does.

use crate::sorting::pair_le;
use crate::sorting::sort_pairs;
use vstd::prelude::*;

verus! {

/// The phase the localizer is in.
#[derive(Clone, Copy, Debug, PartialEq, Eq, Structural)]
pub enum Phase {
    /// The particles have yet to be seeded.
    Initializing,
    /// Observations are taken and the pose is estimated.
    Running,
    /// The sensors are being recalibrated; no observation is taken.
    Recalibrating,
}

/// What woke the localizer.
#[derive(Clone, Copy, Debug, PartialEq, Eq, Structural)]
pub enum Wake {
    /// The localizer was started.
    Start,
    /// Recalibration was asked for.
    Recalibrate,
    /// Recalibration is over.
    Recalibrated,
    /// Nothing was observed for the longest time allowed between two
    /// propagations.
    Timeout,
    Imu,
    Position,
    Velocity,
    Orientation,
}

/// What the localizer does on waking.
#[derive(Clone, Copy, Debug, PartialEq, Eq, Structural)]
pub enum Reaction {
    /// Nothing: the event does not belong to the phase.
    Ignore,
    /// Seed the particles around the current pose with uniform weights.
    Seed,
    /// Give up the current weights and leave the loop.
    DropWeights,
    /// Update the weights of what the stream observes, then propagate the
    /// particles and estimate the pose.
    ObserveAndPropagate,
    /// Propagate the particles and estimate the pose.
    Propagate,
}

/// One of the five quantities that every particle carries with a weight of
/// its own.
#[derive(Clone, Copy, Debug, PartialEq, Eq, Structural)]
pub enum Dimension {
    Position,
    Orientation,
    LinearVelocity,
    AngularVelocity,
    LinearAcceleration,
}

/// How the weights of one dimension are brought up to date.
#[derive(Clone, Copy, Debug, PartialEq, Eq, Structural)]
pub enum Update {
    /// The observation is exact: every particle takes its value and the
    /// uniform weight.
    Overwrite,
    /// Every weight is multiplied by the likelihood of the observation and
    /// divided by the sum of the products.
    Reweigh,
    /// As `Reweigh`, but the sum is too small: the particles of lowest
    /// weight are first moved to the observation and given extra weight,
    /// and the weights are divided by the smallest sum allowed.
    Undeprive,
}

/// The phase after `wake` and what is done on the way.
pub open spec fn spec_react(phase: Phase, wake: Wake) -> (Phase, Reaction) {
    match (phase, wake) {
        (Phase::Initializing, Wake::Start) => (Phase::Running, Reaction::Seed),
        (Phase::Running, Wake::Recalibrate) => (Phase::Recalibrating, Reaction::DropWeights),
        (Phase::Running, Wake::Timeout) => (Phase::Running, Reaction::Propagate),
        (Phase::Running, Wake::Imu) => (Phase::Running, Reaction::ObserveAndPropagate),
        (Phase::Running, Wake::Position) => (Phase::Running, Reaction::ObserveAndPropagate),
        (Phase::Running, Wake::Velocity) => (Phase::Running, Reaction::ObserveAndPropagate),
        (Phase::Running, Wake::Orientation) => (Phase::Running, Reaction::ObserveAndPropagate),
        (Phase::Recalibrating, Wake::Recalibrated) => (Phase::Running, Reaction::Seed),
        _ => (phase, Reaction::Ignore),
    }
}

pub fn react(phase: Phase, wake: Wake) -> (next: (Phase, Reaction))
    ensures
        next == spec_react(phase, wake),
{
    match (phase, wake) {
        (Phase::Initializing, Wake::Start) => (Phase::Running, Reaction::Seed),
        (Phase::Running, Wake::Recalibrate) => (Phase::Recalibrating, Reaction::DropWeights),
        (Phase::Running, Wake::Timeout) => (Phase::Running, Reaction::Propagate),
        (Phase::Running, Wake::Imu) => (Phase::Running, Reaction::ObserveAndPropagate),
        (Phase::Running, Wake::Position) => (Phase::Running, Reaction::ObserveAndPropagate),
        (Phase::Running, Wake::Velocity) => (Phase::Running, Reaction::ObserveAndPropagate),
        (Phase::Running, Wake::Orientation) => (Phase::Running, Reaction::ObserveAndPropagate),
        (Phase::Recalibrating, Wake::Recalibrated) => (Phase::Running, Reaction::Seed),
        _ => (phase, Reaction::Ignore),
    }
}

/// The dimensions that an observation from a stream updates, in the order
/// in which they are updated.
pub open spec fn spec_observed(wake: Wake) -> Seq<Dimension> {
    match wake {
        Wake::Imu => seq![Dimension::LinearAcceleration, Dimension::AngularVelocity],
        Wake::Position => seq![Dimension::Position],
        Wake::Velocity => seq![Dimension::LinearVelocity],
        Wake::Orientation => seq![Dimension::Orientation],
        _ => Seq::empty(),
    }
}

pub fn observed(wake: Wake) -> (dimensions: Vec<Dimension>)
    ensures
        dimensions@ == spec_observed(wake),
{
    let mut dimensions: Vec<Dimension> = Vec::new();
    match wake {
        Wake::Imu => {
            dimensions.push(Dimension::LinearAcceleration);
            dimensions.push(Dimension::AngularVelocity);
        },
        Wake::Position => {
            dimensions.push(Dimension::Position);
        },
        Wake::Velocity => {
            dimensions.push(Dimension::LinearVelocity);
        },
        Wake::Orientation => {
            dimensions.push(Dimension::Orientation);
        },
        _ => {},
    }
    proof {
        assert(dimensions@ =~= spec_observed(wake));
    }
    dimensions
}

/// How to update a dimension, given whether the observation's variance is
/// zero and whether the sum of the reweighed particles is at most the
/// smallest sum allowed.
pub open spec fn spec_plan_update(exact: bool, sum_too_small: bool) -> Update {
    if exact {
        Update::Overwrite
    } else if sum_too_small {
        Update::Undeprive
    } else {
        Update::Reweigh
    }
}

pub fn plan_update(exact: bool, sum_too_small: bool) -> (update: Update)
    ensures
        update == spec_plan_update(exact, sum_too_small),
{
    if exact {
        Update::Overwrite
    } else if sum_too_small {
        Update::Undeprive
    } else {
        Update::Reweigh
    }
}

/// `i` is the last position of `cumulative` whose entry is at most
/// `sample`.
pub open spec fn is_ancestor(cumulative: Seq<u64>, sample: u64, i: int) -> bool {
    &&& 0 <= i < cumulative.len()
    &&& cumulative[i] <= sample
    &&& forall|j: int| i < j < cumulative.len() ==> cumulative[j] > sample
}

/// The particle that `sample` selects from a table of running weights: the
/// last one whose running weight, the sum of the weights of the particles
/// before it, is at most the sample. `None` where every entry of the table
/// is above the sample.
pub fn ancestor(cumulative: &Vec<u64>, sample: u64) -> (found: Option<usize>)
    ensures
        match found {
            Some(i) => is_ancestor(cumulative@, sample, i as int),
            None => forall|j: int| 0 <= j < cumulative@.len() ==> cumulative@[j] > sample,
        },
{
    let mut i = cumulative.len();
    while i > 0
        invariant
            0 <= i <= cumulative@.len(),
            forall|j: int| i <= j < cumulative@.len() ==> cumulative@[j] > sample,
        decreases i,
    {
        i -= 1;
        if cumulative[i] <= sample {
            return Some(i);
        }
    }
    None
}

/// The two particles that a pair of samples selects, the first from one
/// table and the second from another. The second sample is looked up only
/// where the first selects a particle, and there is no pair unless both
/// select one.
pub fn ancestor_pair(first: &Vec<u64>, first_sample: u64, second: &Vec<u64>, second_sample: u64) -> (found:
    Option<(usize, usize)>)
    ensures
        match found {
            Some((a, b)) => is_ancestor(first@, first_sample, a as int) && is_ancestor(
                second@,
                second_sample,
                b as int,
            ),
            None => (forall|j: int| 0 <= j < first@.len() ==> first@[j] > first_sample) || (
            forall|j: int| 0 <= j < second@.len() ==> second@[j] > second_sample),
        },
{
    match ancestor(first, first_sample) {
        None => None,
        Some(a) => match ancestor(second, second_sample) {
            None => None,
            Some(b) => Some((a, b)),
        },
    }
}

/// The particle at `i` with its weight, as the pair by which particles are
/// ranked: lighter first, and among equals the one that comes first.
pub open spec fn ranked_pair(weights: Seq<u64>, i: int) -> (u64, usize) {
    (weights[i], i as usize)
}

/// `chosen` names the `chosen.len()` lightest particles, lightest first:
/// its entries are particles in strictly rising rank, and every particle
/// that it leaves out ranks behind every particle that it names.
pub open spec fn is_lightest(weights: Seq<u64>, chosen: Seq<usize>) -> bool {
    &&& forall|j: int| 0 <= j < chosen.len() ==> (#[trigger] chosen[j]) < weights.len()
    &&& forall|j: int, l: int|
        0 <= j < l < chosen.len() ==> chosen[j] != chosen[l] && pair_le(
            ranked_pair(weights, #[trigger] chosen[j] as int),
            ranked_pair(weights, #[trigger] chosen[l] as int),
        )
    &&& forall|j: int, i: int|
        0 <= j < chosen.len() && 0 <= i < weights.len() && !chosen.contains(i as usize) ==> pair_le(
            ranked_pair(weights, #[trigger] chosen[j] as int),
            #[trigger] ranked_pair(weights, i),
        )
}

/// The particles that undeprivation moves: the `asked` lightest, or all
/// where there are fewer, lightest first.
pub fn lightest(weights: &Vec<u64>, asked: usize) -> (chosen: Vec<usize>)
    ensures
        chosen@.len() == if asked <= weights@.len() {
            asked as nat
        } else {
            weights@.len()
        },
        is_lightest(weights@, chosen@),
{
    let n = weights.len();
    let mut pairs: Vec<(u64, usize)> = Vec::new();
    let mut i: usize = 0;
    while i < n
        invariant
            0 <= i <= n,
            n == weights@.len(),
            pairs@.len() == i,
            forall|j: int| 0 <= j < i ==> #[trigger] pairs@[j] == ranked_pair(weights@, j),
        decreases n - i,
    {
        pairs.push((weights[i], i));
        i += 1;
    }
    let ghost unsorted = pairs@;
    sort_pairs(&mut pairs);
    let ghost sorted = pairs@;
    proof {
        sorted.to_multiset_ensures();
        unsorted.to_multiset_ensures();
        assert(sorted.len() == unsorted.len());
        assert forall|j: int| 0 <= j < sorted.len() implies (#[trigger] sorted[j]).1 < n
            && sorted[j] == ranked_pair(weights@, sorted[j].1 as int) by {
            assert(sorted.contains(sorted[j]));
            assert(unsorted.to_multiset().count(sorted[j]) > 0);
            assert(unsorted.contains(sorted[j]));
            let k = choose|k: int| 0 <= k < unsorted.len() && unsorted[k] == sorted[j];
            assert(unsorted[k] == ranked_pair(weights@, k));
        }
        assert(unsorted.no_duplicates()) by {
            assert forall|a: int, b: int|
                0 <= a < unsorted.len() && 0 <= b < unsorted.len() && a != b implies unsorted[a]
                != unsorted[b] by {
                assert(unsorted[a] == ranked_pair(weights@, a));
                assert(unsorted[b] == ranked_pair(weights@, b));
            }
        }
        unsorted.lemma_multiset_has_no_duplicates();
        sorted.lemma_multiset_has_no_duplicates_conv();
    }
    let k = if asked <= n {
        asked
    } else {
        n
    };
    let mut chosen: Vec<usize> = Vec::new();
    let mut j: usize = 0;
    while j < k
        invariant
            0 <= j <= k <= n,
            pairs@ == sorted,
            sorted.len() == n,
            chosen@.len() == j,
            forall|l: int| 0 <= l < j ==> #[trigger] chosen@[l] == sorted[l].1,
        decreases k - j,
    {
        chosen.push(pairs[j].1);
        j += 1;
    }
    proof {
        sorted.to_multiset_ensures();
        unsorted.to_multiset_ensures();
        assert forall|a: int, b: int| 0 <= a < b < chosen@.len() implies chosen@[a] != chosen@[b]
            && pair_le(
            ranked_pair(weights@, #[trigger] chosen@[a] as int),
            ranked_pair(weights@, #[trigger] chosen@[b] as int),
        ) by {
            assert(sorted[a] != sorted[b]);
            assert(pair_le(sorted[a], sorted[b]));
            assert(sorted[a] == ranked_pair(weights@, sorted[a].1 as int));
            assert(sorted[b] == ranked_pair(weights@, sorted[b].1 as int));
        }
        assert forall|a: int, i: int|
            0 <= a < chosen@.len() && 0 <= i < weights@.len() && !chosen@.contains(
                i as usize,
            ) implies pair_le(
            ranked_pair(weights@, #[trigger] chosen@[a] as int),
            #[trigger] ranked_pair(weights@, i),
        ) by {
            assert(unsorted[i] == ranked_pair(weights@, i));
            assert(unsorted.contains(unsorted[i]));
            assert(sorted.to_multiset().count(unsorted[i]) > 0);
            assert(sorted.contains(unsorted[i]));
            let b = choose|b: int| 0 <= b < sorted.len() && sorted[b] == unsorted[i];
            if b < chosen@.len() {
                assert(chosen@[b] == i as usize);
                assert(chosen@.contains(i as usize));
            }
            assert(pair_le(sorted[a], sorted[b]));
            assert(sorted[a] == ranked_pair(weights@, sorted[a].1 as int));
        }
    }
    chosen
}

} // verus!
