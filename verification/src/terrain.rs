//! What the height oracle reported under one posed shape, reduced to what
//! the pathfinder decides on: whether anything was sampled, the mean height,
//! and how many samples differ from the reference height by more than the
//! rover can climb.

use vstd::prelude::*;

verus! {

/// The reduction of one height query.
#[derive(Debug)]
pub enum Terrain<H> {
    /// The oracle had no sample under the shape.
    Unknown,
    /// The oracle had samples: their mean, the number of them that are too
    /// high or too low against the reference height, and the number from
    /// which on the cell counts as blocked.
    Sampled { mean: H, too_high: usize, limit: usize },
}

impl<H: Copy> Clone for Terrain<H> {
    fn clone(&self) -> (copy: Self)
        ensures
            copy == *self,
    {
        match self {
            Terrain::Unknown => Terrain::Unknown,
            Terrain::Sampled { mean, too_high, limit } => Terrain::Sampled {
                mean: *mean,
                too_high: *too_high,
                limit: *limit,
            },
        }
    }
}

impl<H: Copy> Copy for Terrain<H> {

}

impl<H: Copy> Terrain<H> {
    /// Samples exist and at least `limit` of them are out of reach.
    pub open spec fn spec_blocked(self) -> bool {
        self matches Terrain::Sampled { too_high, limit, .. } && too_high >= limit
    }

    pub fn blocked(&self) -> (b: bool)
        ensures
            b == self.spec_blocked(),
    {
        match self {
            Terrain::Unknown => false,
            Terrain::Sampled { too_high, limit, .. } => *too_high >= *limit,
        }
    }

    /// Samples exist and fewer than `limit` of them are out of reach.
    pub open spec fn spec_clear(self) -> bool {
        self matches Terrain::Sampled { too_high, limit, .. } && too_high < limit
    }

    pub fn clear(&self) -> (b: bool)
        ensures
            b == self.spec_clear(),
    {
        match self {
            Terrain::Unknown => false,
            Terrain::Sampled { too_high, limit, .. } => *too_high < *limit,
        }
    }

    /// The height to record for a cell with this terrain when it is entered
    /// from a cell at height `from`: the mean of the samples, or `from`
    /// where nothing is known.
    pub open spec fn spec_height_from(self, from: H) -> H {
        match self {
            Terrain::Unknown => from,
            Terrain::Sampled { mean, .. } => mean,
        }
    }

    pub fn height_from(&self, from: H) -> (h: H)
        ensures
            h == self.spec_height_from(from),
    {
        match self {
            Terrain::Unknown => from,
            Terrain::Sampled { mean, .. } => *mean,
        }
    }
}

/// Every one of `samples` has data and is not blocked.
pub open spec fn spec_all_clear<H: Copy>(samples: Seq<Terrain<H>>) -> bool {
    forall|i: int| 0 <= i < samples.len() ==> (#[trigger] samples[i]).spec_clear()
}

pub fn all_clear<H: Copy>(samples: &Vec<Terrain<H>>) -> (b: bool)
    ensures
        b == spec_all_clear(samples@),
{
    let mut i: usize = 0;
    while i < samples.len()
        invariant
            0 <= i <= samples.len(),
            forall|j: int| 0 <= j < i ==> (#[trigger] samples@[j]).spec_clear(),
        decreases samples.len() - i,
    {
        if !samples[i].clear() {
            return false;
        }
        i += 1;
    }
    true
}

} // verus!
