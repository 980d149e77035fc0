//! A grid of cells that remembers, for a fixed window of time, the heights
//! of the points that fell into each cell.
//!
//! Every batch of measurements is added to the cells when it arrives and
//! taken out again once the window has passed. Time is counted in
//! nanoseconds from a moment of the caller's choice and never runs
//! backwards: a reading that is older than the last one seen is taken for
//! the last one seen.

use std::collections::VecDeque;
use vstd::arithmetic::div_mod::lemma_add_mod_noop;
use vstd::arithmetic::div_mod::lemma_small_mod;
use vstd::arithmetic::div_mod::lemma_sub_mod_noop;
use vstd::prelude::*;

verus! {

/// The window that a new costmap keeps its points for: five seconds.
pub const DEFAULT_WINDOW: u64 = 5_000_000_000;

/// One point of a cloud, reduced to the cell it falls into and its height
/// in steps of the map's height resolution.
#[derive(Clone, Copy, Debug, PartialEq, Eq, Structural)]
pub struct PointMeasurement {
    pub cell_index: u32,
    pub height_quantum: u32,
}

/// What a cell holds: the sum of the heights of the points in it and their
/// number.
#[derive(Clone, Copy, Debug, PartialEq, Eq, Structural)]
pub struct CellTotal {
    pub height_sum: u64,
    pub count: u64,
}

/// A batch together with the time it arrived and the time it is due to be
/// taken out.
pub struct Scheduled {
    pub time: u64,
    pub due: u64,
    pub batch: Seq<PointMeasurement>,
}

/// The number that a 64-bit counter wraps at.
pub open spec fn modulus() -> int {
    0x1_0000_0000_0000_0000
}

/// The later of two times.
pub open spec fn spec_later(a: u64, b: u64) -> u64 {
    if a >= b {
        a
    } else {
        b
    }
}

/// The time at which a batch that arrived at `time` leaves: `window`
/// later, or at the end of time where that is sooner.
pub open spec fn spec_due(time: u64, window: u64) -> u64 {
    if time + window > u64::MAX {
        u64::MAX
    } else {
        (time + window) as u64
    }
}

/// The sum of the heights of the first `count` points of `batch` that fall
/// into `cell`.
pub open spec fn batch_height(batch: Seq<PointMeasurement>, cell: int, count: nat) -> int
    decreases count,
{
    if count == 0 {
        0
    } else {
        batch_height(batch, cell, (count - 1) as nat) + if batch[count - 1].cell_index == cell {
            batch[count - 1].height_quantum as int
        } else {
            0
        }
    }
}

/// The number of the first `count` points of `batch` that fall into `cell`.
pub open spec fn batch_count(batch: Seq<PointMeasurement>, cell: int, count: nat) -> int
    decreases count,
{
    if count == 0 {
        0
    } else {
        batch_count(batch, cell, (count - 1) as nat) + if batch[count - 1].cell_index == cell {
            1int
        } else {
            0
        }
    }
}

/// The sum of the heights that the batches of `entries` from position
/// `from` on put into `cell`.
pub open spec fn sum_heights(entries: Seq<Scheduled>, cell: int, from: nat) -> int
    decreases entries.len() - from,
{
    if from >= entries.len() {
        0
    } else {
        batch_height(entries[from as int].batch, cell, entries[from as int].batch.len())
            + sum_heights(entries, cell, from + 1)
    }
}

/// The number of points that the batches of `entries` from position `from`
/// on put into `cell`.
pub open spec fn sum_counts(entries: Seq<Scheduled>, cell: int, from: nat) -> int
    decreases entries.len() - from,
{
    if from >= entries.len() {
        0
    } else {
        batch_count(entries[from as int].batch, cell, entries[from as int].batch.len())
            + sum_counts(entries, cell, from + 1)
    }
}

/// Every point of `batch` names one of the first `cells` cells.
pub open spec fn batch_fits(batch: Seq<PointMeasurement>, cells: nat) -> bool {
    forall|i: int| 0 <= i < batch.len() ==> (#[trigger] batch[i]).cell_index < cells
}

/// A costmap as a mathematical value.
pub struct CostmapView {
    pub area_width: usize,
    pub area_length: usize,
    pub window_duration: u64,
    /// The latest time the map has seen.
    pub clock: u64,
    /// Every batch the map was given, in order of arrival.
    pub history: Seq<Scheduled>,
    /// How many batches, from the oldest on, have been taken out again.
    pub retired: nat,
}

impl CostmapView {
    pub open spec fn cells(self) -> nat {
        (self.area_width * self.area_length) as nat
    }

    /// The sum that the cell at `cell` holds: the heights of all points in
    /// it that have arrived and not been taken out.
    pub open spec fn height_sum(self, cell: int) -> int {
        sum_heights(self.history, cell, self.retired)
    }

    /// The number of points in the cell at `cell` that have arrived and not
    /// been taken out.
    pub open spec fn count(self, cell: int) -> int {
        sum_counts(self.history, cell, self.retired)
    }

    /// What a reading of the cell at `cell` gives: sum and number as the
    /// 64-bit counters hold them.
    pub open spec fn total(self, cell: int) -> CellTotal {
        CellTotal {
            height_sum: (self.height_sum(cell) % modulus()) as u64,
            count: (self.count(cell) % modulus()) as u64,
        }
    }

    /// The batches taken out are exactly those that are due: every batch
    /// that arrived at a time `t` is in the map from `t` until `t` plus the
    /// window, and at no other time.
    pub open spec fn retention(self) -> bool {
        &&& self.retired <= self.history.len()
        &&& forall|j: int| 0 <= j < self.retired ==> (#[trigger] self.history[j]).due <= self.clock
        &&& forall|j: int|
            self.retired <= j < self.history.len() ==> (#[trigger] self.history[j]).due > self.clock
    }

    /// What holds of every costmap.
    pub open spec fn well_formed(self) -> bool {
        &&& self.area_width * self.area_length <= u32::MAX
        &&& self.retired <= self.history.len()
        &&& forall|j: int|
            0 <= j < self.history.len() ==> {
                &&& (#[trigger] self.history[j]).time <= self.clock
                &&& self.history[j].due == spec_due(self.history[j].time, self.window_duration)
                &&& batch_fits(self.history[j].batch, self.cells())
            }
        &&& forall|i: int, j: int|
            0 <= i <= j < self.history.len() ==> (#[trigger] self.history[i]).time <= (
            #[trigger] self.history[j]).time
        &&& forall|j: int| 0 <= j < self.retired ==> (#[trigger] self.history[j]).due <= self.clock
    }
}

/// Adding to a counter that holds a sum modulo its width gives the larger
/// sum modulo its width.
pub proof fn lemma_wrapping_add(sum: int, held: u64, more: u64)
    requires
        0 <= sum,
        held == sum % modulus(),
    ensures
        held.wrapping_add(more) == (sum + more) % modulus(),
{
    let m = modulus();
    lemma_add_mod_noop(sum, more as int, m);
    lemma_small_mod(more as nat, m as nat);
    if held + more > u64::MAX {
        assert((held + more) % m == held + more - m) by {
            lemma_small_mod((held + more - m) as nat, m as nat);
            vstd::arithmetic::div_mod::lemma_mod_add_multiples_vanish(held + more - m, m);
        }
    } else {
        lemma_small_mod((held + more) as nat, m as nat);
    }
}

/// Taking from a counter that holds a sum modulo its width, where the sum
/// has that much in it, gives the smaller sum modulo its width.
pub proof fn lemma_wrapping_sub(sum: int, held: u64, less: u64)
    requires
        held == sum % modulus(),
        less <= sum,
    ensures
        held.wrapping_sub(less) == (sum - less) % modulus(),
{
    let m = modulus();
    lemma_sub_mod_noop(sum, less as int, m);
    lemma_small_mod(less as nat, m as nat);
    if held - less < 0 {
        assert((held - less) % m == held - less + m) by {
            lemma_small_mod((held - less + m) as nat, m as nat);
            vstd::arithmetic::div_mod::lemma_mod_add_multiples_vanish(held - less, m);
        }
    } else {
        lemma_small_mod((held - less) as nat, m as nat);
    }
}

/// Adding to a counter and taking from it can be done in either order.
pub proof fn lemma_counters_commute(held: u64, more: u64, less: u64)
    ensures
        held.wrapping_add(more).wrapping_sub(less) == held.wrapping_sub(less).wrapping_add(more),
        held.wrapping_add(more).wrapping_sub(more) == held,
{
}

/// No batch puts a negative amount into a cell.
pub proof fn lemma_sums_nonnegative(entries: Seq<Scheduled>, cell: int, from: nat)
    ensures
        0 <= sum_heights(entries, cell, from),
        0 <= sum_counts(entries, cell, from),
    decreases entries.len() - from,
{
    if from < entries.len() {
        lemma_sums_nonnegative(entries, cell, from + 1);
        lemma_batch_prefix(
            entries[from as int].batch,
            cell,
            0,
            entries[from as int].batch.len(),
        );
    }
}

/// A longer prefix of a batch puts at least as much into a cell.
pub proof fn lemma_batch_prefix(batch: Seq<PointMeasurement>, cell: int, shorter: nat, longer: nat)
    requires
        shorter <= longer,
    ensures
        batch_height(batch, cell, shorter) <= batch_height(batch, cell, longer),
        batch_count(batch, cell, shorter) <= batch_count(batch, cell, longer),
    decreases longer,
{
    if shorter < longer {
        lemma_batch_prefix(batch, cell, shorter, (longer - 1) as nat);
    }
}

/// The sums from one batch on are what that batch puts in and the sums
/// from the next batch on.
pub proof fn lemma_sum_unfold(entries: Seq<Scheduled>, cell: int, from: nat)
    requires
        from < entries.len(),
    ensures
        sum_heights(entries, cell, from) == batch_height(
            entries[from as int].batch,
            cell,
            entries[from as int].batch.len(),
        ) + sum_heights(entries, cell, from + 1),
        sum_counts(entries, cell, from) == batch_count(
            entries[from as int].batch,
            cell,
            entries[from as int].batch.len(),
        ) + sum_counts(entries, cell, from + 1),
{
}

/// A batch that arrives adds its points to every sum and changes nothing
/// else.
pub proof fn lemma_sum_push(entries: Seq<Scheduled>, entry: Scheduled, cell: int, from: nat)
    requires
        from <= entries.len(),
    ensures
        sum_heights(entries.push(entry), cell, from) == sum_heights(entries, cell, from)
            + batch_height(entry.batch, cell, entry.batch.len()),
        sum_counts(entries.push(entry), cell, from) == sum_counts(entries, cell, from)
            + batch_count(entry.batch, cell, entry.batch.len()),
    decreases entries.len() - from,
{
    let longer = entries.push(entry);
    if from < entries.len() {
        lemma_sum_push(entries, entry, cell, from + 1);
        assert(longer[from as int] == entries[from as int]);
    } else {
        assert(sum_heights(longer, cell, from + 1) == 0);
        assert(sum_counts(longer, cell, from + 1) == 0);
    }
}

/// Adds every point of `batch` to its cell.
fn add_batch(
    heights: &mut Vec<u64>,
    counts: &mut Vec<u64>,
    batch: &Vec<PointMeasurement>,
    Ghost(height_base): Ghost<spec_fn(int) -> int>,
    Ghost(count_base): Ghost<spec_fn(int) -> int>,
)
    requires
        old(heights)@.len() == old(counts)@.len(),
        batch_fits(batch@, old(heights)@.len()),
        forall|c: int|
            0 <= c < old(heights)@.len() ==> {
                &&& 0 <= #[trigger] height_base(c)
                &&& 0 <= count_base(c)
                &&& old(heights)@[c] == height_base(c) % modulus()
                &&& old(counts)@[c] == count_base(c) % modulus()
            },
    ensures
        final(heights)@.len() == old(heights)@.len(),
        final(counts)@.len() == old(counts)@.len(),
        forall|c: int|
            0 <= c < old(heights)@.len() ==> {
                &&& (#[trigger] final(heights)@[c]) == (height_base(c) + batch_height(
                    batch@,
                    c,
                    batch@.len(),
                )) % modulus()
                &&& final(counts)@[c] == (count_base(c) + batch_count(batch@, c, batch@.len()))
                    % modulus()
            },
{
    let mut k: usize = 0;
    while k < batch.len()
        invariant
            0 <= k <= batch.len(),
            heights@.len() == old(heights)@.len(),
            counts@.len() == heights@.len(),
            batch_fits(batch@, heights@.len()),
            forall|c: int| 0 <= c < heights@.len() ==> 0 <= #[trigger] height_base(c) && 0 <= count_base(c),
            forall|c: int|
                0 <= c < heights@.len() ==> {
                    &&& (#[trigger] heights@[c]) == (height_base(c) + batch_height(
                        batch@,
                        c,
                        k as nat,
                    )) % modulus()
                    &&& counts@[c] == (count_base(c) + batch_count(batch@, c, k as nat))
                        % modulus()
                },
        decreases batch.len() - k,
    {
        let point = batch[k];
        let cell = point.cell_index as usize;
        proof {
            assert(0 <= height_base(cell as int));
            lemma_batch_prefix(batch@, cell as int, 0, k as nat);
            lemma_wrapping_add(
                height_base(cell as int) + batch_height(batch@, cell as int, k as nat),
                heights@[cell as int],
                point.height_quantum as u64,
            );
            lemma_wrapping_add(
                count_base(cell as int) + batch_count(batch@, cell as int, k as nat),
                counts@[cell as int],
                1,
            );
        }
        let height = heights[cell].wrapping_add(point.height_quantum as u64);
        let count = counts[cell].wrapping_add(1);
        heights.set(cell, height);
        counts.set(cell, count);
        k += 1;
    }
}

/// Takes every point of `batch` out of its cell again.
fn take_batch(
    heights: &mut Vec<u64>,
    counts: &mut Vec<u64>,
    batch: &Vec<PointMeasurement>,
    Ghost(height_base): Ghost<spec_fn(int) -> int>,
    Ghost(count_base): Ghost<spec_fn(int) -> int>,
)
    requires
        old(heights)@.len() == old(counts)@.len(),
        batch_fits(batch@, old(heights)@.len()),
        forall|c: int|
            0 <= c < old(heights)@.len() ==> {
                &&& batch_height(batch@, c, batch@.len()) <= #[trigger] height_base(c)
                &&& batch_count(batch@, c, batch@.len()) <= count_base(c)
                &&& old(heights)@[c] == height_base(c) % modulus()
                &&& old(counts)@[c] == count_base(c) % modulus()
            },
    ensures
        final(heights)@.len() == old(heights)@.len(),
        final(counts)@.len() == old(counts)@.len(),
        forall|c: int|
            0 <= c < old(heights)@.len() ==> {
                &&& (#[trigger] final(heights)@[c]) == (height_base(c) - batch_height(
                    batch@,
                    c,
                    batch@.len(),
                )) % modulus()
                &&& final(counts)@[c] == (count_base(c) - batch_count(batch@, c, batch@.len()))
                    % modulus()
            },
{
    let mut k: usize = 0;
    while k < batch.len()
        invariant
            0 <= k <= batch.len(),
            heights@.len() == old(heights)@.len(),
            counts@.len() == heights@.len(),
            batch_fits(batch@, heights@.len()),
            forall|c: int|
                0 <= c < heights@.len() ==> batch_height(batch@, c, batch@.len())
                    <= #[trigger] height_base(c) && batch_count(batch@, c, batch@.len())
                    <= count_base(c),
            forall|c: int|
                0 <= c < heights@.len() ==> {
                    &&& (#[trigger] heights@[c]) == (height_base(c) - batch_height(
                        batch@,
                        c,
                        k as nat,
                    )) % modulus()
                    &&& counts@[c] == (count_base(c) - batch_count(batch@, c, k as nat))
                        % modulus()
                },
        decreases batch.len() - k,
    {
        let point = batch[k];
        let cell = point.cell_index as usize;
        proof {
            assert(batch_height(batch@, cell as int, batch@.len()) <= height_base(cell as int));
            lemma_batch_prefix(batch@, cell as int, (k + 1) as nat, batch@.len());
            lemma_wrapping_sub(
                height_base(cell as int) - batch_height(batch@, cell as int, k as nat),
                heights@[cell as int],
                point.height_quantum as u64,
            );
            lemma_wrapping_sub(
                count_base(cell as int) - batch_count(batch@, cell as int, k as nat),
                counts@[cell as int],
                1,
            );
        }
        let ghost heights_before = heights@;
        let ghost counts_before = counts@;
        let height = heights[cell].wrapping_sub(point.height_quantum as u64);
        let count = counts[cell].wrapping_sub(1);
        heights.set(cell, height);
        counts.set(cell, count);
        k += 1;
        proof {
            assert forall|c: int| 0 <= c < heights@.len() implies {
                &&& (#[trigger] heights@[c]) == (height_base(c) - batch_height(
                    batch@,
                    c,
                    k as nat,
                )) % modulus()
                &&& counts@[c] == (count_base(c) - batch_count(batch@, c, k as nat)) % modulus()
            } by {
                if c != cell {
                    assert(heights@[c] == heights_before[c]);
                    assert(counts@[c] == counts_before[c]);
                }
            }
        }
    }
}

/// The batch arrived by `clock` and has not left by then.
pub open spec fn in_window(entry: Scheduled, clock: u64) -> bool {
    entry.time <= clock < entry.due
}

/// The sum of the heights that the batches of `history` from position
/// `from` on whose window holds `clock` put into `cell`.
pub open spec fn window_heights(history: Seq<Scheduled>, clock: u64, cell: int, from: nat) -> int
    decreases history.len() - from,
{
    if from >= history.len() {
        0
    } else {
        (if in_window(history[from as int], clock) {
            batch_height(history[from as int].batch, cell, history[from as int].batch.len())
        } else {
            0
        }) + window_heights(history, clock, cell, from + 1)
    }
}

/// The number of points that the batches of `history` from position `from`
/// on whose window holds `clock` put into `cell`.
pub open spec fn window_counts(history: Seq<Scheduled>, clock: u64, cell: int, from: nat) -> int
    decreases history.len() - from,
{
    if from >= history.len() {
        0
    } else {
        (if in_window(history[from as int], clock) {
            batch_count(history[from as int].batch, cell, history[from as int].batch.len())
        } else {
            0
        }) + window_counts(history, clock, cell, from + 1)
    }
}

/// Retention: once the batches that are due have been taken out, every
/// cell holds exactly what the batches put into it that arrived at some
/// time `t` with `t <= clock < t + window`, and nothing of any other
/// batch.
pub proof fn lemma_retention(map: CostmapView, cell: int, from: nat)
    requires
        map.well_formed(),
        map.retention(),
        from <= map.history.len(),
    ensures
        window_heights(map.history, map.clock, cell, from) == sum_heights(
            map.history,
            cell,
            if from >= map.retired {
                from
            } else {
                map.retired
            },
        ),
        window_counts(map.history, map.clock, cell, from) == sum_counts(
            map.history,
            cell,
            if from >= map.retired {
                from
            } else {
                map.retired
            },
        ),
    decreases map.history.len() - from,
{
    if from < map.history.len() {
        lemma_retention(map, cell, from + 1);
        let entry = map.history[from as int];
        if from >= map.retired {
            assert(entry.due > map.clock);
            assert(in_window(entry, map.clock));
        } else {
            assert(entry.due <= map.clock);
            assert(!in_window(entry, map.clock));
        }
    }
}

/// The windowed costmap.
pub struct Costmap {
    window_duration: u64,
    area_width: usize,
    area_length: usize,
    heights: Vec<u64>,
    counts: Vec<u64>,
    pending: VecDeque<(u64, Vec<PointMeasurement>)>,
    clock: u64,
    touched: bool,
    history: Ghost<Seq<Scheduled>>,
    retired: Ghost<nat>,
}

impl View for Costmap {
    type V = CostmapView;

    closed spec fn view(&self) -> CostmapView {
        CostmapView {
            area_width: self.area_width,
            area_length: self.area_length,
            window_duration: self.window_duration,
            clock: self.clock,
            history: self.history@,
            retired: self.retired@,
        }
    }
}

/// A handle for reading a costmap: the cells as they were when the handle
/// was made.
pub struct CostmapRef {
    area_width: usize,
    area_length: usize,
    cells: Vec<CellTotal>,
}

impl Costmap {
    /// The counters hold, modulo their width, what the batches from
    /// `from` on put into the cells.
    spec fn counters_hold(&self, from: nat) -> bool {
        forall|cell: int|
            0 <= cell < self.heights@.len() ==> {
                &&& (#[trigger] self.heights@[cell]) == sum_heights(self.history@, cell, from)
                    % modulus()
                &&& self.counts@[cell] == sum_counts(self.history@, cell, from) % modulus()
            }
    }

    /// The queue of batches that wait to be taken out is the part of the
    /// history from `from` on.
    spec fn queue_matches(&self, from: nat) -> bool {
        &&& self.pending@.len() + from == self.history@.len()
        &&& forall|j: int|
            0 <= j < self.pending@.len() ==> {
                &&& (#[trigger] self.pending@[j]).0 == self.history@[from + j].due
                &&& self.pending@[j].1@ == self.history@[from + j].batch
            }
    }

    /// The invariant of a costmap. It holds of a new one and is kept by
    /// every method.
    pub closed spec fn wf(&self) -> bool {
        &&& self@.well_formed()
        &&& self.heights@.len() == self@.cells()
        &&& self.counts@.len() == self@.cells()
        &&& self.queue_matches(self.retired@)
        &&& self.counters_hold(self.retired@)
        &&& self.touched == (self.history@.len() > 0)
    }

    /// A costmap that is in order has a well-formed view.
    pub proof fn lemma_wf_view(&self)
        requires
            self.wf(),
        ensures
            self@.well_formed(),
    {
    }

    /// An empty costmap of `area_width` by `area_length` cells that keeps
    /// its points for [`DEFAULT_WINDOW`].
    pub fn new(area_width: usize, area_length: usize) -> (map: Self)
        requires
            area_width * area_length <= u32::MAX,
        ensures
            map.wf(),
            map@ == (CostmapView {
                area_width,
                area_length,
                window_duration: DEFAULT_WINDOW,
                clock: 0,
                history: Seq::<Scheduled>::empty(),
                retired: 0,
            }),
    {
        let cells = area_width * area_length;
        let mut heights: Vec<u64> = Vec::new();
        let mut counts: Vec<u64> = Vec::new();
        let mut i: usize = 0;
        while i < cells
            invariant
                0 <= i <= cells,
                heights@.len() == i,
                counts@.len() == i,
                forall|j: int| 0 <= j < i ==> heights@[j] == 0 && counts@[j] == 0,
            decreases cells - i,
        {
            heights.push(0);
            counts.push(0);
            i += 1;
        }
        let history: Ghost<Seq<Scheduled>> = Ghost(Seq::empty());
        let retired: Ghost<nat> = Ghost(0nat);
        Costmap {
            window_duration: DEFAULT_WINDOW,
            area_width,
            area_length,
            heights,
            counts,
            pending: VecDeque::new(),
            clock: 0,
            touched: false,
            history,
            retired,
        }
    }

    /// Sets the window for which points are kept. The window of a map that
    /// has been given a batch stays as it is; the result says whether the
    /// window was set.
    pub fn set_window_duration(&mut self, window_duration: u64) -> (set: bool)
        requires
            old(self).wf(),
        ensures
            final(self).wf(),
            set == (old(self)@.history.len() == 0),
            final(self)@ == if set {
                CostmapView { window_duration, ..old(self)@ }
            } else {
                old(self)@
            },
    {
        if !self.touched {
            self.window_duration = window_duration;
            true
        } else {
            false
        }
    }

    pub fn window_duration(&self) -> (window: u64)
        ensures
            window == self@.window_duration,
    {
        self.window_duration
    }

    /// The measurement for a point that falls into column `x` and row `z`
    /// of the grid at height `height_quantum`; `None` for a point beside
    /// the grid.
    pub fn measure(&self, x: i64, z: i64, height_quantum: u32) -> (m: Option<PointMeasurement>)
        requires
            self.wf(),
        ensures
            m == if 0 <= x < self@.area_width && 0 <= z < self@.area_length {
                Some(
                    PointMeasurement {
                        cell_index: (x * self@.area_length + z) as u32,
                        height_quantum,
                    },
                )
            } else {
                None
            },
            m matches Some(p) ==> p.cell_index < self@.cells(),
    {
        if x < 0 || z < 0 {
            return None;
        }
        if x as u64 >= self.area_width as u64 || z as u64 >= self.area_length as u64 {
            return None;
        }
        let width = self.area_width as u64;
        let length = self.area_length as u64;
        assert(x * length + z < width * length) by (nonlinear_arith)
            requires
                0 <= x < width,
                0 <= z < length,
        ;
        let index = x as u64 * length + z as u64;
        Some(PointMeasurement { cell_index: index as u32, height_quantum })
    }

    /// Takes a batch that arrived at `now`: its points are added to their
    /// cells, and the batch is scheduled to leave one window later.
    pub fn ingest(&mut self, now: u64, batch: Vec<PointMeasurement>)
        requires
            old(self).wf(),
            batch_fits(batch@, old(self)@.cells()),
        ensures
            final(self).wf(),
            final(self)@ == (CostmapView {
                clock: spec_later(old(self)@.clock, now),
                history: old(self)@.history.push(
                    Scheduled {
                        time: spec_later(old(self)@.clock, now),
                        due: spec_due(spec_later(old(self)@.clock, now), old(self)@.window_duration),
                        batch: batch@,
                    },
                ),
                ..old(self)@
            }),
    {
        if now > self.clock {
            self.clock = now;
        }
        let due = self.clock.saturating_add(self.window_duration);
        let ghost entry = Scheduled { time: self.clock, due, batch: batch@ };
        let ghost history = self.history@;
        let ghost from = self.retired@;
        let ghost height_base = |c: int| sum_heights(history, c, from);
        let ghost count_base = |c: int| sum_counts(history, c, from);
        proof {
            assert forall|c: int| 0 <= c < self.heights@.len() implies 0 <= #[trigger] height_base(
                c,
            ) && 0 <= count_base(c) && self.heights@[c] == height_base(c) % modulus()
                && self.counts@[c] == count_base(c) % modulus() by {
                lemma_sums_nonnegative(history, c, from);
                assert(self.heights@[c] == sum_heights(history, c, from) % modulus());
            }
        }
        add_batch(&mut self.heights, &mut self.counts, &batch, Ghost(height_base), Ghost(count_base));
        proof {
            let longer = self.history@.push(entry);
            assert forall|c: int| 0 <= c < self.heights@.len() implies {
                &&& (#[trigger] self.heights@[c]) == sum_heights(longer, c, self.retired@)
                    % modulus()
                &&& self.counts@[c] == sum_counts(longer, c, self.retired@) % modulus()
            } by {
                lemma_sum_push(history, entry, c, from);
                assert(height_base(c) == sum_heights(history, c, from));
                assert(count_base(c) == sum_counts(history, c, from));
                assert(self.heights@[c] == (height_base(c) + batch_height(
                    batch@,
                    c,
                    batch@.len(),
                )) % modulus());
            }
        }
        self.pending.push_back((due, batch));
        self.history = Ghost(self.history@.push(entry));
        self.touched = true;
    }

    /// Moves the clock to `now` and takes out every batch that is due by
    /// then, oldest first.
    pub fn retire(&mut self, now: u64)
        requires
            old(self).wf(),
        ensures
            final(self).wf(),
            final(self)@.retention(),
            final(self)@ == (CostmapView {
                clock: spec_later(old(self)@.clock, now),
                retired: final(self)@.retired,
                ..old(self)@
            }),
    {
        if now > self.clock {
            self.clock = now;
        }
        while self.pending.len() > 0 && self.pending[0].0 <= self.clock
            invariant
                self.wf(),
                self@ == (CostmapView {
                    clock: spec_later(old(self)@.clock, now),
                    retired: self@.retired,
                    ..old(self)@
                }),
            decreases self.pending@.len(),
        {
            let ghost front = self.pending@[0];
            let ghost queue_before = self.pending@;
            let (due, batch) = match self.pending.pop_front() {
                Some(front) => front,
                None => {
                    assert(false);
                    (0, Vec::new())
                },
            };
            let ghost history = self.history@;
            let ghost from = self.retired@;
            let ghost height_base = |c: int| sum_heights(history, c, from);
            let ghost count_base = |c: int| sum_counts(history, c, from);
            proof {
                assert(front.1@ == history[from as int + 0].batch);
                assert(batch@ == history[from as int].batch);
                assert forall|c: int| 0 <= c < self.heights@.len() implies batch_height(
                    batch@,
                    c,
                    batch@.len(),
                ) <= #[trigger] height_base(c) && batch_count(batch@, c, batch@.len())
                    <= count_base(c) && self.heights@[c] == height_base(c) % modulus()
                    && self.counts@[c] == count_base(c) % modulus() by {
                    lemma_sums_nonnegative(history, c, from + 1);
                    lemma_sum_unfold(history, c, from);
                    assert(self.heights@[c] == sum_heights(history, c, from) % modulus());
                }
            }
            take_batch(
                &mut self.heights,
                &mut self.counts,
                &batch,
                Ghost(height_base),
                Ghost(count_base),
            );
            self.retired = Ghost(from + 1);
            proof {
                assert(front.0 == history[from as int + 0].due);
                assert(self.queue_matches((from + 1) as nat)) by {
                    assert forall|j: int| 0 <= j < self.pending@.len() implies {
                        &&& (#[trigger] self.pending@[j]).0 == history[from + 1 + j].due
                        &&& self.pending@[j].1@ == history[from + 1 + j].batch
                    } by {
                        assert(self.pending@[j] == queue_before[j + 1]);
                        assert(queue_before[j + 1].0 == history[from + (j + 1)].due);
                    }
                }
                assert(self.counters_hold((from + 1) as nat)) by {
                    assert forall|c: int| 0 <= c < self.heights@.len() implies {
                        &&& (#[trigger] self.heights@[c]) == sum_heights(
                            history,
                            c,
                            (from + 1) as nat,
                        ) % modulus()
                        &&& self.counts@[c] == sum_counts(history, c, (from + 1) as nat)
                            % modulus()
                    } by {
                        lemma_sum_unfold(history, c, from);
                        assert(history[from as int].batch == batch@);
                        assert(height_base(c) == sum_heights(history, c, from));
                        assert(count_base(c) == sum_counts(history, c, from));
                        assert(self.heights@[c] == (height_base(c) - batch_height(
                            batch@,
                            c,
                            batch@.len(),
                        )) % modulus());
                        assert(self.counts@[c] == (count_base(c) - batch_count(
                            batch@,
                            c,
                            batch@.len(),
                        )) % modulus());
                        assert(height_base(c) - batch_height(batch@, c, batch@.len())
                            == sum_heights(history, c, (from + 1) as nat));
                        assert(count_base(c) - batch_count(batch@, c, batch@.len()) == sum_counts(
                            history,
                            c,
                            (from + 1) as nat,
                        ));
                    }
                }
                assert(self@.well_formed()) by {
                    assert forall|j: int| 0 <= j < self.retired@ implies (
                    #[trigger] self.history@[j]).due <= self.clock by {
                        if j == from {
                            assert(history[from as int].due == front.0);
                        }
                    }
                }
            }
        }
        proof {
            let v = self@;
            assert forall|j: int| v.retired <= j < v.history.len() implies (
            #[trigger] v.history[j]).due > v.clock by {
                assert(self.pending@[0].0 == v.history[v.retired as int].due);
                assert(v.history[v.retired as int].time <= v.history[j].time);
            }
        }
    }

    /// The time at which the oldest batch still in the map is due to leave;
    /// `None` where the map holds no batch.
    pub fn next_due(&self) -> (due: Option<u64>)
        requires
            self.wf(),
        ensures
            due == if self@.retired < self@.history.len() {
                Some(self@.history[self@.retired as int].due)
            } else {
                None
            },
    {
        if self.pending.len() > 0 {
            assert(self.pending@[0].0 == self.history@[self.retired@ as int + 0].due);
            Some(self.pending[0].0)
        } else {
            None
        }
    }

    /// The cells as they are: for each, the sum of the heights and the
    /// number of the points that have arrived and not been taken out.
    pub fn get_costmap(&self) -> (cells: Vec<CellTotal>)
        requires
            self.wf(),
        ensures
            cells@.len() == self@.cells(),
            forall|cell: int| 0 <= cell < cells@.len() ==> cells@[cell] == self@.total(cell),
    {
        let mut cells: Vec<CellTotal> = Vec::new();
        let mut i: usize = 0;
        while i < self.heights.len()
            invariant
                0 <= i <= self.heights@.len(),
                self.wf(),
                cells@.len() == i,
                forall|cell: int| 0 <= cell < i ==> cells@[cell] == self@.total(cell),
            decreases self.heights@.len() - i,
        {
            cells.push(CellTotal { height_sum: self.heights[i], count: self.counts[i] });
            i += 1;
        }
        cells
    }

    /// The cells at time `now`: the batches that are due by then are taken
    /// out first, so that every cell holds exactly what arrived within the
    /// window that ends at `now`.
    pub fn snapshot(&mut self, now: u64) -> (cells: Vec<CellTotal>)
        requires
            old(self).wf(),
        ensures
            final(self).wf(),
            final(self)@.retention(),
            final(self)@ == (CostmapView {
                clock: spec_later(old(self)@.clock, now),
                retired: final(self)@.retired,
                ..old(self)@
            }),
            cells@.len() == final(self)@.cells(),
            forall|cell: int|
                0 <= cell < cells@.len() ==> {
                    &&& (#[trigger] cells@[cell]).height_sum == window_heights(
                        final(self)@.history,
                        final(self)@.clock,
                        cell,
                        0,
                    ) % modulus()
                    &&& cells@[cell].count == window_counts(
                        final(self)@.history,
                        final(self)@.clock,
                        cell,
                        0,
                    ) % modulus()
                },
    {
        self.retire(now);
        let cells = self.get_costmap();
        proof {
            assert forall|cell: int| 0 <= cell < cells@.len() implies {
                &&& (#[trigger] cells@[cell]).height_sum == window_heights(
                    self@.history,
                    self@.clock,
                    cell,
                    0,
                ) % modulus()
                &&& cells@[cell].count == window_counts(self@.history, self@.clock, cell, 0)
                    % modulus()
            } by {
                lemma_retention(self@, cell, 0);
                assert(cells@[cell] == self@.total(cell));
            }
        }
        cells
    }

    /// A handle that reads the cells as they are now.
    pub fn get_ref(&self) -> (handle: CostmapRef)
        requires
            self.wf(),
        ensures
            handle.wf(),
            handle.area_width() == self@.area_width,
            handle.area_length() == self@.area_length,
            handle@.len() == self@.cells(),
            forall|cell: int| 0 <= cell < handle@.len() ==> handle@[cell] == self@.total(cell),
    {
        CostmapRef {
            area_width: self.area_width,
            area_length: self.area_length,
            cells: self.get_costmap(),
        }
    }
}

impl View for CostmapRef {
    type V = Seq<CellTotal>;

    closed spec fn view(&self) -> Seq<CellTotal> {
        self.cells@
    }
}

impl CostmapRef {
    pub closed spec fn area_width(&self) -> usize {
        self.area_width
    }

    pub closed spec fn area_length(&self) -> usize {
        self.area_length
    }

    /// The handle has one cell for each cell of the grid.
    pub closed spec fn wf(&self) -> bool {
        self.cells@.len() == self.area_width * self.area_length
    }

    /// The cells, column after column: the cell in column `x` and row `z`
    /// stands at `x * area_length + z`.
    pub fn get_costmap(&self) -> (cells: Vec<CellTotal>)
        ensures
            cells@ == self@,
    {
        let mut cells: Vec<CellTotal> = Vec::new();
        let mut i: usize = 0;
        while i < self.cells.len()
            invariant
                0 <= i <= self.cells@.len(),
                cells@ == self.cells@.take(i as int),
            decreases self.cells@.len() - i,
        {
            cells.push(self.cells[i]);
            assert(self.cells@.take(i + 1) =~= self.cells@.take(i as int).push(self.cells@[i as int]));
            i += 1;
        }
        assert(self.cells@.take(self.cells@.len() as int) =~= self.cells@);
        cells
    }

    /// The cell in column `x` and row `z`, or `None` beside the grid.
    pub fn cell(&self, x: usize, z: usize) -> (total: Option<CellTotal>)
        requires
            self.wf(),
        ensures
            total == if x < self.area_width() && z < self.area_length() {
                Some(self@[x * self.area_length() + z])
            } else {
                None
            },
    {
        let n = self.cells.len();
        if x < self.area_width && z < self.area_length {
            assert(x * self.area_length + z < self.area_width * self.area_length && x
                * self.area_length >= 0) by (nonlinear_arith)
                requires
                    0 <= x < self.area_width,
                    0 <= z < self.area_length,
            ;
            Some(self.cells[x * self.area_length + z])
        } else {
            None
        }
    }
}

} // verus!
