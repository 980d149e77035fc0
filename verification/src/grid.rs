//! Geometry of the integer grid that the pathfinder searches: distances
//! between cells and the four-connected neighbourhood.

use crate::node_table::Cell;
use vstd::prelude::*;

verus! {

/// The distance between two coordinates on one axis.
pub open spec fn spec_gap(a: int, b: int) -> int {
    if a <= b {
        b - a
    } else {
        a - b
    }
}

pub fn gap(a: i32, b: i32) -> (d: u64)
    ensures
        d == spec_gap(a as int, b as int),
        d <= 0xffff_ffff,
{
    if a <= b {
        (b as i64 - a as i64) as u64
    } else {
        (a as i64 - b as i64) as u64
    }
}

/// The number of unit steps between two cells when only the four cardinal
/// moves are allowed.
pub open spec fn spec_manhattan(a: Cell, b: Cell) -> int {
    spec_gap(a.0 as int, b.0 as int) + spec_gap(a.1 as int, b.1 as int)
}

pub fn manhattan(a: Cell, b: Cell) -> (d: u64)
    ensures
        d == spec_manhattan(a, b),
{
    gap(a.0, b.0) + gap(a.1, b.1)
}

/// `r` is the square root of `n`, rounded down.
pub open spec fn is_floor_sqrt(n: int, r: int) -> bool {
    0 <= r && r * r <= n < (r + 1) * (r + 1)
}

/// A number has one rounded-down square root.
pub proof fn lemma_floor_sqrt_unique(n: int, r: int, s: int)
    requires
        is_floor_sqrt(n, r),
        is_floor_sqrt(n, s),
    ensures
        r == s,
{
    if r < s {
        assert((r + 1) * (r + 1) <= s * s) by (nonlinear_arith)
            requires
                0 <= r,
                r + 1 <= s,
        ;
    } else if s < r {
        assert((s + 1) * (s + 1) <= r * r) by (nonlinear_arith)
            requires
                0 <= s,
                s + 1 <= r,
        ;
    }
}

/// Every number from zero up has a rounded-down square root.
pub proof fn lemma_floor_sqrt_exists(n: int)
    requires
        0 <= n,
    ensures
        exists|r: int| is_floor_sqrt(n, r),
    decreases n,
{
    if n == 0 {
        assert(is_floor_sqrt(0, 0));
    } else {
        let m = n - 1;
        lemma_floor_sqrt_exists(m);
        let r = choose|r: int| is_floor_sqrt(m, r);
        if n < (r + 1) * (r + 1) {
            assert(is_floor_sqrt(n, r));
        } else {
            assert((r + 1) * (r + 1) < (r + 2) * (r + 2)) by (nonlinear_arith)
                requires
                    0 <= r,
            ;
            assert(is_floor_sqrt(n, r + 1));
        }
    }
}

/// The square root of `n`, rounded down.
pub open spec fn spec_floor_sqrt(n: int) -> int {
    choose|r: int| is_floor_sqrt(n, r)
}

/// The square root of `n`, rounded down.
pub fn floor_sqrt(n: u128) -> (r: u64)
    ensures
        is_floor_sqrt(n as int, r as int),
        r == spec_floor_sqrt(n as int),
{
    let mut lo: u128 = 0;
    let mut hi: u128 = 0x1_0000_0000_0000_0000;
    assert(n < hi * hi) by (nonlinear_arith)
        requires
            hi == 0x1_0000_0000_0000_0000,
            n <= 0xffff_ffff_ffff_ffff_ffff_ffff_ffff_ffff,
    ;
    while hi - lo > 1
        invariant
            lo < hi <= 0x1_0000_0000_0000_0000,
            lo * lo <= n < hi * hi,
        decreases hi - lo,
    {
        let mid: u128 = lo + (hi - lo) / 2;
        assert(mid * mid <= 0xffff_ffff_ffff_ffff * 0xffff_ffff_ffff_ffff) by (nonlinear_arith)
            requires
                0 <= mid <= 0xffff_ffff_ffff_ffff,
        ;
        if mid * mid <= n {
            lo = mid;
        } else {
            hi = mid;
        }
    }
    proof {
        lemma_floor_sqrt_unique(n as int, lo as int, spec_floor_sqrt(n as int));
    }
    lo as u64
}

/// The sum of the squares of the two gaps between `a` and `b`.
pub open spec fn spec_squared_distance(a: Cell, b: Cell) -> int {
    spec_gap(a.0 as int, b.0 as int) * spec_gap(a.0 as int, b.0 as int) + spec_gap(
        a.1 as int,
        b.1 as int,
    ) * spec_gap(a.1 as int, b.1 as int)
}

/// The straight-line distance between two cells, rounded down to whole
/// cells.
pub open spec fn spec_euclid_floor(a: Cell, b: Cell) -> int {
    spec_floor_sqrt(spec_squared_distance(a, b))
}

pub fn euclid_floor(a: Cell, b: Cell) -> (r: u64)
    ensures
        r == spec_euclid_floor(a, b),
        r <= spec_manhattan(a, b),
{
    let dx: u128 = gap(a.0, b.0) as u128;
    let dy: u128 = gap(a.1, b.1) as u128;
    assert(dx * dx <= 0xffff_ffff * 0xffff_ffff) by (nonlinear_arith)
        requires
            0 <= dx <= 0xffff_ffff,
    ;
    assert(dy * dy <= 0xffff_ffff * 0xffff_ffff) by (nonlinear_arith)
        requires
            0 <= dy <= 0xffff_ffff,
    ;
    let r = floor_sqrt(dx * dx + dy * dy);
    proof {
        lemma_floor_sqrt_below_sum(dx as int, dy as int, r as int);
    }
    r
}

/// The rounded-down length of a diagonal is at most the sum of its sides.
pub proof fn lemma_floor_sqrt_below_sum(dx: int, dy: int, r: int)
    requires
        0 <= dx,
        0 <= dy,
        is_floor_sqrt(dx * dx + dy * dy, r),
    ensures
        r <= dx + dy,
{
    if r > dx + dy {
        assert(r * r >= (dx + dy + 1) * (dx + dy + 1)) by (nonlinear_arith)
            requires
                r >= dx + dy + 1,
                dx + dy >= 0,
        ;
        assert((dx + dy + 1) * (dx + dy + 1) > dx * dx + dy * dy) by (nonlinear_arith)
            requires
                0 <= dx,
                0 <= dy,
        ;
    }
}

/// The cell one step from `c` by `(dx, dy)`, where the grid has such a cell.
pub open spec fn spec_shift(c: Cell, dx: int, dy: int) -> Option<Cell> {
    if i32::MIN <= c.0 + dx <= i32::MAX && i32::MIN <= c.1 + dy <= i32::MAX {
        Some(((c.0 + dx) as i32, (c.1 + dy) as i32))
    } else {
        None
    }
}

/// `s` with `c` appended where there is one.
pub open spec fn push_some(s: Seq<Cell>, c: Option<Cell>) -> Seq<Cell> {
    match c {
        Some(cell) => s.push(cell),
        None => s,
    }
}

/// The cells next to `c`: up, right, down, left, leaving out those that
/// would lie beyond the grid's coordinate range.
pub open spec fn spec_neighbours(c: Cell) -> Seq<Cell> {
    push_some(
        push_some(
            push_some(push_some(Seq::empty(), spec_shift(c, 0, 1)), spec_shift(c, 1, 0)),
            spec_shift(c, 0, -1),
        ),
        spec_shift(c, -1, 0),
    )
}

pub fn shift(c: Cell, dx: i32, dy: i32) -> (moved: Option<Cell>)
    ensures
        moved == spec_shift(c, dx as int, dy as int),
{
    match (c.0.checked_add(dx), c.1.checked_add(dy)) {
        (Some(x), Some(y)) => Some((x, y)),
        _ => None,
    }
}

pub fn neighbours(c: Cell) -> (cells: Vec<Cell>)
    ensures
        cells@ == spec_neighbours(c),
{
    let mut cells: Vec<Cell> = Vec::new();
    if let Some(n) = shift(c, 0, 1) {
        cells.push(n);
    }
    if let Some(n) = shift(c, 1, 0) {
        cells.push(n);
    }
    if let Some(n) = shift(c, 0, -1) {
        cells.push(n);
    }
    if let Some(n) = shift(c, -1, 0) {
        cells.push(n);
    }
    cells
}

/// Two cells are the same cell or differ by one step along one axis.
pub open spec fn spec_within_one_step(a: Cell, b: Cell) -> bool {
    (a.0 == b.0 && spec_gap(a.1 as int, b.1 as int) <= 1) || (a.1 == b.1 && spec_gap(
        a.0 as int,
        b.0 as int,
    ) <= 1)
}

pub fn within_one_step(a: Cell, b: Cell) -> (b_near: bool)
    ensures
        b_near == spec_within_one_step(a, b),
{
    (a.0 == b.0 && gap(a.1, b.1) <= 1) || (a.1 == b.1 && gap(a.0, b.0) <= 1)
}

} // verus!
