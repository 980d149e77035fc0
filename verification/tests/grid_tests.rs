use rover_core::frontier::Frontier;
use rover_core::frontier::SmallestCostHolder;
use rover_core::grid::euclid_floor;
use rover_core::grid::floor_sqrt;
use rover_core::grid::gap;
use rover_core::grid::manhattan;
use rover_core::grid::neighbours;
use rover_core::grid::shift;
use rover_core::grid::within_one_step;

#[test]
fn gap_is_symmetric_and_exact() {
    assert_eq!(gap(3, 10), 7);
    assert_eq!(gap(10, 3), 7);
    assert_eq!(gap(-4, 4), 8);
    assert_eq!(gap(5, 5), 0);
}

#[test]
fn gap_spans_the_whole_coordinate_range() {
    assert_eq!(gap(i32::MIN, i32::MAX), 0xffff_ffff);
    assert_eq!(gap(i32::MAX, i32::MIN), 0xffff_ffff);
}

#[test]
fn manhattan_adds_both_gaps() {
    assert_eq!(manhattan((0, 0), (9, 0)), 9);
    assert_eq!(manhattan((0, 0), (3, 4)), 7);
    assert_eq!(manhattan((-2, 5), (2, -5)), 14);
    assert_eq!(manhattan((i32::MIN, i32::MIN), (i32::MAX, i32::MAX)), 2 * 0xffff_ffffu64);
}

#[test]
fn floor_sqrt_of_small_numbers() {
    assert_eq!(floor_sqrt(0), 0);
    assert_eq!(floor_sqrt(1), 1);
    assert_eq!(floor_sqrt(2), 1);
    assert_eq!(floor_sqrt(3), 1);
    assert_eq!(floor_sqrt(4), 2);
    assert_eq!(floor_sqrt(24), 4);
    assert_eq!(floor_sqrt(25), 5);
    assert_eq!(floor_sqrt(26), 5);
}

#[test]
fn floor_sqrt_of_large_numbers() {
    assert_eq!(floor_sqrt(u128::MAX), u64::MAX);
    assert_eq!(floor_sqrt(1u128 << 64), 1u64 << 32);
    assert_eq!(floor_sqrt((1u128 << 64) - 1), (1u64 << 32) - 1);
    let r = 123_456_789_012u128;
    assert_eq!(floor_sqrt(r * r), r as u64);
    assert_eq!(floor_sqrt(r * r - 1), r as u64 - 1);
}

#[test]
fn euclid_floor_rounds_down() {
    assert_eq!(euclid_floor((0, 0), (3, 4)), 5);
    assert_eq!(euclid_floor((0, 0), (1, 1)), 1);
    assert_eq!(euclid_floor((0, 0), (2, 2)), 2);
    assert_eq!(euclid_floor((0, 0), (9, 0)), 9);
    assert_eq!(euclid_floor((7, 7), (7, 7)), 0);
}

#[test]
fn euclid_floor_never_exceeds_manhattan() {
    for x in -6..=6 {
        for y in -6..=6 {
            let a = (x, y);
            let b = (2, -3);
            assert!(euclid_floor(a, b) <= manhattan(a, b));
        }
    }
    assert!(
        euclid_floor((i32::MIN, i32::MIN), (i32::MAX, i32::MAX))
            <= manhattan((i32::MIN, i32::MIN), (i32::MAX, i32::MAX))
    );
}

#[test]
fn neighbours_come_up_right_down_left() {
    assert_eq!(neighbours((0, 0)), vec![(0, 1), (1, 0), (0, -1), (-1, 0)]);
    assert_eq!(neighbours((4, -2)), vec![(4, -1), (5, -2), (4, -3), (3, -2)]);
}

#[test]
fn neighbours_stop_at_the_edge_of_the_coordinate_range() {
    assert_eq!(neighbours((i32::MAX, i32::MAX)), vec![(i32::MAX, i32::MAX - 1), (i32::MAX - 1, i32::MAX)]);
    assert_eq!(neighbours((i32::MIN, 0)), vec![(i32::MIN, 1), (i32::MIN + 1, 0), (i32::MIN, -1)]);
}

#[test]
fn shift_reports_cells_beyond_the_range() {
    assert_eq!(shift((1, 1), 1, 0), Some((2, 1)));
    assert_eq!(shift((i32::MAX, 1), 1, 0), None);
    assert_eq!(shift((1, i32::MIN), 0, -1), None);
}

#[test]
fn within_one_step_is_cardinal_only() {
    assert!(within_one_step((3, 3), (3, 3)));
    assert!(within_one_step((3, 4), (3, 3)));
    assert!(within_one_step((2, 3), (3, 3)));
    assert!(!within_one_step((4, 4), (3, 3)));
    assert!(!within_one_step((3, 5), (3, 3)));
}

fn entry(estimated_cost: u64, cost: u64, index: usize) -> SmallestCostHolder {
    SmallestCostHolder { estimated_cost, cost, index }
}

#[test]
fn lower_estimate_precedes() {
    assert!(entry(3, 9, 0).precedes(&entry(4, 0, 1)));
    assert!(!entry(4, 0, 1).precedes(&entry(3, 9, 0)));
}

#[test]
fn equal_estimates_prefer_the_lower_cost() {
    assert!(entry(5, 2, 9).precedes(&entry(5, 3, 1)));
    assert!(!entry(5, 3, 1).precedes(&entry(5, 2, 9)));
}

#[test]
fn equal_costs_prefer_the_earlier_node() {
    assert!(entry(5, 3, 0).precedes(&entry(5, 3, 1)));
    assert!(!entry(5, 3, 1).precedes(&entry(5, 3, 0)));
    assert!(entry(5, 3, 1).precedes(&entry(5, 3, 1)));
}

#[test]
fn frontier_pops_least_first() {
    let mut frontier = Frontier::new();
    assert!(frontier.is_empty());
    frontier.push(entry(7, 1, 0));
    frontier.push(entry(3, 3, 1));
    frontier.push(entry(5, 0, 2));
    frontier.push(entry(3, 1, 3));
    assert_eq!(frontier.len(), 4);
    let order: Vec<usize> = std::iter::from_fn(|| frontier.pop()).map(|e| e.index).collect();
    assert_eq!(order, vec![3, 1, 2, 0]);
    assert!(frontier.pop().is_none());
}

#[test]
fn frontier_breaks_ties_by_index() {
    let mut frontier = Frontier::new();
    frontier.push(entry(2, 2, 12));
    frontier.push(entry(2, 2, 10));
    frontier.push(entry(2, 2, 11));
    frontier.push(entry(2, 2, 10));
    assert_eq!(frontier.pop().unwrap().index, 10);
    assert_eq!(frontier.pop().unwrap().index, 10);
    assert_eq!(frontier.pop().unwrap().index, 11);
    assert_eq!(frontier.pop().unwrap().index, 12);
    assert!(frontier.is_empty());
}

#[test]
fn frontier_sorts_many_entries() {
    let mut frontier = Frontier::new();
    let mut expected = Vec::new();
    let mut x: u64 = 12345;
    for index in 0..500usize {
        x = x.wrapping_mul(6364136223846793005).wrapping_add(1442695040888963407);
        let estimated_cost = (x >> 33) % 50;
        let cost = (x >> 20) % 7;
        frontier.push(entry(estimated_cost, cost, index));
        expected.push((estimated_cost, cost, index));
        if index % 5 == 4 {
            expected.sort();
            let least = frontier.pop().unwrap();
            assert_eq!((least.estimated_cost, least.cost, least.index), expected.remove(0));
        }
    }
    expected.sort();
    assert_eq!(frontier.len(), expected.len());
    let popped: Vec<(u64, u64, usize)> = std::iter::from_fn(|| frontier.pop())
        .map(|e| (e.estimated_cost, e.cost, e.index))
        .collect();
    assert_eq!(popped, expected);
}
