use rover_core::astar::astar;
use rover_core::grid::manhattan;
use rover_core::grid::neighbours;
use rover_core::search::Heuristic;
use rover_core::search::Node;
use rover_core::search::Search;

fn node(x: i32, y: i32) -> Node<f32> {
    Node { position: (x, y), height: 0.0 }
}

fn open_ground(n: &Node<f32>) -> Vec<(Node<f32>, u64)> {
    neighbours(n.position).into_iter().map(|c| (Node { position: c, height: n.height }, 1)).collect()
}

#[test]
fn nodes_are_equal_by_position_alone() {
    let a = Node { position: (1, 2), height: 0.5f32 };
    let b = Node { position: (1, 2), height: 7.0f32 };
    let c = Node { position: (2, 1), height: 0.5f32 };
    assert!(a == b);
    assert!(a != c);
}

#[test]
fn heuristic_estimates() {
    assert_eq!(Heuristic::Zero.estimate((40, 2)), 0);
    assert_eq!(Heuristic::Euclid { goal: (3, 4) }.estimate((0, 0)), 5);
    assert_eq!(Heuristic::Euclid { goal: (3, 4) }.estimate((3, 4)), 0);
    assert_eq!(Heuristic::Euclid { goal: (0, 0) }.estimate((1, 1)), 1);
}

#[test]
fn new_search_visits_start_first() {
    let mut search = Search::new(node(0, 0), Heuristic::Zero);
    assert_eq!(search.len(), 1);
    let visit = search.next().unwrap();
    assert_eq!(visit.index, 0);
    assert_eq!(visit.cost, 0);
    assert_eq!(visit.node.position, (0, 0));
    assert!(!visit.stale);
    search.expand(Vec::new());
    assert!(search.next().is_none());
}

#[test]
fn expansion_records_new_nodes_in_order() {
    let mut search = Search::new(node(0, 0), Heuristic::Zero);
    search.next().unwrap();
    search.expand(vec![(node(0, 1), 1), (node(1, 0), 1)]);
    assert_eq!(search.len(), 3);
    assert_eq!(search.node_at(1).unwrap().position, (0, 1));
    assert_eq!(search.node_at(2).unwrap().position, (1, 0));
    assert!(search.node_at(3).is_none());
    let visit = search.next().unwrap();
    assert_eq!((visit.index, visit.cost), (1, 1));
}

#[test]
fn a_cheaper_path_reparents_and_keeps_the_height() {
    let mut search = Search::new(node(0, 0), Heuristic::Zero);
    search.next().unwrap();
    search.expand(vec![
        (Node { position: (5, 5), height: 1.5 }, 10),
        (Node { position: (1, 0), height: 0.0 }, 1),
    ]);
    let visit = search.next().unwrap();
    assert_eq!(visit.node.position, (1, 0));
    search.expand(vec![(Node { position: (5, 5), height: 9.0 }, 2)]);
    let visit = search.next().unwrap();
    assert_eq!(visit.node.position, (5, 5));
    assert_eq!(visit.cost, 3);
    assert!(!visit.stale);
    assert_eq!(visit.node.height, 1.5);
    let path = search.path_to(visit.index);
    let cells: Vec<(i32, i32)> = path.iter().map(|n| n.position).collect();
    assert_eq!(cells, vec![(0, 0), (1, 0), (5, 5)]);
    search.expand(Vec::new());
    let old = search.next().unwrap();
    assert_eq!(old.node.position, (5, 5));
    assert_eq!(old.cost, 10);
    assert!(old.stale);
}

#[test]
fn a_dearer_path_changes_nothing() {
    let mut search = Search::new(node(0, 0), Heuristic::Zero);
    search.next().unwrap();
    search.expand(vec![(node(1, 0), 1), (node(2, 0), 5)]);
    let visit = search.next().unwrap();
    assert_eq!(visit.node.position, (1, 0));
    search.expand(vec![(node(2, 0), 4)]);
    assert_eq!(search.len(), 3);
    let visit = search.next().unwrap();
    assert_eq!((visit.node.position, visit.cost, visit.stale), ((2, 0), 5, false));
    search.expand(Vec::new());
    assert!(search.next().is_none());
}

#[test]
fn stale_entries_are_not_expanded() {
    let mut search = Search::new(node(0, 0), Heuristic::Zero);
    search.next().unwrap();
    search.expand(vec![(node(3, 3), 9), (node(1, 0), 1)]);
    search.next().unwrap();
    search.expand(vec![(node(3, 3), 1)]);
    let fresh = search.next().unwrap();
    assert_eq!(fresh.cost, 2);
    search.expand(Vec::new());
    let stale = search.next().unwrap();
    assert!(stale.stale);
    search.expand(vec![(node(8, 8), 1)]);
    assert_eq!(search.len(), 3);
    assert!(search.next().is_none());
}

#[test]
fn a_step_whose_cost_overflows_is_passed_over() {
    let mut search = Search::new(node(0, 0), Heuristic::Zero);
    search.next().unwrap();
    search.expand(vec![(node(1, 0), u64::MAX)]);
    search.next().unwrap();
    search.expand(vec![(node(2, 0), 1)]);
    assert_eq!(search.len(), 2);
}

#[test]
fn expand_without_a_current_entry_does_nothing() {
    let mut search = Search::new(node(0, 0), Heuristic::Zero);
    search.expand(vec![(node(1, 0), 1)]);
    assert_eq!(search.len(), 1);
}

#[test]
fn path_to_start_is_the_start_alone() {
    let search = Search::new(node(4, 4), Heuristic::Zero);
    let path = search.path_to(0);
    assert_eq!(path.len(), 1);
    assert_eq!(path[0].position, (4, 4));
}

#[test]
fn astar_cost_is_manhattan_on_open_ground() {
    for goal in [(9, 0), (0, 9), (-4, 3), (5, 5), (0, 0), (-3, -7)] {
        let found = astar(
            &node(0, 0),
            open_ground,
            Heuristic::Euclid { goal },
            |n: &Node<f32>| n.position == goal,
            100_000,
        );
        let (path, cost) = found.unwrap();
        assert_eq!(cost, manhattan((0, 0), goal));
        assert_eq!(path.len() as u64, cost + 1);
        assert_eq!(path.first().unwrap().position, (0, 0));
        assert_eq!(path.last().unwrap().position, goal);
        for pair in path.windows(2) {
            assert_eq!(manhattan(pair[0].position, pair[1].position), 1);
        }
    }
}

#[test]
fn astar_straight_line_visits_each_cell_once() {
    let (path, cost) = astar(
        &node(0, 0),
        open_ground,
        Heuristic::Euclid { goal: (9, 0) },
        |n: &Node<f32>| n.position == (9, 0),
        1000,
    )
    .unwrap();
    assert_eq!(cost, 9);
    let cells: Vec<(i32, i32)> = path.iter().map(|n| n.position).collect();
    assert_eq!(cells, (0..=9).map(|x| (x, 0)).collect::<Vec<_>>());
}

#[test]
fn astar_gives_up_when_nothing_is_left() {
    let walled = |n: &Node<f32>| -> Vec<(Node<f32>, u64)> {
        open_ground(n)
            .into_iter()
            .filter(|(s, _)| s.position.0.abs() <= 2 && s.position.1.abs() <= 2)
            .collect()
    };
    let found = astar(&node(0, 0), walled, Heuristic::Euclid { goal: (9, 9) }, |n: &Node<f32>| n.position == (9, 9), 100_000);
    assert!(found.is_none());
}

#[test]
fn astar_gives_up_when_the_budget_is_spent() {
    let found = astar(&node(0, 0), open_ground, Heuristic::Euclid { goal: (50, 50) }, |n: &Node<f32>| n.position == (50, 50), 10);
    assert!(found.is_none());
    let found = astar(&node(0, 0), open_ground, Heuristic::Zero, |n: &Node<f32>| n.position == (0, 0), 0);
    assert!(found.is_none());
}

#[test]
fn astar_with_zero_heuristic_is_breadth_first() {
    let (path, cost) = astar(&node(0, 0), open_ground, Heuristic::Zero, |n: &Node<f32>| n.position == (2, 1), 10_000).unwrap();
    assert_eq!(cost, 3);
    assert_eq!(path.len(), 4);
}

#[test]
fn astar_detours_around_a_wall() {
    let wall = |n: &Node<f32>| -> Vec<(Node<f32>, u64)> {
        open_ground(n)
            .into_iter()
            .filter(|(s, _)| !(s.position.0 == 2 && s.position.1.abs() <= 2))
            .filter(|(s, _)| s.position.0.abs() <= 10 && s.position.1.abs() <= 10)
            .collect()
    };
    let (path, cost) = astar(&node(0, 0), wall, Heuristic::Euclid { goal: (4, 0) }, |n: &Node<f32>| n.position == (4, 0), 100_000).unwrap();
    assert_eq!(cost, 10);
    assert!(path.iter().all(|n| !(n.position.0 == 2 && n.position.1.abs() <= 2)));
}

#[test]
fn astar_accepts_the_start_in_its_first_round() {
    let (path, cost) =
        astar(&node(3, 4), open_ground, Heuristic::Zero, |_: &Node<f32>| true, 1).unwrap();
    assert_eq!(cost, 0);
    assert_eq!(path.len(), 1);
    assert_eq!(path[0].position, (3, 4));
}

#[test]
fn astar_asks_for_successors_once_for_each_round_that_goes_on() {
    let asked = std::cell::Cell::new(0u32);
    let counted = |n: &Node<f32>| {
        asked.set(asked.get() + 1);
        open_ground(n)
    };
    let found = astar(&node(0, 0), counted, Heuristic::Zero, |_: &Node<f32>| false, 7);
    assert!(found.is_none());
    assert_eq!(asked.get(), 7);
}
