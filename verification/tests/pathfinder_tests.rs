use rover_core::grid::manhattan;
use rover_core::node_table::Cell;
use rover_core::pathfinder::adopt_start;
use rover_core::pathfinder::assemble;
use rover_core::pathfinder::DirectPathfinder;
use rover_core::pathfinder::DirectPathfinderModule;
use rover_core::pathfinder::DirectPathfinderSafefinder;
use rover_core::search::Heuristic;
use rover_core::search::Node;
use rover_core::search::Search;
use rover_core::smoothing::Smoother;
use rover_core::terrain::all_clear;
use rover_core::terrain::Terrain;

fn flat(height: f32) -> Terrain<f32> {
    Terrain::Sampled { mean: height, too_high: 0, limit: 8 }
}

fn high(height: f32) -> Terrain<f32> {
    Terrain::Sampled { mean: height, too_high: 32, limit: 8 }
}

#[test]
fn terrain_blocked_needs_samples_at_the_limit() {
    assert!(!Terrain::<f32>::Unknown.blocked());
    assert!(!Terrain::Sampled { mean: 0.0f32, too_high: 7, limit: 8 }.blocked());
    assert!(Terrain::Sampled { mean: 0.0f32, too_high: 8, limit: 8 }.blocked());
    assert!(Terrain::Sampled { mean: 0.0f32, too_high: 0, limit: 0 }.blocked());
}

#[test]
fn terrain_clear_needs_samples_below_the_limit() {
    assert!(!Terrain::<f32>::Unknown.clear());
    assert!(Terrain::Sampled { mean: 0.0f32, too_high: 7, limit: 8 }.clear());
    assert!(!Terrain::Sampled { mean: 0.0f32, too_high: 8, limit: 8 }.clear());
}

#[test]
fn unknown_terrain_carries_the_parent_height() {
    assert_eq!(Terrain::<f32>::Unknown.height_from(2.5), 2.5);
    assert_eq!(flat(0.75).height_from(2.5), 0.75);
}

#[test]
fn all_clear_wants_every_sample() {
    assert!(all_clear::<f32>(&vec![]));
    assert!(all_clear(&vec![flat(0.0), flat(1.0)]));
    assert!(!all_clear(&vec![flat(0.0), Terrain::Unknown]));
    assert!(!all_clear(&vec![high(0.0), flat(0.0)]));
}

#[test]
fn candidates_around_are_the_permitted_neighbours() {
    let open = DirectPathfinder { filter: |_: Cell| true };
    assert_eq!(open.candidates_around((0, 0)), vec![(0, 1), (1, 0), (0, -1), (-1, 0)]);
    let east = DirectPathfinder { filter: |c: Cell| c.0 >= 0 };
    assert_eq!(east.candidates_around((0, 0)), vec![(0, 1), (1, 0), (0, -1)]);
    let none = DirectPathfinder { filter: |_: Cell| false };
    assert!(none.candidates_around((0, 0)).is_empty());
}

#[test]
fn candidates_toward_add_the_goal_when_it_is_next() {
    let open = DirectPathfinder { filter: |_: Cell| true };
    assert_eq!(open.candidates_toward((0, 0), (5, 5)), vec![(0, 1), (1, 0), (0, -1), (-1, 0)]);
    assert_eq!(open.candidates_toward((0, 0), (1, 0)), vec![(0, 1), (1, 0), (0, -1), (-1, 0), (1, 0)]);
    assert_eq!(open.candidates_toward((0, 0), (1, 1)), vec![(0, 1), (1, 0), (0, -1), (-1, 0)]);
    let shut = DirectPathfinder { filter: |c: Cell| c != (1, 0) };
    assert_eq!(shut.candidates_toward((0, 0), (1, 0)), vec![(0, 1), (0, -1), (-1, 0)]);
}

#[test]
fn permitted_keeps_order_and_repeats() {
    let odd = DirectPathfinder { filter: |c: Cell| c.0 % 2 != 0 };
    assert_eq!(odd.permitted(vec![(1, 0), (2, 0), (3, 0), (1, 0)]), vec![(1, 0), (3, 0), (1, 0)]);
}

#[test]
fn traverse_to_needs_data_everywhere() {
    let pf = DirectPathfinder { filter: |_: Cell| true };
    assert!(pf.traverse_to::<f32>(&vec![]));
    assert!(pf.traverse_to(&vec![flat(0.0), flat(0.1)]));
    assert!(!pf.traverse_to(&vec![flat(0.0), Terrain::Unknown, flat(0.0)]));
    assert!(!pf.traverse_to(&vec![flat(0.0), high(3.0)]));
}

#[test]
fn safe_start_keeps_every_cell() {
    let current = Node { position: (0, 0), height: 1.0f32 };
    let cells = vec![(0, 1), (1, 0), (0, -1)];
    let samples = vec![Terrain::Unknown, high(4.0), flat(2.0)];
    let out = DirectPathfinderSafefinder.successors(current, &cells, &samples);
    let got: Vec<(Cell, f32, u64)> = out.iter().map(|(n, c)| (n.position, n.height, *c)).collect();
    assert_eq!(got, vec![((0, 1), 1.0, 1), ((1, 0), 4.0, 1), ((0, -1), 2.0, 1)]);
}

#[test]
fn safe_start_succeeds_on_unknown_or_unblocked_ground() {
    assert!(DirectPathfinderSafefinder.success(&Terrain::<f32>::Unknown));
    assert!(DirectPathfinderSafefinder.success(&flat(0.0)));
    assert!(!DirectPathfinderSafefinder.success(&high(0.0)));
}

#[test]
fn main_search_rejects_blocked_cells() {
    let module = DirectPathfinderModule { end_node: (9, 9) };
    let current = Node { position: (0, 0), height: 1.0f32 };
    let cells = vec![(0, 1), (1, 0), (0, -1)];
    let samples = vec![Terrain::Unknown, high(4.0), flat(2.0)];
    let out = module.successors(current, &cells, &samples);
    let got: Vec<(Cell, f32, u64)> = out.iter().map(|(n, c)| (n.position, n.height, *c)).collect();
    assert_eq!(got, vec![((0, 1), 1.0, 1), ((0, -1), 2.0, 1)]);
}

#[test]
fn successors_pair_cells_and_samples_in_order() {
    let module = DirectPathfinderModule { end_node: (9, 9) };
    let current = Node { position: (0, 0), height: 0.0f32 };
    let out = module.successors(current, &vec![(0, 1), (1, 0)], &vec![flat(0.5)]);
    assert_eq!(out.len(), 1);
    assert_eq!(out[0].0.position, (0, 1));
    let out = DirectPathfinderSafefinder.successors(current, &vec![(0, 1)], &vec![flat(0.5), flat(0.6)]);
    assert_eq!(out.len(), 1);
    assert_eq!(out[0].0.height, 0.5);
}

#[test]
fn main_search_succeeds_at_the_goal_cell() {
    let module = DirectPathfinderModule { end_node: (3, 4) };
    assert!(module.success(&Node { position: (3, 4), height: 99.0f32 }));
    assert!(!module.success(&Node { position: (4, 3), height: 0.0f32 }));
}

#[test]
fn adopt_start_splits_off_the_last_node() {
    let a = Node { position: (0, 0), height: 0.0f32 };
    let b = Node { position: (0, 1), height: 0.0f32 };
    let c = Node { position: (0, 2), height: 0.0f32 };
    let origin = Node { position: (7, 7), height: 0.0f32 };
    let (pre, start) = adopt_start(Some(vec![a, b, c]), origin);
    assert_eq!(pre.iter().map(|n| n.position).collect::<Vec<_>>(), vec![(0, 0), (0, 1)]);
    assert_eq!(start.position, (0, 2));
    let (pre, start) = adopt_start(Some(vec![a]), origin);
    assert!(pre.is_empty());
    assert_eq!(start.position, (0, 0));
    let (pre, start) = adopt_start(None, origin);
    assert!(pre.is_empty());
    assert_eq!(start.position, (7, 7));
    let (pre, start) = adopt_start(Some(vec![]), origin);
    assert!(pre.is_empty());
    assert_eq!(start.position, (7, 7));
}

#[test]
fn assemble_adds_the_goal_to_a_lone_start() {
    let a = Node { position: (0, 0), height: 0.0f32 };
    let b = Node { position: (0, 1), height: 0.0f32 };
    let end = Node { position: (5, 5), height: 0.0f32 };
    let path = assemble(vec![a], vec![b], end);
    assert_eq!(path.iter().map(|n| n.position).collect::<Vec<_>>(), vec![(0, 0), (0, 1), (5, 5)]);
    let path = assemble(vec![], vec![a, b], end);
    assert_eq!(path.iter().map(|n| n.position).collect::<Vec<_>>(), vec![(0, 0), (0, 1)]);
    let path = assemble(vec![a], vec![], end);
    assert_eq!(path.len(), 1);
}

#[test]
fn smoother_wants_two_waypoints() {
    assert!(Smoother::<u8>::new(vec![]).is_none());
    assert!(Smoother::new(vec![1u8]).is_none());
    assert!(Smoother::new(vec![1u8, 2]).is_some());
}

#[test]
fn smoother_collapses_a_walkable_route() {
    let mut smoother = Smoother::new(vec![0u8, 1, 2, 3, 4]).unwrap();
    let mut asked = Vec::new();
    while let Some(pair) = smoother.pending() {
        asked.push(pair);
        smoother.answer(true);
    }
    assert_eq!(asked, vec![(0, 2), (0, 3), (0, 4)]);
    assert_eq!(smoother.finish(9), vec![0, 9]);
}

#[test]
fn smoother_keeps_every_waypoint_of_a_blocked_route() {
    let mut smoother = Smoother::new(vec![0u8, 1, 2, 3, 4]).unwrap();
    let mut asked = Vec::new();
    while let Some(pair) = smoother.pending() {
        asked.push(pair);
        smoother.answer(false);
    }
    assert_eq!(asked, vec![(0, 2), (1, 3), (2, 4)]);
    assert_eq!(smoother.finish(9), vec![0, 1, 2, 3, 9]);
}

#[test]
fn smoother_keeps_the_waypoint_before_a_refusal() {
    let mut smoother = Smoother::new(vec![0u8, 1, 2, 3, 4, 5]).unwrap();
    let answers = [true, false, true, false];
    let mut asked = Vec::new();
    for ok in answers {
        asked.push(smoother.pending().unwrap());
        smoother.answer(ok);
    }
    assert!(smoother.pending().is_none());
    assert_eq!(asked, vec![(0, 2), (0, 3), (2, 4), (2, 5)]);
    assert_eq!(smoother.finish(5), vec![0, 2, 4, 5]);
}

#[test]
fn smoother_ignores_answers_without_a_question() {
    let mut smoother = Smoother::new(vec![0u8, 1]).unwrap();
    assert!(smoother.pending().is_none());
    smoother.answer(false);
    assert_eq!(smoother.finish(7), vec![0, 7]);
}

/// Runs both searches and the smoothing over a terrain given as a function
/// of the cell, with the reference height taken from the node that asks.
fn pathfind(
    filter: impl Fn(Cell) -> bool,
    terrain: impl Fn(Cell, f32) -> Terrain<f32>,
    walkable: impl Fn(Cell, Cell) -> bool,
    end: Cell,
) -> Option<(Vec<Cell>, Vec<Cell>)> {
    let pf = DirectPathfinder { filter };
    let origin = Node { position: (0, 0), height: 0.0f32 };
    let mut search = Search::new(origin, Heuristic::Zero);
    let mut safe = None;
    let mut budget = 10_000;
    while let Some(visit) = search.next() {
        budget -= 1;
        if budget == 0 {
            break;
        }
        if DirectPathfinderSafefinder.success(&terrain(visit.node.position, visit.node.height)) {
            safe = Some(search.path_to(visit.index));
            break;
        }
        if visit.stale {
            search.expand(Vec::new());
            continue;
        }
        let cells = pf.candidates_around(visit.node.position);
        let samples = cells.iter().map(|c| terrain(*c, visit.node.height)).collect();
        search.expand(DirectPathfinderSafefinder.successors(visit.node, &cells, &samples));
    }
    let (pre_path, start) = adopt_start(safe, origin);
    let module = DirectPathfinderModule { end_node: end };
    let mut search = Search::new(start, Heuristic::Euclid { goal: end });
    let mut post_path = None;
    let mut budget = 100_000;
    while let Some(visit) = search.next() {
        budget -= 1;
        if budget == 0 {
            break;
        }
        if module.success(&visit.node) {
            post_path = Some(search.path_to(visit.index));
            break;
        }
        if visit.stale {
            search.expand(Vec::new());
            continue;
        }
        let cells = pf.candidates_toward(visit.node.position, end);
        let samples = cells.iter().map(|c| terrain(*c, visit.node.height)).collect();
        search.expand(module.successors(visit.node, &cells, &samples));
    }
    let post_path = post_path?;
    let raw: Vec<Cell> = assemble(pre_path, post_path, Node { position: end, height: 0.0 })
        .iter()
        .map(|n| n.position)
        .collect();
    let mut smoother = Smoother::new(raw.clone())?;
    while let Some((a, b)) = smoother.pending() {
        smoother.answer(walkable(a, b));
    }
    Some((raw, smoother.finish(end)))
}

fn in_ten_by_ten(c: Cell) -> bool {
    0 <= c.0 && c.0 < 10 && 0 <= c.1 && c.1 < 10
}

#[test]
fn straight_path_collapses_to_its_ends() {
    let (raw, smooth) = pathfind(in_ten_by_ten, |_, _| flat(0.0), |_, _| true, (9, 0)).unwrap();
    assert_eq!(raw, (0..=9).map(|x| (x, 0)).collect::<Vec<_>>());
    assert_eq!(smooth, vec![(0, 0), (9, 0)]);
}

#[test]
fn detour_goes_around_the_high_column() {
    let wall = |c: Cell| c.0 == 5 && c.1 < 9;
    let terrain = |c: Cell, _: f32| if wall(c) { high(10.0) } else { flat(0.0) };
    let sees = |a: Cell, b: Cell| {
        let steps = manhattan(a, b).max(1) as i32;
        (0..=steps).all(|i| {
            let x = a.0 + (b.0 - a.0) * i / steps;
            let y = a.1 + (b.1 - a.1) * i / steps;
            !wall((x, y))
        })
    };
    let (raw, smooth) = pathfind(in_ten_by_ten, terrain, sees, (9, 0)).unwrap();
    assert!(raw.len() as u64 - 1 >= 10);
    assert_eq!(raw.len() as u64 - 1, 27);
    assert!(raw.iter().all(|c| !wall(*c)));
    assert!(raw.windows(2).all(|p| manhattan(p[0], p[1]) == 1));
    assert_eq!(smooth.first(), Some(&(0, 0)));
    assert_eq!(smooth.last(), Some(&(9, 0)));
    assert!(smooth.len() <= raw.len());
    assert!(smooth.windows(2).all(|p| manhattan(p[0], p[1]) == 1 || sees(p[0], p[1])));
    assert!(smooth.iter().all(|c| !wall(*c)));
}

#[test]
fn unreachable_goal_gives_no_path() {
    let terrain = |c: Cell, _: f32| if c.0 == 5 { high(10.0) } else { flat(0.0) };
    assert!(pathfind(in_ten_by_ten, terrain, |_, _| true, (9, 0)).is_none());
}

#[test]
fn unsafe_origin_is_left_first() {
    let unsafe_cells = |c: Cell| c.1 == 0 && c.0 <= 1;
    let terrain = |c: Cell, _: f32| if unsafe_cells(c) { high(0.0) } else { flat(0.0) };
    let pf = DirectPathfinder { filter: in_ten_by_ten };
    let origin = Node { position: (0, 0), height: 0.0f32 };
    let mut search = Search::new(origin, Heuristic::Zero);
    let mut safe = None;
    while let Some(visit) = search.next() {
        if DirectPathfinderSafefinder.success(&terrain(visit.node.position, visit.node.height)) {
            safe = Some(search.path_to(visit.index));
            break;
        }
        let cells = pf.candidates_around(visit.node.position);
        let samples = cells.iter().map(|c| terrain(*c, visit.node.height)).collect();
        search.expand(DirectPathfinderSafefinder.successors(visit.node, &cells, &samples));
    }
    let (pre, start) = adopt_start(safe, origin);
    assert_eq!(pre.iter().map(|n| n.position).collect::<Vec<_>>(), vec![(0, 0)]);
    assert_eq!(start.position, (0, 1));
}

fn length(points: &[(f64, f64)]) -> f64 {
    points.windows(2).map(|p| ((p[0].0 - p[1].0).powi(2) + (p[0].1 - p[1].1).powi(2)).sqrt()).sum()
}

#[test]
fn smoothing_never_lengthens_a_route() {
    let route: Vec<(f64, f64)> =
        vec![(0.0, 0.0), (1.0, 0.0), (1.0, 1.0), (2.0, 1.0), (2.0, 2.0), (3.0, 2.0), (3.0, 3.0), (4.0, 3.0)];
    for pattern in 0u32..64 {
        let mut smoother = Smoother::new(route.clone()).unwrap();
        let mut asked = Vec::new();
        let mut bit = 0;
        while let Some(pair) = smoother.pending() {
            let ok = pattern >> bit & 1 == 1;
            asked.push((pair, ok));
            smoother.answer(ok);
            bit += 1;
        }
        let smooth = smoother.finish(*route.last().unwrap());
        assert!(length(&smooth) <= length(&route) + 1e-9);
        assert_eq!(smooth.first(), route.first());
        assert_eq!(smooth.last(), route.last());
        for segment in smooth.windows(2) {
            let a = route.iter().position(|p| *p == segment[0]).unwrap();
            let b = route.iter().position(|p| *p == segment[1]).unwrap();
            assert!(a < b);
            assert!(b == a + 1 || asked.contains(&((segment[0], segment[1]), true)));
        }
    }
}
