use rand::Rng;
use spq::dijkstra::compute_shortest_path;
use spq::estimator::{
    boltzmann_accept, temperature, GraphEstimator, Move, END_TEMP, INITIAL_LINE_COST, START_TEMP,
};
use spq::graph::Graph;
use spq::grid::{Axis, Dir, EdgeIndex, LineIndex, Pos, Query, NUM_EDGES, NUM_LINES};
use spq::simulator::Simulator;
use std::time::Instant;

fn straight_right(len: usize) -> Vec<Dir> {
    vec![Dir::Right; len]
}

#[test]
fn fresh_estimator_predicts_initial_costs() {
    let est = GraphEstimator::new(2000);
    for i in 0..NUM_EDGES {
        assert_eq!(est.get_cost(EdgeIndex::pick(i)), INITIAL_LINE_COST);
    }
    for l in LineIndex::iter() {
        assert_eq!(est.mid_x(l), 15);
        assert_eq!(est.line_cost(l, 0), 1000);
        assert_eq!(est.line_cost(l, 1), 1000);
    }
    assert_eq!(est.loss(), 0);
    assert_eq!(est.num_records(), 0);
    assert!(est.validate_cache());
}

#[test]
fn trivial_environment_two_turns() {
    // Every edge costs 1 in truth; the response of a 5-move path is 5.
    let mut est = GraphEstimator::new(200_000);
    let q = Query { src: Pos::new(0, 0), dest: Pos::new(0, 5) };
    let (path, estimated) = compute_shortest_path(&est, q.src, q.dest);
    assert_eq!(path.len(), 5);
    assert_eq!(estimated, 5000);
    let before = (5000i128 - 5) * (5000 - 5);
    est.insert_new_record(&q, &path, 5);
    assert_eq!(est.num_records(), 1);
    assert!(est.validate_cache());
    assert!(est.loss() < before);
    let row0 = LineIndex::new(Axis::Horizontal, 0);
    assert!(est.line_cost(row0, 0) < 1000 || est.edge_delta(EdgeIndex::new(row0, 0)) < 0
        || est.total_cost(0) < 5000);
    let (path2, _) = compute_shortest_path(&est, q.src, q.dest);
    est.insert_new_record(&q, &path2, 5);
    assert_eq!(est.num_records(), 2);
    assert!(est.validate_cache());
    assert!(est.total_cost(0) < 5000);
}

#[test]
fn empty_path_touches_no_cache() {
    let mut est = GraphEstimator::new(0);
    let q = Query { src: Pos::new(3, 3), dest: Pos::new(3, 3) };
    let (path, cost) = compute_shortest_path(&est, q.src, q.dest);
    assert!(path.is_empty());
    assert_eq!(cost, 0);
    est.insert_new_record(&q, &path, 0);
    assert_eq!(est.num_records(), 1);
    assert_eq!(est.total_cost(0), 0);
    assert_eq!(est.loss(), 0);
    assert!(est.validate_cache());
    // No move can affect the empty record, so base and delta moves are abandoned.
    assert_eq!(est.evaluate_move(Move::ShiftBase { line: 0, seg: 0, up: true }), None);
    assert_eq!(est.evaluate_move(Move::BumpDelta { edge: 0, up: true }), None);
}

#[test]
fn shift_move_delta_matches_recomputation() {
    let mut est = GraphEstimator::new(0);
    let q = Query { src: Pos::new(0, 0), dest: Pos::new(0, 5) };
    est.insert_new_record(&q, &straight_right(5), 4000);
    // Path cost 5000 against 4000: loss 1e6. Raising the row's low segment by
    // 100 adds 500: (5500 - 4000)^2 - 1e6 = 1_250_000.
    let up = Move::ShiftBase { line: 0, seg: 0, up: true };
    assert_eq!(est.evaluate_move(up), Some(1_250_000));
    // Lowering it is out of the domain (1000 is the lowest base).
    assert_eq!(est.evaluate_move(Move::ShiftBase { line: 0, seg: 0, up: false }), None);
    // The high segment of row 0 holds none of the edges 0..5 (split at 15).
    assert_eq!(est.evaluate_move(Move::ShiftBase { line: 0, seg: 1, up: true }), None);
    est.apply_move(up, 1_250_000);
    assert_eq!(est.loss(), 1_500 * 1_500);
    assert_eq!(est.total_cost(0), 5500);
    assert!(est.validate_cache());
    // Lowering edge 0's perturbation by 100: 5400 against 4000.
    let bump = Move::BumpDelta { edge: 0, up: false };
    assert_eq!(est.evaluate_move(bump), Some(1_400 * 1_400 - 1_500 * 1_500));
    est.apply_move(bump, 1_400 * 1_400 - 1_500 * 1_500);
    assert_eq!(est.edge_delta(EdgeIndex::pick(0)), -100);
    assert!(est.validate_cache());
}

#[test]
fn split_move_moves_one_edge_between_segments() {
    let mut est = GraphEstimator::new(0);
    let q = Query { src: Pos::new(0, 0), dest: Pos::new(0, 20) };
    est.insert_new_record(&q, &straight_right(20), 20000);
    let row0 = LineIndex::new(Axis::Horizontal, 0);
    let up = Move::ShiftBase { line: 0, seg: 1, up: true };
    let d = est.evaluate_move(up).unwrap();
    est.apply_move(up, d);
    // Edges 15..20 are in the high segment at 1100: total 15*1000 + 5*1100.
    assert_eq!(est.total_cost(0), 20500);
    // Sliding the split up moves edge 15 to the low segment: -100.
    let slide = Move::SlideSplit { line: 0, up: true };
    let d = est.evaluate_move(slide).unwrap();
    assert_eq!(d, 400 * 400 - 500 * 500);
    est.apply_move(slide, d);
    assert_eq!(est.mid_x(row0), 16);
    assert_eq!(est.total_cost(0), 20400);
    assert!(est.validate_cache());
}

#[test]
fn split_point_stays_inside_its_line() {
    let mut est = GraphEstimator::new(0);
    let row = LineIndex::new(Axis::Horizontal, 7);
    let down = Move::SlideSplit { line: row.id(), up: false };
    while let Some(d) = est.evaluate_move(down) {
        est.apply_move(down, d);
    }
    assert_eq!(est.mid_x(row), 1);
    let up = Move::SlideSplit { line: row.id(), up: true };
    while let Some(d) = est.evaluate_move(up) {
        est.apply_move(up, d);
    }
    assert_eq!(est.mid_x(row), 28);
    assert!(est.validate_cache());
}

#[test]
fn cache_survives_random_moves() {
    let mut sim = Simulator::from_seed(7);
    let mut est = GraphEstimator::new(0);
    let mut rng = rand::thread_rng();
    for _ in 0..200 {
        let q = sim.next_query().unwrap();
        let (path, _) = compute_shortest_path(sim.graph(), q.src, q.dest);
        let response = sim.answer(&path).unwrap();
        est.insert_new_record(&q, &path, response);
    }
    assert!(est.validate_cache());
    let mut accepted = 0;
    while accepted < 1000 {
        let up = rng.gen::<bool>();
        let mv = match rng.gen_range(0, 3) {
            0 => Move::ShiftBase { line: rng.gen_range(0, NUM_LINES), seg: rng.gen_range(0, 2), up },
            1 => Move::SlideSplit { line: rng.gen_range(0, NUM_LINES), up },
            _ => Move::BumpDelta { edge: rng.gen_range(0, NUM_EDGES), up },
        };
        if let Some(d) = est.evaluate_move(mv) {
            let before = est.loss();
            est.apply_move(mv, d);
            assert_eq!(est.loss(), before + d);
            accepted += 1;
            if accepted % 10 == 0 {
                assert!(est.validate_cache());
            }
        }
    }
    for i in 0..NUM_EDGES {
        assert!(est.get_cost(EdgeIndex::pick(i)) > 0);
    }
}

#[test]
fn refit_respects_budget() {
    // One millisecond per turn: a refit may spend 0.9 ms.
    let mut est = GraphEstimator::new(1000);
    let mut sim = Simulator::from_seed(3);
    let mut worst = 0u128;
    let mut total = 0u128;
    let turns = 30;
    for _ in 0..turns {
        let q = sim.next_query().unwrap();
        let (path, _) = compute_shortest_path(&est, q.src, q.dest);
        let response = sim.answer(&path).unwrap();
        let start = Instant::now();
        est.insert_new_record(&q, &path, response);
        let spent = start.elapsed().as_micros();
        worst = worst.max(spent);
        total += spent;
    }
    assert!(total / turns < 5_000, "mean insertion took {} us", total / turns);
    assert!(worst < 50_000, "slowest insertion took {} us", worst);
}

#[test]
fn temperature_falls_linearly() {
    assert_eq!(temperature(0, 1000), START_TEMP);
    assert_eq!(temperature(500, 1000), 100000 - 49950);
    assert_eq!(temperature(999, 1000), 100000 - 99800);
    assert!(temperature(999_999, 1_000_000) > END_TEMP);
}

#[test]
fn improving_moves_are_always_accepted() {
    for _ in 0..100 {
        assert!(boltzmann_accept(0, 100));
        assert!(boltzmann_accept(-5, 100));
    }
    // A loss increase a million times the temperature is never accepted.
    for _ in 0..100 {
        assert!(!boltzmann_accept(100_000_000, 100));
    }
}

#[test]
fn hot_refit_accepts_some_worse_moves() {
    let mut accepted = 0;
    for _ in 0..2000 {
        if boltzmann_accept(100, 100) {
            accepted += 1;
        }
    }
    // exp(-1) is about 0.37.
    assert!(accepted > 500 && accepted < 1000, "accepted {}", accepted);
}
