use spq::dijkstra::compute_shortest_path;
use spq::estimator::GraphEstimator;
use spq::graph::Graph;
use spq::grid::{Axis, Dir, EdgeIndex, LineIndex, Pos, NUM_TURN};
use spq::protocol::{path_line, query_from_numbers, response_from_number};
use spq::session::{plan_turn, query_in_grid, run_solver, EnvError, Environment};
use spq::simulator::{GraphParams, Simulator, TRUE_COST_LB, TRUE_COST_UB};

fn true_length(sim: &Simulator, src: Pos, path: &[Dir]) -> u64 {
    let mut p = src;
    let mut sum = 0u64;
    for &d in path {
        sum += sim.graph().get_cost(EdgeIndex::from_move(p, d)) as u64;
        p = p.move_to(d).unwrap();
    }
    sum
}

#[test]
fn simulator_is_deterministic_in_its_seed() {
    let mut a = Simulator::from_seed(42);
    let mut b = Simulator::from_seed(42);
    assert_eq!(a.queries(), b.queries());
    for _ in 0..20 {
        let q = a.next_query().unwrap();
        assert_eq!(Some(q), b.next_query());
        let (path, _) = compute_shortest_path(a.graph(), q.src, q.dest);
        assert_eq!(a.answer(&path), b.answer(&path));
    }
    assert_eq!(a.score_details(), b.score_details());
    let c = Simulator::from_seed(43);
    assert_ne!(a.queries(), c.queries());
}

#[test]
fn generated_instance_respects_its_ranges() {
    let sim = Simulator::from_seed(11);
    assert_eq!(sim.queries().len(), NUM_TURN);
    for qp in sim.queries() {
        let q = qp.query;
        assert!(q.height() as u32 + q.width() as u32 >= 10);
        assert!(qp.res_factor_ppm >= 900_000 && qp.res_factor_ppm < 1_100_000);
    }
    for i in 0..spq::grid::NUM_EDGES {
        let c = sim.graph().get(EdgeIndex::pick(i));
        assert!(c >= TRUE_COST_LB && c <= TRUE_COST_UB);
    }
}

#[test]
fn answer_is_the_scaled_true_length() {
    let mut sim = Simulator::from_seed(5);
    let qp = sim.queries()[0];
    let q = qp.query;
    let (path, best) = compute_shortest_path(sim.graph(), q.src, q.dest);
    let length = true_length(&sim, q.src, &path);
    assert_eq!(length, best);
    let response = sim.answer(&path).unwrap();
    let expected = (length * qp.res_factor_ppm as u64 + 500_000) / 1_000_000;
    assert_eq!(response as u64, expected);
    assert_eq!(sim.score_details()[0].best, best);
    assert_eq!(sim.score_details()[0].length, length);
}

#[test]
fn invalid_paths_are_reported() {
    let mut sim = Simulator::from_seed(9);
    let q = sim.next_query().unwrap();
    // Stepping off the grid.
    let off = if q.src.r == 0 { vec![Dir::Up] } else { vec![Dir::Down; 30] };
    assert_eq!(sim.answer(&off), Err(EnvError::PathLeavesGrid));

    let mut sim = Simulator::from_seed(9);
    let q = sim.next_query().unwrap();
    // Going back and forth revisits the source.
    let d = if q.src.c == 0 { Dir::Right } else { Dir::Left };
    let back_forth = vec![d, d.rev()];
    assert_eq!(sim.answer(&back_forth), Err(EnvError::PathRevisitsCell));

    let mut sim = Simulator::from_seed(9);
    // The empty path does not reach a destination at distance at least 10.
    assert_eq!(sim.answer(&[]), Err(EnvError::PathMissesDest));
}

#[test]
fn session_against_the_simulator_runs_to_the_end() {
    let mut sim = Simulator::from_seed(1);
    let est = run_solver(&mut sim, 200).unwrap();
    assert_eq!(est.num_records(), NUM_TURN);
    assert_eq!(sim.next_query(), None);
    assert_eq!(sim.score_details().len(), NUM_TURN);
    for d in sim.score_details() {
        assert!(d.best <= d.length);
    }
    assert!(est.validate_cache());
    assert_eq!(sim.do_answer(&[]), Err(EnvError::NoQueryPending));
}

fn seed_with(double: bool) -> (u64, Simulator) {
    for seed in 0..200u64 {
        let sim = Simulator::from_seed(seed);
        let is_double = matches!(sim.graph_params(), GraphParams::Double { .. });
        if is_double == double {
            return (seed, sim);
        }
    }
    panic!("no seed of the wanted kind");
}

fn play(sim: &mut Simulator, est: &mut GraphEstimator, turns: usize) -> Vec<(Pos, Vec<Dir>)> {
    let mut sent = Vec::new();
    for _ in 0..turns {
        let q = sim.next_query().unwrap();
        let (path, _) = compute_shortest_path(&*est, q.src, q.dest);
        let response = sim.answer(&path).unwrap();
        est.insert_new_record(&q, &path, response);
        sent.push((q.src, path));
    }
    sent
}

#[test]
fn single_regime_fit_tracks_responses() {
    let (_, mut sim) = seed_with(false);
    let mut est = GraphEstimator::new(100_000);
    play(&mut sim, &mut est, 50);
    // Relative error of the fitted path costs against the true lengths.
    let mut err = 0.0f64;
    let mut start_err = 0.0f64;
    for t in 0..50 {
        let length = sim.score_details()[t].length as f64;
        err += (est.total_cost(t) as f64 - length).abs() / length;
        let path_len = {
            let q = sim.queries()[t].query;
            (q.height() as f64 + q.width() as f64).max(1.0)
        };
        start_err += (1000.0 * path_len - length).abs() / length;
    }
    assert!(err < start_err / 2.0, "fit error {} against {} at the start", err / 50.0, start_err / 50.0);
    assert!(err / 50.0 < 0.2, "mean relative fit error {}", err / 50.0);
    assert!(est.validate_cache());
}

#[test]
fn two_regime_row_is_fitted() {
    // Row 3 costs 2000 per edge left of column 10 and 7000 from it on; the
    // rounds run straight along the row over varied stretches.
    let truth = |x: usize| if x < 10 { 2000u32 } else { 7000 };
    let mut est = GraphEstimator::new(20_000);
    let mut turn = 0;
    let mut start_loss = 0i128;
    'outer: for len in [3usize, 5, 8, 12] {
        for a in 0..(29 - len) {
            let q = spq::grid::Query { src: Pos::new(3, a as u8), dest: Pos::new(3, (a + len) as u8) };
            let path = vec![Dir::Right; len];
            let response: u32 = (a..a + len).map(truth).sum();
            let residual = 1000 * len as i128 - response as i128;
            start_loss += residual * residual;
            est.insert_new_record(&q, &path, response);
            turn += 1;
            if turn == 60 {
                break 'outer;
            }
        }
    }
    // The fit at least halves the loss of the starting model.
    assert!(est.loss() * 2 < start_loss, "loss {} against {} at the start", est.loss(), start_loss);
    assert!(est.validate_cache());
}

#[test]
fn wire_protocol_lines() {
    assert_eq!(
        query_from_numbers(&[0, 0, 0, 5]),
        Ok(spq::grid::Query { src: Pos::new(0, 0), dest: Pos::new(0, 5) })
    );
    assert_eq!(query_from_numbers(&[0, 0, 5]), Err(EnvError::MalformedLine));
    assert_eq!(query_from_numbers(&[0, 30, 0, 5]), Err(EnvError::MalformedLine));
    assert_eq!(query_from_numbers(&[0, 0, 0, 5, 1]), Err(EnvError::MalformedLine));
    let line: String = path_line(&[Dir::Right, Dir::Right, Dir::Down, Dir::Left, Dir::Up])
        .into_iter()
        .collect();
    assert_eq!(line, "RRDLU");
    assert_eq!(response_from_number(10), Ok(10));
    assert_eq!(response_from_number(1 << 40), Err(EnvError::MalformedLine));
    let q = query_from_numbers(&[0, 0, 0, 5]).unwrap();
    assert!(query_in_grid(&q));
    let est = GraphEstimator::new(0);
    let (path, _) = compute_shortest_path(&est, q.src, q.dest);
    let line: Vec<char> = path_line(&path);
    assert_eq!(line.len(), 5);
    assert!(line.iter().all(|c| "UDLR".contains(*c)));
}

#[test]
fn one_turn_plan() {
    let est = GraphEstimator::new(0);
    let q = spq::grid::Query { src: Pos::new(0, 0), dest: Pos::new(0, 5) };
    let (path, cost) = plan_turn(&est, &q).unwrap();
    assert_eq!(path, vec![Dir::Right; 5]);
    assert_eq!(cost, 5000);
    let off = spq::grid::Query { src: Pos::new(0, 0), dest: Pos::new(30, 5) };
    assert_eq!(plan_turn(&est, &off).err(), Some(EnvError::MalformedLine));
}

#[test]
fn records_hold_the_handed_out_queries() {
    let mut sim = Simulator::from_seed(2);
    let est = run_solver(&mut sim, 0).unwrap();
    for (t, record) in est.records().iter().enumerate() {
        assert_eq!(record.query, sim.queries()[t].query);
    }
}

#[test]
fn generated_costs_lie_near_their_segment_base() {
    for seed in 0..6u64 {
        let sim = Simulator::from_seed(seed);
        let (d, base): (u16, Box<dyn Fn(usize, usize, usize) -> u16>) = match sim.graph_params() {
            GraphParams::Single { d, h, v } => {
                let (h, v) = (h.clone(), v.clone());
                (*d, Box::new(move |axis, line, _x| if axis == 0 { h[line] } else { v[line] }))
            }
            GraphParams::Double { d, h, cm, v, rm } => {
                for i in 0..30 {
                    assert!(rm[i] >= 1 && rm[i] <= 28 && cm[i] >= 1 && cm[i] <= 28);
                }
                let (h, cm, v, rm) = (h.clone(), cm.clone(), v.clone(), rm.clone());
                (*d, Box::new(move |axis, line, x| {
                    let (b, split) = if axis == 0 { (h[line], rm[line]) } else { (v[line], cm[line]) };
                    if x < split as usize { b.0 } else { b.1 }
                }))
            }
        };
        assert!(d >= 100 && d <= 2000);
        for k in 0..spq::grid::NUM_EDGES {
            let e = EdgeIndex::pick(k);
            let axis = if e.line.axis == Axis::Horizontal { 0 } else { 1 };
            let b = base(axis, e.line.index as usize, e.x as usize) as i64;
            let c = sim.graph().get(e) as i64;
            assert!((c - b).abs() <= d as i64, "seed {} edge {}: cost {} base {} d {}", seed, k, c, b, d);
        }
    }
}
