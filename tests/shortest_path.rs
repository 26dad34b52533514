use spq::dijkstra::{compute_shortest_cost, compute_shortest_path};
use spq::graph::{Graph, GridGraph};
use spq::grid::{Axis, Dir, EdgeIndex, LineIndex, Pos, EDGES_PER_LINE, GRID_LEN, NUM_EDGES};

fn walk(graph: &GridGraph<u32>, src: Pos, path: &[Dir]) -> (Pos, u64, bool) {
    let mut seen = vec![false; GRID_LEN * GRID_LEN];
    let mut p = src;
    let mut cost = 0u64;
    let mut simple = true;
    seen[p.id()] = true;
    for &d in path {
        let q = p.move_to(d).expect("move leaves the grid");
        cost += graph.get_cost(EdgeIndex::from_move(p, d)) as u64;
        if seen[q.id()] {
            simple = false;
        }
        seen[q.id()] = true;
        p = q;
    }
    (p, cost, simple)
}

#[test]
fn uniform_grid_costs_manhattan_distance() {
    let g = GridGraph::new(7u32);
    let (path, cost) = compute_shortest_path(&g, Pos::new(2, 3), Pos::new(20, 11));
    assert_eq!(path.len(), 18 + 8);
    assert_eq!(cost, 7 * 26);
    let (end, walked, simple) = walk(&g, Pos::new(2, 3), &path);
    assert_eq!(end, Pos::new(20, 11));
    assert_eq!(walked, cost);
    assert!(simple);
}

#[test]
fn same_source_and_destination_gives_empty_path() {
    let g = GridGraph::new(5u32);
    let (path, cost) = compute_shortest_path(&g, Pos::new(4, 4), Pos::new(4, 4));
    assert!(path.is_empty());
    assert_eq!(cost, 0);
    assert_eq!(compute_shortest_cost(&g, Pos::new(4, 4), Pos::new(4, 4)), 0);
}

#[test]
fn detour_through_a_cheap_row_wins() {
    // Row 0 is expensive, row 1 is cheap: from (0,0) to (0,10) the best path
    // steps down, runs along row 1 and steps back up.
    let mut g = GridGraph::new(100u32);
    for x in 0..EDGES_PER_LINE as u8 {
        g.set(EdgeIndex::new(LineIndex::new(Axis::Horizontal, 1), x), 1);
    }
    let (path, cost) = compute_shortest_path(&g, Pos::new(0, 0), Pos::new(0, 10));
    assert_eq!(cost, 100 + 10 + 100);
    let (end, walked, simple) = walk(&g, Pos::new(0, 0), &path);
    assert_eq!(end, Pos::new(0, 10));
    assert_eq!(walked, cost);
    assert!(simple);
    assert_eq!(compute_shortest_cost(&g, Pos::new(0, 0), Pos::new(0, 10)), cost);
}

#[test]
fn zero_cost_edges_are_handled() {
    let g = GridGraph::new(0u32);
    let (path, cost) = compute_shortest_path(&g, Pos::new(29, 29), Pos::new(0, 0));
    assert_eq!(cost, 0);
    let (end, _, simple) = walk(&g, Pos::new(29, 29), &path);
    assert_eq!(end, Pos::new(0, 0));
    assert!(simple);
}

#[test]
fn varied_costs_never_beat_brute_force_bound() {
    // Costs vary with the edge number; the search must not be beaten by the
    // two L-shaped paths between the corners.
    let mut values = Vec::new();
    for i in 0..NUM_EDGES {
        values.push(((i * 7919) % 97) as u32 + 1);
    }
    let g = GridGraph::from_vec(values);
    let src = Pos::new(3, 4);
    let dest = Pos::new(25, 17);
    let (path, cost) = compute_shortest_path(&g, src, dest);
    let (end, walked, simple) = walk(&g, src, &path);
    assert_eq!(end, dest);
    assert_eq!(walked, cost);
    assert!(simple);
    let mut l1 = Vec::new();
    l1.extend(std::iter::repeat(Dir::Down).take(22));
    l1.extend(std::iter::repeat(Dir::Right).take(13));
    let mut l2 = Vec::new();
    l2.extend(std::iter::repeat(Dir::Right).take(13));
    l2.extend(std::iter::repeat(Dir::Down).take(22));
    assert!(cost <= walk(&g, src, &l1).1);
    assert!(cost <= walk(&g, src, &l2).1);
}

#[test]
fn graph_from_arrays_places_each_edge() {
    let mut h = vec![vec![0u32; EDGES_PER_LINE]; GRID_LEN];
    let mut v = vec![vec![0u32; GRID_LEN]; EDGES_PER_LINE];
    h[4][6] = 11;
    v[6][4] = 22;
    let g = GridGraph::from_arrays(&h, &v, 0);
    assert_eq!(g.get_at(Pos::new(4, 6), Dir::Right), 11);
    assert_eq!(g.get_at(Pos::new(4, 7), Dir::Left), 11);
    assert_eq!(g.get_at(Pos::new(6, 4), Dir::Down), 22);
    assert_eq!(g.get_at(Pos::new(7, 4), Dir::Up), 22);
    assert_eq!(g.get(EdgeIndex::new(LineIndex::new(Axis::Horizontal, 4), 6)), 11);
    assert_eq!(g.get(EdgeIndex::new(LineIndex::new(Axis::Vertical, 4), 6)), 22);
}
