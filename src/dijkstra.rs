//! Shortest paths on the grid under any non-negative edge costs.
use crate::graph::Graph;
use crate::grid::{
    is_simple_path, lemma_move_rev, lemma_walk_concat, walk_cells, walk_end, Dir, EdgeIndex, Pos, GRID_LEN, NUM_CELLS,
};
use vstd::prelude::*;
use vstd::set_lib::{lemma_int_range, lemma_len_subset, set_int_range};

verus! {

/// Distance of a cell that the search has not reached.
pub const UNREACHED: u64 = u64::MAX;

/// The cell with row-major number `i`.
pub open spec fn pos_of(i: int) -> Pos {
    Pos { r: (i / GRID_LEN as int) as u8, c: (i % GRID_LEN as int) as u8 }
}

pub proof fn lemma_pos_id(i: int, p: Pos)
    ensures
        0 <= i < NUM_CELLS ==> pos_of(i).wf() && pos_of(i).spec_id() == i,
        p.wf() ==> pos_of(p.spec_id()) == p && 0 <= p.spec_id() < NUM_CELLS,
{
    if 0 <= i < NUM_CELLS {
        assert(i / 30 < 30 && (i / 30) * 30 + i % 30 == i) by (nonlinear_arith)
            requires
                0 <= i < 900,
        ;
    }
    if p.wf() {
        let j = p.r * 30 + p.c;
        assert(j / 30 == p.r && j % 30 == p.c && j < 900) by (nonlinear_arith)
            requires
                j == p.r * 30 + p.c,
                0 <= p.r < 30,
                0 <= p.c < 30,
        ;
    }
}

/// Cost of the move `d` from `p`.
pub open spec fn move_cost<G: Graph>(g: &G, p: Pos, d: Dir) -> int {
    g.edge_weight(EdgeIndex::spec_from_move(p, d))
}

/// Cost of a sequence of moves from `p`.
pub open spec fn walk_cost<G: Graph>(g: &G, p: Pos, path: Seq<Dir>) -> int
    decreases path.len(),
{
    if path.len() == 0 {
        0
    } else {
        move_cost(g, p, path[0]) + walk_cost(g, p.moved(path[0]), path.drop_first())
    }
}

/// Number of settled cells.
pub open spec fn count_true(s: Seq<bool>) -> int
    decreases s.len(),
{
    if s.len() == 0 {
        0
    } else {
        count_true(s.drop_last()) + if s.last() {
            1int
        } else {
            0
        }
    }
}

proof fn lemma_count_true_set(s: Seq<bool>, i: int)
    requires
        0 <= i < s.len(),
        !s[i],
    ensures
        count_true(s.update(i, true)) == count_true(s) + 1,
    decreases s.len(),
{
    let t = s.update(i, true);
    if i == s.len() - 1 {
        assert(t.drop_last() =~= s.drop_last());
    } else {
        assert(t.drop_last() =~= s.drop_last().update(i, true));
        lemma_count_true_set(s.drop_last(), i);
    }
}

proof fn lemma_count_true_full(s: Seq<bool>)
    ensures
        count_true(s) <= s.len(),
        count_true(s) == s.len() ==> forall|i: int| 0 <= i < s.len() ==> #[trigger] s[i],
    decreases s.len(),
{
    if s.len() > 0 {
        lemma_count_true_full(s.drop_last());
        if count_true(s) == s.len() {
            assert forall|i: int| 0 <= i < s.len() implies #[trigger] s[i] by {
                if i < s.len() - 1 {
                    assert(s[i] == s.drop_last()[i]);
                }
            }
        }
    }
}

/// A set of cells that holds `src` and is closed under moves holds every cell.
proof fn lemma_reach_all(dist: Seq<u64>, src: Pos, dest: Pos)
    requires
        dist.len() == NUM_CELLS,
        src.wf(),
        dest.wf(),
        dist[src.spec_id()] < UNREACHED,
        forall|p: Pos, d: Dir|
            p.wf() && dist[p.spec_id()] < UNREACHED && p.can_move(d) ==> #[trigger] dist[p.moved(
                d,
            ).spec_id()] < UNREACHED,
    ensures
        dist[dest.spec_id()] < UNREACHED,
    decreases (if src.r >= dest.r {
        src.r - dest.r
    } else {
        dest.r - src.r
    }) + (if src.c >= dest.c {
        src.c - dest.c
    } else {
        dest.c - src.c
    }),
{
    if src != dest {
        let d = if src.r < dest.r {
            Dir::Down
        } else if src.r > dest.r {
            Dir::Up
        } else if src.c < dest.c {
            Dir::Right
        } else {
            Dir::Left
        };
        assert(src.can_move(d));
        assert(dist[src.moved(d).spec_id()] < UNREACHED);
        lemma_reach_all(dist, src.moved(d), dest);
    }
}

proof fn lemma_count_false(s: Seq<bool>)
    requires
        forall|j: int| 0 <= j < s.len() ==> !#[trigger] s[j],
    ensures
        count_true(s) == 0,
    decreases s.len(),
{
    if s.len() > 0 {
        assert forall|j: int| 0 <= j < s.drop_last().len() implies !#[trigger] s.drop_last()[j] by {
            assert(s.drop_last()[j] == s[j]);
        }
        lemma_count_false(s.drop_last());
    }
}

/// Where the search stands: distances, predecessor directions, settled cells,
/// and (as a proof device) the number of moves on each reached cell's
/// predecessor chain. Every reached cell but `src` has a settled
/// predecessor one move closer to `src`.
#[verifier::opaque]
pub open spec fn core_inv<G: Graph>(
    g: &G,
    src: Pos,
    dist: Seq<u64>,
    prev: Seq<Dir>,
    done: Seq<bool>,
    hops: Seq<int>,
    settled: int,
) -> bool {
    &&& dist.len() == NUM_CELLS
    &&& prev.len() == NUM_CELLS
    &&& done.len() == NUM_CELLS
    &&& hops.len() == NUM_CELLS
    &&& src.wf()
    &&& dist[src.spec_id()] == 0
    &&& hops[src.spec_id()] == 0
    &&& 0 <= settled <= NUM_CELLS
    &&& count_true(done) == settled
    &&& forall|i: int| 0 <= i < NUM_CELLS && #[trigger] done[i] ==> dist[i] < UNREACHED
    &&& forall|i: int|
        0 <= i < NUM_CELLS && #[trigger] dist[i] < UNREACHED ==> 0 <= hops[i] <= settled && dist[i]
            <= hops[i] * u32::MAX
    &&& forall|i: int|
        0 <= i < NUM_CELLS && #[trigger] dist[i] < UNREACHED && i != src.spec_id() ==> {
            let p = pos_of(i);
            let d = prev[i];
            let u = p.moved(d.spec_rev());
            &&& p.can_move(d.spec_rev())
            &&& u.wf()
            &&& u.can_move(d)
            &&& u.moved(d) == p
            &&& done[u.spec_id()]
            &&& hops[i] == hops[u.spec_id()] + 1
            &&& dist[i] == dist[u.spec_id()] + move_cost(g, u, d)
        }
}

/// Every settled cell has its neighbours reached, but for the directions of
/// `cur` outside `ds`.
#[verifier::opaque]
pub open spec fn neighbours_reached(dist: Seq<u64>, done: Seq<bool>, cur: Pos, ds: Set<Dir>) -> bool {
    forall|p: Pos, d: Dir|
        p.wf() && done[p.spec_id()] && p.can_move(d) && (p != cur || ds.contains(d))
            ==> #[trigger] dist[p.moved(d).spec_id()] < UNREACHED
}

/// Every settled cell's moves, but for those of `cur` outside `ds`, cost at
/// least the difference of the distances they join.
#[verifier::opaque]
pub open spec fn edges_tight<G: Graph>(g: &G, dist: Seq<u64>, done: Seq<bool>, cur: Pos, ds: Set<Dir>) -> bool {
    forall|p: Pos, d: Dir|
        p.wf() && done[p.spec_id()] && p.can_move(d) && (p != cur || ds.contains(d))
            ==> #[trigger] dist[p.moved(d).spec_id()] <= dist[p.spec_id()] + move_cost(g, p, d)
}

/// No settled cell is farther than a reached unsettled one.
#[verifier::opaque]
pub open spec fn settled_first(dist: Seq<u64>, done: Seq<bool>) -> bool {
    forall|a: int, v: int|
        0 <= a < NUM_CELLS && 0 <= v < NUM_CELLS && #[trigger] done[a] && !#[trigger] done[v] && dist[v]
            < UNREACHED ==> dist[a] <= dist[v]
}

pub open spec fn all_dirs() -> Set<Dir> {
    set![Dir::Up, Dir::Down, Dir::Left, Dir::Right]
}

pub open spec fn search_inv<G: Graph>(
    g: &G,
    src: Pos,
    dist: Seq<u64>,
    prev: Seq<Dir>,
    done: Seq<bool>,
    hops: Seq<int>,
    settled: int,
) -> bool {
    &&& dist.len() == NUM_CELLS
    &&& prev.len() == NUM_CELLS
    &&& done.len() == NUM_CELLS
    &&& hops.len() == NUM_CELLS
    &&& 0 <= settled <= NUM_CELLS
    &&& core_inv(g, src, dist, prev, done, hops, settled)
    &&& neighbours_reached(dist, done, src, all_dirs())
    &&& edges_tight(g, dist, done, src, all_dirs())
    &&& settled_first(dist, done)
}

/// An unsettled reached cell of least distance, if any.
fn closest_unsettled(dist: &Vec<u64>, done: &Vec<bool>) -> (r: Option<usize>)
    requires
        dist@.len() == NUM_CELLS,
        done@.len() == NUM_CELLS,
    ensures
        r is None ==> forall|j: int| 0 <= j < NUM_CELLS ==> #[trigger] done@[j] || dist@[j] == UNREACHED,
        r matches Some(b) ==> b < NUM_CELLS && !done@[b as int] && dist@[b as int] < UNREACHED
            && forall|j: int| 0 <= j < NUM_CELLS && !#[trigger] done@[j] ==> dist@[b as int] <= dist@[j],
{
    let mut best: Option<usize> = None;
    let mut i: usize = 0;
    while i < NUM_CELLS
        invariant
            i <= NUM_CELLS,
            dist@.len() == NUM_CELLS,
            done@.len() == NUM_CELLS,
            best is None ==> forall|j: int| 0 <= j < i ==> #[trigger] done@[j] || dist@[j] == UNREACHED,
            best matches Some(b) ==> b < i && !done@[b as int] && dist@[b as int] < UNREACHED
                && forall|j: int| 0 <= j < i && !#[trigger] done@[j] ==> dist@[b as int] <= dist@[j],
        decreases NUM_CELLS - i,
    {
        if !done[i] && dist[i] < UNREACHED {
            match best {
                None => {
                    best = Some(i);
                },
                Some(b) => {
                    if dist[i] < dist[b] {
                        best = Some(i);
                    }
                },
            }
        }
        i += 1;
    }
    best
}

/// Lowering the distance of the unsettled neighbour `q = p.moved(d)` to go
/// through the settled cell `p` keeps the search invariant.
#[verifier::rlimit(50)]
proof fn lemma_relax_update<G: Graph>(
    g: &G,
    src: Pos,
    dist: Seq<u64>,
    prev: Seq<Dir>,
    done: Seq<bool>,
    hops: Seq<int>,
    settled: int,
    p: Pos,
    d: Dir,
    ds: Set<Dir>,
    nd: u64,
)
    requires
        core_inv(g, src, dist, prev, done, hops, settled),
        neighbours_reached(dist, done, p, ds),
        p.wf(),
        p.can_move(d),
        done[p.spec_id()],
        hops[p.spec_id()] < settled,
        !done[p.moved(d).spec_id()],
        nd < dist[p.moved(d).spec_id()],
        nd == dist[p.spec_id()] + move_cost(g, p, d),
        nd <= (hops[p.spec_id()] + 1) * u32::MAX,
    ensures
        ({
            let qid = p.moved(d).spec_id();
            &&& core_inv(
                g,
                src,
                dist.update(qid, nd),
                prev.update(qid, d),
                done,
                hops.update(qid, hops[p.spec_id()] + 1),
                settled,
            )
            &&& neighbours_reached(dist.update(qid, nd), done, p, ds.insert(d))
        }),
{
    reveal(core_inv);
    reveal(neighbours_reached);
    let q = p.moved(d);
    lemma_pos_id(0, p);
    lemma_pos_id(0, q);
    lemma_move_rev(p, d);
    let qid = q.spec_id();
    let nd2 = dist.update(qid, nd);
    let np = prev.update(qid, d);
    let h = hops.update(qid, hops[p.spec_id()] + 1);
    assert(qid != p.spec_id());
    assert(qid != src.spec_id()) by {
        if qid == src.spec_id() {
            assert(dist[qid] == 0);
        }
    }
    assert forall|i: int| 0 <= i < NUM_CELLS && #[trigger] nd2[i] < UNREACHED implies 0 <= h[i] <= settled
        && nd2[i] <= h[i] * u32::MAX by {
        if i != qid {
            assert(dist[i] < UNREACHED);
        }
    }
    assert forall|i: int| 0 <= i < NUM_CELLS && #[trigger] done[i] implies nd2[i] < UNREACHED by {
        assert(i != qid);
    }
    assert forall|i: int| 0 <= i < NUM_CELLS && #[trigger] nd2[i] < UNREACHED && i != src.spec_id() implies {
        let pp = pos_of(i);
        let dd = np[i];
        let u = pp.moved(dd.spec_rev());
        &&& pp.can_move(dd.spec_rev())
        &&& u.wf()
        &&& u.can_move(dd)
        &&& u.moved(dd) == pp
        &&& done[u.spec_id()]
        &&& h[i] == h[u.spec_id()] + 1
        &&& nd2[i] == nd2[u.spec_id()] + move_cost(g, u, dd)
    } by {
        if i == qid {
            assert(pos_of(i) == q);
        } else {
            assert(dist[i] < UNREACHED);
            let u = pos_of(i).moved(prev[i].spec_rev());
            lemma_pos_id(0, u);
            assert(u.spec_id() != qid);
        }
    }
    assert forall|pp: Pos, dd: Dir|
        pp.wf() && done[pp.spec_id()] && pp.can_move(dd) && (pp != p || ds.insert(d).contains(dd)) implies #[trigger] nd2[pp.moved(
            dd,
        ).spec_id()] < UNREACHED by {
        lemma_pos_id(0, pp.moved(dd));
        if pp.moved(dd).spec_id() != qid {
            assert(dist[pp.moved(dd).spec_id()] < UNREACHED);
        }
    }
}

/// Where the neighbour `p.moved(d)` is already reached, nothing changes.
proof fn lemma_relax_keep(dist: Seq<u64>, done: Seq<bool>, p: Pos, d: Dir, ds: Set<Dir>)
    requires
        neighbours_reached(dist, done, p, ds),
        dist.len() == NUM_CELLS,
        p.wf(),
        p.can_move(d) ==> dist[p.moved(d).spec_id()] < UNREACHED,
    ensures
        neighbours_reached(dist, done, p, ds.insert(d)),
{
    reveal(neighbours_reached);
}

/// The order facts after lowering the distance of the unsettled neighbour
/// `q = p.moved(d)` to `nd`, which goes through `p`.
#[verifier::rlimit(50)]
proof fn lemma_order_update<G: Graph>(
    g: &G,
    dist: Seq<u64>,
    done: Seq<bool>,
    p: Pos,
    d: Dir,
    ds: Set<Dir>,
    nd: u64,
)
    requires
        dist.len() == NUM_CELLS,
        done.len() == NUM_CELLS,
        edges_tight(g, dist, done, p, ds),
        settled_first(dist, done),
        p.wf(),
        p.can_move(d),
        done[p.spec_id()],
        forall|a: int| 0 <= a < NUM_CELLS && #[trigger] done[a] ==> dist[a] <= dist[p.spec_id()],
        !done[p.moved(d).spec_id()],
        nd < dist[p.moved(d).spec_id()],
        nd == dist[p.spec_id()] + move_cost(g, p, d),
        nd >= dist[p.spec_id()],
    ensures
        edges_tight(g, dist.update(p.moved(d).spec_id(), nd), done, p, ds.insert(d)),
        settled_first(dist.update(p.moved(d).spec_id(), nd), done),
        forall|a: int|
            0 <= a < NUM_CELLS && #[trigger] done[a] ==> dist.update(p.moved(d).spec_id(), nd)[a]
                <= dist.update(p.moved(d).spec_id(), nd)[p.spec_id()],
{
    reveal(edges_tight);
    reveal(settled_first);
    let q = p.moved(d);
    lemma_move_rev(p, d);
    lemma_pos_id(0, p);
    lemma_pos_id(0, q);
    let qid = q.spec_id();
    let nd2 = dist.update(qid, nd);
    assert forall|pp: Pos, dd: Dir|
        pp.wf() && done[pp.spec_id()] && pp.can_move(dd) && (pp != p || ds.insert(d).contains(dd)) implies #[trigger] nd2[pp.moved(
            dd,
        ).spec_id()] <= nd2[pp.spec_id()] + move_cost(g, pp, dd) by {
        lemma_pos_id(0, pp);
        lemma_pos_id(0, pp.moved(dd));
        assert(pp.spec_id() != qid);
        if pp.moved(dd).spec_id() == qid {
            if pp == p && dd == d {
            } else {
                assert(dist[pp.moved(dd).spec_id()] <= dist[pp.spec_id()] + move_cost(g, pp, dd));
            }
        } else {
            if pp == p && dd == d {
                assert(pp.moved(dd) == q);
            } else {
                assert(dist[pp.moved(dd).spec_id()] <= dist[pp.spec_id()] + move_cost(g, pp, dd));
            }
        }
    }
    assert forall|a: int, v: int|
        0 <= a < NUM_CELLS && 0 <= v < NUM_CELLS && #[trigger] done[a] && !#[trigger] done[v] && nd2[v]
            < UNREACHED implies nd2[a] <= nd2[v] by {
        assert(a != qid);
        if v != qid {
            assert(dist[a] <= dist[v]);
        } else {
            assert(dist[a] <= dist[p.spec_id()]);
        }
    }
}

/// The order facts where the neighbour `p.moved(d)` keeps its distance.
proof fn lemma_order_keep<G: Graph>(g: &G, dist: Seq<u64>, done: Seq<bool>, p: Pos, d: Dir, ds: Set<Dir>)
    requires
        dist.len() == NUM_CELLS,
        edges_tight(g, dist, done, p, ds),
        p.wf(),
        p.can_move(d) ==> dist[p.moved(d).spec_id()] <= dist[p.spec_id()] + move_cost(g, p, d),
    ensures
        edges_tight(g, dist, done, p, ds.insert(d)),
{
    reveal(edges_tight);
}

/// Relaxes the move `d` out of the just settled cell `p`.
fn relax<G: Graph>(
    graph: &G,
    src: Pos,
    dist: &mut Vec<u64>,
    prev: &mut Vec<Dir>,
    done: &Vec<bool>,
    hops: Ghost<Seq<int>>,
    settled: Ghost<int>,
    p: Pos,
    d: Dir,
    ds: Ghost<Set<Dir>>,
) -> (new_hops: Ghost<Seq<int>>)
    requires
        graph.graph_wf(),
        core_inv(graph, src, old(dist)@, old(prev)@, done@, hops@, settled@),
        neighbours_reached(old(dist)@, done@, p, ds@),
        edges_tight(graph, old(dist)@, done@, p, ds@),
        settled_first(old(dist)@, done@),
        forall|a: int| 0 <= a < NUM_CELLS && #[trigger] done@[a] ==> old(dist)@[a] <= old(dist)@[p.spec_id()],
        p.wf(),
        done@[p.spec_id()],
        hops@[p.spec_id()] < settled@,
    ensures
        core_inv(graph, src, final(dist)@, final(prev)@, done@, new_hops@, settled@),
        neighbours_reached(final(dist)@, done@, p, ds@.insert(d)),
        edges_tight(graph, final(dist)@, done@, p, ds@.insert(d)),
        settled_first(final(dist)@, done@),
        forall|a: int| 0 <= a < NUM_CELLS && #[trigger] done@[a] ==> final(dist)@[a] <= final(dist)@[p.spec_id()],
        final(dist)@.len() == NUM_CELLS,
        final(prev)@.len() == NUM_CELLS,
        new_hops@.len() == NUM_CELLS,
        new_hops@[p.spec_id()] == hops@[p.spec_id()],
{
    proof {
        lemma_pos_id(0, p);
        reveal(core_inv);
    }
    let ghost h0 = hops@;
    assert(h0.len() == NUM_CELLS);
    let pid = p.id();
    match p.move_to(d) {
        None => {
            proof {
                lemma_relax_keep(dist@, done@, p, d, ds@);
                lemma_order_keep(graph, dist@, done@, p, d, ds@);
            }
            hops
        },
        Some(q) => {
            let qid = q.id();
            proof {
                lemma_pos_id(0, q);
            }
            let c = graph.get_cost(EdgeIndex::from_move(p, d));
            if done[qid] {
                proof {
                    lemma_relax_keep(dist@, done@, p, d, ds@);
                    assert(dist@[qid as int] <= dist@[pid as int]);
                    lemma_order_keep(graph, dist@, done@, p, d, ds@);
                }
                return hops;
            }
            let dp = dist[pid];
            let ghost hp = hops@[pid as int];
            assert(dp <= hp * u32::MAX);
            assert(dp + c <= (hp + 1) * u32::MAX) by (nonlinear_arith)
                requires
                    dp <= hp * u32::MAX,
                    c <= u32::MAX,
            ;
            assert((hp + 1) * u32::MAX <= NUM_CELLS * u32::MAX) by (nonlinear_arith)
                requires
                    0 <= hp < NUM_CELLS,
            ;
            let nd = dp + c as u64;
            if nd < dist[qid] {
                proof {
                    lemma_relax_update(graph, src, dist@, prev@, done@, hops@, settled@, p, d, ds@, nd);
                    lemma_order_update(graph, dist@, done@, p, d, ds@, nd);
                }
                dist.set(qid, nd);
                prev.set(qid, d);
                Ghost(hops@.update(qid as int, hops@[pid as int] + 1))
            } else {
                proof {
                    lemma_relax_keep(dist@, done@, p, d, ds@);
                    lemma_order_keep(graph, dist@, done@, p, d, ds@);
                }
                hops
            }
        },
    }
}

/// Marking the reached cell `p` settled keeps the invariant, with none of
/// its moves relaxed yet.
#[verifier::rlimit(50)]
proof fn lemma_settle_start<G: Graph>(
    g: &G,
    src: Pos,
    dist: Seq<u64>,
    prev: Seq<Dir>,
    done: Seq<bool>,
    hops: Seq<int>,
    settled: int,
    p: Pos,
)
    requires
        search_inv(g, src, dist, prev, done, hops, settled),
        p.wf(),
        !done[p.spec_id()],
        dist[p.spec_id()] < UNREACHED,
        forall|j: int| 0 <= j < NUM_CELLS && !#[trigger] done[j] ==> dist[p.spec_id()] <= dist[j],
    ensures
        core_inv(g, src, dist, prev, done.update(p.spec_id(), true), hops, settled + 1),
        neighbours_reached(dist, done.update(p.spec_id(), true), p, Set::empty()),
        hops[p.spec_id()] < settled + 1,
        settled + 1 <= NUM_CELLS,
{
    reveal(core_inv);
    reveal(neighbours_reached);
    lemma_pos_id(0, p);
    let pid = p.spec_id();
    let nd = done.update(pid, true);
    lemma_count_true_set(done, pid);
    lemma_count_true_full(done);
    assert forall|pp: Pos, dd: Dir|
        pp.wf() && nd[pp.spec_id()] && pp.can_move(dd) && (pp != p || Set::<Dir>::empty().contains(dd))
            implies #[trigger] dist[pp.moved(dd).spec_id()] < UNREACHED by {
        lemma_pos_id(0, pp);
        assert(done[pp.spec_id()]);
    }
    assert forall|i: int| 0 <= i < NUM_CELLS && #[trigger] nd[i] implies dist[i] < UNREACHED by {
        if i != pid {
            assert(done[i]);
        }
    }
    assert forall|i: int|
        0 <= i < NUM_CELLS && #[trigger] dist[i] < UNREACHED && i != src.spec_id() implies nd[pos_of(i).moved(
        prev[i].spec_rev(),
    ).spec_id()] by {
        let u = pos_of(i).moved(prev[i].spec_rev());
        assert(done[u.spec_id()]);
    }
}

/// The order facts after marking the closest unsettled cell `p` settled.
#[verifier::rlimit(50)]
proof fn lemma_settle_order<G: Graph>(g: &G, dist: Seq<u64>, done: Seq<bool>, p: Pos, cur: Pos)
    requires
        dist.len() == NUM_CELLS,
        done.len() == NUM_CELLS,
        edges_tight(g, dist, done, cur, all_dirs()),
        settled_first(dist, done),
        p.wf(),
        !done[p.spec_id()],
        dist[p.spec_id()] < UNREACHED,
        forall|j: int| 0 <= j < NUM_CELLS && !#[trigger] done[j] ==> dist[p.spec_id()] <= dist[j],
    ensures
        edges_tight(g, dist, done.update(p.spec_id(), true), p, Set::empty()),
        settled_first(dist, done.update(p.spec_id(), true)),
        forall|a: int|
            0 <= a < NUM_CELLS && #[trigger] done.update(p.spec_id(), true)[a] ==> dist[a] <= dist[p.spec_id()],
{
    reveal(edges_tight);
    reveal(settled_first);
    lemma_pos_id(0, p);
    let pid = p.spec_id();
    let nd = done.update(pid, true);
    assert forall|d: Dir| all_dirs().contains(d) by {}
    assert forall|pp: Pos, dd: Dir|
        pp.wf() && nd[pp.spec_id()] && pp.can_move(dd) && (pp != p || Set::<Dir>::empty().contains(dd))
            implies #[trigger] dist[pp.moved(dd).spec_id()] <= dist[pp.spec_id()] + move_cost(g, pp, dd) by {
        lemma_pos_id(0, pp);
        assert(done[pp.spec_id()]);
    }
    assert forall|a: int, v: int|
        0 <= a < NUM_CELLS && 0 <= v < NUM_CELLS && #[trigger] nd[a] && !#[trigger] nd[v] && dist[v] < UNREACHED
            implies dist[a] <= dist[v] by {
        if a != pid {
            assert(done[a] && !done[v]);
        }
    }
    assert forall|a: int| 0 <= a < NUM_CELLS && #[trigger] nd[a] implies dist[a] <= dist[pid] by {
        if a != pid {
            assert(done[a] && !done[pid]);
        }
    }
}

/// Settles the reached cell number `pid` and relaxes the four moves out of it.
fn settle<G: Graph>(
    graph: &G,
    src: Pos,
    dist: &mut Vec<u64>,
    prev: &mut Vec<Dir>,
    done: &mut Vec<bool>,
    hops: Ghost<Seq<int>>,
    settled: usize,
    pid: usize,
) -> (new_hops: Ghost<Seq<int>>)
    requires
        graph.graph_wf(),
        search_inv(graph, src, old(dist)@, old(prev)@, old(done)@, hops@, settled as int),
        pid < NUM_CELLS,
        !old(done)@[pid as int],
        old(dist)@[pid as int] < UNREACHED,
        forall|j: int| 0 <= j < NUM_CELLS && !#[trigger] old(done)@[j] ==> old(dist)@[pid as int] <= old(dist)@[j],
    ensures
        search_inv(graph, src, final(dist)@, final(prev)@, final(done)@, new_hops@, settled + 1),
        final(done)@ == old(done)@.update(pid as int, true),
{
    let p = Pos::new((pid / GRID_LEN) as u8, (pid % GRID_LEN) as u8);
    proof {
        lemma_pos_id(pid as int, p);
        assert(p == pos_of(pid as int));
    }
    let ghost before = done@;
    done.set(pid, true);
    proof {
        lemma_settle_start(graph, src, dist@, prev@, before, hops@, settled as int, p);
        lemma_settle_order(graph, dist@, before, p, src);
    }
    let h1 = relax(graph, src, dist, prev, done, hops, Ghost(settled + 1), p, Dir::Up, Ghost(Set::empty()));
    let h2 = relax(graph, src, dist, prev, done, h1, Ghost(settled + 1), p, Dir::Left, Ghost(Set::empty().insert(Dir::Up)));
    let h3 = relax(graph, src, dist, prev, done, h2, Ghost(settled + 1), p, Dir::Down, Ghost(Set::empty().insert(Dir::Up).insert(Dir::Left)));
    let h4 = relax(graph, src, dist, prev, done, h3, Ghost(settled + 1), p, Dir::Right, Ghost(Set::empty().insert(Dir::Up).insert(Dir::Left).insert(Dir::Down)));
    proof {
        assert(Set::<Dir>::empty().insert(Dir::Up).insert(Dir::Left).insert(Dir::Down).insert(Dir::Right)
            =~= all_dirs());
        reveal(neighbours_reached);
        reveal(edges_tight);
        assert forall|d: Dir| all_dirs().contains(d) by {}
    }
    h4
}

/// Dijkstra's search from `src`, stopping once `dest` is the closest
/// unsettled cell. Returns distances, predecessor directions, and the hop
/// counts that order each predecessor chain.
fn search<G: Graph>(graph: &G, src: Pos, dest: Pos) -> (r: (
    Vec<u64>,
    Vec<Dir>,
    Ghost<Seq<int>>,
    Ghost<Seq<bool>>,
    Ghost<int>,
))
    requires
        graph.graph_wf(),
        src.wf(),
        dest.wf(),
    ensures
        search_inv(graph, src, r.0@, r.1@, r.3@, r.2@, r.4@),
        r.0@[dest.spec_id()] < UNREACHED,
        forall|v: int| 0 <= v < NUM_CELLS && !#[trigger] r.3@[v] ==> r.0@[dest.spec_id()] <= r.0@[v],
{
    proof {
        lemma_pos_id(0, src);
        lemma_pos_id(0, dest);
    }
    let mut dist: Vec<u64> = Vec::new();
    let mut prev: Vec<Dir> = Vec::new();
    let mut done: Vec<bool> = Vec::new();
    let mut k: usize = 0;
    while k < NUM_CELLS
        invariant
            k <= NUM_CELLS,
            dist@.len() == k,
            prev@.len() == k,
            done@.len() == k,
            forall|j: int| 0 <= j < k ==> #[trigger] dist@[j] == UNREACHED,
            forall|j: int| 0 <= j < k ==> !#[trigger] done@[j],
        decreases NUM_CELLS - k,
    {
        dist.push(UNREACHED);
        prev.push(Dir::Up);
        done.push(false);
        k += 1;
    }
    let src_id = src.id();
    dist.set(src_id, 0);
    let ghost mut hops: Seq<int> = Seq::new(NUM_CELLS as nat, |i: int| 0int);
    proof {
        reveal(core_inv);
        reveal(neighbours_reached);
        reveal(edges_tight);
        reveal(settled_first);
        lemma_count_false(done@);
        assert forall|i: int| 0 <= i < NUM_CELLS && #[trigger] dist@[i] < UNREACHED implies i == src_id by {}
        assert(search_inv(graph, src, dist@, prev@, done@, hops, 0));
    }
    let dest_id = dest.id();
    let mut iter: usize = 0;
    let mut searching = true;
    while searching
        invariant
            search_inv(graph, src, dist@, prev@, done@, hops, iter as int),
            graph.graph_wf(),
            src.wf(),
            dest.wf(),
            dest_id == dest.spec_id(),
            !searching ==> dist@[dest_id as int] < UNREACHED,
            !searching ==> forall|v: int|
                0 <= v < NUM_CELLS && !#[trigger] done@[v] ==> dist@[dest_id as int] <= dist@[v],
        decreases NUM_CELLS - iter + if searching {
            1int
        } else {
            0
        },
    {
        if iter == NUM_CELLS {
            proof {
                reveal(core_inv);
                lemma_count_true_full(done@);
                assert(done@[dest_id as int]);
                assert forall|v: int| 0 <= v < NUM_CELLS && !#[trigger] done@[v] implies dist@[dest_id as int]
                    <= dist@[v] by {}
            }
            searching = false;
        } else {
            match closest_unsettled(&dist, &done) {
                None => {
                    proof {
                        reveal(core_inv);
                        reveal(neighbours_reached);
                        assert forall|p: Pos, d: Dir|
                            p.wf() && dist@[p.spec_id()] < UNREACHED && p.can_move(d) implies #[trigger] dist@[p.moved(
                                d,
                            ).spec_id()] < UNREACHED by {
                            lemma_pos_id(0, p);
                            assert(done@[p.spec_id()]);
                        }
                        lemma_reach_all(dist@, src, dest);
                        assert forall|v: int| 0 <= v < NUM_CELLS && !#[trigger] done@[v] implies dist@[dest_id as int]
                            <= dist@[v] by {
                            lemma_pos_id(v, src);
                            lemma_reach_all(dist@, src, pos_of(v));
                        }
                    }
                    searching = false;
                },
                Some(pid) => {
                    if pid == dest_id {
                        searching = false;
                    } else {
                        proof {
                            reveal(core_inv);
                        }
                        let Ghost(h) = settle(graph, src, &mut dist, &mut prev, &mut done, Ghost(hops), iter, pid);
                        proof {
                            hops = h;
                        }
                        iter += 1;
                    }
                },
            }
        }
    }
    (dist, prev, Ghost(hops), Ghost(done@), Ghost(iter as int))
}

/// Follows the predecessor directions back from `dest` to `src`.
fn reconstruct<G: Graph>(
    graph: &G,
    src: Pos,
    dest: Pos,
    dist: &Vec<u64>,
    prev: &Vec<Dir>,
    hops: Ghost<Seq<int>>,
    done: Ghost<Seq<bool>>,
    settled: Ghost<int>,
) -> (path: Vec<Dir>)
    requires
        search_inv(graph, src, dist@, prev@, done@, hops@, settled@),
        dest.wf(),
        dist@[dest.spec_id()] < UNREACHED,
    ensures
        is_simple_path(src, dest, path@),
        walk_cost(graph, src, path@) == dist@[dest.spec_id()],
        src == dest ==> path@.len() == 0,
{
    proof {
        reveal(core_inv);
        lemma_pos_id(0, dest);
        lemma_pos_id(0, src);
    }
    let mut back: Vec<Dir> = Vec::new();
    let mut cur = dest;
    let ghost mut fwd: Seq<Dir> = Seq::empty();
    while cur != src
        invariant
            search_inv(graph, src, dist@, prev@, done@, hops@, settled@),
            src.wf(),
            dest.wf(),
            cur.wf(),
            dist@[cur.spec_id()] < UNREACHED,
            back@.len() == fwd.len(),
            forall|j: int| 0 <= j < fwd.len() ==> #[trigger] back@[j] == fwd[fwd.len() - 1 - j],
            walk_end(cur, fwd) == Some(dest),
            walk_cost(graph, cur, fwd) == dist@[dest.spec_id()] - dist@[cur.spec_id()],
            walk_cells(cur, fwd).len() == fwd.len() + 1,
            forall|j: int|
                0 <= j < walk_cells(cur, fwd).len() ==> (#[trigger] walk_cells(cur, fwd)[j]).wf()
                    && hops@[walk_cells(cur, fwd)[j].spec_id()] == hops@[cur.spec_id()] + j,
            dest == src ==> fwd.len() == 0,
        decreases hops@[cur.spec_id()],
    {
        proof {
            reveal(core_inv);
            lemma_pos_id(0, cur);
        }
        let ghost i = cur.spec_id();
        assert(pos_of(i) == cur);
        let d = prev[cur.id()];
        let r = d.rev();
        let u = match cur.move_to(r) {
            Some(u) => u,
            None => cur,
        };
        assert(u == cur.moved(d.spec_rev()));
        let ghost old_fwd = fwd;
        let ghost nf = seq![d] + old_fwd;
        proof {
            lemma_pos_id(0, u);
            assert(nf.drop_first() =~= old_fwd);
            assert(nf[0] == d);
            assert(u.moved(d) == cur);
            assert(walk_cells(u, nf) == seq![u] + walk_cells(cur, old_fwd));
            assert forall|j: int|
                0 <= j < walk_cells(u, nf).len() implies (#[trigger] walk_cells(u, nf)[j]).wf()
                && hops@[walk_cells(u, nf)[j].spec_id()] == hops@[u.spec_id()] + j by {
                if j > 0 {
                    assert(walk_cells(u, nf)[j] == walk_cells(cur, old_fwd)[j - 1]);
                }
            }
        }
        back.push(d);
        proof {
            fwd = nf;
            assert forall|j: int| 0 <= j < fwd.len() implies #[trigger] back@[j] == fwd[fwd.len() - 1 - j] by {
                if j < old_fwd.len() {
                    assert(fwd[fwd.len() - 1 - j] == old_fwd[old_fwd.len() - 1 - j]);
                }
            }
        }
        cur = u;
    }
    proof {
        let cells = walk_cells(src, fwd);
        assert forall|a: int, b: int| 0 <= a < cells.len() && 0 <= b < cells.len() && a != b implies cells[a]
            != cells[b] by {
            assert(hops@[cells[a].spec_id()] == a);
            assert(hops@[cells[b].spec_id()] == b);
        }
        assert(cells.no_duplicates());
    }
    let mut path: Vec<Dir> = Vec::new();
    let mut k: usize = back.len();
    while k > 0
        invariant
            k <= back@.len(),
            back@.len() == fwd.len(),
            forall|j: int| 0 <= j < fwd.len() ==> #[trigger] back@[j] == fwd[fwd.len() - 1 - j],
            path@ == fwd.take(fwd.len() - k),
        decreases k,
    {
        k -= 1;
        path.push(back[k]);
        assert(path@ =~= fwd.take(fwd.len() - k));
    }
    assert(path@ =~= fwd);
    path
}

/// The cells of a legal walk are valid, one more than its moves.
pub proof fn lemma_walk_cells(p: Pos, path: Seq<Dir>)
    requires
        p.wf(),
        walk_end(p, path) is Some,
    ensures
        walk_cells(p, path).len() == path.len() + 1,
        forall|i: int| 0 <= i < walk_cells(p, path).len() ==> (#[trigger] walk_cells(p, path)[i]).wf(),
    decreases path.len(),
{
    if path.len() > 0 {
        lemma_move_rev(p, path[0]);
        lemma_walk_cells(p.moved(path[0]), path.drop_first());
        assert forall|i: int| 0 <= i < walk_cells(p, path).len() implies (#[trigger] walk_cells(p, path)[i]).wf() by {
            if i > 0 {
                assert(walk_cells(p, path)[i] == walk_cells(p.moved(path[0]), path.drop_first())[i - 1]);
            }
        }
    }
}

/// Distinct valid cells number at most as many as the grid has.
pub proof fn lemma_distinct_cells_len(cells: Seq<Pos>)
    requires
        cells.no_duplicates(),
        forall|i: int| 0 <= i < cells.len() ==> (#[trigger] cells[i]).wf(),
    ensures
        cells.len() <= NUM_CELLS,
{
    let ids = cells.map_values(|p: Pos| p.spec_id());
    assert forall|i: int, j: int| 0 <= i < ids.len() && 0 <= j < ids.len() && i != j implies ids[i] != ids[j] by {
        lemma_pos_id(0, cells[i]);
        lemma_pos_id(0, cells[j]);
    }
    assert(ids.no_duplicates());
    ids.unique_seq_to_set();
    assert forall|x: int| ids.to_set().contains(x) implies set_int_range(0, NUM_CELLS as int).contains(x) by {
        let i = choose|i: int| 0 <= i < ids.len() && ids[i] == x;
        lemma_pos_id(0, cells[i]);
    }
    lemma_int_range(0, NUM_CELLS as int);
    lemma_len_subset(ids.to_set(), set_int_range(0, NUM_CELLS as int));
}

/// A path that visits no cell twice has fewer moves than the grid has cells.
pub proof fn lemma_simple_path_len(src: Pos, dest: Pos, path: Seq<Dir>)
    requires
        src.wf(),
        is_simple_path(src, dest, path),
    ensures
        path.len() < NUM_CELLS,
{
    lemma_walk_cells(src, path);
    lemma_distinct_cells_len(walk_cells(src, path));
}

/// A walk from `src` whose cells are all settled costs at least the
/// distance of where it ends.
proof fn lemma_settled_walk<G: Graph>(
    g: &G,
    src: Pos,
    dist: Seq<u64>,
    prev: Seq<Dir>,
    done: Seq<bool>,
    hops: Seq<int>,
    settled: int,
    w: Seq<Dir>,
)
    requires
        search_inv(g, src, dist, prev, done, hops, settled),
        walk_end(src, w) is Some,
        forall|i: int| 0 <= i < w.len() ==> #[trigger] done[walk_cells(src, w)[i].spec_id()],
    ensures
        dist[(walk_end(src, w)->0).spec_id()] <= walk_cost(g, src, w),
    decreases w.len(),
{
    reveal(core_inv);
    reveal(edges_tight);
    lemma_pos_id(0, src);
    if w.len() > 0 {
        let w0 = w.drop_last();
        let d = w.last();
        assert(w =~= w0 + seq![d]);
        lemma_walk_concat(src, w0, seq![d]);
        assert(walk_end(src, w0) is Some);
        let y = walk_end(src, w0)->0;
        lemma_walk_cells(src, w0);
        lemma_walk_cells(src, w);
        assert(seq![d].drop_first() =~= Seq::<Dir>::empty());
        assert(y.spec_move(d) is Some);
        let x = y.moved(d);
        assert(walk_end(y, seq![d]) == Some(x)) by {
            assert(walk_end(x, Seq::<Dir>::empty()) == Some(x));
        }
        assert(walk_cells(y, seq![d]) =~= seq![y, x]) by {
            assert(walk_cells(x, Seq::<Dir>::empty()) == seq![x]);
        }
        assert(walk_cells(src, w) =~= walk_cells(src, w0).push(x));
        assert forall|i: int| 0 <= i < w0.len() implies #[trigger] done[walk_cells(src, w0)[i].spec_id()] by {
            assert(walk_cells(src, w)[i] == walk_cells(src, w0)[i]);
        }
        lemma_settled_walk(g, src, dist, prev, done, hops, settled, w0);
        assert(walk_cells(src, w0)[w0.len() as int] == y) by {
            lemma_walk_cells_last(src, w0);
        }
        assert(done[y.spec_id()]) by {
            assert(walk_cells(src, w)[w0.len() as int] == y);
        }
        lemma_walk_cost_snoc(g, src, w0, d);
        assert(w0.push(d) =~= w);
        assert(dist[x.spec_id()] <= dist[y.spec_id()] + move_cost(g, y, d));
    } else {
        assert(walk_end(src, w) == Some(src));
    }
}

/// The last cell of a legal walk is where it ends.
proof fn lemma_walk_cells_last(p: Pos, w: Seq<Dir>)
    requires
        walk_end(p, w) is Some,
    ensures
        walk_cells(p, w)[w.len() as int] == walk_end(p, w)->0,
        walk_cells(p, w).len() == w.len() + 1,
    decreases w.len(),
{
    if w.len() > 0 {
        lemma_walk_cells_last(p.moved(w[0]), w.drop_first());
    }
}

/// Extending a walk never lowers its cost.
proof fn lemma_walk_cost_prefix<G: Graph>(g: &G, src: Pos, w: Seq<Dir>, k: int)
    requires
        g.graph_wf(),
        src.wf(),
        walk_end(src, w) is Some,
        0 <= k <= w.len(),
    ensures
        walk_cost(g, src, w.take(k)) <= walk_cost(g, src, w),
    decreases w.len() - k,
{
    if k < w.len() {
        lemma_walk_cost_prefix(g, src, w, k + 1);
        let a = w.take(k);
        let d = w[k];
        assert(w.take(k + 1) =~= a.push(d));
        assert(w =~= w.take(k + 1) + w.skip(k + 1));
        lemma_walk_concat(src, w.take(k + 1), w.skip(k + 1));
        assert(w.take(k + 1) =~= a + seq![d]);
        lemma_walk_concat(src, a, seq![d]);
        lemma_walk_cost_snoc(g, src, a, d);
        g.lemma_weights_nonneg();
        let y = walk_end(src, a)->0;
        lemma_walk_cells_last(src, a);
        lemma_walk_cells(src, a);
        assert(y.wf()) by {
            assert(walk_cells(src, a)[a.len() as int] == y);
        }
        crate::grid::lemma_move_rev(y, d);
        assert(EdgeIndex::spec_from_move(y, d).wf());
    } else {
        assert(w.take(k) =~= w);
    }
}

/// First index from `i` on whose cell is not settled, or the walk's length.
spec fn first_unsettled(cells: Seq<Pos>, done: Seq<bool>, n: int, i: int) -> int
    decreases n - i,
{
    if i >= n || !done[cells[i].spec_id()] {
        i
    } else {
        first_unsettled(cells, done, n, i + 1)
    }
}

proof fn lemma_first_unsettled(cells: Seq<Pos>, done: Seq<bool>, n: int, i: int)
    requires
        0 <= i <= n,
    ensures
        ({
            let k = first_unsettled(cells, done, n, i);
            &&& i <= k <= n
            &&& forall|j: int| i <= j < k ==> #[trigger] done[cells[j].spec_id()]
            &&& k < n ==> !done[cells[k].spec_id()]
        }),
    decreases n - i,
{
    if i < n && done[cells[i].spec_id()] {
        lemma_first_unsettled(cells, done, n, i + 1);
    }
}

/// When `dest` is no farther than any unsettled cell, no walk from `src` to
/// `dest` costs less than its distance.
#[verifier::rlimit(50)]
proof fn lemma_no_cheaper_walk<G: Graph>(
    g: &G,
    src: Pos,
    dest: Pos,
    dist: Seq<u64>,
    prev: Seq<Dir>,
    done: Seq<bool>,
    hops: Seq<int>,
    settled: int,
    w: Seq<Dir>,
)
    requires
        g.graph_wf(),
        search_inv(g, src, dist, prev, done, hops, settled),
        dest.wf(),
        walk_end(src, w) == Some(dest),
        forall|v: int| 0 <= v < NUM_CELLS && !#[trigger] done[v] ==> dist[dest.spec_id()] <= dist[v],
    ensures
        dist[dest.spec_id()] <= walk_cost(g, src, w),
{
    reveal(core_inv);
    lemma_pos_id(0, src);
    let cells = walk_cells(src, w);
    lemma_walk_cells(src, w);
    lemma_walk_cells_last(src, w);
    lemma_first_unsettled(cells, done, w.len() as int, 0);
    let k = first_unsettled(cells, done, w.len() as int, 0);
    let a = w.take(k);
    assert(w =~= a + w.skip(k));
    lemma_walk_concat(src, a, w.skip(k));
    lemma_walk_cells_last(src, a);
    let x = walk_end(src, a)->0;
    assert(walk_cells(src, a) =~= cells.take(k + 1)) by {
        assert(walk_cells(src, w) =~= walk_cells(src, a) + walk_cells(x, w.skip(k)).drop_first());
    }
    assert forall|i: int| 0 <= i < a.len() implies #[trigger] done[walk_cells(src, a)[i].spec_id()] by {
        assert(walk_cells(src, a)[i] == cells[i]);
    }
    lemma_settled_walk(g, src, dist, prev, done, hops, settled, a);
    lemma_walk_cost_prefix(g, src, w, k);
    assert(cells[k] == x) by {
        assert(walk_cells(src, a)[k] == x);
    }
    lemma_walk_cells(src, a);
    lemma_pos_id(0, x);
    if k < w.len() {
        assert(!done[x.spec_id()]);
    } else {
        assert(x == dest);
    }
}

proof fn lemma_optimal<G: Graph>(
    g: &G,
    src: Pos,
    dest: Pos,
    dist: Seq<u64>,
    prev: Seq<Dir>,
    done: Seq<bool>,
    hops: Seq<int>,
    settled: int,
)
    requires
        g.graph_wf(),
        search_inv(g, src, dist, prev, done, hops, settled),
        dest.wf(),
        forall|v: int| 0 <= v < NUM_CELLS && !#[trigger] done[v] ==> dist[dest.spec_id()] <= dist[v],
    ensures
        forall|w: Seq<Dir>| walk_end(src, w) == Some(dest) ==> dist[dest.spec_id()] <= #[trigger] walk_cost(g, src, w),
{
    assert forall|w: Seq<Dir>| walk_end(src, w) == Some(dest) implies dist[dest.spec_id()] <= #[trigger] walk_cost(
        g,
        src,
        w,
    ) by {
        lemma_no_cheaper_walk(g, src, dest, dist, prev, done, hops, settled, w);
    }
}

/// A shortest path from `src` to `dest` and its cost: the path is legal,
/// visits no cell twice, ends at `dest`, and costs what is returned.
pub fn compute_shortest_path<G: Graph>(graph: &G, src: Pos, dest: Pos) -> (r: (Vec<Dir>, u64))
    requires
        graph.graph_wf(),
        src.wf(),
        dest.wf(),
    ensures
        is_simple_path(src, dest, r.0@),
        r.0@.len() < NUM_CELLS,
        r.1 == walk_cost(graph, src, r.0@),
        src == dest ==> r.0@.len() == 0 && r.1 == 0,
        forall|w: Seq<Dir>| walk_end(src, w) == Some(dest) ==> r.1 <= #[trigger] walk_cost(graph, src, w),
{
    let (dist, prev, hops, done, settled) = search(graph, src, dest);
    let path = reconstruct(graph, src, dest, &dist, &prev, hops, done, settled);
    proof {
        lemma_simple_path_len(src, dest, path@);
        lemma_pos_id(0, dest);
        lemma_optimal(graph, src, dest, dist@, prev@, done@, hops@, settled@);
    }
    let cost = dist[dest.id()];
    (path, cost)
}

/// Cost of a shortest path from `src` to `dest`.
pub fn compute_shortest_cost<G: Graph>(graph: &G, src: Pos, dest: Pos) -> (c: u64)
    requires
        graph.graph_wf(),
        src.wf(),
        dest.wf(),
    ensures
        exists|path: Seq<Dir>| is_simple_path(src, dest, path) && c == walk_cost(graph, src, path),
        forall|w: Seq<Dir>| walk_end(src, w) == Some(dest) ==> c <= #[trigger] walk_cost(graph, src, w),
        src == dest ==> c == 0,
{
    let (path, cost) = compute_shortest_path(graph, src, dest);
    cost
}

/// Cost of a walk extended by one legal move.
pub proof fn lemma_walk_cost_snoc<G: Graph>(g: &G, p: Pos, a: Seq<Dir>, d: Dir)
    requires
        walk_end(p, a) is Some,
    ensures
        walk_cost(g, p, a.push(d)) == walk_cost(g, p, a) + move_cost(g, walk_end(p, a)->0, d),
    decreases a.len(),
{
    if a.len() > 0 {
        assert(a.push(d).drop_first() =~= a.drop_first().push(d));
        assert(a.push(d)[0] == a[0]);
        assert(p.spec_move(a[0]) is Some);
        assert(walk_end(p, a) == walk_end(p.moved(a[0]), a.drop_first()));
        lemma_walk_cost_snoc(g, p.moved(a[0]), a.drop_first(), d);
    } else {
        assert(a.push(d).drop_first() =~= Seq::<Dir>::empty());
        assert(a.push(d)[0] == d);
        assert(walk_cost(g, p.moved(d), Seq::<Dir>::empty()) == 0);
        assert(walk_end(p, a) == Some(p));
    }
}

} // verus!
