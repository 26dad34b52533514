//! A local stand-in for the judge: draws a hidden cost grid and the queries
//! from a seed, checks submitted paths, and answers with their noisy length.
use crate::dijkstra::{
    compute_shortest_cost, lemma_distinct_cells_len, lemma_pos_id, lemma_simple_path_len,
    lemma_walk_cells, lemma_walk_cost_snoc, walk_cost,
};
use crate::graph::{Graph, Grid, GridGraph};
use crate::grid::{
    is_simple_path, lemma_move_rev, lemma_walk_concat, walk_cells, walk_end, Dir, Pos, Query,
    EDGES_PER_LINE, GRID_LEN, NUM_CELLS, NUM_EDGES, NUM_LINES, NUM_TURN,
};
use crate::session::{EnvError, Environment};
use rand::{Rng, SeedableRng};
use rand_chacha::ChaCha20Rng;
use vstd::prelude::*;

verus! {

#[verifier::external_type_specification]
#[verifier::external_body]
pub struct ExChaCha20Rng(ChaCha20Rng);

/// The value that a ChaCha20 generator seeded with `seed` yields for
/// `gen_range(low, high)` after the ranges `drawn` were drawn from it, in
/// order: a function of these arguments alone.
pub uninterp spec fn chacha_draw(seed: u64, drawn: Seq<(u32, u32)>, low: u32, high: u32) -> u32;

/// A seeded generator with, as a ghost, its seed and the ranges drawn from
/// it so far. Only `chacha_seeded` makes one and only `chacha_range` draws.
pub struct SeededRng {
    rng: ChaCha20Rng,
    seed: Ghost<u64>,
    drawn: Ghost<Seq<(u32, u32)>>,
    values: Ghost<Seq<u32>>,
}

impl SeededRng {
    pub closed spec fn spec_seed(&self) -> u64 {
        self.seed@
    }

    pub closed spec fn spec_drawn(&self) -> Seq<(u32, u32)> {
        self.drawn@
    }

    pub closed spec fn spec_values(&self) -> Seq<u32> {
        self.values@
    }

    /// Every value drawn so far is the one its draw names.
    pub open spec fn trace_ok(&self) -> bool {
        named_trace(self.spec_seed(), self.spec_drawn(), self.spec_values())
    }
}

/// `values[k]` is what the `k`-th draw of the ranges `drawn` from a
/// generator seeded with `seed` yields.
pub open spec fn named_trace(seed: u64, drawn: Seq<(u32, u32)>, values: Seq<u32>) -> bool {
    &&& drawn.len() == values.len()
    &&& forall|k: int|
        0 <= k < values.len() ==> #[trigger] values[k] == chacha_draw(seed, drawn.take(k), drawn[k].0, drawn[k].1)
}

/// Drawing keeps the trace named.
proof fn lemma_trace_push(seed: u64, drawn: Seq<(u32, u32)>, values: Seq<u32>, low: u32, high: u32, r: u32)
    requires
        named_trace(seed, drawn, values),
        r == chacha_draw(seed, drawn, low, high),
    ensures
        named_trace(seed, drawn.push((low, high)), values.push(r)),
{
    let d2 = drawn.push((low, high));
    let v2 = values.push(r);
    assert forall|k: int| 0 <= k < v2.len() implies #[trigger] v2[k] == chacha_draw(seed, d2.take(k), d2[k].0, d2[k].1) by {
        if k < values.len() {
            assert(d2.take(k) =~= drawn.take(k));
        } else {
            assert(d2.take(k) =~= drawn);
        }
    }
}

/// A draw through the named generator, keeping its trace named.
fn draw(rng: &mut SeededRng, low: u32, high: u32) -> (r: u32)
    requires
        low < high,
        old(rng).trace_ok(),
    ensures
        low <= r < high,
        r == chacha_draw(old(rng).spec_seed(), old(rng).spec_drawn(), low, high),
        final(rng).spec_seed() == old(rng).spec_seed(),
        final(rng).spec_drawn() == old(rng).spec_drawn().push((low, high)),
        final(rng).spec_values() == old(rng).spec_values().push(r),
        final(rng).trace_ok(),
{
    let r = chacha_range(rng, low, high);
    proof {
        lemma_trace_push(old(rng).spec_seed(), old(rng).spec_drawn(), old(rng).spec_values(), low, high, r);
    }
    r
}

/// Relies on `SeedableRng::seed_from_u64` (rand_core 0.5): a ChaCha20
/// generator seeded with `seed`, nothing drawn yet.
#[verifier::external_body]
fn chacha_seeded(seed: u64) -> (r: SeededRng)
    ensures
        r.spec_seed() == seed,
        r.spec_drawn() == Seq::<(u32, u32)>::empty(),
        r.spec_values() == Seq::<u32>::empty(),
{
    SeededRng {
        rng: ChaCha20Rng::seed_from_u64(seed),
        seed: Ghost(seed),
        drawn: Ghost(Seq::empty()),
        values: Ghost(Seq::empty()),
    }
}

/// Relies on `Rng::gen_range(low, high)` (rand 0.7): a value drawn from
/// `low..high` (it panics on an empty range, hence `low < high`); ChaCha20
/// is deterministic, so the value depends on the seed and the earlier draws.
#[verifier::external_body]
fn chacha_range(rng: &mut SeededRng, low: u32, high: u32) -> (r: u32)
    requires
        low < high,
    ensures
        low <= r < high,
        r == chacha_draw(old(rng).spec_seed(), old(rng).spec_drawn(), low, high),
        final(rng).spec_seed() == old(rng).spec_seed(),
        final(rng).spec_drawn() == old(rng).spec_drawn().push((low, high)),
        final(rng).spec_values() == old(rng).spec_values().push(r),
{
    rng.rng.gen_range(low, high)
}

/// Lowest and highest true edge cost.
pub const TRUE_COST_LB: u32 = 1000;
pub const TRUE_COST_UB: u32 = 9000;

/// Least Manhattan distance between the endpoints of a query.
pub const MIN_QUERY_DIST: u32 = 10;

/// Bounds of the response noise, in millionths.
pub const RES_FACTOR_LB_PPM: u32 = 900_000;
pub const RES_FACTOR_UB_PPM: u32 = 1_100_000;

/// Draws of a query pair before the fallback pair is taken.
pub const MAX_QUERY_DRAWS: u32 = 10_000;

/// Best and achieved cost of one answered query.
#[derive(Debug, Clone, Copy, PartialEq, Eq, Structural)]
pub struct ScoreDetail {
    pub best: u64,
    pub length: u64,
}

/// The parameters the hidden grid was drawn from.
#[derive(Debug)]
pub enum GraphParams {
    /// One base per line.
    Single { d: u16, h: Vec<u16>, v: Vec<u16> },
    /// Two bases per line and the split of each line.
    Double { d: u16, h: Vec<(u16, u16)>, cm: Vec<u8>, v: Vec<(u16, u16)>, rm: Vec<u8> },
}

#[derive(Debug, Clone, Copy, PartialEq, Eq, Structural)]
pub struct QueryParam {
    pub query: Query,
    /// Factor applied to the length of the answered path, in millionths.
    pub res_factor_ppm: u32,
}

pub struct Simulator {
    turn: usize,
    graph_params: GraphParams,
    graph: GridGraph<u32>,
    queries: Vec<QueryParam>,
    visited: Grid<usize>,
    score_details: Vec<ScoreDetail>,
    /// The ranges drawn from the seeded generator, and the values drawn.
    draws: Ghost<Seq<(u32, u32)>>,
    draw_values: Ghost<Seq<u32>>,
}

pub open spec fn manhattan(a: Pos, b: Pos) -> int {
    (if a.r >= b.r {
        a.r - b.r
    } else {
        b.r - a.r
    }) + (if a.c >= b.c {
        a.c - b.c
    } else {
        b.c - a.c
    })
}

/// Response to a path of the given length: the length scaled by the factor, rounded.
pub open spec fn spec_response(length: int, ppm: int) -> int {
    (length * ppm + 500_000) / 1_000_000
}

impl QueryParam {
    pub open spec fn wf(self) -> bool {
        &&& self.query.wf()
        &&& manhattan(self.query.src, self.query.dest) >= MIN_QUERY_DIST
        &&& RES_FACTOR_LB_PPM <= self.res_factor_ppm < RES_FACTOR_UB_PPM
    }
}

/// Base of edge `x` of a line with bases `b` split at `split`.
pub open spec fn seg_base(b: (u16, u16), split: u8, x: int) -> int {
    if x < split as int {
        b.0 as int
    } else {
        b.1 as int
    }
}

/// The parameters hold `d` and, for `m` regimes per line, bases of each line
/// within `[1000 + d, 9001 - d)` and, with two regimes, splits in `1..=28`.
pub open spec fn params_fit(p: GraphParams, d: int, m: int) -> bool {
    match p {
        GraphParams::Single { d: pd, h, v } => {
            &&& m == 1
            &&& pd == d
            &&& h@.len() == GRID_LEN && v@.len() == GRID_LEN
            &&& forall|i: int|
                0 <= i < GRID_LEN ==> 1000 + d <= #[trigger] h@[i] < 9001 - d && 1000 + d <= v@[i] < 9001 - d
        },
        GraphParams::Double { d: pd, h, cm, v, rm } => {
            &&& m == 2
            &&& pd == d
            &&& h@.len() == GRID_LEN && v@.len() == GRID_LEN && rm@.len() == GRID_LEN && cm@.len() == GRID_LEN
            &&& forall|i: int|
                0 <= i < GRID_LEN ==> 1000 + d <= (#[trigger] h@[i]).0 < 9001 - d && 1000 + d <= h@[i].1 < 9001 - d
                    && 1000 + d <= v@[i].0 < 9001 - d && 1000 + d <= v@[i].1 < 9001 - d
                    && 1 <= rm@[i] && rm@[i] + 2 <= GRID_LEN && 1 <= cm@[i] && cm@[i] + 2 <= GRID_LEN
        },
    }
}

/// The base of the edge numbered `k` (rows first) under the parameters:
/// the regime of its segment, segment 0 being the edges before the split.
pub open spec fn params_base(p: GraphParams, k: int) -> int {
    let rows = GRID_LEN * EDGES_PER_LINE;
    match p {
        GraphParams::Single { h, v, .. } => if k < rows {
            h@[k / EDGES_PER_LINE as int] as int
        } else {
            v@[(k - rows) / EDGES_PER_LINE as int] as int
        },
        GraphParams::Double { h, cm, v, rm, .. } => if k < rows {
            seg_base(h@[k / EDGES_PER_LINE as int], rm@[k / EDGES_PER_LINE as int], k % EDGES_PER_LINE as int)
        } else {
            seg_base(
                v@[(k - rows) / EDGES_PER_LINE as int],
                cm@[(k - rows) / EDGES_PER_LINE as int],
                (k - rows) % EDGES_PER_LINE as int,
            )
        },
    }
}

/// The pair taken after too many rejected draws.
pub open spec fn fallback_query() -> Query {
    Query { src: Pos { r: 0, c: 0 }, dest: Pos { r: 29, c: 29 } }
}

/// The last four draws are the coordinates of `q`, each from `0..30`.
pub open spec fn drawn_query(drawn: Seq<(u32, u32)>, values: Seq<u32>, q: Query) -> bool {
    let n = values.len() as int;
    &&& n >= 4
    &&& drawn.len() == values.len()
    &&& forall|k: int| n - 4 <= k < n ==> #[trigger] drawn[k] == (0u32, GRID_LEN as u32)
    &&& values[n - 4] == q.src.r && values[n - 3] == q.src.c
    &&& values[n - 2] == q.dest.r && values[n - 1] == q.dest.c
}

/// The noise factor of `qp` is the value of draw number `p`, from the
/// factor's range, and its coordinates are the four draws before it, unless
/// it is the fallback pair.
pub open spec fn query_is_named(drawn: Seq<(u32, u32)>, values: Seq<u32>, qp: QueryParam, p: int) -> bool {
    &&& 0 <= p < values.len()
    &&& drawn.len() == values.len()
    &&& drawn[p] == (RES_FACTOR_LB_PPM, RES_FACTOR_UB_PPM)
    &&& values[p] == qp.res_factor_ppm
    &&& qp.query == fallback_query() || (p >= 4 && drawn_query(drawn.take(p), values.take(p), qp.query))
}

pub open spec fn old_queries_at(q: Seq<QueryParam>, j: int) -> QueryParam {
    q[j]
}

/// Some draw names `qp` in the sense of `query_is_named`.
pub open spec fn query_named(drawn: Seq<(u32, u32)>, values: Seq<u32>, qp: QueryParam) -> bool {
    exists|p: int| query_is_named(drawn, values, qp, p)
}

/// Some draw of `range` yielded `v`.
pub open spec fn named_in(drawn: Seq<(u32, u32)>, values: Seq<u32>, range: (u32, u32), v: int) -> bool {
    exists|p: int| 0 <= p < values.len() && p < drawn.len() && drawn[p] == range && values[p] as int == v
}

/// The trace `(d2, v2)` continues the trace `(d1, v1)`.
pub open spec fn extends(d2: Seq<(u32, u32)>, v2: Seq<u32>, d1: Seq<(u32, u32)>, v1: Seq<u32>) -> bool {
    &&& v1.len() <= v2.len()
    &&& d1.len() == v1.len()
    &&& d2.len() == v2.len()
    &&& v2.take(v1.len() as int) == v1
    &&& d2.take(d1.len() as int) == d1
}

proof fn lemma_named_extends(
    d1: Seq<(u32, u32)>,
    v1: Seq<u32>,
    d2: Seq<(u32, u32)>,
    v2: Seq<u32>,
    range: (u32, u32),
    v: int,
)
    requires
        named_in(d1, v1, range, v),
        extends(d2, v2, d1, v1),
    ensures
        named_in(d2, v2, range, v),
{
    let p = choose|p: int| 0 <= p < v1.len() && p < d1.len() && d1[p] == range && v1[p] as int == v;
    assert(v2.take(v1.len() as int)[p] == v2[p]);
    assert(d2.take(d1.len() as int)[p] == d2[p]);
}

proof fn lemma_extends_trans(
    d1: Seq<(u32, u32)>,
    v1: Seq<u32>,
    d2: Seq<(u32, u32)>,
    v2: Seq<u32>,
    d3: Seq<(u32, u32)>,
    v3: Seq<u32>,
)
    requires
        extends(d2, v2, d1, v1),
        extends(d3, v3, d2, v2),
    ensures
        extends(d3, v3, d1, v1),
{
    assert(v3.take(v1.len() as int) =~= v2.take(v1.len() as int));
    assert(d3.take(d1.len() as int) =~= d2.take(d1.len() as int));
}

proof fn lemma_extends_push(d1: Seq<(u32, u32)>, v1: Seq<u32>, range: (u32, u32), r: u32)
    requires
        d1.len() == v1.len(),
    ensures
        extends(d1.push(range), v1.push(r), d1, v1),
        named_in(d1.push(range), v1.push(r), range, r as int),
{
    assert(v1.push(r).take(v1.len() as int) =~= v1);
    assert(d1.push(range).take(d1.len() as int) =~= d1);
    assert(d1.push(range)[d1.len() as int] == range);
}

proof fn lemma_extends_refl(d1: Seq<(u32, u32)>, v1: Seq<u32>)
    requires
        d1.len() == v1.len(),
    ensures
        extends(d1, v1, d1, v1),
{
    assert(v1.take(v1.len() as int) =~= v1);
    assert(d1.take(d1.len() as int) =~= d1);
}

/// One line family (all rows, or all columns) of the hidden grid.
struct LineFamily {
    bases: Vec<(u16, u16)>,
    splits: Vec<u8>,
    /// Cost of edge `x` of line `i` at `i * EDGES_PER_LINE + x`.
    costs: Vec<u32>,
}

/// Every base, split (with two regimes) and cost noise of the family is a
/// value of the trace, drawn from its range.
spec fn family_named(f: LineFamily, dr: Seq<(u32, u32)>, vs: Seq<u32>, d: u32, m: usize) -> bool {
    let lo = (1000 + d) as u32;
    let hi = (9001 - d) as u32;
    &&& forall|j: int|
        0 <= j < GRID_LEN ==> named_in(dr, vs, (lo, hi), (#[trigger] f.bases@[j]).0 as int) && named_in(
            dr,
            vs,
            (lo, hi),
            f.bases@[j].1 as int,
        )
    &&& forall|j: int| 0 <= j < GRID_LEN ==> m == 2 ==> named_in(dr, vs, (1u32, 29u32), #[trigger] f.splits@[j] as int)
    &&& forall|k: int|
        0 <= k < GRID_LEN * EDGES_PER_LINE ==> named_in(dr, vs, (0u32, (2 * d + 1) as u32), #[trigger] f.costs@[k] + d - seg_base(
            f.bases@[k / EDGES_PER_LINE as int],
            f.splits@[k / EDGES_PER_LINE as int],
            k % EDGES_PER_LINE as int,
        ))
}

proof fn lemma_family_extends(
    f: LineFamily,
    d1: Seq<(u32, u32)>,
    v1: Seq<u32>,
    d2: Seq<(u32, u32)>,
    v2: Seq<u32>,
    d: u32,
    m: usize,
)
    requires
        family_named(f, d1, v1, d, m),
        extends(d2, v2, d1, v1),
    ensures
        family_named(f, d2, v2, d, m),
{
    let lo = (1000 + d) as u32;
    let hi = (9001 - d) as u32;
    assert forall|j: int| 0 <= j < GRID_LEN implies named_in(d2, v2, (lo, hi), (#[trigger] f.bases@[j]).0 as int)
        && named_in(d2, v2, (lo, hi), f.bases@[j].1 as int) by {
        lemma_named_extends(d1, v1, d2, v2, (lo, hi), f.bases@[j].0 as int);
        lemma_named_extends(d1, v1, d2, v2, (lo, hi), f.bases@[j].1 as int);
    }
    assert forall|j: int| 0 <= j < GRID_LEN && m == 2 implies named_in(d2, v2, (1u32, 29u32), #[trigger] f.splits@[j] as int) by {
        lemma_named_extends(d1, v1, d2, v2, (1u32, 29u32), f.splits@[j] as int);
    }
    assert forall|k: int| 0 <= k < GRID_LEN * EDGES_PER_LINE implies named_in(d2, v2, (0u32, (2 * d + 1) as u32), #[trigger] f.costs@[k] + d - seg_base(
        f.bases@[k / EDGES_PER_LINE as int],
        f.splits@[k / EDGES_PER_LINE as int],
        k % EDGES_PER_LINE as int,
    )) by {
        lemma_named_extends(d1, v1, d2, v2, (0u32, (2 * d + 1) as u32), f.costs@[k] + d - seg_base(
            f.bases@[k / EDGES_PER_LINE as int],
            f.splits@[k / EDGES_PER_LINE as int],
            k % EDGES_PER_LINE as int,
        ));
    }
}

/// Every base of the parameters (and every split, with two regimes) is a
/// value of the trace, drawn from its range.
pub open spec fn params_named(p: GraphParams, dr: Seq<(u32, u32)>, vs: Seq<u32>, d: int) -> bool {
    let r = ((1000 + d) as u32, (9001 - d) as u32);
    match p {
        GraphParams::Single { h, v, .. } => forall|i: int|
            0 <= i < GRID_LEN ==> named_in(dr, vs, r, #[trigger] h@[i] as int) && named_in(dr, vs, r, v@[i] as int),
        GraphParams::Double { h, cm, v, rm, .. } => forall|i: int|
            0 <= i < GRID_LEN ==> named_in(dr, vs, r, (#[trigger] h@[i]).0 as int) && named_in(dr, vs, r, h@[i].1 as int)
                && named_in(dr, vs, r, v@[i].0 as int) && named_in(dr, vs, r, v@[i].1 as int)
                && named_in(dr, vs, (1u32, 29u32), rm@[i] as int) && named_in(dr, vs, (1u32, 29u32), cm@[i] as int),
    }
}

impl Simulator {
    pub closed spec fn spec_turn(&self) -> int {
        self.turn as int
    }

    pub closed spec fn spec_queries(&self) -> Seq<QueryParam> {
        self.queries@
    }

    pub closed spec fn spec_graph(&self) -> GridGraph<u32> {
        self.graph
    }

    pub closed spec fn spec_details(&self) -> Seq<ScoreDetail> {
        self.score_details@
    }

    pub closed spec fn spec_params(&self) -> GraphParams {
        self.graph_params
    }

    pub closed spec fn spec_draws(&self) -> Seq<(u32, u32)> {
        self.draws@
    }

    pub closed spec fn spec_draw_values(&self) -> Seq<u32> {
        self.draw_values@
    }

    pub closed spec fn wf(&self) -> bool {
        &&& self.graph.wf()
        &&& forall|i: int|
            0 <= i < NUM_EDGES ==> TRUE_COST_LB <= #[trigger] self.graph.view()[i] <= TRUE_COST_UB
        &&& self.queries@.len() == NUM_TURN
        &&& forall|i: int| 0 <= i < NUM_TURN ==> (#[trigger] self.queries@[i]).wf()
        &&& self.turn <= NUM_TURN
        &&& self.visited.view().len() == NUM_CELLS
        &&& forall|i: int| 0 <= i < NUM_CELLS ==> #[trigger] self.visited.view()[i] != self.turn
            || self.turn == NUM_TURN
        &&& forall|i: int| 0 <= i < NUM_CELLS ==> #[trigger] self.visited.view()[i] < self.turn
            || self.visited.view()[i] == usize::MAX
        &&& self.score_details@.len() == self.turn
    }

    /// Draws the bases, splits and costs of one family of lines.
    fn draw_family(rng: &mut SeededRng, d: u32, m: usize) -> (f: LineFamily)
        requires
            100 <= d <= 2000,
            m == 1 || m == 2,
            old(rng).trace_ok(),
        ensures
            final(rng).trace_ok(),
            final(rng).spec_seed() == old(rng).spec_seed(),
            extends(final(rng).spec_drawn(), final(rng).spec_values(), old(rng).spec_drawn(), old(rng).spec_values()),
            family_named(f, final(rng).spec_drawn(), final(rng).spec_values(), d, m),
            f.bases@.len() == GRID_LEN,
            f.splits@.len() == GRID_LEN,
            f.costs@.len() == GRID_LEN * EDGES_PER_LINE,
            forall|i: int|
                0 <= i < GRID_LEN * EDGES_PER_LINE ==> TRUE_COST_LB <= #[trigger] f.costs@[i]
                    <= TRUE_COST_UB,
            forall|j: int|
                0 <= j < GRID_LEN ==> 1000 + d <= (#[trigger] f.bases@[j]).0 < 9001 - d && 1000 + d
                    <= f.bases@[j].1 < 9001 - d,
            forall|j: int|
                0 <= j < GRID_LEN ==> if m == 1 {
                    (#[trigger] f.bases@[j]).0 == f.bases@[j].1 && f.splits@[j] == 0
                } else {
                    1 <= f.splits@[j] && f.splits@[j] + 2 <= GRID_LEN
                },
            forall|k: int|
                0 <= k < GRID_LEN * EDGES_PER_LINE ==> seg_base(
                    f.bases@[k / EDGES_PER_LINE as int],
                    f.splits@[k / EDGES_PER_LINE as int],
                    k % EDGES_PER_LINE as int,
                ) - d <= #[trigger] f.costs@[k] <= seg_base(
                    f.bases@[k / EDGES_PER_LINE as int],
                    f.splits@[k / EDGES_PER_LINE as int],
                    k % EDGES_PER_LINE as int,
                ) + d,
    {
        let lo = 1000 + d;
        let hi = 9001 - d;
        let nhi = 2 * d + 1;
        let ghost d0 = rng.spec_drawn();
        let ghost v0 = rng.spec_values();
        proof {
            lemma_extends_refl(d0, v0);
        }
        let mut bases: Vec<(u16, u16)> = Vec::new();
        let mut i: usize = 0;
        while i < GRID_LEN
            invariant
                rng.trace_ok(),
                rng.spec_seed() == old(rng).spec_seed(),
                i <= GRID_LEN,
                bases@.len() == i,
                100 <= d <= 2000,
                m == 1 || m == 2,
                forall|j: int|
                    0 <= j < i ==> 1000 + d <= (#[trigger] bases@[j]).0 < 9001 - d && 1000 + d
                        <= bases@[j].1 < 9001 - d,
                forall|j: int| 0 <= j < i ==> m == 1 ==> (#[trigger] bases@[j]).0 == bases@[j].1,
                lo == 1000 + d && hi == 9001 - d,
                extends(rng.spec_drawn(), rng.spec_values(), d0, v0),
                d0 == old(rng).spec_drawn() && v0 == old(rng).spec_values(),
                forall|j: int|
                    0 <= j < i ==> named_in(rng.spec_drawn(), rng.spec_values(), (lo, hi), (#[trigger] bases@[j]).0 as int)
                        && named_in(rng.spec_drawn(), rng.spec_values(), (lo, hi), bases@[j].1 as int),
            decreases GRID_LEN - i,
        {
            let ghost da = rng.spec_drawn();
            let ghost va = rng.spec_values();
            let b0 = draw(rng, lo, hi);
            proof {
                lemma_extends_push(da, va, (lo, hi), b0);
            }
            let ghost db = rng.spec_drawn();
            let ghost vb = rng.spec_values();
            let b1 = if m == 2 {
                draw(rng, lo, hi)
            } else {
                b0
            };
            proof {
                if m == 2 {
                    lemma_extends_push(db, vb, (lo, hi), b1);
                    lemma_named_extends(db, vb, rng.spec_drawn(), rng.spec_values(), (lo, hi), b0 as int);
                } else {
                    lemma_extends_refl(db, vb);
                }
                lemma_extends_trans(da, va, db, vb, rng.spec_drawn(), rng.spec_values());
                lemma_extends_trans(d0, v0, da, va, rng.spec_drawn(), rng.spec_values());
                assert forall|j: int| 0 <= j < i implies named_in(rng.spec_drawn(), rng.spec_values(), (lo, hi), (#[trigger] bases@[j]).0 as int)
                    && named_in(rng.spec_drawn(), rng.spec_values(), (lo, hi), bases@[j].1 as int) by {
                    lemma_named_extends(da, va, rng.spec_drawn(), rng.spec_values(), (lo, hi), bases@[j].0 as int);
                    lemma_named_extends(da, va, rng.spec_drawn(), rng.spec_values(), (lo, hi), bases@[j].1 as int);
                }
            }
            bases.push((b0 as u16, b1 as u16));
            i += 1;
        }
        let mut splits: Vec<u8> = Vec::new();
        let mut i: usize = 0;
        while i < GRID_LEN
            invariant
                rng.trace_ok(),
                rng.spec_seed() == old(rng).spec_seed(),
                i <= GRID_LEN,
                splits@.len() == i,
                m == 1 || m == 2,
                forall|j: int|
                    0 <= j < i ==> if m == 1 {
                        #[trigger] splits@[j] == 0
                    } else {
                        1 <= splits@[j] && splits@[j] + 2 <= GRID_LEN
                    },
                bases@.len() == GRID_LEN,
                lo == 1000 + d && hi == 9001 - d,
                extends(rng.spec_drawn(), rng.spec_values(), d0, v0),
                d0 == old(rng).spec_drawn() && v0 == old(rng).spec_values(),
                forall|j: int|
                    0 <= j < GRID_LEN ==> named_in(rng.spec_drawn(), rng.spec_values(), (lo, hi), (#[trigger] bases@[j]).0 as int)
                        && named_in(rng.spec_drawn(), rng.spec_values(), (lo, hi), bases@[j].1 as int),
                forall|j: int|
                    0 <= j < i ==> m == 2 ==> named_in(rng.spec_drawn(), rng.spec_values(), (1u32, 29u32), #[trigger] splits@[j] as int),
            decreases GRID_LEN - i,
        {
            let ghost da = rng.spec_drawn();
            let ghost va = rng.spec_values();
            let x = if m == 2 {
                draw(rng, 1, GRID_LEN as u32 - 1) as u8
            } else {
                0
            };
            proof {
                if m == 2 {
                    lemma_extends_push(da, va, (1u32, 29u32), x as u32);
                } else {
                    lemma_extends_refl(da, va);
                }
                lemma_extends_trans(d0, v0, da, va, rng.spec_drawn(), rng.spec_values());
                assert forall|j: int| 0 <= j < GRID_LEN implies named_in(rng.spec_drawn(), rng.spec_values(), (lo, hi), (#[trigger] bases@[j]).0 as int)
                    && named_in(rng.spec_drawn(), rng.spec_values(), (lo, hi), bases@[j].1 as int) by {
                    lemma_named_extends(da, va, rng.spec_drawn(), rng.spec_values(), (lo, hi), bases@[j].0 as int);
                    lemma_named_extends(da, va, rng.spec_drawn(), rng.spec_values(), (lo, hi), bases@[j].1 as int);
                }
                assert forall|j: int| 0 <= j < i && m == 2 implies named_in(rng.spec_drawn(), rng.spec_values(), (1u32, 29u32), #[trigger] splits@[j] as int) by {
                    lemma_named_extends(da, va, rng.spec_drawn(), rng.spec_values(), (1u32, 29u32), splits@[j] as int);
                }
            }
            splits.push(x);
            i += 1;
        }
        let mut costs: Vec<u32> = Vec::new();
        let mut i: usize = 0;
        while i < GRID_LEN
            invariant
                rng.trace_ok(),
                rng.spec_seed() == old(rng).spec_seed(),
                i <= GRID_LEN,
                costs@.len() == i * EDGES_PER_LINE,
                bases@.len() == GRID_LEN,
                splits@.len() == GRID_LEN,
                100 <= d <= 2000,
                forall|j: int|
                    0 <= j < GRID_LEN ==> 1000 + d <= (#[trigger] bases@[j]).0 < 9001 - d && 1000 + d
                        <= bases@[j].1 < 9001 - d,
                forall|j: int|
                    0 <= j < costs@.len() ==> TRUE_COST_LB <= #[trigger] costs@[j] <= TRUE_COST_UB,
                forall|k: int|
                    0 <= k < costs@.len() ==> seg_base(
                        bases@[k / EDGES_PER_LINE as int],
                        splits@[k / EDGES_PER_LINE as int],
                        k % EDGES_PER_LINE as int,
                    ) - d <= #[trigger] costs@[k] <= seg_base(
                        bases@[k / EDGES_PER_LINE as int],
                        splits@[k / EDGES_PER_LINE as int],
                        k % EDGES_PER_LINE as int,
                    ) + d,
                lo == 1000 + d && hi == 9001 - d && nhi == 2 * d + 1,
                extends(rng.spec_drawn(), rng.spec_values(), d0, v0),
                d0 == old(rng).spec_drawn() && v0 == old(rng).spec_values(),
                m == 1 || m == 2,
                forall|j: int|
                    0 <= j < GRID_LEN ==> named_in(rng.spec_drawn(), rng.spec_values(), (lo, hi), (#[trigger] bases@[j]).0 as int)
                        && named_in(rng.spec_drawn(), rng.spec_values(), (lo, hi), bases@[j].1 as int),
                forall|j: int|
                    0 <= j < GRID_LEN ==> m == 2 ==> named_in(rng.spec_drawn(), rng.spec_values(), (1u32, 29u32), #[trigger] splits@[j] as int),
                forall|k: int|
                    0 <= k < costs@.len() ==> named_in(rng.spec_drawn(), rng.spec_values(), (0u32, nhi), #[trigger] costs@[k] + d - seg_base(
                        bases@[k / EDGES_PER_LINE as int],
                        splits@[k / EDGES_PER_LINE as int],
                        k % EDGES_PER_LINE as int,
                    )),
            decreases GRID_LEN - i,
        {
            let mut x: usize = 0;
            while x < EDGES_PER_LINE
                invariant
                    rng.trace_ok(),
                    rng.spec_seed() == old(rng).spec_seed(),
                    x <= EDGES_PER_LINE,
                    i < GRID_LEN,
                    costs@.len() == i * EDGES_PER_LINE + x,
                    bases@.len() == GRID_LEN,
                    splits@.len() == GRID_LEN,
                    100 <= d <= 2000,
                    forall|j: int|
                        0 <= j < GRID_LEN ==> 1000 + d <= (#[trigger] bases@[j]).0 < 9001 - d && 1000
                            + d <= bases@[j].1 < 9001 - d,
                    forall|j: int|
                        0 <= j < costs@.len() ==> TRUE_COST_LB <= #[trigger] costs@[j] <= TRUE_COST_UB,
                    forall|k: int|
                        0 <= k < costs@.len() ==> seg_base(
                            bases@[k / EDGES_PER_LINE as int],
                            splits@[k / EDGES_PER_LINE as int],
                            k % EDGES_PER_LINE as int,
                        ) - d <= #[trigger] costs@[k] <= seg_base(
                            bases@[k / EDGES_PER_LINE as int],
                            splits@[k / EDGES_PER_LINE as int],
                            k % EDGES_PER_LINE as int,
                        ) + d,
                lo == 1000 + d && hi == 9001 - d && nhi == 2 * d + 1,
                    extends(rng.spec_drawn(), rng.spec_values(), d0, v0),
                    d0 == old(rng).spec_drawn() && v0 == old(rng).spec_values(),
                    m == 1 || m == 2,
                    forall|j: int|
                        0 <= j < GRID_LEN ==> named_in(rng.spec_drawn(), rng.spec_values(), (lo, hi), (#[trigger] bases@[j]).0 as int)
                            && named_in(rng.spec_drawn(), rng.spec_values(), (lo, hi), bases@[j].1 as int),
                    forall|j: int|
                        0 <= j < GRID_LEN ==> m == 2 ==> named_in(rng.spec_drawn(), rng.spec_values(), (1u32, 29u32), #[trigger] splits@[j] as int),
                    forall|k: int|
                        0 <= k < costs@.len() ==> named_in(rng.spec_drawn(), rng.spec_values(), (0u32, nhi), #[trigger] costs@[k] + d - seg_base(
                            bases@[k / EDGES_PER_LINE as int],
                            splits@[k / EDGES_PER_LINE as int],
                            k % EDGES_PER_LINE as int,
                        )),
                decreases EDGES_PER_LINE - x,
            {
                let base = if x < splits[i] as usize {
                    bases[i].0
                } else {
                    bases[i].1
                } as u32;
                let ghost da = rng.spec_drawn();
                let ghost va = rng.spec_values();
                let noise = draw(rng, 0, nhi);
                let ghost k = costs@.len() as int;
                assert(k / 29 == i && k % 29 == x) by (nonlinear_arith)
                    requires
                        k == i * 29 + x,
                        0 <= x < 29,
                ;
                assert(base == seg_base(bases@[i as int], splits@[i as int], x as int));
                proof {
                    lemma_extends_push(da, va, (0u32, nhi), noise);
                    lemma_extends_trans(d0, v0, da, va, rng.spec_drawn(), rng.spec_values());
                    assert forall|j: int| 0 <= j < GRID_LEN implies named_in(rng.spec_drawn(), rng.spec_values(), (lo, hi), (#[trigger] bases@[j]).0 as int)
                        && named_in(rng.spec_drawn(), rng.spec_values(), (lo, hi), bases@[j].1 as int) by {
                        lemma_named_extends(da, va, rng.spec_drawn(), rng.spec_values(), (lo, hi), bases@[j].0 as int);
                        lemma_named_extends(da, va, rng.spec_drawn(), rng.spec_values(), (lo, hi), bases@[j].1 as int);
                    }
                    assert forall|j: int| 0 <= j < GRID_LEN && m == 2 implies named_in(rng.spec_drawn(), rng.spec_values(), (1u32, 29u32), #[trigger] splits@[j] as int) by {
                        lemma_named_extends(da, va, rng.spec_drawn(), rng.spec_values(), (1u32, 29u32), splits@[j] as int);
                    }
                    assert forall|kk: int| 0 <= kk < costs@.len() implies named_in(rng.spec_drawn(), rng.spec_values(), (0u32, nhi), #[trigger] costs@[kk] + d - seg_base(
                        bases@[kk / EDGES_PER_LINE as int],
                        splits@[kk / EDGES_PER_LINE as int],
                        kk % EDGES_PER_LINE as int,
                    )) by {
                        lemma_named_extends(da, va, rng.spec_drawn(), rng.spec_values(), (0u32, nhi), costs@[kk] + d - seg_base(
                            bases@[kk / EDGES_PER_LINE as int],
                            splits@[kk / EDGES_PER_LINE as int],
                            kk % EDGES_PER_LINE as int,
                        ));
                    }
                }
                let ghost before = costs@;
                costs.push(base + noise - d);
                proof {
                    assert forall|kk: int| 0 <= kk < costs@.len() implies named_in(rng.spec_drawn(), rng.spec_values(), (0u32, nhi), #[trigger] costs@[kk] + d - seg_base(
                        bases@[kk / EDGES_PER_LINE as int],
                        splits@[kk / EDGES_PER_LINE as int],
                        kk % EDGES_PER_LINE as int,
                    )) by {
                        if kk < before.len() {
                            assert(costs@[kk] == before[kk]);
                        }
                    }
                }
                x += 1;
            }
            i += 1;
        }
        LineFamily { bases, splits, costs }
    }

    /// Draws a source and destination at Manhattan distance at least 10.
    fn draw_query(rng: &mut SeededRng) -> (q: Query)
        requires
            old(rng).trace_ok(),
        ensures
            q.wf(),
            manhattan(q.src, q.dest) >= MIN_QUERY_DIST,
            final(rng).trace_ok(),
            final(rng).spec_seed() == old(rng).spec_seed(),
            old(rng).spec_values().len() <= final(rng).spec_values().len(),
            final(rng).spec_values().take(old(rng).spec_values().len() as int) == old(rng).spec_values(),
            final(rng).spec_drawn().take(old(rng).spec_drawn().len() as int) == old(rng).spec_drawn(),
            q == fallback_query() || drawn_query(final(rng).spec_drawn(), final(rng).spec_values(), q),
    {
        let mut tries: u32 = 0;
        let ghost v0 = rng.spec_values();
        let ghost d0 = rng.spec_drawn();
        assert(rng.spec_values().take(v0.len() as int) =~= v0);
        assert(rng.spec_drawn().take(d0.len() as int) =~= d0);
        while tries < MAX_QUERY_DRAWS
            invariant
                rng.trace_ok(),
                rng.spec_seed() == old(rng).spec_seed(),
                v0 == old(rng).spec_values(),
                d0 == old(rng).spec_drawn(),
                d0.len() == v0.len(),
                v0.len() <= rng.spec_values().len(),
                rng.spec_values().take(v0.len() as int) == v0,
                rng.spec_drawn().take(d0.len() as int) == d0,
            decreases MAX_QUERY_DRAWS - tries,
        {
            let ghost vb = rng.spec_values();
            let ghost db = rng.spec_drawn();
            let sr = draw(rng, 0, GRID_LEN as u32) as u8;
            let sc = draw(rng, 0, GRID_LEN as u32) as u8;
            let tr = draw(rng, 0, GRID_LEN as u32) as u8;
            let tc = draw(rng, 0, GRID_LEN as u32) as u8;
            let q = Query { src: Pos::new(sr, sc), dest: Pos::new(tr, tc) };
            proof {
                let v = rng.spec_values();
                let dr = rng.spec_drawn();
                assert(v =~= vb.push(sr as u32).push(sc as u32).push(tr as u32).push(tc as u32));
                assert(dr =~= db.push((0u32, 30u32)).push((0u32, 30u32)).push((0u32, 30u32)).push((0u32, 30u32)));
                assert(v.take(v0.len() as int) =~= vb.take(v0.len() as int));
                assert(dr.take(d0.len() as int) =~= db.take(d0.len() as int));
                assert(drawn_query(dr, v, q));
            }
            if q.height() as u32 + q.width() as u32 >= MIN_QUERY_DIST {
                return q;
            }
            tries += 1;
        }
        Query { src: Pos::new(0, 0), dest: Pos::new(GRID_LEN as u8 - 1, GRID_LEN as u8 - 1) }
    }

    /// A simulator whose hidden grid, queries and noise are drawn from `seed`.
    pub fn from_seed(seed: u64) -> (s: Simulator)
        ensures
            s.wf(),
            s.spec_turn() == 0,
            s.spec_details().len() == 0,
            s.spec_queries().len() == NUM_TURN,
            forall|i: int| 0 <= i < NUM_TURN ==> (#[trigger] s.spec_queries()[i]).wf(),
            s.spec_graph().wf(),
            forall|i: int|
                0 <= i < NUM_EDGES ==> TRUE_COST_LB <= #[trigger] s.spec_graph().view()[i] <= TRUE_COST_UB,
            named_trace(seed, s.spec_draws(), s.spec_draw_values()),
            forall|j: int|
                0 <= j < NUM_TURN ==> query_named(s.spec_draws(), s.spec_draw_values(), #[trigger] s.spec_queries()[j]),
            ({
                let d = chacha_draw(seed, Seq::empty(), 100, 2001) as int;
                let m = chacha_draw(seed, seq![(100u32, 2001u32)], 1, 3) as int;
                &&& 100 <= d <= 2000
                &&& m == 1 || m == 2
                &&& params_fit(s.spec_params(), d, m)
                &&& forall|k: int|
                    0 <= k < NUM_EDGES ==> params_base(s.spec_params(), k) - d <= #[trigger] s.spec_graph().view()[k]
                        <= params_base(s.spec_params(), k) + d
                &&& params_named(s.spec_params(), s.spec_draws(), s.spec_draw_values(), d)
                &&& forall|k: int|
                    0 <= k < NUM_EDGES ==> named_in(
                        s.spec_draws(),
                        s.spec_draw_values(),
                        (0u32, (2 * d + 1) as u32),
                        #[trigger] s.spec_graph().view()[k] + d - params_base(s.spec_params(), k),
                    )
            }),
    {
        let mut rng = chacha_seeded(seed);
        let d = draw(&mut rng, 100, 2001);
        let m = draw(&mut rng, 1, 3) as usize;
        let rows = Simulator::draw_family(&mut rng, d, m);
        let ghost d1 = rng.spec_drawn();
        let ghost v1 = rng.spec_values();
        let cols = Simulator::draw_family(&mut rng, d, m);
        let ghost d2 = rng.spec_drawn();
        let ghost v2 = rng.spec_values();
        proof {
            lemma_family_extends(rows, d1, v1, d2, v2, d, m);
            lemma_extends_refl(d2, v2);
        }
        let mut costs: Vec<u32> = Vec::new();
        let mut i: usize = 0;
        while i < NUM_EDGES
            invariant
                i <= NUM_EDGES,
                costs@.len() == i,
                rows.costs@.len() == GRID_LEN * EDGES_PER_LINE,
                cols.costs@.len() == GRID_LEN * EDGES_PER_LINE,
                forall|j: int|
                    0 <= j < GRID_LEN * EDGES_PER_LINE ==> TRUE_COST_LB <= #[trigger] rows.costs@[j]
                        <= TRUE_COST_UB,
                forall|j: int|
                    0 <= j < GRID_LEN * EDGES_PER_LINE ==> TRUE_COST_LB <= #[trigger] cols.costs@[j]
                        <= TRUE_COST_UB,
                forall|j: int| 0 <= j < i ==> TRUE_COST_LB <= #[trigger] costs@[j] <= TRUE_COST_UB,
                forall|j: int|
                    0 <= j < i ==> #[trigger] costs@[j] == if j < GRID_LEN * EDGES_PER_LINE {
                        rows.costs@[j]
                    } else {
                        cols.costs@[j - GRID_LEN * EDGES_PER_LINE]
                    },
            decreases NUM_EDGES - i,
        {
            let c = if i < GRID_LEN * EDGES_PER_LINE {
                rows.costs[i]
            } else {
                cols.costs[i - GRID_LEN * EDGES_PER_LINE]
            };
            costs.push(c);
            i += 1;
        }
        let graph_params = if m == 1 {
            let mut h: Vec<u16> = Vec::new();
            let mut v: Vec<u16> = Vec::new();
            let mut i: usize = 0;
            while i < GRID_LEN
                invariant
                    i <= GRID_LEN,
                    rows.bases@.len() == GRID_LEN,
                    cols.bases@.len() == GRID_LEN,
                    h@.len() == i,
                    v@.len() == i,
                    forall|j: int| 0 <= j < i ==> #[trigger] h@[j] == rows.bases@[j].0,
                    forall|j: int| 0 <= j < i ==> #[trigger] v@[j] == cols.bases@[j].0,
                decreases GRID_LEN - i,
            {
                h.push(rows.bases[i].0);
                v.push(cols.bases[i].0);
                i += 1;
            }
            GraphParams::Single { d: d as u16, h, v }
        } else {
            GraphParams::Double {
                d: d as u16,
                h: rows.bases,
                rm: rows.splits,
                v: cols.bases,
                cm: cols.splits,
            }
        };
        proof {
            assert(seq![(100u32, 2001u32)] =~= Seq::<(u32, u32)>::empty().push((100u32, 2001u32)));
            let dd = d as int;
            let rowsn = GRID_LEN * EDGES_PER_LINE;
            assert(params_fit(graph_params, dd, m as int));
            assert forall|k: int| 0 <= k < NUM_EDGES implies params_base(graph_params, k) - dd <= #[trigger] costs@[k]
                <= params_base(graph_params, k) + dd by {
                if k < rowsn {
                    let i = k / 29;
                    assert(0 <= i < 30);
                    assert(costs@[k] == rows.costs@[k]);
                    assert(seg_base(rows.bases@[i], rows.splits@[i], k % 29) - dd <= rows.costs@[k]
                        <= seg_base(rows.bases@[i], rows.splits@[i], k % 29) + dd);
                    if m == 1 {
                        assert(rows.bases@[i].0 == rows.bases@[i].1 && rows.splits@[i] == 0);
                    }
                    match graph_params {
                        GraphParams::Single { h, .. } => {
                            assert(h@[i] == rows.bases@[i].0);
                        },
                        GraphParams::Double { h, rm, .. } => {
                            assert(h@ == rows.bases@ && rm@ == rows.splits@);
                        },
                    }
                    assert(params_base(graph_params, k) == seg_base(rows.bases@[i], rows.splits@[i], k % 29));
                } else {
                    let k2 = k - rowsn;
                    let i = k2 / 29;
                    assert(0 <= i < 30);
                    assert(costs@[k] == cols.costs@[k2]);
                    assert(seg_base(cols.bases@[i], cols.splits@[i], k2 % 29) - dd <= cols.costs@[k2]
                        <= seg_base(cols.bases@[i], cols.splits@[i], k2 % 29) + dd);
                    if m == 1 {
                        assert(cols.bases@[i].0 == cols.bases@[i].1 && cols.splits@[i] == 0);
                    }
                    match graph_params {
                        GraphParams::Single { v, .. } => {
                            assert(v@[i] == cols.bases@[i].0);
                        },
                        GraphParams::Double { v, cm, .. } => {
                            assert(v@ == cols.bases@ && cm@ == cols.splits@);
                        },
                    }
                    assert(params_base(graph_params, k) == seg_base(cols.bases@[i], cols.splits@[i], k2 % 29));
                }
            }
        }
        let mut queries: Vec<QueryParam> = Vec::new();
        let mut t: usize = 0;
        let ghost mut fpos: Seq<int> = Seq::empty();
        while t < NUM_TURN
            invariant
                t <= NUM_TURN,
                queries@.len() == t,
                forall|j: int| 0 <= j < t ==> (#[trigger] queries@[j]).wf(),
                rng.trace_ok(),
                rng.spec_seed() == seed,
                fpos.len() == t,
                extends(rng.spec_drawn(), rng.spec_values(), d2, v2),
                forall|j: int|
                    0 <= j < t ==> query_is_named(rng.spec_drawn(), rng.spec_values(), #[trigger] queries@[j], fpos[j]),
            decreases NUM_TURN - t,
        {
            let ghost v_before = rng.spec_values();
            let ghost d_before = rng.spec_drawn();
            let query = Simulator::draw_query(&mut rng);
            let ghost v_mid = rng.spec_values();
            let ghost d_mid = rng.spec_drawn();
            let factor = draw(&mut rng, RES_FACTOR_LB_PPM, RES_FACTOR_UB_PPM);
            let qp = QueryParam { query, res_factor_ppm: factor };
            proof {
                let v = rng.spec_values();
                let dr = rng.spec_drawn();
                let p = v_mid.len() as int;
                assert forall|k: int| 0 <= k < v_before.len() implies v[k] == v_before[k] && dr[k] == d_before[k] by {
                    assert(v_mid.take(v_before.len() as int)[k] == v_before[k]);
                    assert(d_mid.take(d_before.len() as int)[k] == d_before[k]);
                }
                assert forall|j: int| 0 <= j < t implies query_is_named(dr, v, #[trigger] queries@[j], fpos[j]) by {
                    assert(query_is_named(d_before, v_before, queries@[j], fpos[j]));
                    let fp = fpos[j];
                    assert(v.take(fp) =~= v_before.take(fp));
                    assert(dr.take(fp) =~= d_before.take(fp));
                }
                assert(v.take(p) =~= v_mid);
                assert(dr.take(p) =~= d_mid);
                assert(extends(d_mid, v_mid, d_before, v_before));
                lemma_extends_push(d_mid, v_mid, (RES_FACTOR_LB_PPM, RES_FACTOR_UB_PPM), factor);
                lemma_extends_trans(d_before, v_before, d_mid, v_mid, dr, v);
                lemma_extends_trans(d2, v2, d_before, v_before, dr, v);
                assert(query_is_named(dr, v, qp, p));
                fpos = fpos.push(p);
            }
            queries.push(qp);
            proof {
                assert forall|j: int|
                    0 <= j < t + 1 implies query_is_named(rng.spec_drawn(), rng.spec_values(), #[trigger] queries@[j], fpos[j]) by {
                    if j < t {
                        assert(queries@[j] == old_queries_at(queries@, j));
                    }
                }
            }
            t += 1;
        }
        let s = Simulator {
            turn: 0,
            graph_params,
            graph: GridGraph::from_vec(costs),
            queries,
            visited: Grid::new(usize::MAX),
            score_details: Vec::new(),
            draws: Ghost(rng.spec_drawn()),
            draw_values: Ghost(rng.spec_values()),
        };
        proof {
            lemma_family_extends(rows, d2, v2, s.spec_draws(), s.spec_draw_values(), d, m);
            lemma_family_extends(cols, d2, v2, s.spec_draws(), s.spec_draw_values(), d, m);
            let dd = d as int;
            let dr = s.spec_draws();
            let vs = s.spec_draw_values();
            let gp = s.spec_params();
            assert forall|k: int| 0 <= k < NUM_EDGES implies named_in(dr, vs, (0u32, (2 * dd + 1) as u32),
                #[trigger] s.spec_graph().view()[k] + dd - params_base(gp, k)) by {
                if k < 870 {
                    let i = k / 29;
                    assert(s.spec_graph().view()[k] == rows.costs@[k]);
                    if m == 1 {
                        assert(rows.bases@[i].0 == rows.bases@[i].1 && rows.splits@[i] == 0);
                    }
                    match gp {
                        GraphParams::Single { h, .. } => {
                            assert(h@[i] == rows.bases@[i].0);
                        },
                        GraphParams::Double { h, rm, .. } => {
                            assert(h@ == rows.bases@ && rm@ == rows.splits@);
                        },
                    }
                    assert(params_base(gp, k) == seg_base(rows.bases@[i], rows.splits@[i], k % 29));
                } else {
                    let k2 = k - 870;
                    let i = k2 / 29;
                    assert(s.spec_graph().view()[k] == cols.costs@[k2]);
                    if m == 1 {
                        assert(cols.bases@[i].0 == cols.bases@[i].1 && cols.splits@[i] == 0);
                    }
                    match gp {
                        GraphParams::Single { v, .. } => {
                            assert(v@[i] == cols.bases@[i].0);
                        },
                        GraphParams::Double { v, cm, .. } => {
                            assert(v@ == cols.bases@ && cm@ == cols.splits@);
                        },
                    }
                    assert(params_base(gp, k) == seg_base(cols.bases@[i], cols.splits@[i], k2 % 29));
                }
            }
            match gp {
                GraphParams::Single { h, v, .. } => {
                    assert forall|i: int| 0 <= i < GRID_LEN implies named_in(dr, vs, ((1000 + dd) as u32, (9001 - dd) as u32), #[trigger] h@[i] as int)
                        && named_in(dr, vs, ((1000 + dd) as u32, (9001 - dd) as u32), v@[i] as int) by {
                        assert(h@[i] == rows.bases@[i].0);
                        assert(v@[i] == cols.bases@[i].0);
                    }
                },
                GraphParams::Double { h, cm, v, rm, .. } => {
                    assert(h@ == rows.bases@ && rm@ == rows.splits@ && v@ == cols.bases@ && cm@ == cols.splits@);
                },
            }
            assert forall|j: int| 0 <= j < NUM_TURN implies query_named(
                s.spec_draws(),
                s.spec_draw_values(),
                #[trigger] s.spec_queries()[j],
            ) by {
                assert(query_is_named(s.spec_draws(), s.spec_draw_values(), s.spec_queries()[j], fpos[j]));
            }
        }
        s
    }

    pub fn queries(&self) -> (q: &Vec<QueryParam>)
        ensures
            q@ == self.spec_queries(),
    {
        &self.queries
    }

    pub fn score_details(&self) -> (d: &Vec<ScoreDetail>)
        ensures
            d@ == self.spec_details(),
    {
        &self.score_details
    }

    pub fn graph_params(&self) -> (p: &GraphParams)
        ensures
            *p == self.spec_params(),
    {
        &self.graph_params
    }

    pub fn graph(&self) -> (g: &GridGraph<u32>)
        ensures
            *g == self.spec_graph(),
    {
        &self.graph
    }

    /// The query of the current turn, or `None` once every turn is answered.
    pub fn next_query(&self) -> (q: Option<Query>)
        requires
            self.wf(),
        ensures
            q == if self.spec_turn() < NUM_TURN {
                Some(self.spec_queries()[self.spec_turn()].query)
            } else {
                None
            },
    {
        if self.turn < NUM_TURN {
            Some(self.queries[self.turn].query)
        } else {
            None
        }
    }

    /// Walks the submitted path of the current turn over the hidden grid and
    /// returns its true length.
    fn compute_path_length(&mut self, path: &[Dir]) -> (r: Result<u64, EnvError>)
        requires
            old(self).wf(),
            old(self).turn < NUM_TURN,
        ensures
            final(self).turn == old(self).turn,
            final(self).queries == old(self).queries,
            final(self).graph == old(self).graph,
            final(self).score_details == old(self).score_details,
            final(self).graph_params == old(self).graph_params,
            final(self).visited.view().len() == NUM_CELLS,
            forall|i: int| 0 <= i < NUM_CELLS ==> #[trigger] final(self).visited.view()[i] <= final(self).turn
                || final(self).visited.view()[i] == usize::MAX,
            ({
                let q = old(self).queries@[old(self).turn as int].query;
                &&& r matches Ok(l) ==> is_simple_path(q.src, q.dest, path@) && l == walk_cost(
                    &old(self).graph,
                    q.src,
                    path@,
                ) && path@.len() < NUM_CELLS
                &&& is_simple_path(q.src, q.dest, path@) ==> r is Ok
            }),
    {
        let turn = self.turn;
        let src = self.queries[turn].query.src;
        let dest = self.queries[turn].query.dest;
        assert(self.queries@[turn as int].wf());
        let ghost g = self.graph;
        let mut p = src;
        let mut sum: u64 = 0;
        let mut i: usize = 0;
        proof {
            assert(path@.take(0) =~= Seq::<Dir>::empty());
            assert(walk_cells(src, Seq::<Dir>::empty()) =~= seq![src]);
        }
        while i < path.len()
            invariant
                self.turn == turn,
                old(self).turn == turn,
                old(self).queries@.len() == NUM_TURN,
                turn < NUM_TURN,
                self.graph == g,
                g.wf(),
                forall|j: int| 0 <= j < NUM_EDGES ==> TRUE_COST_LB <= #[trigger] g.view()[j] <= TRUE_COST_UB,
                self.queries == old(self).queries,
                self.graph == old(self).graph,
                self.score_details == old(self).score_details,
                self.graph_params == old(self).graph_params,
                src == old(self).queries@[turn as int].query.src,
                dest == old(self).queries@[turn as int].query.dest,
                src.wf(),
                dest.wf(),
                i <= path@.len(),
                p.wf(),
                walk_end(src, path@.take(i as int)) == Some(p),
                walk_cells(src, path@.take(i as int)).len() == i + 1,
                walk_cells(src, path@.take(i as int)).last() == p,
                walk_cells(src, path@.take(i as int)).drop_last().no_duplicates(),
                i <= NUM_CELLS,
                sum == walk_cost(&g, src, path@.take(i as int)),
                sum <= i * TRUE_COST_UB,
                self.visited.view().len() == NUM_CELLS,
                forall|c: Pos|
                    c.wf() ==> (self.visited.view()[c.spec_id()] == turn <==> walk_cells(
                        src,
                        path@.take(i as int),
                    ).drop_last().contains(c)),
                forall|j: int| 0 <= j < NUM_CELLS ==> #[trigger] self.visited.view()[j] <= turn
                    || self.visited.view()[j] == usize::MAX,
            decreases path@.len() - i,
        {
            let ghost a = path@.take(i as int);
            let ghost cells = walk_cells(src, a);
            proof {
                lemma_pos_id(0, p);
            }
            if self.visited.get(p) == turn {
                proof {
                    lemma_prefix_repeat(src, path@, i as int);
                }
                return Err(EnvError::PathRevisitsCell);
            }
            self.visited.set(p, turn);
            proof {
                assert(!cells.drop_last().contains(p));
                assert(cells =~= cells.drop_last().push(p));
                assert forall|x: int, y: int| 0 <= x < cells.len() && 0 <= y < cells.len() && x != y implies cells[x]
                    != cells[y] by {
                    if x < cells.len() - 1 && y < cells.len() - 1 {
                        assert(cells.drop_last()[x] == cells[x] && cells.drop_last()[y] == cells[y]);
                    } else if x == cells.len() - 1 {
                        assert(cells.drop_last()[y] == cells[y]);
                        assert(cells.drop_last().contains(cells[y]));
                    } else {
                        assert(cells.drop_last()[x] == cells[x]);
                        assert(cells.drop_last().contains(cells[x]));
                    }
                }
                assert(cells.no_duplicates());
                lemma_walk_cells(src, a);
                lemma_distinct_cells_len(cells);
                assert forall|c: Pos| c.wf() implies (self.visited.view()[c.spec_id()] == turn <==> cells.contains(c)) by {
                    lemma_pos_id(0, c);
                    if c == p {
                        assert(cells[cells.len() - 1] == p);
                    } else {
                        assert(c.spec_id() != p.spec_id());
                        if cells.contains(c) {
                            let k = choose|k: int| 0 <= k < cells.len() && cells[k] == c;
                            assert(cells.drop_last()[k] == c);
                        }
                        if cells.drop_last().contains(c) {
                            let k = choose|k: int| 0 <= k < cells.drop_last().len() && cells.drop_last()[k] == c;
                            assert(cells[k] == c);
                        }
                    }
                }
            }
            let d = path[i];
            let q = match p.move_to(d) {
                Some(q) => q,
                None => {
                    proof {
                        let b = path@.skip(i as int);
                        assert(path@ =~= a + b);
                        lemma_walk_concat(src, a, b);
                        assert(b[0] == d);
                    }
                    return Err(EnvError::PathLeavesGrid);
                },
            };
            let c = self.graph.get_at(p, d);
            proof {
                let b = seq![d];
                assert(path@.take(i as int + 1) =~= a + b);
                assert(a.push(d) =~= a + b);
                lemma_walk_concat(src, a, b);
                assert(b.drop_first() =~= Seq::<Dir>::empty());
                assert(b[0] == d);
                assert(p.moved(d) == q);
                assert(walk_cells(q, Seq::<Dir>::empty()) == seq![q]);
                assert(walk_end(q, Seq::<Dir>::empty()) == Some(q));
                assert(walk_end(p, b) == Some(q));
                assert(walk_cells(p, b) =~= seq![p, q]);
                lemma_walk_cost_snoc(&g, src, a, d);
                lemma_pos_id(0, q);
                assert(walk_cells(src, path@.take(i as int + 1)) =~= cells.push(q));
                assert(walk_cells(src, path@.take(i as int + 1)).drop_last() =~= cells);
            }
            sum = sum + c as u64;
            p = q;
            i += 1;
        }
        assert(path@.take(i as int) =~= path@);
        proof {
            lemma_pos_id(0, p);
            lemma_pos_id(0, dest);
        }
        if self.visited.get(p) == turn {
            proof {
                let cells = walk_cells(src, path@);
                let k = choose|k: int| 0 <= k < cells.drop_last().len() && cells.drop_last()[k] == p;
                assert(cells[k] == p && cells[cells.len() - 1] == p);
            }
            return Err(EnvError::PathRevisitsCell);
        }
        if p != dest {
            return Err(EnvError::PathMissesDest);
        }
        proof {
            let cells = walk_cells(src, path@);
            assert(!cells.drop_last().contains(p));
            assert(cells =~= cells.drop_last().push(p));
            assert forall|x: int, y: int| 0 <= x < cells.len() && 0 <= y < cells.len() && x != y implies cells[x]
                != cells[y] by {
                if x < cells.len() - 1 && y < cells.len() - 1 {
                    assert(cells.drop_last()[x] == cells[x] && cells.drop_last()[y] == cells[y]);
                } else if x == cells.len() - 1 {
                    assert(cells.drop_last()[y] == cells[y]);
                    assert(cells.drop_last().contains(cells[y]));
                } else {
                    assert(cells.drop_last()[x] == cells[x]);
                    assert(cells.drop_last().contains(cells[x]));
                }
            }
            lemma_simple_path_len(src, dest, path@);
        }
        Ok(sum)
    }
}

impl Simulator {
    /// Checks the path of the current turn, records its best and achieved
    /// cost, moves to the next turn, and answers with the path's true length
    /// scaled by the turn's noise factor.
    pub fn answer(&mut self, path: &[Dir]) -> (r: Result<u32, EnvError>)
        requires
            old(self).wf(),
            old(self).spec_turn() < NUM_TURN,
        ensures
            ({
                let qp = old(self).spec_queries()[old(self).spec_turn()];
                let g = old(self).spec_graph();
                &&& is_simple_path(qp.query.src, qp.query.dest, path@) ==> r is Ok
                &&& r matches Ok(resp) ==> {
                    &&& is_simple_path(qp.query.src, qp.query.dest, path@)
                    &&& resp == spec_response(walk_cost(&g, qp.query.src, path@), qp.res_factor_ppm as int)
                    &&& final(self).wf()
                    &&& final(self).spec_turn() == old(self).spec_turn() + 1
                    &&& final(self).spec_queries() == old(self).spec_queries()
                    &&& final(self).spec_graph() == g
                    &&& final(self).spec_details().len() == old(self).spec_details().len() + 1
                    &&& final(self).spec_details().last().length == walk_cost(&g, qp.query.src, path@)
                    &&& forall|k: int| 0 <= k < old(self).spec_details().len() ==> #[trigger] final(self).spec_details()[k]
                        == old(self).spec_details()[k]
                    &&& forall|w: Seq<Dir>| walk_end(qp.query.src, w) == Some(qp.query.dest)
                        ==> final(self).spec_details().last().best <= #[trigger] walk_cost(&g, qp.query.src, w)
                    &&& exists|w: Seq<Dir>| is_simple_path(qp.query.src, qp.query.dest, w)
                        && final(self).spec_details().last().best == walk_cost(&g, qp.query.src, w)
                }
            }),
    {
        let turn = self.turn;
        assert(self.queries@[turn as int].wf());
        let qp = self.queries[turn];
        let length = match self.compute_path_length(path) {
            Ok(l) => l,
            Err(e) => return Err(e),
        };
        let best = compute_shortest_cost(&self.graph, qp.query.src, qp.query.dest);
        let ghost old_details = self.score_details@;
        self.score_details.push(ScoreDetail { best, length });
        proof {
            assert(self.score_details@.last() == ScoreDetail { best, length });
            assert forall|k: int| 0 <= k < old_details.len() implies #[trigger] self.score_details@[k] == old_details[k] by {}
            let w = choose|w: Seq<Dir>| is_simple_path(qp.query.src, qp.query.dest, w) && best == walk_cost(&self.graph, qp.query.src, w);
            assert(is_simple_path(qp.query.src, qp.query.dest, w) && best == walk_cost(&self.graph, qp.query.src, w));
        }
        self.turn = turn + 1;
        proof {
            assert(path@.len() < NUM_CELLS);
            lemma_walk_cost_bound(&self.graph, qp.query.src, path@);
        }
        assert(length <= 900 * 9000);
        assert(length * qp.res_factor_ppm as u64 <= 900 * 9000 * 1_100_000) by (nonlinear_arith)
            requires
                length <= 900 * 9000,
                qp.res_factor_ppm < 1_100_000,
        ;
        let scaled = length * qp.res_factor_ppm as u64 + 500_000;
        let response = scaled / 1_000_000;
        proof {
            let g = old(self).spec_graph();
            assert(g == self.graph);
            assert forall|w: Seq<Dir>| walk_end(qp.query.src, w) == Some(qp.query.dest)
                implies self.score_details@.last().best <= #[trigger] walk_cost(&g, qp.query.src, w) by {
                assert(best <= walk_cost(&self.graph, qp.query.src, w));
            }
            let w = choose|w: Seq<Dir>| is_simple_path(qp.query.src, qp.query.dest, w) && best == walk_cost(&self.graph, qp.query.src, w);
            assert(self.score_details@.last().best == walk_cost(&g, qp.query.src, w));
        }
        Ok(response as u32)
    }
}

/// Where the cell reached after `i` moves was already stepped on, the whole
/// path is no simple path.
proof fn lemma_prefix_repeat(src: Pos, path: Seq<Dir>, i: int)
    requires
        0 <= i <= path.len(),
        walk_end(src, path.take(i)) is Some,
        walk_cells(src, path.take(i)).drop_last().contains(walk_end(src, path.take(i))->0),
        walk_cells(src, path.take(i)).len() == i + 1,
        walk_cells(src, path.take(i)).last() == walk_end(src, path.take(i))->0,
    ensures
        forall|dest: Pos| !is_simple_path(src, dest, path),
{
    let a = path.take(i);
    let b = path.skip(i);
    assert(path =~= a + b);
    lemma_walk_concat(src, a, b);
    let p = walk_end(src, a)->0;
    let pre = walk_cells(src, a);
    let k = choose|k: int| 0 <= k < pre.drop_last().len() && pre.drop_last()[k] == p;
    if walk_end(src, path) is Some {
        let cells = walk_cells(src, path);
        assert(cells[k] == pre[k]);
        assert(cells[i] == pre[i]);
        assert(pre[k] == p && pre[i] == p);
        assert(!cells.no_duplicates());
    }
}

/// The true cost of a legal walk is at most the highest cost per move.
proof fn lemma_walk_cost_bound(g: &GridGraph<u32>, p: Pos, path: Seq<Dir>)
    requires
        g.wf(),
        forall|i: int| 0 <= i < NUM_EDGES ==> TRUE_COST_LB <= #[trigger] g.view()[i] <= TRUE_COST_UB,
        p.wf(),
        walk_end(p, path) is Some,
    ensures
        0 <= walk_cost(g, p, path) <= path.len() * TRUE_COST_UB,
    decreases path.len(),
{
    if path.len() > 0 {
        lemma_move_rev(p, path[0]);
        lemma_walk_cost_bound(g, p.moved(path[0]), path.drop_first());
        let e = crate::grid::EdgeIndex::spec_from_move(p, path[0]);
        crate::model::lemma_edge_id_bounds(e);
    }
}

impl Environment for Simulator {
    open spec fn env_ready(&self) -> bool {
        self.wf()
    }

    open spec fn models_pending(&self) -> bool {
        true
    }

    open spec fn spec_pending(&self) -> Option<Query> {
        if self.spec_turn() < NUM_TURN {
            Some(self.spec_queries()[self.spec_turn()].query)
        } else {
            None
        }
    }

    open spec fn spec_answered(&self) -> Seq<Query> {
        Seq::new(self.spec_turn() as nat, |i: int| self.spec_queries()[i].query)
    }

    open spec fn well_behaved(&self) -> bool {
        self.wf()
    }

    fn next_query(&self) -> (r: Option<Query>) {
        proof {
            if self.spec_turn() < NUM_TURN {
                assert(self.spec_queries()[self.spec_turn()].wf());
            }
        }
        Simulator::next_query(self)
    }

    fn do_answer(&mut self, path: &[Dir]) -> (r: Result<u32, EnvError>) {
        if self.turn >= NUM_TURN {
            return Err(EnvError::NoQueryPending);
        }
        let ghost before = self.spec_answered();
        let r = self.answer(path);
        proof {
            if r is Ok {
                assert(self.spec_answered() =~= before.push(old(self).spec_pending()->0));
            }
        }
        r
    }
}

} // verus!
