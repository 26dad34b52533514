//! The online cost estimator: a structured model of edge costs, the caches
//! that keep the loss of every past round current, and the moves that refit
//! the model one parameter at a time.
use crate::grid::{
    all_edges_wf_of_walk, walk_edges, walk_end, Dir, EdgeIndex, LineIndex, Query, EDGES_PER_LINE,
    GRID_LEN, NUM_CELLS, NUM_EDGES, NUM_LINES,
};
use crate::model::{
    all_wf, base_slot, diff_fn, edge_cost, edge_count, lemma_bump_delta, lemma_counted_on_line,
    lemma_edge_cost_bounds, lemma_edge_count_bounds, lemma_edge_id_bounds, lemma_path_cost_bounds,
    lemma_range_sum_ext, lemma_seg_count_bounds, lemma_shift_base,
    lemma_slide_split, lemma_sum_over_list, list_sum, listed, on_line, params_ok, path_cost,
    range_sum, residuals, seg_count, seg_of, sorted_below, sq, lemma_sq_residual_bounds,
    lemma_range_sum_bounds, lemma_listed_push, lemma_sorted_len, max_sq_residual, EDGE_COST_LB, EDGE_COST_UB,
    LINE_COST_LB, LINE_COST_UB, MAX_EDGE_COST, STEP,
};
use crate::chance::{clock_now, nanos_since, random_below};
use crate::graph::Graph;
use vstd::prelude::*;

verus! {

/// Most rounds an estimator keeps (turn numbers fit in 16 bits).
pub const MAX_RECORDS: usize = 65535;

/// Temperature of the refit at its start and at the end of its budget.
pub const START_TEMP: u64 = 100000;
pub const END_TEMP: u64 = 100;

/// Most moves one refit proposes, whatever the clock says.
pub const MAX_REFIT_LOOPS: u64 = 1_000_000_000_000;

/// Temperature after `elapsed` of `budget` nanoseconds: linear from
/// `START_TEMP` down to `END_TEMP`.
pub open spec fn spec_temperature(elapsed: int, budget: int) -> int {
    START_TEMP - (START_TEMP - END_TEMP) * elapsed / budget
}

pub fn temperature(elapsed: u64, budget: u64) -> (t: u64)
    requires
        elapsed < budget,
    ensures
        t == spec_temperature(elapsed as int, budget as int),
        END_TEMP < t <= START_TEMP,
{
    assert((START_TEMP - END_TEMP) as u128 * elapsed as u128 <= 99900 * 0xffff_ffff_ffff_ffff) by (nonlinear_arith)
        requires
            elapsed <= 0xffff_ffff_ffff_ffffu64,
    ;
    let drop = (START_TEMP - END_TEMP) as u128 * elapsed as u128;
    assert(drop < (START_TEMP - END_TEMP) as u128 * budget as u128) by (nonlinear_arith)
        requires
            drop == (START_TEMP - END_TEMP) as u128 * elapsed as u128,
            elapsed < budget,
    ;
    let q = drop / budget as u128;
    assert(q < (START_TEMP - END_TEMP)) by (nonlinear_arith)
        requires
            q == drop as int / budget as int,
            (drop as int) < (START_TEMP - END_TEMP) as int * budget as int,
            budget > 0,
    ;
    START_TEMP - q as u64
}

/// True with probability about `exp(-a / b)`, for `a <= b`: von Neumann's
/// method draws `a > u1 > u2 > ...` uniformly from `0..b` until the chain
/// breaks, and accepts when it broke after an even number of draws.
fn bernoulli_exp(a: u64, b: u64) -> (r: bool)
    requires
        0 < b,
        a <= b,
    ensures
        a == 0 ==> r,
{
    let mut prev = a;
    let mut k: u64 = 0;
    while k < 64
        invariant
            prev <= a,
            a == 0 ==> k == 0,
            0 < b,
        decreases 64 - k,
    {
        let u = random_below(b);
        if u < prev {
            prev = u;
            k += 1;
        } else {
            break;
        }
    }
    k % 2 == 0
}

/// Metropolis acceptance: always when the loss does not grow, otherwise with
/// probability about `exp(-loss_diff / temp)`.
pub fn boltzmann_accept(loss_diff: i128, temp: u64) -> (r: bool)
    requires
        temp > 0,
    ensures
        loss_diff <= 0 ==> r,
        loss_diff >= 64 * temp ==> !r,
{
    if loss_diff <= 0 {
        return true;
    }
    let whole = loss_diff / temp as i128;
    let rest = (loss_diff % temp as i128) as u64;
    if whole >= 64 {
        return false;
    }
    assert(loss_diff < 64 * temp) by (nonlinear_arith)
        requires
            whole == loss_diff as int / temp as int,
            whole < 64,
            temp > 0,
            loss_diff > 0,
    ;
    let mut i: i128 = 0;
    while i < whole
        invariant
            0 <= i <= whole,
            temp > 0,
            loss_diff > 0,
        decreases whole - i,
    {
        if !bernoulli_exp(temp, temp) {
            return false;
        }
        i += 1;
    }
    bernoulli_exp(rest, temp)
}

/// A move drawn uniformly among the three kinds, then uniformly within its kind.
fn random_move() -> (mv: Move)
    ensures
        mv.wf(),
{
    let kind = random_below(3);
    let up = random_below(2) == 1;
    if kind == 0 {
        let line = random_below(NUM_LINES as u64) as usize;
        let seg = random_below(2) as usize;
        Move::ShiftBase { line, seg, up }
    } else if kind == 1 {
        let line = random_below(NUM_LINES as u64) as usize;
        Move::SlideSplit { line, up }
    } else {
        let edge = random_below(NUM_EDGES as u64) as usize;
        Move::BumpDelta { edge, up }
    }
}

/// Base cost that every segment starts from.
pub const INITIAL_LINE_COST: u32 = 1000;

/// One completed round.
pub struct Record {
    pub query: Query,
    pub path: Vec<Dir>,
    pub response: u32,
    /// The edges that the path crosses, in order.
    pub visited: Vec<EdgeIndex>,
}

impl Record {
    pub fn new(query: &Query, path: &[Dir], response: u32) -> (r: Record)
        requires
            query.wf(),
            walk_end(query.src, path@) == Some(query.dest),
        ensures
            r.query == *query,
            r.path@ == path@,
            r.response == response,
            r.visited@ == walk_edges(query.src, path@),
            all_wf(r.visited@),
    {
        let mut visited: Vec<EdgeIndex> = Vec::new();
        let mut steps: Vec<Dir> = Vec::new();
        let mut cur = query.src;
        let mut i: usize = 0;
        assert(path@.skip(0) =~= path@);
        assert(visited@ + walk_edges(cur, path@) =~= walk_edges(query.src, path@));
        while i < path.len()
            invariant
                i <= path@.len(),
                cur.wf(),
                walk_end(cur, path@.skip(i as int)) == Some(query.dest),
                visited@ + walk_edges(cur, path@.skip(i as int)) == walk_edges(query.src, path@),
                steps@ == path@.take(i as int),
                all_wf(visited@),
            decreases path@.len() - i,
        {
            let d = path[i];
            let ghost rest = path@.skip(i as int);
            assert(rest[0] == d);
            assert(rest.drop_first() =~= path@.skip(i as int + 1));
            let e = EdgeIndex::from_move(cur, d);
            let next = cur.move_to(d).unwrap();
            proof {
                assert(visited@.push(e) + walk_edges(next, rest.drop_first()) =~= visited@
                    + walk_edges(cur, rest));
            }
            visited.push(e);
            steps.push(d);
            assert(steps@ =~= path@.take(i as int + 1));
            cur = next;
            i += 1;
        }
        assert(path@.skip(i as int) =~= Seq::<Dir>::empty());
        assert(visited@ =~= walk_edges(query.src, path@));
        assert(steps@ =~= path@);
        Record { query: *query, path: steps, response, visited }
    }
}

/// Predicted cost of each record's edges, under the given parameters.
pub open spec fn record_visited(records: Seq<Record>) -> spec_fn(int) -> Seq<EdgeIndex> {
    |t: int| records[t].visited@
}

pub open spec fn record_response(records: Seq<Record>) -> spec_fn(int) -> int {
    |t: int| records[t].response as int
}

/// Loss of the records under the given parameters, recomputed from scratch.
pub open spec fn scratch_loss(base: Seq<u32>, delta: Seq<i32>, mid: Seq<u8>, records: Seq<Record>) -> int {
    range_sum(
        residuals(base, delta, mid, record_visited(records), record_response(records)),
        records.len() as int,
    )
}

/// A move of the refit: one parameter changed by one step.
#[derive(Debug, Clone, Copy, PartialEq, Eq, Structural)]
pub enum Move {
    /// Raise (`up`) or lower the base of segment `seg` of line `line` by one step.
    ShiftBase { line: usize, seg: usize, up: bool },
    /// Move the split point of line `line` one edge up or down.
    SlideSplit { line: usize, up: bool },
    /// Raise or lower the perturbation of edge `edge` by one step.
    BumpDelta { edge: usize, up: bool },
}

impl Move {
    pub open spec fn wf(self) -> bool {
        match self {
            Move::ShiftBase { line, seg, .. } => line < NUM_LINES && seg < 2,
            Move::SlideSplit { line, .. } => line < NUM_LINES,
            Move::BumpDelta { edge, .. } => edge < NUM_EDGES,
        }
    }
}

pub open spec fn signed_step(up: bool) -> int {
    if up {
        STEP as int
    } else {
        -(STEP as int)
    }
}

pub struct GraphEstimator {
    /// Base cost of each line segment, at `2 * line + segment`.
    line_costs: Vec<u32>,
    /// Perturbation of each edge, by edge number.
    edge_costs: Vec<i32>,
    /// Split point of each line, by line number.
    mid_x: Vec<u8>,
    records: Vec<Record>,
    /// For each turn, the number of its edges in each line segment.
    visit_counts: Vec<Vec<u32>>,
    /// For each turn, the predicted cost of its path.
    total_costs: Vec<u32>,
    /// For each line, the turns whose path crosses it, in increasing order.
    visited_turns_per_line: Vec<Vec<usize>>,
    /// For each edge, the turns whose path crosses it, in increasing order.
    visited_turns_per_edge: Vec<Vec<usize>>,
    loss: i128,
    /// Wall-clock budget of one refit, in nanoseconds.
    refit_budget_nanos: u64,
}

impl GraphEstimator {
    pub closed spec fn base(&self) -> Seq<u32> {
        self.line_costs@
    }

    pub closed spec fn delta(&self) -> Seq<i32> {
        self.edge_costs@
    }

    pub closed spec fn mid(&self) -> Seq<u8> {
        self.mid_x@
    }

    pub closed spec fn spec_records(&self) -> Seq<Record> {
        self.records@
    }

    pub closed spec fn spec_totals(&self) -> Seq<u32> {
        self.total_costs@
    }

    pub closed spec fn spec_loss(&self) -> int {
        self.loss as int
    }

    pub closed spec fn budget(&self) -> u64 {
        self.refit_budget_nanos
    }

    /// Predicted cost of edge `e` under the current parameters.
    pub open spec fn spec_cost(&self, e: EdgeIndex) -> int {
        edge_cost(self.base(), self.delta(), self.mid(), e)
    }

    /// Turns listed for line `l`.
    pub closed spec fn line_turns(&self, l: int) -> Seq<usize> {
        self.visited_turns_per_line@[l]@
    }

    /// Turns listed for edge number `e`.
    pub closed spec fn edge_turns(&self, e: int) -> Seq<usize> {
        self.visited_turns_per_edge@[e]@
    }

    /// Cached number of edges of turn `t` in segment `k % 2` of line `k / 2`.
    pub closed spec fn cached_count(&self, t: int, k: int) -> int {
        self.visit_counts@[t]@[k] as int
    }

    pub open spec fn record_ok(r: Record) -> bool {
        &&& all_wf(r.visited@)
        &&& r.visited@.len() < NUM_CELLS
    }

    /// The caches agree with the parameters and the records.
    pub closed spec fn wf(&self) -> bool {
        let n = self.records@.len() as int;
        let recs = self.records@;
        &&& params_ok(self.line_costs@, self.edge_costs@, self.mid_x@)
        &&& n <= MAX_RECORDS
        &&& self.visit_counts@.len() == n
        &&& self.total_costs@.len() == n
        &&& forall|t: int| 0 <= t < n ==> GraphEstimator::record_ok(#[trigger] recs[t])
        &&& forall|t: int|
            0 <= t < n ==> #[trigger] self.total_costs@[t] == path_cost(
                self.line_costs@,
                self.edge_costs@,
                self.mid_x@,
                recs[t].visited@,
            )
        &&& forall|t: int| 0 <= t < n ==> (#[trigger] self.visit_counts@[t])@.len() == 2 * NUM_LINES
        &&& forall|t: int, k: int|
            0 <= t < n && 0 <= k < 2 * NUM_LINES ==> #[trigger] self.visit_counts@[t]@[k]
                == seg_count(self.mid_x@, recs[t].visited@, k / 2, k % 2)
        &&& self.loss == scratch_loss(self.line_costs@, self.edge_costs@, self.mid_x@, recs)
        &&& self.visited_turns_per_line@.len() == NUM_LINES
        &&& forall|l: int|
            0 <= l < NUM_LINES ==> sorted_below(#[trigger] self.visited_turns_per_line@[l]@, n)
        &&& forall|l: int, t: int|
            0 <= l < NUM_LINES && 0 <= t < n ==> (listed(
                #[trigger] self.visited_turns_per_line@[l]@,
                t,
            ) <==> on_line(#[trigger] recs[t].visited@, l))
        &&& self.visited_turns_per_edge@.len() == NUM_EDGES
        &&& forall|e: int|
            0 <= e < NUM_EDGES ==> sorted_below(#[trigger] self.visited_turns_per_edge@[e]@, n)
        &&& forall|e: int, t: int|
            0 <= e < NUM_EDGES && 0 <= t < n ==> (listed(
                #[trigger] self.visited_turns_per_edge@[e]@,
                t,
            ) <==> edge_count(#[trigger] recs[t].visited@, e) > 0)
    }

    /// An estimator with no records: every base at its lowest value, every
    /// perturbation zero, every split in the middle of its line. A refit may
    /// spend at most 90% of a thousandth of `time_limit_ms`.
    pub fn new(time_limit_ms: u64) -> (r: GraphEstimator)
        ensures
            r.wf(),
            r.spec_records().len() == 0,
            r.spec_loss() == 0,
            r.budget() == time_limit_ms as int * 900 || (r.budget() == u64::MAX
                && time_limit_ms as int * 900 > u64::MAX),
            forall|i: int| 0 <= i < 2 * NUM_LINES ==> #[trigger] r.base()[i] == INITIAL_LINE_COST,
            forall|i: int| 0 <= i < NUM_EDGES ==> #[trigger] r.delta()[i] == 0,
            forall|i: int| 0 <= i < NUM_LINES ==> #[trigger] r.mid()[i] == GRID_LEN / 2,
    {
        let mut line_costs: Vec<u32> = Vec::new();
        let mut mid_x: Vec<u8> = Vec::new();
        let mut turns_per_line: Vec<Vec<usize>> = Vec::new();
        let mut i: usize = 0;
        while i < NUM_LINES
            invariant
                i <= NUM_LINES,
                line_costs@.len() == 2 * i,
                mid_x@.len() == i,
                turns_per_line@.len() == i,
                forall|j: int| 0 <= j < 2 * i ==> #[trigger] line_costs@[j] == INITIAL_LINE_COST,
                forall|j: int| 0 <= j < i ==> #[trigger] mid_x@[j] == GRID_LEN / 2,
                forall|j: int| 0 <= j < i ==> (#[trigger] turns_per_line@[j])@.len() == 0,
            decreases NUM_LINES - i,
        {
            line_costs.push(INITIAL_LINE_COST);
            line_costs.push(INITIAL_LINE_COST);
            mid_x.push((GRID_LEN / 2) as u8);
            turns_per_line.push(Vec::new());
            i += 1;
        }
        let mut edge_costs: Vec<i32> = Vec::new();
        let mut turns_per_edge: Vec<Vec<usize>> = Vec::new();
        let mut j: usize = 0;
        while j < NUM_EDGES
            invariant
                j <= NUM_EDGES,
                edge_costs@.len() == j,
                turns_per_edge@.len() == j,
                forall|k: int| 0 <= k < j ==> #[trigger] edge_costs@[k] == 0,
                forall|k: int| 0 <= k < j ==> (#[trigger] turns_per_edge@[k])@.len() == 0,
            decreases NUM_EDGES - j,
        {
            edge_costs.push(0);
            turns_per_edge.push(Vec::new());
            j += 1;
        }
        let budget: u64 = if time_limit_ms <= u64::MAX / 900 {
            time_limit_ms * 900
        } else {
            u64::MAX
        };
        let r = GraphEstimator {
            line_costs,
            edge_costs,
            mid_x,
            records: Vec::new(),
            visit_counts: Vec::new(),
            total_costs: Vec::new(),
            visited_turns_per_line: turns_per_line,
            visited_turns_per_edge: turns_per_edge,
            loss: 0,
            refit_budget_nanos: budget,
        };
        assert(r.wf());
        r
    }

    fn predicted_cost(&self, e: EdgeIndex) -> (c: u32)
        requires
            params_ok(self.line_costs@, self.edge_costs@, self.mid_x@),
            e.wf(),
        ensures
            c == self.spec_cost(e),
            700 <= c <= MAX_EDGE_COST,
    {
        proof {
            lemma_edge_cost_bounds(self.line_costs@, self.edge_costs@, self.mid_x@, e);
            lemma_edge_id_bounds(e);
        }
        let l = e.line.id();
        let seg: usize = if e.x < self.mid_x[l] {
            0
        } else {
            1
        };
        let base = self.line_costs[2 * l + seg] as i32;
        (base + self.edge_costs[e.id()]) as u32
    }

    /// The loss stays within reach of 128-bit arithmetic.
    proof fn lemma_loss_bounds(base: Seq<u32>, delta: Seq<i32>, mid: Seq<u8>, recs: Seq<Record>)
        requires
            params_ok(base, delta, mid),
            forall|t: int| 0 <= t < recs.len() ==> GraphEstimator::record_ok(#[trigger] recs[t]),
        ensures
            0 <= scratch_loss(base, delta, mid, recs) <= recs.len() * max_sq_residual(),
    {
        let f = residuals(base, delta, mid, record_visited(recs), record_response(recs));
        assert forall|t: int| 0 <= t < recs.len() implies 0 <= #[trigger] f(t) <= max_sq_residual() by {
            assert(GraphEstimator::record_ok(recs[t]));
            lemma_path_cost_bounds(base, delta, mid, recs[t].visited@);
            lemma_sq_residual_bounds(
                path_cost(base, delta, mid, recs[t].visited@),
                recs[t].response as int,
            );
        }
        lemma_range_sum_bounds(f, recs.len() as int, max_sq_residual());
    }

    /// Appends turn `t` to list `k` unless the list already ends with it.
    fn push_turn(lists: &mut Vec<Vec<usize>>, k: usize, t: usize)
        requires
            k < old(lists)@.len(),
        ensures
            final(lists)@.len() == old(lists)@.len(),
            forall|j: int| 0 <= j < old(lists)@.len() && j != k ==> final(lists)@[j] == old(lists)@[j],
            final(lists)@[k as int]@ == if old(lists)@[k as int]@.len() > 0 && old(lists)@[k as int]@.last()
                == t {
                old(lists)@[k as int]@
            } else {
                old(lists)@[k as int]@.push(t)
            },
    {
        let n = lists[k].len();
        if n == 0 || lists[k][n - 1] != t {
            lists[k].push(t);
        }
    }

    /// Appends a record of a round and brings every cache up to date with it.
    fn ingest(&mut self, query: &Query, path: &[Dir], response: u32)
        requires
            old(self).wf(),
            old(self).spec_records().len() < MAX_RECORDS,
            query.wf(),
            walk_end(query.src, path@) == Some(query.dest),
            path@.len() < NUM_CELLS,
        ensures
            final(self).wf(),
            final(self).spec_records().len() == old(self).spec_records().len() + 1,
            forall|t: int|
                0 <= t < old(self).spec_records().len() ==> #[trigger] final(self).spec_records()[t]
                    == old(self).spec_records()[t],
            ({
                let r = final(self).spec_records().last();
                &&& r.query == *query
                &&& r.path@ == path@
                &&& r.response == response
                &&& r.visited@ == walk_edges(query.src, path@)
            }),
            final(self).base() == old(self).base(),
            final(self).delta() == old(self).delta(),
            final(self).mid() == old(self).mid(),
            final(self).budget() == old(self).budget(),
    {
        let this_turn = self.records.len();
        let record = Record::new(query, path, response);
        proof {
            all_edges_wf_of_walk(query.src, path@);
        }
        let ghost vis = record.visited@;
        let ghost base = self.line_costs@;
        let ghost delta = self.edge_costs@;
        let ghost mid = self.mid_x@;
        let ghost old_lines = self.visited_turns_per_line@;
        let ghost old_edges = self.visited_turns_per_edge@;
        let mut visit_count: Vec<u32> = Vec::new();
        let mut k: usize = 0;
        while k < 2 * NUM_LINES
            invariant
                k <= 2 * NUM_LINES,
                visit_count@.len() == k,
                forall|j: int| 0 <= j < k ==> #[trigger] visit_count@[j] == 0,
            decreases 2 * NUM_LINES - k,
        {
            visit_count.push(0);
            k += 1;
        }
        assert(vis.take(0) =~= Seq::<EdgeIndex>::empty());
        let mut total_cost: u32 = 0;
        let mut i: usize = 0;
        while i < record.visited.len()
            invariant
                old(self).wf(),
                this_turn == old(self).records@.len(),
                i <= vis.len(),
                vis == record.visited@,
                vis.len() < NUM_CELLS,
                all_wf(vis),
                this_turn == self.records@.len(),
                self.records == old(self).records,
                self.line_costs@ == base,
                self.edge_costs@ == delta,
                self.mid_x@ == mid,
                base == old(self).line_costs@,
                delta == old(self).edge_costs@,
                mid == old(self).mid_x@,
                self.visit_counts == old(self).visit_counts,
                self.total_costs == old(self).total_costs,
                self.loss == old(self).loss,
                self.refit_budget_nanos == old(self).refit_budget_nanos,
                params_ok(base, delta, mid),
                total_cost == path_cost(base, delta, mid, vis.take(i as int)),
                total_cost <= i * MAX_EDGE_COST,
                visit_count@.len() == 2 * NUM_LINES,
                forall|j: int|
                    0 <= j < 2 * NUM_LINES ==> #[trigger] visit_count@[j] == seg_count(
                        mid,
                        vis.take(i as int),
                        j / 2,
                        j % 2,
                    ),
                self.visited_turns_per_line@.len() == NUM_LINES,
                self.visited_turns_per_edge@.len() == NUM_EDGES,
                old_lines == old(self).visited_turns_per_line@,
                old_edges == old(self).visited_turns_per_edge@,
                forall|l: int|
                    0 <= l < NUM_LINES ==> (#[trigger] self.visited_turns_per_line@[l])@ == if on_line(
                        vis.take(i as int),
                        l,
                    ) {
                        old_lines[l]@.push(this_turn)
                    } else {
                        old_lines[l]@
                    },
                forall|e: int|
                    0 <= e < NUM_EDGES ==> (#[trigger] self.visited_turns_per_edge@[e])@ == if edge_count(
                        vis.take(i as int),
                        e,
                    ) > 0 {
                        old_edges[e]@.push(this_turn)
                    } else {
                        old_edges[e]@
                    },
            decreases vis.len() - i,
        {
            let edge = record.visited[i];
            assert(edge.wf());
            proof {
                lemma_edge_id_bounds(edge);
                lemma_edge_cost_bounds(base, delta, mid, edge);
            }
            let cost = self.predicted_cost(edge);
            total_cost = total_cost + cost;
            let l = edge.line.id();
            let eid = edge.id();
            let ghost pre = vis.take(i as int);
            let ghost post = vis.take(i as int + 1);
            assert(post.drop_last() =~= pre);
            assert(post.last() == edge);
            proof {
                lemma_seg_count_bounds(mid, pre, l as int, 0);
                lemma_seg_count_bounds(mid, pre, l as int, 1);
            }
            let seg: usize = if edge.x < self.mid_x[l] {
                0
            } else {
                1
            };
            assert(seg == seg_of(mid, edge));
            let slot = 2 * l + seg;
            assert(slot / 2 == l && slot % 2 == seg);
            visit_count.set(slot, visit_count[slot] + 1);
            assert forall|j: int| 0 <= j < 2 * NUM_LINES implies #[trigger] visit_count@[j] == seg_count(
                mid,
                post,
                j / 2,
                j % 2,
            ) by {
                if j != slot {
                    assert(j / 2 != l || j % 2 != seg);
                }
            }
            proof {
                assert forall|ll: int| 0 <= ll < NUM_LINES implies on_line(post, ll) == (on_line(pre, ll)
                    || edge.line.spec_id() == ll) by {
                    if on_line(pre, ll) {
                        let w = choose|w: int| 0 <= w < pre.len() && (#[trigger] pre[w]).line.spec_id() == ll;
                        assert(post[w] == pre[w]);
                    }
                    if edge.line.spec_id() == ll {
                        assert(post[i as int] == edge);
                    }
                    if on_line(post, ll) {
                        let w = choose|w: int| 0 <= w < post.len() && (#[trigger] post[w]).line.spec_id() == ll;
                        if w < i {
                            assert(pre[w] == post[w]);
                        }
                    }
                }
                assert forall|j: int| 0 <= j < old_lines[l as int]@.len() implies old_lines[l as int]@[j]
                    < this_turn by {
                    assert(sorted_below(old_lines[l as int]@, this_turn as int));
                }
                assert forall|ee: int| 0 <= ee < NUM_EDGES implies edge_count(post, ee) == edge_count(pre, ee)
                    + if edge.spec_id() == ee {
                    1int
                } else {
                    0
                } by {}
                lemma_edge_count_bounds(pre, eid as int);
                assert forall|j: int| 0 <= j < old_edges[eid as int]@.len() implies old_edges[eid as int]@[j]
                    < this_turn by {
                    assert(sorted_below(old_edges[eid as int]@, this_turn as int));
                }
            }
            GraphEstimator::push_turn(&mut self.visited_turns_per_line, l, this_turn);
            GraphEstimator::push_turn(&mut self.visited_turns_per_edge, eid, this_turn);
            i += 1;
        }
        assert(vis.take(i as int) =~= vis);
        proof {
            lemma_path_cost_bounds(base, delta, mid, vis);
            lemma_sq_residual_bounds(total_cost as int, response as int);
            GraphEstimator::lemma_loss_bounds(base, delta, mid, self.records@);
        }
        let ghost old_recs = self.records@;
        self.records.push(record);
        self.visit_counts.push(visit_count);
        self.total_costs.push(total_cost);
        let residual = total_cost as i128 - response as i128;
        self.loss = self.loss + residual * residual;
        proof {
            let recs = self.records@;
            assert(recs.len() == old_recs.len() + 1);
            assert forall|t: int| 0 <= t < old_recs.len() implies #[trigger] recs[t] == old_recs[t] by {}
            let f_old = residuals(base, delta, mid, record_visited(old_recs), record_response(old_recs));
            let f_new = residuals(base, delta, mid, record_visited(recs), record_response(recs));
            assert forall|t: int| 0 <= t < old_recs.len() implies #[trigger] f_old(t) == f_new(t) by {
                assert(recs[t] == old_recs[t]);
            }
            lemma_range_sum_ext(f_old, f_new, old_recs.len() as int);
            assert(f_new(old_recs.len() as int) == sq(total_cost - response));
            assert(self.loss == scratch_loss(base, delta, mid, recs));
            let n = old_recs.len() as int;
            assert(recs[n] == record);
            assert forall|l: int| 0 <= l < NUM_LINES implies {
                &&& sorted_below(#[trigger] self.visited_turns_per_line@[l]@, n + 1)
                &&& forall|t: int|
                    0 <= t <= n ==> (listed(self.visited_turns_per_line@[l]@, t) <==> on_line(
                        #[trigger] recs[t].visited@,
                        l,
                    ))
            } by {
                lemma_listed_push(old_lines[l]@, n, on_line(vis, l));
                assert forall|t: int| 0 <= t <= n implies (listed(self.visited_turns_per_line@[l]@, t)
                    <==> on_line(#[trigger] recs[t].visited@, l)) by {
                    if t < n {
                        assert(recs[t] == old_recs[t]);
                        assert(listed(old_lines[l]@, t) <==> on_line(old_recs[t].visited@, l));
                    }
                }
            }
            assert forall|e: int| 0 <= e < NUM_EDGES implies {
                &&& sorted_below(#[trigger] self.visited_turns_per_edge@[e]@, n + 1)
                &&& forall|t: int|
                    0 <= t <= n ==> (listed(self.visited_turns_per_edge@[e]@, t) <==> edge_count(
                        #[trigger] recs[t].visited@,
                        e,
                    ) > 0)
            } by {
                lemma_listed_push(old_edges[e]@, n, edge_count(vis, e) > 0);
                assert forall|t: int| 0 <= t <= n implies (listed(self.visited_turns_per_edge@[e]@, t)
                    <==> edge_count(#[trigger] recs[t].visited@, e) > 0) by {
                    if t < n {
                        assert(recs[t] == old_recs[t]);
                        assert(listed(old_edges[e]@, t) <==> edge_count(old_recs[t].visited@, e) > 0);
                    }
                }
            }
            assert forall|t: int| 0 <= t <= n implies #[trigger] self.total_costs@[t] == path_cost(
                base,
                delta,
                mid,
                recs[t].visited@,
            ) by {
                if t < n {
                    assert(recs[t] == old_recs[t]);
                }
            }
            assert forall|t: int, k: int|
                0 <= t <= n && 0 <= k < 2 * NUM_LINES implies #[trigger] self.visit_counts@[t]@[k]
                == seg_count(mid, recs[t].visited@, k / 2, k % 2) by {
                if t < n {
                    assert(recs[t] == old_recs[t]);
                }
            }
            assert forall|t: int| 0 <= t <= n implies GraphEstimator::record_ok(#[trigger] recs[t]) by {
                if t < n {
                    assert(recs[t] == old_recs[t]);
                }
            }
            assert(self.wf());
        }
    }

    /// The move keeps its parameter within its domain.
    pub open spec fn in_domain(&self, mv: Move) -> bool {
        match mv {
            Move::ShiftBase { line, seg, up } => {
                let v = self.base()[base_slot(line as int, seg as int)] + signed_step(up);
                LINE_COST_LB <= v <= LINE_COST_UB
            },
            Move::SlideSplit { line, up } => {
                let m = self.mid()[line as int] + if up {
                    1int
                } else {
                    -1
                };
                1 <= m && m + 2 <= GRID_LEN
            },
            Move::BumpDelta { edge, up } => {
                let v = self.delta()[edge as int] + signed_step(up);
                EDGE_COST_LB <= v <= EDGE_COST_UB
            },
        }
    }

    /// Bases after the move.
    pub open spec fn moved_base(&self, mv: Move) -> Seq<u32> {
        match mv {
            Move::ShiftBase { line, seg, up } => {
                let k = base_slot(line as int, seg as int);
                self.base().update(k, (self.base()[k] + signed_step(up)) as u32)
            },
            _ => self.base(),
        }
    }

    /// Perturbations after the move.
    pub open spec fn moved_delta(&self, mv: Move) -> Seq<i32> {
        match mv {
            Move::BumpDelta { edge, up } => self.delta().update(
                edge as int,
                (self.delta()[edge as int] + signed_step(up)) as i32,
            ),
            _ => self.delta(),
        }
    }

    /// Split points after the move.
    pub open spec fn moved_mid(&self, mv: Move) -> Seq<u8> {
        match mv {
            Move::SlideSplit { line, up } => self.mid().update(
                line as int,
                (self.mid()[line as int] + if up {
                    1int
                } else {
                    -1
                }) as u8,
            ),
            _ => self.mid(),
        }
    }

    /// Some past round would see its predicted cost change (taken to hold of every split move).
    pub open spec fn affects(&self, mv: Move) -> bool {
        let recs = self.spec_records();
        match mv {
            Move::ShiftBase { line, seg, .. } => exists|t: int|
                0 <= t < recs.len() && seg_count(self.mid(), #[trigger] recs[t].visited@, line as int, seg as int)
                    > 0,
            Move::SlideSplit { .. } => true,
            Move::BumpDelta { edge, .. } => exists|t: int|
                0 <= t < recs.len() && edge_count(#[trigger] recs[t].visited@, edge as int) > 0,
        }
    }

    /// The loss after the move, recomputed from scratch.
    pub open spec fn moved_loss(&self, mv: Move) -> int {
        scratch_loss(self.moved_base(mv), self.moved_delta(mv), self.moved_mid(mv), self.spec_records())
    }

    /// Change of one squared residual when a path's predicted cost goes from
    /// `cur_total` to `new_total`.
    fn residual_change(cur_total: i64, new_total: i64, response: u32) -> (d: i128)
        requires
            0 <= cur_total < 0x100_0000,
            0 <= new_total < 0x100_0000,
        ensures
            d == sq(new_total - response) - sq(cur_total - response),
            -max_sq_residual() <= d <= max_sq_residual(),
    {
        proof {
            lemma_sq_residual_bounds(cur_total as int, response as int);
            lemma_sq_residual_bounds(new_total as int, response as int);
        }
        let a = new_total as i128 - response as i128;
        let b = cur_total as i128 - response as i128;
        a * a - b * b
    }

    /// Number of occurrences of edge number `edge_id` in `es`.
    fn count_edge(es: &Vec<EdgeIndex>, edge_id: usize) -> (c: u32)
        requires
            es@.len() < NUM_CELLS,
            all_wf(es@),
        ensures
            c == edge_count(es@, edge_id as int),
    {
        let mut c: u32 = 0;
        let mut i: usize = 0;
        assert(es@.take(0) =~= Seq::<EdgeIndex>::empty());
        while i < es.len()
            invariant
                i <= es@.len(),
                es@.len() < NUM_CELLS,
                all_wf(es@),
                c == edge_count(es@.take(i as int), edge_id as int),
                c <= i,
            decreases es@.len() - i,
        {
            assert(es@.take(i as int + 1).drop_last() =~= es@.take(i as int));
            assert(es@[i as int].wf());
            if es[i].id() == edge_id {
                c = c + 1;
            }
            i += 1;
        }
        assert(es@.take(i as int) =~= es@);
        c
    }

    /// A move within the domain leaves the parameters within theirs.
    proof fn lemma_moved_params_ok(&self, mv: Move)
        requires
            self.wf(),
            mv.wf(),
            self.in_domain(mv),
        ensures
            params_ok(self.moved_base(mv), self.moved_delta(mv), self.moved_mid(mv)),
    {
        let base = self.base();
        let delta = self.delta();
        match mv {
            Move::ShiftBase { line, seg, up } => {
                let k = base_slot(line as int, seg as int);
                let nb = self.moved_base(mv);
                assert forall|i: int| 0 <= i < 2 * NUM_LINES implies LINE_COST_LB <= #[trigger] nb[i]
                    <= LINE_COST_UB && nb[i] % STEP == 0 by {
                    if i == k {
                        assert(base[k] % STEP == 0);
                    }
                }
            },
            Move::SlideSplit { .. } => {},
            Move::BumpDelta { edge, up } => {
                let nd = self.moved_delta(mv);
                assert forall|i: int| 0 <= i < NUM_EDGES implies EDGE_COST_LB <= #[trigger] nd[i]
                    <= EDGE_COST_UB && nd[i] % (STEP as i32) == 0 by {
                    if i == edge {
                        assert(delta[i] % (STEP as i32) == 0);
                    }
                }
            },
        }
    }

    fn evaluate_shift(&self, line: usize, seg: usize, up: bool) -> (r: Option<i128>)
        requires
            self.wf(),
            line < NUM_LINES,
            seg < 2,
        ensures
            ({
                let mv = Move::ShiftBase { line, seg, up };
                &&& r is Some <==> self.in_domain(mv) && self.affects(mv)
                &&& r matches Some(d) ==> d == self.moved_loss(mv) - self.spec_loss()
            }),
    {
        let mv = Move::ShiftBase { line, seg, up };
        let slot = 2 * line + seg;
        let cur = self.line_costs[slot] as i64;
        let next: i64 = if up {
            cur + STEP as i64
        } else {
            cur - STEP as i64
        };
        if next < LINE_COST_LB as i64 || next > LINE_COST_UB as i64 {
            return None;
        }
        let ghost recs = self.records@;
        let ghost n = recs.len() as int;
        let ghost base = self.line_costs@;
        let ghost delta = self.edge_costs@;
        let ghost mid = self.mid_x@;
        let ghost nb = self.moved_base(mv);
        let ghost k = signed_step(up);
        proof {
            self.lemma_moved_params_ok(mv);
        }
        let ghost f = residuals(base, delta, mid, record_visited(recs), record_response(recs));
        let ghost g = residuals(nb, delta, mid, record_visited(recs), record_response(recs));
        let turns = &self.visited_turns_per_line[line];
        let ghost ts = turns@;
        assert(sorted_below(ts, n));
        proof {
            lemma_sorted_len(ts, n);
        }
        let mut loss_diff: i128 = 0;
        let mut updated = false;
        let mut i: usize = 0;
        assert(ts.take(0) =~= Seq::<usize>::empty());
        while i < turns.len()
            invariant
                self.wf(),
                i <= ts.len(),
                ts == turns@,
                ts == self.visited_turns_per_line@[line as int]@,
                sorted_below(ts, n),
                ts.len() <= n,
                n == self.records@.len(),
                recs == self.records@,
                base == self.line_costs@,
                delta == self.edge_costs@,
                mid == self.mid_x@,
                slot == 2 * line + seg,
                line < NUM_LINES,
                seg < 2,
                n <= MAX_RECORDS,
                params_ok(nb, delta, mid),
                nb == base.update(slot as int, (base[slot as int] + k) as u32),
                nb[slot as int] == base[slot as int] + k,
                k == signed_step(up),
                f == residuals(base, delta, mid, record_visited(recs), record_response(recs)),
                g == residuals(nb, delta, mid, record_visited(recs), record_response(recs)),
                loss_diff == list_sum(diff_fn(f, g), ts.take(i as int)),
                -(i as int) * max_sq_residual() <= loss_diff <= i as int * max_sq_residual(),
                updated <==> exists|j: int|
                    0 <= j < i && seg_count(mid, #[trigger] recs[ts[j] as int].visited@, line as int, seg as int)
                        > 0,
            decreases ts.len() - i,
        {
            let t = turns[i];
            let ghost vis = recs[t as int].visited@;
            assert(GraphEstimator::record_ok(recs[t as int]));
            proof {
                lemma_shift_base(base, nb, delta, mid, vis, line as int, seg as int, k);
                lemma_path_cost_bounds(nb, delta, mid, vis);
                lemma_path_cost_bounds(base, delta, mid, vis);
                lemma_seg_count_bounds(mid, vis, line as int, seg as int);
            }
            assert(ts.take(i as int + 1).drop_last() =~= ts.take(i as int));
            let count = self.visit_counts[t][slot];
            assert(slot as int / 2 == line && slot as int % 2 == seg);
            assert(count == seg_count(mid, vis, line as int, seg as int));
            if count == 0 {
                assert(f(t as int) == g(t as int));
            } else {
                let cur_total = self.total_costs[t] as i64;
                let new_total: i64 = if up {
                    cur_total + STEP as i64 * count as i64
                } else {
                    cur_total - STEP as i64 * count as i64
                };
                assert(new_total == path_cost(nb, delta, mid, vis));
                let change = GraphEstimator::residual_change(
                    cur_total,
                    new_total,
                    self.records[t].response,
                );
                assert(change == g(t as int) - f(t as int));
                assert(i < MAX_RECORDS);
                assert((i + 1) as int * max_sq_residual() <= MAX_RECORDS as int * max_sq_residual()) by (nonlinear_arith)
                    requires
                        i < MAX_RECORDS,
                        max_sq_residual() > 0,
                ;
                loss_diff = loss_diff + change;
                updated = true;
            }
            assert(i as int * max_sq_residual() + max_sq_residual() == (i + 1) as int * max_sq_residual());
            i += 1;
        }
        assert(ts.take(i as int) =~= ts);
        proof {
            assert forall|t: int| 0 <= t < n && !listed(ts, t) implies #[trigger] f(t) == g(t) by {
                let vis = recs[t].visited@;
                assert(GraphEstimator::record_ok(recs[t]));
                assert(listed(self.visited_turns_per_line@[line as int]@, t) <==> on_line(recs[t].visited@, line as int));
                lemma_counted_on_line(mid, vis, line as int, seg as int, 0);
                lemma_seg_count_bounds(mid, vis, line as int, seg as int);
                assert(!on_line(vis, line as int));
                assert(seg_count(mid, vis, line as int, seg as int) == 0);
                lemma_shift_base(base, nb, delta, mid, vis, line as int, seg as int, k);
                assert(path_cost(nb, delta, mid, vis) == path_cost(base, delta, mid, vis));
            }
            lemma_sum_over_list(f, g, ts, n);
            if self.affects(mv) {
                let t = choose|t: int|
                    0 <= t < n && seg_count(mid, #[trigger] recs[t].visited@, line as int, seg as int) > 0;
                assert(GraphEstimator::record_ok(recs[t]));
                lemma_counted_on_line(mid, recs[t].visited@, line as int, seg as int, 0);
                assert(listed(self.visited_turns_per_line@[line as int]@, t) <==> on_line(recs[t].visited@, line as int));
                let j = choose|j: int| 0 <= j < ts.len() && ts[j] as int == t;
                assert(seg_count(mid, recs[ts[j] as int].visited@, line as int, seg as int) > 0);
            }
        }
        assert(loss_diff == range_sum(g, n) - range_sum(f, n));
        assert(self.moved_loss(mv) == range_sum(g, n));
        assert(self.spec_loss() == range_sum(f, n));
        if !updated {
            return None;
        }
        Some(loss_diff)
    }

    fn apply_shift(&mut self, line: usize, seg: usize, up: bool, loss_diff: i128)
        requires
            old(self).wf(),
            line < NUM_LINES,
            seg < 2,
            old(self).in_domain(Move::ShiftBase { line, seg, up }),
            loss_diff == old(self).moved_loss(Move::ShiftBase { line, seg, up }) - old(self).spec_loss(),
        ensures
            final(self).wf(),
            final(self).base() == old(self).moved_base(Move::ShiftBase { line, seg, up }),
            final(self).delta() == old(self).delta(),
            final(self).mid() == old(self).mid(),
            final(self).spec_records() == old(self).spec_records(),
            final(self).spec_loss() == old(self).spec_loss() + loss_diff,
            final(self).budget() == old(self).budget(),
            forall|l: int| #[trigger] final(self).line_turns(l) == old(self).line_turns(l),
            forall|e: int| #[trigger] final(self).edge_turns(e) == old(self).edge_turns(e),
    {
        let ghost mv = Move::ShiftBase { line, seg, up };
        let ghost recs = self.records@;
        let ghost n = recs.len() as int;
        let ghost base = self.line_costs@;
        let ghost delta = self.edge_costs@;
        let ghost mid = self.mid_x@;
        let ghost nb = self.moved_base(mv);
        let ghost k = signed_step(up);
        let ghost old_totals = self.total_costs@;
        proof {
            self.lemma_moved_params_ok(mv);
            GraphEstimator::lemma_loss_bounds(nb, delta, mid, recs);
        }
        let slot = 2 * line + seg;
        let cur = self.line_costs[slot];
        let next: u32 = if up {
            cur + STEP
        } else {
            cur - STEP
        };
        self.line_costs.set(slot, next);
        assert(self.line_costs@ =~= nb);
        let ghost ts = self.visited_turns_per_line@[line as int]@;
        assert(sorted_below(ts, n));
        let mut i: usize = 0;
        while i < self.visited_turns_per_line[line].len()
            invariant
                old(self).wf(),
                i <= ts.len(),
                ts == self.visited_turns_per_line@[line as int]@,
                sorted_below(ts, n),
                n == self.records@.len(),
                recs == self.records@,
                recs == old(self).records@,
                self.line_costs@ == nb,
                base == old(self).line_costs@,
                delta == self.edge_costs@,
                delta == old(self).edge_costs@,
                mid == self.mid_x@,
                mid == old(self).mid_x@,
                self.visit_counts == old(self).visit_counts,
                self.visited_turns_per_line == old(self).visited_turns_per_line,
                self.visited_turns_per_edge == old(self).visited_turns_per_edge,
                self.loss == old(self).loss,
                self.refit_budget_nanos == old(self).refit_budget_nanos,
                old_totals == old(self).total_costs@,
                self.total_costs@.len() == n,
                slot == 2 * line + seg,
                line < NUM_LINES,
                seg < 2,
                params_ok(nb, delta, mid),
                nb == base.update(slot as int, (base[slot as int] + k) as u32),
                nb[slot as int] == base[slot as int] + k,
                k == signed_step(up),
                forall|t: int|
                    0 <= t < n ==> #[trigger] self.total_costs@[t] == if listed(ts.take(i as int), t) {
                        path_cost(nb, delta, mid, recs[t].visited@)
                    } else {
                        path_cost(base, delta, mid, recs[t].visited@)
                    },
            decreases ts.len() - i,
        {
            let t = self.visited_turns_per_line[line][i];
            let ghost vis = recs[t as int].visited@;
            assert(GraphEstimator::record_ok(recs[t as int]));
            proof {
                lemma_shift_base(base, nb, delta, mid, vis, line as int, seg as int, k);
                lemma_path_cost_bounds(nb, delta, mid, vis);
                lemma_seg_count_bounds(mid, vis, line as int, seg as int);
            }
            let count = self.visit_counts[t][slot];
            assert(slot as int / 2 == line && slot as int % 2 == seg);
            assert(count == seg_count(mid, vis, line as int, seg as int));
            let cur_total = self.total_costs[t];
            assert(cur_total == path_cost(base, delta, mid, vis)) by {
                assert(!listed(ts.take(i as int), t as int)) by {
                    let pre = ts.take(i as int);
                    if listed(pre, t as int) {
                        let j = choose|j: int| 0 <= j < pre.len() && pre[j] as int == t as int;
                        assert(ts[j] < ts[i as int]);
                    }
                }
            }
            let new_total: u32 = if up {
                cur_total + STEP * count
            } else {
                cur_total - STEP * count
            };
            self.total_costs.set(t, new_total);
            proof {
                let pre = ts.take(i as int);
                let nxt = ts.take(i as int + 1);
                assert forall|u: int| 0 <= u < n implies listed(nxt, u) == (listed(pre, u) || u == t as int) by {
                    if listed(pre, u) {
                        let j = choose|j: int| 0 <= j < pre.len() && pre[j] as int == u;
                        assert(nxt[j] == pre[j]);
                    }
                    if u == t as int {
                        assert(nxt[i as int] == t);
                    }
                    if listed(nxt, u) {
                        let j = choose|j: int| 0 <= j < nxt.len() && nxt[j] as int == u;
                        if j < i {
                            assert(pre[j] == nxt[j]);
                        }
                    }
                }
            }
            i += 1;
        }
        assert(ts.take(i as int) =~= ts);
        self.loss = self.loss + loss_diff;
        proof {
            assert forall|t: int| 0 <= t < n implies #[trigger] self.total_costs@[t] == path_cost(
                nb,
                delta,
                mid,
                recs[t].visited@,
            ) by {
                let vis = recs[t].visited@;
                assert(old(self).total_costs@[t] == path_cost(base, delta, mid, vis));
                if !listed(ts, t) {
                    assert(GraphEstimator::record_ok(recs[t]));
                    assert(listed(old(self).visited_turns_per_line@[line as int]@, t) <==> on_line(
                        recs[t].visited@,
                        line as int,
                    ));
                    lemma_counted_on_line(mid, vis, line as int, seg as int, 0);
                    lemma_seg_count_bounds(mid, vis, line as int, seg as int);
                    lemma_shift_base(base, nb, delta, mid, vis, line as int, seg as int, k);
                }
            }
            assert(self.wf());
        }
    }

    fn evaluate_bump(&self, edge: usize, up: bool) -> (r: Option<i128>)
        requires
            self.wf(),
            edge < NUM_EDGES,
        ensures
            ({
                let mv = Move::BumpDelta { edge, up };
                &&& r is Some <==> self.in_domain(mv) && self.affects(mv)
                &&& r matches Some(d) ==> d == self.moved_loss(mv) - self.spec_loss()
            }),
    {
        let mv = Move::BumpDelta { edge, up };
        let cur = self.edge_costs[edge] as i64;
        let next: i64 = if up {
            cur + STEP as i64
        } else {
            cur - STEP as i64
        };
        if next < EDGE_COST_LB as i64 || next > EDGE_COST_UB as i64 {
            return None;
        }
        let ghost recs = self.records@;
        let ghost n = recs.len() as int;
        let ghost base = self.line_costs@;
        let ghost delta = self.edge_costs@;
        let ghost mid = self.mid_x@;
        let ghost nd = self.moved_delta(mv);
        let ghost k = signed_step(up);
        proof {
            self.lemma_moved_params_ok(mv);
        }
        let ghost f = residuals(base, delta, mid, record_visited(recs), record_response(recs));
        let ghost g = residuals(base, nd, mid, record_visited(recs), record_response(recs));
        let turns = &self.visited_turns_per_edge[edge];
        let ghost ts = turns@;
        assert(sorted_below(ts, n));
        proof {
            lemma_sorted_len(ts, n);
        }
        let mut loss_diff: i128 = 0;
        let mut i: usize = 0;
        assert(ts.take(0) =~= Seq::<usize>::empty());
        while i < turns.len()
            invariant
                self.wf(),
                i <= ts.len(),
                ts == turns@,
                ts == self.visited_turns_per_edge@[edge as int]@,
                sorted_below(ts, n),
                ts.len() <= n,
                n == self.records@.len(),
                recs == self.records@,
                base == self.line_costs@,
                delta == self.edge_costs@,
                mid == self.mid_x@,
                edge < NUM_EDGES,
                n <= MAX_RECORDS,
                params_ok(base, nd, mid),
                nd == delta.update(edge as int, (delta[edge as int] + k) as i32),
                nd[edge as int] == delta[edge as int] + k,
                k == signed_step(up),
                f == residuals(base, delta, mid, record_visited(recs), record_response(recs)),
                g == residuals(base, nd, mid, record_visited(recs), record_response(recs)),
                loss_diff == list_sum(diff_fn(f, g), ts.take(i as int)),
                -(i as int) * max_sq_residual() <= loss_diff <= i as int * max_sq_residual(),
            decreases ts.len() - i,
        {
            let t = turns[i];
            let ghost vis = recs[t as int].visited@;
            assert(GraphEstimator::record_ok(recs[t as int]));
            proof {
                lemma_bump_delta(base, delta, nd, mid, vis, edge as int, k);
                lemma_path_cost_bounds(base, nd, mid, vis);
                lemma_path_cost_bounds(base, delta, mid, vis);
                lemma_edge_count_bounds(vis, edge as int);
            }
            assert(ts.take(i as int + 1).drop_last() =~= ts.take(i as int));
            let count = GraphEstimator::count_edge(&self.records[t].visited, edge);
            let cur_total = self.total_costs[t] as i64;
            let new_total: i64 = if up {
                cur_total + STEP as i64 * count as i64
            } else {
                cur_total - STEP as i64 * count as i64
            };
            assert(new_total == path_cost(base, nd, mid, vis));
            let change = GraphEstimator::residual_change(cur_total, new_total, self.records[t].response);
            assert(change == g(t as int) - f(t as int));
            assert((i + 1) as int * max_sq_residual() <= MAX_RECORDS as int * max_sq_residual()) by (nonlinear_arith)
                requires
                    i < MAX_RECORDS,
                    max_sq_residual() > 0,
            ;
            loss_diff = loss_diff + change;
            assert(i as int * max_sq_residual() + max_sq_residual() == (i + 1) as int * max_sq_residual());
            i += 1;
        }
        assert(ts.take(i as int) =~= ts);
        proof {
            assert forall|t: int| 0 <= t < n && !listed(ts, t) implies #[trigger] f(t) == g(t) by {
                let vis = recs[t].visited@;
                assert(GraphEstimator::record_ok(recs[t]));
                assert(listed(self.visited_turns_per_edge@[edge as int]@, t) <==> edge_count(recs[t].visited@, edge as int) > 0);
                lemma_edge_count_bounds(vis, edge as int);
                lemma_bump_delta(base, delta, nd, mid, vis, edge as int, k);
            }
            lemma_sum_over_list(f, g, ts, n);
            if self.affects(mv) {
                let t = choose|t: int| 0 <= t < n && edge_count(#[trigger] recs[t].visited@, edge as int) > 0;
                assert(listed(self.visited_turns_per_edge@[edge as int]@, t) <==> edge_count(recs[t].visited@, edge as int) > 0);
            }
            if ts.len() > 0 {
                let t = ts[0] as int;
                assert(listed(ts, t));
                assert(listed(self.visited_turns_per_edge@[edge as int]@, t) <==> edge_count(recs[t].visited@, edge as int) > 0);
            }
        }
        assert(loss_diff == range_sum(g, n) - range_sum(f, n));
        assert(self.moved_loss(mv) == range_sum(g, n));
        assert(self.spec_loss() == range_sum(f, n));
        assert(self.affects(mv) <==> ts.len() > 0);
        if i == 0 {
            return None;
        }
        Some(loss_diff)
    }

    fn apply_bump(&mut self, edge: usize, up: bool, loss_diff: i128)
        requires
            old(self).wf(),
            edge < NUM_EDGES,
            old(self).in_domain(Move::BumpDelta { edge, up }),
            loss_diff == old(self).moved_loss(Move::BumpDelta { edge, up }) - old(self).spec_loss(),
        ensures
            final(self).wf(),
            final(self).base() == old(self).base(),
            final(self).delta() == old(self).moved_delta(Move::BumpDelta { edge, up }),
            final(self).mid() == old(self).mid(),
            final(self).spec_records() == old(self).spec_records(),
            final(self).spec_loss() == old(self).spec_loss() + loss_diff,
            final(self).budget() == old(self).budget(),
            forall|l: int| #[trigger] final(self).line_turns(l) == old(self).line_turns(l),
            forall|e: int| #[trigger] final(self).edge_turns(e) == old(self).edge_turns(e),
    {
        let ghost mv = Move::BumpDelta { edge, up };
        let ghost recs = self.records@;
        let ghost n = recs.len() as int;
        let ghost base = self.line_costs@;
        let ghost delta = self.edge_costs@;
        let ghost mid = self.mid_x@;
        let ghost nd = self.moved_delta(mv);
        let ghost k = signed_step(up);
        let ghost old_totals = self.total_costs@;
        proof {
            self.lemma_moved_params_ok(mv);
            GraphEstimator::lemma_loss_bounds(base, nd, mid, recs);
        }
        let cur = self.edge_costs[edge];
        let next: i32 = if up {
            cur + STEP as i32
        } else {
            cur - STEP as i32
        };
        self.edge_costs.set(edge, next);
        assert(self.edge_costs@ =~= nd);
        let ghost ts = self.visited_turns_per_edge@[edge as int]@;
        assert(sorted_below(ts, n));
        let mut i: usize = 0;
        while i < self.visited_turns_per_edge[edge].len()
            invariant
                old(self).wf(),
                i <= ts.len(),
                ts == self.visited_turns_per_edge@[edge as int]@,
                sorted_below(ts, n),
                n == self.records@.len(),
                recs == self.records@,
                recs == old(self).records@,
                self.edge_costs@ == nd,
                base == self.line_costs@,
                base == old(self).line_costs@,
                delta == old(self).edge_costs@,
                mid == self.mid_x@,
                mid == old(self).mid_x@,
                self.visit_counts == old(self).visit_counts,
                self.visited_turns_per_line == old(self).visited_turns_per_line,
                self.visited_turns_per_edge == old(self).visited_turns_per_edge,
                self.loss == old(self).loss,
                self.refit_budget_nanos == old(self).refit_budget_nanos,
                old_totals == old(self).total_costs@,
                self.total_costs@.len() == n,
                edge < NUM_EDGES,
                params_ok(base, nd, mid),
                nd == delta.update(edge as int, (delta[edge as int] + k) as i32),
                nd[edge as int] == delta[edge as int] + k,
                k == signed_step(up),
                forall|t: int|
                    0 <= t < n ==> #[trigger] self.total_costs@[t] == if listed(ts.take(i as int), t) {
                        path_cost(base, nd, mid, recs[t].visited@)
                    } else {
                        path_cost(base, delta, mid, recs[t].visited@)
                    },
            decreases ts.len() - i,
        {
            let t = self.visited_turns_per_edge[edge][i];
            let ghost vis = recs[t as int].visited@;
            assert(GraphEstimator::record_ok(recs[t as int]));
            proof {
                lemma_bump_delta(base, delta, nd, mid, vis, edge as int, k);
                lemma_path_cost_bounds(base, nd, mid, vis);
                lemma_edge_count_bounds(vis, edge as int);
            }
            let count = GraphEstimator::count_edge(&self.records[t].visited, edge);
            let cur_total = self.total_costs[t];
            assert(cur_total == path_cost(base, delta, mid, vis)) by {
                let pre = ts.take(i as int);
                if listed(pre, t as int) {
                    let j = choose|j: int| 0 <= j < pre.len() && pre[j] as int == t as int;
                    assert(ts[j] < ts[i as int]);
                }
            }
            let new_total: u32 = if up {
                cur_total + STEP * count
            } else {
                cur_total - STEP * count
            };
            self.total_costs.set(t, new_total);
            proof {
                let pre = ts.take(i as int);
                let nxt = ts.take(i as int + 1);
                assert forall|u: int| 0 <= u < n implies listed(nxt, u) == (listed(pre, u) || u == t as int) by {
                    if listed(pre, u) {
                        let j = choose|j: int| 0 <= j < pre.len() && pre[j] as int == u;
                        assert(nxt[j] == pre[j]);
                    }
                    if u == t as int {
                        assert(nxt[i as int] == t);
                    }
                    if listed(nxt, u) {
                        let j = choose|j: int| 0 <= j < nxt.len() && nxt[j] as int == u;
                        if j < i {
                            assert(pre[j] == nxt[j]);
                        }
                    }
                }
            }
            i += 1;
        }
        assert(ts.take(i as int) =~= ts);
        self.loss = self.loss + loss_diff;
        proof {
            assert forall|t: int| 0 <= t < n implies #[trigger] self.total_costs@[t] == path_cost(
                base,
                nd,
                mid,
                recs[t].visited@,
            ) by {
                let vis = recs[t].visited@;
                assert(old(self).total_costs@[t] == path_cost(base, delta, mid, vis));
                if !listed(ts, t) {
                    assert(GraphEstimator::record_ok(recs[t]));
                    assert(listed(old(self).visited_turns_per_edge@[edge as int]@, t) <==> edge_count(
                        recs[t].visited@,
                        edge as int,
                    ) > 0);
                    lemma_edge_count_bounds(vis, edge as int);
                    lemma_bump_delta(base, delta, nd, mid, vis, edge as int, k);
                }
            }
            assert(self.wf());
        }
    }

    /// For a split move within the domain: the edge that changes segment,
    /// the segment it leaves, and the new split point.
    fn slide_pivot(&self, line: usize, up: bool) -> (r: (u8, usize, u8))
        requires
            self.wf(),
            line < NUM_LINES,
            self.in_domain(Move::SlideSplit { line, up }),
        ensures
            ({
                let (pivot, old_seg, next) = r;
                let mid = self.mid();
                let mid2 = self.moved_mid(Move::SlideSplit { line, up });
                &&& next == mid2[line as int]
                &&& (pivot as int) < EDGES_PER_LINE
                &&& old_seg < 2
                &&& (mid2[line as int] == mid[line as int] + 1 && pivot == mid[line as int] && old_seg == 1)
                    || (mid2[line as int] + 1 == mid[line as int] && pivot == mid2[line as int] && old_seg
                    == 0)
            }),
    {
        let cur = self.mid_x[line];
        if up {
            (cur, 1, cur + 1)
        } else {
            (cur - 1, 0, cur - 1)
        }
    }

    fn evaluate_slide(&self, line: usize, up: bool) -> (r: Option<i128>)
        requires
            self.wf(),
            line < NUM_LINES,
        ensures
            ({
                let mv = Move::SlideSplit { line, up };
                &&& r is Some <==> self.in_domain(mv) && self.affects(mv)
                &&& r matches Some(d) ==> d == self.moved_loss(mv) - self.spec_loss()
            }),
    {
        let mv = Move::SlideSplit { line, up };
        let cur_mid = self.mid_x[line];
        if (!up && cur_mid <= 1) || (up && cur_mid as usize + 3 > GRID_LEN) {
            return None;
        }
        let (pivot, old_seg, _next) = self.slide_pivot(line, up);
        let new_seg: usize = 1 - old_seg;
        let edge = line * EDGES_PER_LINE + pivot as usize;
        let cost_diff: i64 = self.line_costs[2 * line + new_seg] as i64 - self.line_costs[2 * line
            + old_seg] as i64;
        let ghost recs = self.records@;
        let ghost n = recs.len() as int;
        let ghost base = self.line_costs@;
        let ghost delta = self.edge_costs@;
        let ghost mid = self.mid_x@;
        let ghost nm = self.moved_mid(mv);
        proof {
            self.lemma_moved_params_ok(mv);
        }
        let ghost f = residuals(base, delta, mid, record_visited(recs), record_response(recs));
        let ghost g = residuals(base, delta, nm, record_visited(recs), record_response(recs));
        let turns = &self.visited_turns_per_line[line];
        let ghost ts = turns@;
        assert(sorted_below(ts, n));
        proof {
            lemma_sorted_len(ts, n);
        }
        let mut loss_diff: i128 = 0;
        let mut i: usize = 0;
        assert(ts.take(0) =~= Seq::<usize>::empty());
        while i < turns.len()
            invariant
                self.wf(),
                i <= ts.len(),
                ts == turns@,
                ts == self.visited_turns_per_line@[line as int]@,
                sorted_below(ts, n),
                ts.len() <= n,
                n == self.records@.len(),
                recs == self.records@,
                base == self.line_costs@,
                delta == self.edge_costs@,
                mid == self.mid_x@,
                line < NUM_LINES,
                (pivot as int) < EDGES_PER_LINE,
                old_seg < 2,
                new_seg == 1 - old_seg,
                edge == line * EDGES_PER_LINE + pivot,
                cost_diff == base[2 * line + new_seg] - base[2 * line + old_seg],
                (nm[line as int] == mid[line as int] + 1 && pivot == mid[line as int] && old_seg == 1) || (
                nm[line as int] + 1 == mid[line as int] && pivot == nm[line as int] && old_seg == 0),
                nm.len() == NUM_LINES,
                forall|j: int| 0 <= j < NUM_LINES && j != line ==> nm[j] == mid[j],
                n <= MAX_RECORDS,
                params_ok(base, delta, nm),
                f == residuals(base, delta, mid, record_visited(recs), record_response(recs)),
                g == residuals(base, delta, nm, record_visited(recs), record_response(recs)),
                loss_diff == list_sum(diff_fn(f, g), ts.take(i as int)),
                -(i as int) * max_sq_residual() <= loss_diff <= i as int * max_sq_residual(),
            decreases ts.len() - i,
        {
            let t = turns[i];
            let ghost vis = recs[t as int].visited@;
            assert(GraphEstimator::record_ok(recs[t as int]));
            proof {
                lemma_slide_split(base, delta, mid, nm, vis, line as int, pivot as int, old_seg as int);
                lemma_path_cost_bounds(base, delta, nm, vis);
                lemma_path_cost_bounds(base, delta, mid, vis);
                lemma_edge_count_bounds(vis, edge as int);
            }
            assert(ts.take(i as int + 1).drop_last() =~= ts.take(i as int));
            let count = GraphEstimator::count_edge(&self.records[t].visited, edge);
            let cur_total = self.total_costs[t] as i64;
            assert(-8000 <= cost_diff <= 8000);
            assert(-8000 * 900 <= count as i64 * cost_diff <= 8000 * 900) by (nonlinear_arith)
                requires
                    0 <= count < 900,
                    -8000 <= cost_diff <= 8000,
            ;
            let new_total: i64 = cur_total + count as i64 * cost_diff;
            assert(new_total == path_cost(base, delta, nm, vis));
            let change = GraphEstimator::residual_change(cur_total, new_total, self.records[t].response);
            assert(change == g(t as int) - f(t as int));
            assert((i + 1) as int * max_sq_residual() <= MAX_RECORDS as int * max_sq_residual()) by (nonlinear_arith)
                requires
                    i < MAX_RECORDS,
                    max_sq_residual() > 0,
            ;
            loss_diff = loss_diff + change;
            assert(i as int * max_sq_residual() + max_sq_residual() == (i + 1) as int * max_sq_residual());
            i += 1;
        }
        assert(ts.take(i as int) =~= ts);
        proof {
            assert forall|t: int| 0 <= t < n && !listed(ts, t) implies #[trigger] f(t) == g(t) by {
                let vis = recs[t].visited@;
                assert(GraphEstimator::record_ok(recs[t]));
                assert(listed(self.visited_turns_per_line@[line as int]@, t) <==> on_line(recs[t].visited@, line as int));
                lemma_counted_on_line(mid, vis, line as int, 0, pivot as int);
                lemma_edge_count_bounds(vis, edge as int);
                assert(edge_count(vis, edge as int) == 0);
                lemma_slide_split(base, delta, mid, nm, vis, line as int, pivot as int, old_seg as int);
                assert(path_cost(base, delta, nm, vis) == path_cost(base, delta, mid, vis));
            }
            lemma_sum_over_list(f, g, ts, n);
        }
        assert(loss_diff == range_sum(g, n) - range_sum(f, n));
        assert(self.moved_loss(mv) == range_sum(g, n));
        Some(loss_diff)
    }

    fn apply_slide(&mut self, line: usize, up: bool, loss_diff: i128)
        requires
            old(self).wf(),
            line < NUM_LINES,
            old(self).in_domain(Move::SlideSplit { line, up }),
            loss_diff == old(self).moved_loss(Move::SlideSplit { line, up }) - old(self).spec_loss(),
        ensures
            final(self).wf(),
            final(self).base() == old(self).base(),
            final(self).delta() == old(self).delta(),
            final(self).mid() == old(self).moved_mid(Move::SlideSplit { line, up }),
            final(self).spec_records() == old(self).spec_records(),
            final(self).spec_loss() == old(self).spec_loss() + loss_diff,
            final(self).budget() == old(self).budget(),
            forall|l: int| #[trigger] final(self).line_turns(l) == old(self).line_turns(l),
            forall|e: int| #[trigger] final(self).edge_turns(e) == old(self).edge_turns(e),
    {
        let ghost mv = Move::SlideSplit { line, up };
        let ghost recs = self.records@;
        let ghost n = recs.len() as int;
        let ghost base = self.line_costs@;
        let ghost delta = self.edge_costs@;
        let ghost mid = self.mid_x@;
        let ghost nm = self.moved_mid(mv);
        proof {
            self.lemma_moved_params_ok(mv);
            GraphEstimator::lemma_loss_bounds(base, delta, nm, recs);
        }
        let (pivot, old_seg, next) = self.slide_pivot(line, up);
        let new_seg: usize = 1 - old_seg;
        let edge = line * EDGES_PER_LINE + pivot as usize;
        let cost_diff: i64 = self.line_costs[2 * line + new_seg] as i64 - self.line_costs[2 * line
            + old_seg] as i64;
        self.mid_x.set(line, next);
        assert(self.mid_x@ =~= nm);
        let ghost ts = self.visited_turns_per_line@[line as int]@;
        assert(sorted_below(ts, n));
        let mut i: usize = 0;
        while i < self.visited_turns_per_line[line].len()
            invariant
                old(self).wf(),
                i <= ts.len(),
                ts == self.visited_turns_per_line@[line as int]@,
                sorted_below(ts, n),
                n == self.records@.len(),
                recs == self.records@,
                recs == old(self).records@,
                self.mid_x@ == nm,
                base == self.line_costs@,
                base == old(self).line_costs@,
                delta == self.edge_costs@,
                delta == old(self).edge_costs@,
                mid == old(self).mid_x@,
                self.visited_turns_per_line == old(self).visited_turns_per_line,
                self.visited_turns_per_edge == old(self).visited_turns_per_edge,
                self.loss == old(self).loss,
                self.refit_budget_nanos == old(self).refit_budget_nanos,
                self.total_costs@.len() == n,
                self.visit_counts@.len() == n,
                line < NUM_LINES,
                (pivot as int) < EDGES_PER_LINE,
                old_seg < 2,
                new_seg == 1 - old_seg,
                edge == line * EDGES_PER_LINE + pivot,
                cost_diff == base[2 * line + new_seg] - base[2 * line + old_seg],
                (nm[line as int] == mid[line as int] + 1 && pivot == mid[line as int] && old_seg == 1) || (
                nm[line as int] + 1 == mid[line as int] && pivot == nm[line as int] && old_seg == 0),
                nm.len() == NUM_LINES,
                forall|j: int| 0 <= j < NUM_LINES && j != line ==> nm[j] == mid[j],
                params_ok(base, delta, nm),
                forall|t: int|
                    0 <= t < n ==> #[trigger] self.total_costs@[t] == if listed(ts.take(i as int), t) {
                        path_cost(base, delta, nm, recs[t].visited@)
                    } else {
                        path_cost(base, delta, mid, recs[t].visited@)
                    },
                forall|t: int| 0 <= t < n ==> (#[trigger] self.visit_counts@[t])@.len() == 2 * NUM_LINES,
                forall|t: int, k: int|
                    0 <= t < n && 0 <= k < 2 * NUM_LINES ==> #[trigger] self.visit_counts@[t]@[k] == if listed(
                        ts.take(i as int),
                        t,
                    ) {
                        seg_count(nm, recs[t].visited@, k / 2, k % 2)
                    } else {
                        seg_count(mid, recs[t].visited@, k / 2, k % 2)
                    },
            decreases ts.len() - i,
        {
            let t = self.visited_turns_per_line[line][i];
            let ghost vis = recs[t as int].visited@;
            assert(GraphEstimator::record_ok(recs[t as int]));
            proof {
                lemma_slide_split(base, delta, mid, nm, vis, line as int, pivot as int, old_seg as int);
                lemma_path_cost_bounds(base, delta, nm, vis);
                lemma_edge_count_bounds(vis, edge as int);
                lemma_seg_count_bounds(nm, vis, line as int, old_seg as int);
                lemma_seg_count_bounds(mid, vis, line as int, new_seg as int);
                lemma_seg_count_bounds(nm, vis, line as int, new_seg as int);
            }
            let ghost pre = ts.take(i as int);
            let ghost nxt = ts.take(i as int + 1);
            assert(!listed(pre, t as int)) by {
                if listed(pre, t as int) {
                    let j = choose|j: int| 0 <= j < pre.len() && pre[j] as int == t as int;
                    assert(ts[j] < ts[i as int]);
                }
            }
            let count = GraphEstimator::count_edge(&self.records[t].visited, edge);
            let cur_total = self.total_costs[t];
            assert(-8000 <= cost_diff <= 8000);
            assert(-8000 * 900 <= count as i64 * cost_diff <= 8000 * 900) by (nonlinear_arith)
                requires
                    0 <= count < 900,
                    -8000 <= cost_diff <= 8000,
            ;
            let new_total: i64 = cur_total as i64 + count as i64 * cost_diff;
            self.total_costs.set(t, new_total as u32);
            let old_slot = 2 * line + old_seg;
            let new_slot = 2 * line + new_seg;
            assert(old_slot as int / 2 == line && old_slot as int % 2 == old_seg);
            assert(new_slot as int / 2 == line && new_slot as int % 2 == new_seg);
            let old_count = self.visit_counts[t][old_slot];
            let new_count = self.visit_counts[t][new_slot];
            self.visit_counts[t][old_slot] = old_count - count;
            self.visit_counts[t][new_slot] = new_count + count;
            proof {
                assert forall|u: int| 0 <= u < n implies listed(nxt, u) == (listed(pre, u) || u == t as int) by {
                    if listed(pre, u) {
                        let j = choose|j: int| 0 <= j < pre.len() && pre[j] as int == u;
                        assert(nxt[j] == pre[j]);
                    }
                    if u == t as int {
                        assert(nxt[i as int] == t);
                    }
                    if listed(nxt, u) {
                        let j = choose|j: int| 0 <= j < nxt.len() && nxt[j] as int == u;
                        if j < i {
                            assert(pre[j] == nxt[j]);
                        }
                    }
                }
                assert forall|u: int, k: int|
                    0 <= u < n && 0 <= k < 2 * NUM_LINES implies #[trigger] self.visit_counts@[u]@[k] == if listed(
                        nxt,
                        u,
                    ) {
                        seg_count(nm, recs[u].visited@, k / 2, k % 2)
                    } else {
                        seg_count(mid, recs[u].visited@, k / 2, k % 2)
                    } by {
                    if u == t as int {
                        if k != old_slot && k != new_slot {
                            assert(k / 2 != line || (k % 2 != old_seg && k % 2 != new_seg));
                        }
                    }
                }
            }
            i += 1;
        }
        assert(ts.take(i as int) =~= ts);
        self.loss = self.loss + loss_diff;
        proof {
            assert forall|t: int| 0 <= t < n && !listed(ts, t) implies edge_count(
                #[trigger] recs[t].visited@,
                edge as int,
            ) == 0 by {
                let vis = recs[t].visited@;
                assert(GraphEstimator::record_ok(recs[t]));
                assert(listed(old(self).visited_turns_per_line@[line as int]@, t) <==> on_line(
                    recs[t].visited@,
                    line as int,
                ));
                lemma_counted_on_line(mid, vis, line as int, 0, pivot as int);
                lemma_edge_count_bounds(vis, edge as int);
            }
            assert forall|t: int| 0 <= t < n && !listed(ts, t) implies path_cost(base, delta, nm, #[trigger] recs[t].visited@)
                == path_cost(base, delta, mid, recs[t].visited@) by {
                let vis = recs[t].visited@;
                assert(GraphEstimator::record_ok(recs[t]));
                assert(edge_count(vis, edge as int) == 0);
                lemma_slide_split(base, delta, mid, nm, vis, line as int, pivot as int, old_seg as int);
            }
            assert forall|t: int, k: int| 0 <= t < n && !listed(ts, t) && 0 <= k < 2 * NUM_LINES implies #[trigger] seg_count(
                nm,
                recs[t].visited@,
                k / 2,
                k % 2,
            ) == seg_count(mid, recs[t].visited@, k / 2, k % 2) by {
                let vis = recs[t].visited@;
                assert(GraphEstimator::record_ok(recs[t]));
                assert(edge_count(vis, edge as int) == 0);
                lemma_slide_split(base, delta, mid, nm, vis, line as int, pivot as int, old_seg as int);
                if k / 2 == line {
                    if k % 2 != old_seg {
                        assert(k % 2 == 1 - old_seg);
                    }
                }
            }
            assert forall|t: int| 0 <= t < n implies #[trigger] self.total_costs@[t] == path_cost(
                base,
                delta,
                nm,
                recs[t].visited@,
            ) by {
                assert(old(self).total_costs@[t] == path_cost(base, delta, mid, recs[t].visited@));
            }
            assert forall|t: int, k: int|
                0 <= t < n && 0 <= k < 2 * NUM_LINES implies #[trigger] self.visit_counts@[t]@[k]
                == seg_count(nm, recs[t].visited@, k / 2, k % 2) by {}
            assert(self.wf());
        }
    }

    /// The change of loss that the move would bring, or `None` where the
    /// move leaves its domain or would change no past round's predicted cost.
    pub fn evaluate_move(&self, mv: Move) -> (r: Option<i128>)
        requires
            self.wf(),
            mv.wf(),
        ensures
            r is Some <==> self.in_domain(mv) && self.affects(mv),
            r matches Some(d) ==> d == self.moved_loss(mv) - self.spec_loss(),
    {
        match mv {
            Move::ShiftBase { line, seg, up } => self.evaluate_shift(line, seg, up),
            Move::SlideSplit { line, up } => self.evaluate_slide(line, up),
            Move::BumpDelta { edge, up } => self.evaluate_bump(edge, up),
        }
    }

    /// Applies a move whose change of loss `loss_diff` was evaluated on this state.
    pub fn apply_move(&mut self, mv: Move, loss_diff: i128)
        requires
            old(self).wf(),
            mv.wf(),
            old(self).in_domain(mv),
            loss_diff == old(self).moved_loss(mv) - old(self).spec_loss(),
        ensures
            final(self).wf(),
            final(self).base() == old(self).moved_base(mv),
            final(self).delta() == old(self).moved_delta(mv),
            final(self).mid() == old(self).moved_mid(mv),
            final(self).spec_records() == old(self).spec_records(),
            final(self).spec_loss() == old(self).spec_loss() + loss_diff,
            final(self).budget() == old(self).budget(),
            forall|l: int| #[trigger] final(self).line_turns(l) == old(self).line_turns(l),
            forall|e: int| #[trigger] final(self).edge_turns(e) == old(self).edge_turns(e),
    {
        match mv {
            Move::ShiftBase { line, seg, up } => self.apply_shift(line, seg, up, loss_diff),
            Move::SlideSplit { line, up } => self.apply_slide(line, up, loss_diff),
            Move::BumpDelta { edge, up } => self.apply_bump(edge, up, loss_diff),
        }
    }

    /// Simulated annealing within the refit budget: random moves, each
    /// applied when the Metropolis test at the current temperature accepts it.
    pub fn update_estimation(&mut self)
        requires
            old(self).wf(),
        ensures
            final(self).wf(),
            final(self).spec_records() == old(self).spec_records(),
            final(self).budget() == old(self).budget(),
            forall|l: int| #[trigger] final(self).line_turns(l) == old(self).line_turns(l),
            forall|e: int| #[trigger] final(self).edge_turns(e) == old(self).edge_turns(e),
            forall|k: int|
                0 <= k < 2 * NUM_LINES && old(self).line_turns(k / 2).len() == 0 ==> #[trigger] final(self).base()[k]
                    == old(self).base()[k],
            forall|e: int|
                0 <= e < NUM_EDGES && old(self).edge_turns(e).len() == 0 ==> #[trigger] final(self).delta()[e]
                    == old(self).delta()[e],
            old(self).spec_records().len() == 0 ==> final(self).spec_loss() == 0,
    {
        let start = clock_now();
        let budget = self.refit_budget_nanos;
        let mut loops: u64 = 0;
        while loops < MAX_REFIT_LOOPS
            invariant
                self.wf(),
                self.spec_records() == old(self).spec_records(),
                self.budget() == old(self).budget(),
                budget == self.refit_budget_nanos,
                forall|l: int| #[trigger] self.line_turns(l) == old(self).line_turns(l),
                forall|e: int| #[trigger] self.edge_turns(e) == old(self).edge_turns(e),
                forall|k: int|
                    0 <= k < 2 * NUM_LINES && old(self).line_turns(k / 2).len() == 0 ==> #[trigger] self.base()[k]
                        == old(self).base()[k],
                forall|e: int|
                    0 <= e < NUM_EDGES && old(self).edge_turns(e).len() == 0 ==> #[trigger] self.delta()[e]
                        == old(self).delta()[e],
            decreases MAX_REFIT_LOOPS - loops,
        {
            let elapsed = nanos_since(&start);
            if elapsed >= budget {
                break;
            }
            let temp = temperature(elapsed, budget);
            loops += 1;
            let mv = random_move();
            match self.evaluate_move(mv) {
                Some(loss_diff) => {
                    if boltzmann_accept(loss_diff, temp) {
                        proof {
                            self.lemma_affected_is_listed(mv);
                        }
                        self.apply_move(mv, loss_diff);
                    }
                },
                None => {},
            }
        }
    }

    /// A move that changes some round's cost has its line or edge listed.
    proof fn lemma_affected_is_listed(&self, mv: Move)
        requires
            self.wf(),
            mv.wf(),
            self.affects(mv),
        ensures
            mv matches Move::ShiftBase { line, .. } ==> self.line_turns(line as int).len() > 0,
            mv matches Move::BumpDelta { edge, .. } ==> self.edge_turns(edge as int).len() > 0,
    {
        let recs = self.records@;
        match mv {
            Move::ShiftBase { line, seg, .. } => {
                let t = choose|t: int|
                    0 <= t < recs.len() && seg_count(self.mid(), #[trigger] recs[t].visited@, line as int, seg as int) > 0;
                assert(GraphEstimator::record_ok(recs[t]));
                lemma_counted_on_line(self.mid_x@, recs[t].visited@, line as int, seg as int, 0);
                assert(listed(self.visited_turns_per_line@[line as int]@, t) <==> on_line(recs[t].visited@, line as int));
            },
            Move::BumpDelta { edge, .. } => {
                let t = choose|t: int| 0 <= t < recs.len() && edge_count(#[trigger] recs[t].visited@, edge as int) > 0;
                assert(listed(self.visited_turns_per_edge@[edge as int]@, t) <==> edge_count(recs[t].visited@, edge as int) > 0);
            },
            Move::SlideSplit { .. } => {},
        }
    }

    /// Records a completed round, then refits the model within the budget.
    pub fn insert_new_record(&mut self, query: &Query, path: &[Dir], response: u32)
        requires
            old(self).wf(),
            old(self).spec_records().len() < MAX_RECORDS,
            query.wf(),
            walk_end(query.src, path@) == Some(query.dest),
            path@.len() < NUM_CELLS,
        ensures
            final(self).wf(),
            final(self).spec_records().len() == old(self).spec_records().len() + 1,
            forall|t: int|
                0 <= t < old(self).spec_records().len() ==> #[trigger] final(self).spec_records()[t]
                    == old(self).spec_records()[t],
            ({
                let r = final(self).spec_records().last();
                &&& r.query == *query
                &&& r.path@ == path@
                &&& r.response == response
                &&& r.visited@ == walk_edges(query.src, path@)
            }),
            final(self).budget() == old(self).budget(),
    {
        self.ingest(query, path, response);
        self.update_estimation();
    }

    /// Every cache agrees with a recomputation from the parameters and the
    /// records: each round's predicted total, its per-segment counts, the
    /// loss, and the turns listed per line and per edge. Every predicted edge
    /// cost is positive, and every split point stays strictly inside its line.
    pub proof fn lemma_caches_coherent(&self)
        requires
            self.wf(),
        ensures
            ({
                let recs = self.spec_records();
                let n = recs.len() as int;
                &&& self.spec_totals().len() == n
                &&& forall|t: int|
                    0 <= t < n ==> #[trigger] self.spec_totals()[t] == path_cost(
                        self.base(),
                        self.delta(),
                        self.mid(),
                        recs[t].visited@,
                    )
                &&& forall|t: int, k: int|
                    0 <= t < n && 0 <= k < 2 * NUM_LINES ==> #[trigger] self.cached_count(t, k) == seg_count(
                        self.mid(),
                        recs[t].visited@,
                        k / 2,
                        k % 2,
                    )
                &&& self.spec_loss() == scratch_loss(self.base(), self.delta(), self.mid(), recs)
                &&& forall|l: int, t: int|
                    0 <= l < NUM_LINES && 0 <= t < n ==> (listed(#[trigger] self.line_turns(l), t) <==> on_line(
                        #[trigger] recs[t].visited@,
                        l,
                    ))
                &&& forall|e: int, t: int|
                    0 <= e < NUM_EDGES && 0 <= t < n ==> (listed(#[trigger] self.edge_turns(e), t) <==> edge_count(
                        #[trigger] recs[t].visited@,
                        e,
                    ) > 0)
                &&& forall|e: EdgeIndex| e.wf() ==> #[trigger] self.spec_cost(e) > 0
                &&& forall|l: int| 0 <= l < NUM_LINES ==> 1 <= #[trigger] self.mid()[l] && self.mid()[l] + 2 <= GRID_LEN
                &&& params_ok(self.base(), self.delta(), self.mid())
            }),
    {
        assert forall|e: EdgeIndex| e.wf() implies #[trigger] self.spec_cost(e) > 0 by {
            lemma_edge_cost_bounds(self.line_costs@, self.edge_costs@, self.mid_x@, e);
        }
        assert forall|t: int, k: int|
            0 <= t < self.records@.len() && 0 <= k < 2 * NUM_LINES implies #[trigger] self.cached_count(t, k)
            == seg_count(self.mid(), self.records@[t].visited@, k / 2, k % 2) by {
            assert(self.visit_counts@[t]@[k] == seg_count(self.mid_x@, self.records@[t].visited@, k / 2, k % 2));
        }
    }

    /// Recomputes every round's predicted total and per-segment counts, and
    /// the loss, from the parameters, and compares them with the caches.
    pub fn validate_cache(&self) -> (ok: bool)
        requires
            self.wf(),
        ensures
            ok,
    {
        let n = self.records.len();
        let ghost recs = self.records@;
        let ghost base = self.line_costs@;
        let ghost delta = self.edge_costs@;
        let ghost mid = self.mid_x@;
        let ghost f = residuals(base, delta, mid, record_visited(recs), record_response(recs));
        let mut ok = true;
        let mut actual_loss: i128 = 0;
        let mut t: usize = 0;
        while t < n
            invariant
                self.wf(),
                t <= n,
                n == recs.len(),
                recs == self.records@,
                base == self.line_costs@,
                delta == self.edge_costs@,
                mid == self.mid_x@,
                f == residuals(base, delta, mid, record_visited(recs), record_response(recs)),
                actual_loss == range_sum(f, t as int),
                0 <= actual_loss <= t * max_sq_residual(),
                ok,
            decreases n - t,
        {
            let visited = &self.records[t].visited;
            let ghost vis = visited@;
            assert(GraphEstimator::record_ok(recs[t as int]));
            let mut cost_sum: u32 = 0;
            let mut counts: Vec<u32> = Vec::new();
            let mut k: usize = 0;
            while k < 2 * NUM_LINES
                invariant
                    k <= 2 * NUM_LINES,
                    counts@.len() == k,
                    forall|j: int| 0 <= j < k ==> #[trigger] counts@[j] == 0,
                decreases 2 * NUM_LINES - k,
            {
                counts.push(0);
                k += 1;
            }
            assert(vis.take(0) =~= Seq::<EdgeIndex>::empty());
            let mut i: usize = 0;
            while i < visited.len()
                invariant
                    self.wf(),
                    i <= vis.len(),
                    vis == visited@,
                    vis.len() < NUM_CELLS,
                    all_wf(vis),
                    base == self.line_costs@,
                    delta == self.edge_costs@,
                    mid == self.mid_x@,
                    params_ok(base, delta, mid),
                    cost_sum == path_cost(base, delta, mid, vis.take(i as int)),
                    cost_sum <= i * MAX_EDGE_COST,
                    counts@.len() == 2 * NUM_LINES,
                    forall|j: int|
                        0 <= j < 2 * NUM_LINES ==> #[trigger] counts@[j] == seg_count(
                            mid,
                            vis.take(i as int),
                            j / 2,
                            j % 2,
                        ),
                decreases vis.len() - i,
            {
                let edge = visited[i];
                assert(edge.wf());
                let ghost pre = vis.take(i as int);
                let ghost post = vis.take(i as int + 1);
                assert(post.drop_last() =~= pre);
                assert(post.last() == edge);
                proof {
                    lemma_seg_count_bounds(mid, pre, edge.line.spec_id(), 0);
                    lemma_seg_count_bounds(mid, pre, edge.line.spec_id(), 1);
                }
                cost_sum = cost_sum + self.predicted_cost(edge);
                let l = edge.line.id();
                let seg: usize = if edge.x < self.mid_x[l] {
                    0
                } else {
                    1
                };
                let slot = 2 * l + seg;
                assert(slot / 2 == l && slot % 2 == seg);
                counts.set(slot, counts[slot] + 1);
                assert forall|j: int| 0 <= j < 2 * NUM_LINES implies #[trigger] counts@[j] == seg_count(
                    mid,
                    post,
                    j / 2,
                    j % 2,
                ) by {
                    if j != slot {
                        assert(j / 2 != l || j % 2 != seg);
                    }
                }
                i += 1;
            }
            assert(vis.take(i as int) =~= vis);
            if cost_sum != self.total_costs[t] {
                ok = false;
            }
            let mut j: usize = 0;
            while j < 2 * NUM_LINES
                invariant
                    self.wf(),
                    t < n,
                    n == self.records@.len(),
                    recs == self.records@,
                    mid == self.mid_x@,
                    vis == recs[t as int].visited@,
                    counts@.len() == 2 * NUM_LINES,
                    forall|q: int|
                        0 <= q < 2 * NUM_LINES ==> #[trigger] counts@[q] == seg_count(mid, vis, q / 2, q % 2),
                    ok,
                decreases 2 * NUM_LINES - j,
            {
                if counts[j] != self.visit_counts[t][j] {
                    ok = false;
                }
                j += 1;
            }
            proof {
                lemma_path_cost_bounds(base, delta, mid, vis);
                lemma_sq_residual_bounds(cost_sum as int, recs[t as int].response as int);
            }
            let residual = cost_sum as i128 - self.records[t].response as i128;
            assert(t * max_sq_residual() + max_sq_residual() <= MAX_RECORDS as int * max_sq_residual()) by (nonlinear_arith)
                requires
                    t < MAX_RECORDS,
                    max_sq_residual() > 0,
            ;
            actual_loss = actual_loss + residual * residual;
            assert(t * max_sq_residual() + max_sq_residual() == (t + 1) * max_sq_residual());
            t += 1;
        }
        if actual_loss != self.loss {
            ok = false;
        }
        ok
    }

    /// Base cost of segment `seg` of `line`.
    pub fn line_cost(&self, line: LineIndex, seg: usize) -> (c: u32)
        requires
            self.wf(),
            line.wf(),
            seg < 2,
        ensures
            c == self.base()[base_slot(line.spec_id(), seg as int)],
    {
        self.line_costs[2 * line.id() + seg]
    }

    /// Split point of `line`.
    pub fn mid_x(&self, line: LineIndex) -> (m: u8)
        requires
            self.wf(),
            line.wf(),
        ensures
            m == self.mid()[line.spec_id()],
    {
        self.mid_x[line.id()]
    }

    /// Perturbation of edge `e`.
    pub fn edge_delta(&self, e: EdgeIndex) -> (d: i32)
        requires
            self.wf(),
            e.wf(),
        ensures
            d == self.delta()[e.spec_id()],
    {
        proof {
            lemma_edge_id_bounds(e);
        }
        self.edge_costs[e.id()]
    }

    /// Cached predicted cost of the path of turn `t`.
    pub fn total_cost(&self, t: usize) -> (c: u32)
        requires
            self.wf(),
            t < self.spec_records().len(),
        ensures
            c == self.spec_totals()[t as int],
    {
        self.total_costs[t]
    }

    /// The recorded rounds, oldest first.
    pub fn records(&self) -> (r: &Vec<Record>)
        ensures
            r@ == self.spec_records(),
    {
        &self.records
    }

    pub fn num_records(&self) -> (n: usize)
        ensures
            n == self.spec_records().len(),
    {
        self.records.len()
    }

    /// Current loss: the sum of squared residuals over all records.
    pub fn loss(&self) -> (l: i128)
        ensures
            l == self.spec_loss(),
    {
        self.loss
    }
}

impl Graph for GraphEstimator {
    open spec fn graph_wf(&self) -> bool {
        self.wf()
    }

    open spec fn edge_weight(&self, e: EdgeIndex) -> int {
        self.spec_cost(e)
    }

    /// Predicted cost of edge `e`.
    fn get_cost(&self, e: EdgeIndex) -> (c: u32) {
        self.predicted_cost(e)
    }

    proof fn lemma_weights_nonneg(&self) {
        assert forall|e: EdgeIndex| e.wf() implies #[trigger] self.edge_weight(e) >= 0 by {
            lemma_edge_cost_bounds(self.line_costs@, self.edge_costs@, self.mid_x@, e);
        }
    }
}

} // verus!
