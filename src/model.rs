//! The structured cost model over grid edges, as mathematics: the predicted
//! cost of an edge, of a sequence of edges, the per-segment counts and the
//! squared-error loss, with the lemmas that let a change of one parameter be
//! accounted for incrementally.
use crate::grid::{EdgeIndex, EDGES_PER_LINE, GRID_LEN, NUM_EDGES, NUM_LINES};
use vstd::prelude::*;

verus! {

/// Lowest and highest base cost of a line segment.
pub const LINE_COST_LB: u32 = 1000;
pub const LINE_COST_UB: u32 = 9000;

/// Lowest and highest per-edge perturbation.
pub const EDGE_COST_LB: i32 = -300;
pub const EDGE_COST_UB: i32 = 300;

/// Granularity of every parameter change.
pub const STEP: u32 = 100;

/// Highest cost that an edge can be predicted to have.
pub const MAX_EDGE_COST: u32 = 9300;

/// Segment of an edge: 0 below the split point of its line, 1 from it on.
pub open spec fn seg_of(mid: Seq<u8>, e: EdgeIndex) -> int {
    if (e.x as int) < mid[e.line.spec_id()] as int {
        0
    } else {
        1
    }
}

/// Index of a line segment in the flat table of bases.
pub open spec fn base_slot(line_id: int, seg: int) -> int {
    2 * line_id + seg
}

/// Predicted cost of one edge: the base of its segment plus its perturbation.
pub open spec fn edge_cost(base: Seq<u32>, delta: Seq<i32>, mid: Seq<u8>, e: EdgeIndex) -> int {
    base[base_slot(e.line.spec_id(), seg_of(mid, e))] as int + delta[e.spec_id()] as int
}

/// Predicted cost of a sequence of edges.
pub open spec fn path_cost(base: Seq<u32>, delta: Seq<i32>, mid: Seq<u8>, es: Seq<EdgeIndex>) -> int
    decreases es.len(),
{
    if es.len() == 0 {
        0
    } else {
        path_cost(base, delta, mid, es.drop_last()) + edge_cost(base, delta, mid, es.last())
    }
}

/// How many edges of `es` lie on line `line_id` in segment `seg`.
pub open spec fn seg_count(mid: Seq<u8>, es: Seq<EdgeIndex>, line_id: int, seg: int) -> int
    decreases es.len(),
{
    if es.len() == 0 {
        0
    } else {
        seg_count(mid, es.drop_last(), line_id, seg) + if es.last().line.spec_id() == line_id
            && seg_of(mid, es.last()) == seg {
            1int
        } else {
            0
        }
    }
}

/// How many edges of `es` have the dense number `edge_id`.
pub open spec fn edge_count(es: Seq<EdgeIndex>, edge_id: int) -> int
    decreases es.len(),
{
    if es.len() == 0 {
        0
    } else {
        edge_count(es.drop_last(), edge_id) + if es.last().spec_id() == edge_id {
            1int
        } else {
            0
        }
    }
}

/// Some edge of `es` lies on line `line_id`.
pub open spec fn on_line(es: Seq<EdgeIndex>, line_id: int) -> bool {
    exists|i: int| 0 <= i < es.len() && (#[trigger] es[i]).line.spec_id() == line_id
}

pub open spec fn all_wf(es: Seq<EdgeIndex>) -> bool {
    forall|i: int| 0 <= i < es.len() ==> (#[trigger] es[i]).wf()
}

/// The parameters lie in their domains.
pub open spec fn params_ok(base: Seq<u32>, delta: Seq<i32>, mid: Seq<u8>) -> bool {
    &&& base.len() == 2 * NUM_LINES
    &&& delta.len() == NUM_EDGES
    &&& mid.len() == NUM_LINES
    &&& forall|i: int|
        0 <= i < 2 * NUM_LINES ==> LINE_COST_LB <= #[trigger] base[i] <= LINE_COST_UB && base[i]
            % STEP == 0
    &&& forall|i: int|
        0 <= i < NUM_EDGES ==> EDGE_COST_LB <= #[trigger] delta[i] <= EDGE_COST_UB && delta[i]
            % (STEP as i32) == 0
    &&& forall|i: int| 0 <= i < NUM_LINES ==> 1 <= #[trigger] mid[i] && mid[i] + 2 <= GRID_LEN
}

/// Square of a residual.
pub open spec fn sq(x: int) -> int {
    x * x
}

/// Sum of `f(t)` for `t` in `0..n`.
pub open spec fn range_sum(f: spec_fn(int) -> int, n: int) -> int
    decreases n,
{
    if n <= 0 {
        0
    } else {
        range_sum(f, n - 1) + f(n - 1)
    }
}

/// Sum of `f(t)` for `t` in the list `ts`.
pub open spec fn list_sum(f: spec_fn(int) -> int, ts: Seq<usize>) -> int
    decreases ts.len(),
{
    if ts.len() == 0 {
        0
    } else {
        list_sum(f, ts.drop_last()) + f(ts.last() as int)
    }
}

/// A strictly increasing list of turns below `n`.
pub open spec fn sorted_below(ts: Seq<usize>, n: int) -> bool {
    &&& forall|i: int, j: int| 0 <= i < j < ts.len() ==> ts[i] < ts[j]
    &&& forall|i: int| 0 <= i < ts.len() ==> ts[i] < n
}

pub proof fn lemma_edge_cost_bounds(base: Seq<u32>, delta: Seq<i32>, mid: Seq<u8>, e: EdgeIndex)
    requires
        params_ok(base, delta, mid),
        e.wf(),
    ensures
        700 <= edge_cost(base, delta, mid, e) <= MAX_EDGE_COST,
{
    let k = base_slot(e.line.spec_id(), seg_of(mid, e));
    assert(0 <= k < 2 * NUM_LINES);
    assert(0 <= e.spec_id() < NUM_EDGES) by (nonlinear_arith)
        requires
            e.spec_id() == e.line.spec_id() * 29 + e.x,
            0 <= e.line.spec_id() < 60,
            0 <= e.x < 29,
    ;
    assert(LINE_COST_LB <= base[k] <= LINE_COST_UB);
    assert(EDGE_COST_LB <= delta[e.spec_id()] <= EDGE_COST_UB);
}

pub proof fn lemma_edge_id_bounds(e: EdgeIndex)
    requires
        e.wf(),
    ensures
        0 <= e.spec_id() < NUM_EDGES,
        e.spec_id() / EDGES_PER_LINE as int == e.line.spec_id(),
        e.spec_id() % EDGES_PER_LINE as int == e.x,
        0 <= e.line.spec_id() < NUM_LINES,
{
    let l = e.line.spec_id();
    assert(0 <= l < 60);
    assert(0 <= e.spec_id() < NUM_EDGES) by (nonlinear_arith)
        requires
            e.spec_id() == l * 29 + e.x,
            0 <= l < 60,
            0 <= e.x < 29,
    ;
    assert(e.spec_id() / 29 == l && e.spec_id() % 29 == e.x) by (nonlinear_arith)
        requires
            e.spec_id() == l * 29 + e.x,
            0 <= l,
            0 <= e.x < 29,
    ;
}

pub proof fn lemma_path_cost_bounds(base: Seq<u32>, delta: Seq<i32>, mid: Seq<u8>, es: Seq<EdgeIndex>)
    requires
        params_ok(base, delta, mid),
        all_wf(es),
    ensures
        0 <= path_cost(base, delta, mid, es) <= MAX_EDGE_COST * es.len(),
    decreases es.len(),
{
    if es.len() > 0 {
        lemma_path_cost_bounds(base, delta, mid, es.drop_last());
        lemma_edge_cost_bounds(base, delta, mid, es.last());
    }
}

pub proof fn lemma_seg_count_bounds(mid: Seq<u8>, es: Seq<EdgeIndex>, line_id: int, seg: int)
    ensures
        0 <= seg_count(mid, es, line_id, seg) <= es.len(),
    decreases es.len(),
{
    if es.len() > 0 {
        lemma_seg_count_bounds(mid, es.drop_last(), line_id, seg);
    }
}

pub proof fn lemma_edge_count_bounds(es: Seq<EdgeIndex>, edge_id: int)
    ensures
        0 <= edge_count(es, edge_id) <= es.len(),
    decreases es.len(),
{
    if es.len() > 0 {
        lemma_edge_count_bounds(es.drop_last(), edge_id);
    }
}

/// An edge counted on a line, in a segment or by its number, means that the line is visited.
pub proof fn lemma_counted_on_line(mid: Seq<u8>, es: Seq<EdgeIndex>, line_id: int, seg: int, x: int)
    requires
        all_wf(es),
        0 <= x < EDGES_PER_LINE,
    ensures
        seg_count(mid, es, line_id, seg) > 0 ==> on_line(es, line_id),
        edge_count(es, line_id * EDGES_PER_LINE + x) > 0 ==> on_line(es, line_id),
    decreases es.len(),
{
    if es.len() > 0 {
        let init = es.drop_last();
        lemma_counted_on_line(mid, init, line_id, seg, x);
        assert(all_wf(init));
        if on_line(init, line_id) {
            let i = choose|i: int| 0 <= i < init.len() && (#[trigger] init[i]).line.spec_id() == line_id;
            assert(es[i] == init[i]);
        }
        assert(es[es.len() - 1] == es.last());
        lemma_edge_id_bounds(es.last());
        if es.last().spec_id() == line_id * EDGES_PER_LINE + x {
            assert((line_id * 29 + x) / 29 == line_id) by (nonlinear_arith)
                requires
                    0 <= x < 29,
            ;
        }
    }
}

/// Changing the base of one segment by `k` changes a sequence's cost by `k` per edge in it.
pub proof fn lemma_shift_base(
    base: Seq<u32>,
    base2: Seq<u32>,
    delta: Seq<i32>,
    mid: Seq<u8>,
    es: Seq<EdgeIndex>,
    line_id: int,
    seg: int,
    k: int,
)
    requires
        base.len() == base2.len() == 2 * NUM_LINES,
        0 <= line_id < NUM_LINES,
        0 <= seg < 2,
        base2[base_slot(line_id, seg)] == base[base_slot(line_id, seg)] + k,
        forall|i: int| 0 <= i < base.len() && i != base_slot(line_id, seg) ==> base2[i] == base[i],
        all_wf(es),
    ensures
        path_cost(base2, delta, mid, es) == path_cost(base, delta, mid, es) + k * seg_count(
            mid,
            es,
            line_id,
            seg,
        ),
    decreases es.len(),
{
    if es.len() > 0 {
        lemma_shift_base(base, base2, delta, mid, es.drop_last(), line_id, seg, k);
        lemma_edge_id_bounds(es.last());
        assert(es[es.len() - 1] == es.last());
        let e = es.last();
        let slot = base_slot(e.line.spec_id(), seg_of(mid, e));
        assert(slot == base_slot(line_id, seg) <==> (e.line.spec_id() == line_id && seg_of(mid, e)
            == seg));
        let c = seg_count(mid, es.drop_last(), line_id, seg);
        assert(k * (c + 1) == k * c + k) by (nonlinear_arith);
    }
}

/// Changing the perturbation of one edge by `k` changes a sequence's cost by `k` per occurrence.
pub proof fn lemma_bump_delta(
    base: Seq<u32>,
    delta: Seq<i32>,
    delta2: Seq<i32>,
    mid: Seq<u8>,
    es: Seq<EdgeIndex>,
    edge_id: int,
    k: int,
)
    requires
        delta.len() == delta2.len() == NUM_EDGES,
        0 <= edge_id < NUM_EDGES,
        delta2[edge_id] == delta[edge_id] + k,
        forall|i: int| 0 <= i < delta.len() && i != edge_id ==> delta2[i] == delta[i],
        all_wf(es),
    ensures
        path_cost(base, delta2, mid, es) == path_cost(base, delta, mid, es) + k * edge_count(
            es,
            edge_id,
        ),
    decreases es.len(),
{
    if es.len() > 0 {
        lemma_bump_delta(base, delta, delta2, mid, es.drop_last(), edge_id, k);
        lemma_edge_id_bounds(es.last());
        assert(es[es.len() - 1] == es.last());
        let c = edge_count(es.drop_last(), edge_id);
        assert(k * (c + 1) == k * c + k) by (nonlinear_arith);
    }
}

/// Moving the split point of a line by one moves exactly the edge `pivot` of
/// that line from segment `old_seg` to the other one.
pub proof fn lemma_slide_split(
    base: Seq<u32>,
    delta: Seq<i32>,
    mid: Seq<u8>,
    mid2: Seq<u8>,
    es: Seq<EdgeIndex>,
    line_id: int,
    pivot: int,
    old_seg: int,
)
    requires
        mid.len() == mid2.len() == NUM_LINES,
        0 <= line_id < NUM_LINES,
        0 <= pivot < EDGES_PER_LINE,
        0 <= old_seg < 2,
        forall|i: int| 0 <= i < mid.len() && i != line_id ==> mid2[i] == mid[i],
        (mid2[line_id] == mid[line_id] + 1 && pivot == mid[line_id] && old_seg == 1) || (
        mid2[line_id] + 1 == mid[line_id] && pivot == mid2[line_id] && old_seg == 0),
        all_wf(es),
    ensures
        ({
            let n = edge_count(es, line_id * EDGES_PER_LINE + pivot);
            &&& path_cost(base, delta, mid2, es) == path_cost(base, delta, mid, es) + n * (
            base[base_slot(line_id, 1 - old_seg)] - base[base_slot(line_id, old_seg)])
            &&& seg_count(mid2, es, line_id, old_seg) == seg_count(mid, es, line_id, old_seg) - n
            &&& seg_count(mid2, es, line_id, 1 - old_seg) == seg_count(mid, es, line_id, 1 - old_seg)
                + n
            &&& forall|l: int, s: int|
                l != line_id ==> seg_count(mid2, es, l, s) == seg_count(mid, es, l, s)
        }),
    decreases es.len(),
{
    if es.len() > 0 {
        let init = es.drop_last();
        lemma_slide_split(base, delta, mid, mid2, init, line_id, pivot, old_seg);
        let e = es.last();
        assert(es[es.len() - 1] == e);
        lemma_edge_id_bounds(e);
        let target = line_id * EDGES_PER_LINE + pivot;
        assert(e.spec_id() == target <==> (e.line.spec_id() == line_id && e.x == pivot)) by {
            assert((line_id * 29 + pivot) / 29 == line_id && (line_id * 29 + pivot) % 29 == pivot)
                by (nonlinear_arith)
                requires
                    0 <= pivot < 29,
                    0 <= line_id,
            ;
        }
        let n0 = edge_count(init, target);
        let d = base[base_slot(line_id, 1 - old_seg)] - base[base_slot(line_id, old_seg)];
        if e.line.spec_id() == line_id {
            if e.x == pivot {
                assert(seg_of(mid, e) == old_seg && seg_of(mid2, e) == 1 - old_seg);
            } else {
                assert(seg_of(mid, e) == seg_of(mid2, e));
            }
        } else {
            assert(mid2[e.line.spec_id()] == mid[e.line.spec_id()]);
            assert(seg_of(mid, e) == seg_of(mid2, e));
        }
        assert forall|l: int, s: int| l != line_id implies seg_count(mid2, es, l, s) == seg_count(
            mid,
            es,
            l,
            s,
        ) by {
            assert(seg_count(mid2, init, l, s) == seg_count(mid, init, l, s));
        }
        assert((n0 + 1) * d == n0 * d + d) by (nonlinear_arith);
    }
}

/// The pointwise difference `g - f`.
pub open spec fn diff_fn(f: spec_fn(int) -> int, g: spec_fn(int) -> int) -> spec_fn(int) -> int {
    |t: int| g(t) - f(t)
}

/// Squared residual of each record's predicted cost under the given parameters.
pub open spec fn residuals(
    base: Seq<u32>,
    delta: Seq<i32>,
    mid: Seq<u8>,
    visited: spec_fn(int) -> Seq<EdgeIndex>,
    response: spec_fn(int) -> int,
) -> spec_fn(int) -> int {
    |t: int| sq(path_cost(base, delta, mid, visited(t)) - response(t))
}

pub proof fn lemma_range_sum_ext(f: spec_fn(int) -> int, g: spec_fn(int) -> int, n: int)
    requires
        forall|t: int| 0 <= t < n ==> #[trigger] f(t) == g(t),
    ensures
        range_sum(f, n) == range_sum(g, n),
    decreases n,
{
    if n > 0 {
        lemma_range_sum_ext(f, g, n - 1);
    }
}

/// The list `ts` holds the turn `t`.
pub open spec fn listed(ts: Seq<usize>, t: int) -> bool {
    exists|i: int| 0 <= i < ts.len() && ts[i] as int == t
}

/// Two cost tables that agree off the list `ts` differ in their sums by the
/// sum of their differences over `ts`.
pub proof fn lemma_sum_over_list(f: spec_fn(int) -> int, g: spec_fn(int) -> int, ts: Seq<usize>, n: int)
    requires
        0 <= n,
        sorted_below(ts, n),
        forall|t: int| 0 <= t < n && !listed(ts, t) ==> #[trigger] f(t) == g(t),
    ensures
        range_sum(g, n) - range_sum(f, n) == list_sum(diff_fn(f, g), ts),
    decreases n,
{
    if n > 0 {
        if ts.len() > 0 && ts.last() as int == n - 1 {
            let init = ts.drop_last();
            assert forall|t: int| 0 <= t < n - 1 && !listed(init, t) implies #[trigger] f(t) == g(t) by {
                if listed(ts, t) {
                    let i = choose|i: int| 0 <= i < ts.len() && ts[i] as int == t;
                    if i < ts.len() - 1 {
                        assert(init[i] == ts[i]);
                    }
                }
            }
            assert(sorted_below(init, n - 1)) by {
                assert forall|i: int| 0 <= i < init.len() implies init[i] < n - 1 by {
                    assert(ts[i] < ts[ts.len() - 1]);
                }
            }
            lemma_sum_over_list(f, g, init, n - 1);
        } else {
            assert(!listed(ts, n - 1)) by {
                if listed(ts, n - 1) {
                    let i = choose|i: int| 0 <= i < ts.len() && ts[i] as int == n - 1;
                    if i < ts.len() - 1 {
                        assert(ts[i] < ts[ts.len() - 1]);
                    }
                }
            }
            assert(sorted_below(ts, n - 1)) by {
                assert forall|i: int| 0 <= i < ts.len() implies ts[i] < n - 1 by {
                    if ts[i] as int == n - 1 {
                        assert(listed(ts, n - 1));
                    }
                }
            }
            lemma_sum_over_list(f, g, ts, n - 1);
        }
    }
}

/// Bound on one squared residual: a path cost below 2^24 against a response below 2^32.
pub open spec fn max_sq_residual() -> int {
    0x4_0000_0000_0000_0000
}

pub proof fn lemma_sq_residual_bounds(total: int, response: int)
    requires
        0 <= total < 0x100_0000,
        0 <= response <= u32::MAX,
    ensures
        0 <= sq(total - response) <= max_sq_residual(),
{
    let d = total - response;
    assert(-0x1_0000_0000 <= d <= 0x1_0000_0000);
    assert(0 <= d * d <= 0x1_0000_0000 * 0x1_0000_0000) by (nonlinear_arith)
        requires
            -0x1_0000_0000 <= d <= 0x1_0000_0000,
    ;
}

pub proof fn lemma_range_sum_bounds(f: spec_fn(int) -> int, n: int, b: int)
    requires
        0 <= n,
        forall|t: int| 0 <= t < n ==> 0 <= #[trigger] f(t) <= b,
    ensures
        0 <= range_sum(f, n) <= n * b,
    decreases n,
{
    if n > 0 {
        lemma_range_sum_bounds(f, n - 1, b);
        assert((n - 1) * b + b == n * b) by (nonlinear_arith);
    }
}

/// Appending the next turn to a sorted list of earlier turns, or not.
pub proof fn lemma_listed_push(ts: Seq<usize>, n: int, add: bool)
    requires
        sorted_below(ts, n),
        0 <= n <= usize::MAX,
    ensures
        ({
            let new = if add {
                ts.push(n as usize)
            } else {
                ts
            };
            &&& sorted_below(new, n + 1)
            &&& forall|t: int| 0 <= t < n ==> (listed(new, t) <==> listed(ts, t))
            &&& listed(new, n) <==> add
        }),
{
    let new = if add {
        ts.push(n as usize)
    } else {
        ts
    };
    assert forall|t: int| 0 <= t < n implies (listed(new, t) <==> listed(ts, t)) by {
        if listed(ts, t) {
            let i = choose|i: int| 0 <= i < ts.len() && ts[i] as int == t;
            assert(new[i] == ts[i]);
        }
        if listed(new, t) {
            let i = choose|i: int| 0 <= i < new.len() && new[i] as int == t;
            if i < ts.len() {
                assert(new[i] == ts[i]);
            }
        }
    }
    if add {
        assert(new[ts.len() as int] == n as usize);
    } else {
        if listed(ts, n) {
            let i = choose|i: int| 0 <= i < ts.len() && ts[i] as int == n;
        }
    }
}

/// A strictly increasing list of turns below `n` holds at most `n` of them.
pub proof fn lemma_sorted_len(ts: Seq<usize>, n: int)
    requires
        sorted_below(ts, n),
        0 <= n,
    ensures
        ts.len() <= n,
    decreases ts.len(),
{
    if ts.len() > 0 {
        let init = ts.drop_last();
        assert(sorted_below(init, ts.last() as int)) by {
            assert forall|i: int| 0 <= i < init.len() implies init[i] < ts.last() by {
                assert(ts[i] < ts[ts.len() - 1]);
            }
        }
        assert(ts[ts.len() - 1] < n);
        lemma_sorted_len(init, ts.last() as int);
    }
}

} // verus!
