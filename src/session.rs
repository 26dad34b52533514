//! The driver loop and the contract of the environment it plays against.
use crate::dijkstra::{compute_shortest_path, walk_cost};
use crate::estimator::{GraphEstimator, MAX_RECORDS};
use crate::grid::{is_simple_path, walk_end, Dir, Query, GRID_LEN, NUM_TURN};
use vstd::prelude::*;

verus! {

/// Why a session ended before its last turn.
#[derive(Debug, Clone, Copy, PartialEq, Eq, Structural)]
pub enum EnvError {
    /// A submitted path steps off the grid.
    PathLeavesGrid,
    /// A submitted path enters a cell twice.
    PathRevisitsCell,
    /// A submitted path does not end at the destination.
    PathMissesDest,
    /// A query or response line could not be read as the protocol says.
    MalformedLine,
    /// Reading or writing the stream failed.
    Io,
    /// A path was submitted while no query was pending.
    NoQueryPending,
}

/// What the driver plays against: it hands out queries and takes paths.
pub trait Environment {
    /// The environment is ready for its next query.
    open spec fn env_ready(&self) -> bool {
        true
    }

    /// Whether `spec_pending` and `spec_answered` describe this environment.
    open spec fn models_pending(&self) -> bool {
        false
    }

    /// The query that `next_query` hands out now, if any.
    open spec fn spec_pending(&self) -> Option<Query> {
        None
    }

    /// The queries answered so far, in order.
    open spec fn spec_answered(&self) -> Seq<Query> {
        Seq::empty()
    }

    /// Whether the environment hands out only queries on the grid and
    /// accepts every path that is simple for the pending query.
    open spec fn well_behaved(&self) -> bool {
        false
    }

    /// The query of the current turn, or `None` once the session is over.
    fn next_query(&self) -> (r: Option<Query>)
        requires
            self.env_ready(),
        ensures
            self.models_pending() ==> r == self.spec_pending(),
            self.well_behaved() ==> (r matches Some(q) ==> q.wf()),
    ;

    /// Submits the path for the current query and returns the response.
    fn do_answer(&mut self, path: &[Dir]) -> (r: Result<u32, EnvError>)
        requires
            old(self).env_ready(),
        ensures
            final(self).models_pending() == old(self).models_pending(),
            r is Ok ==> final(self).env_ready(),
            r is Ok && old(self).models_pending() ==> old(self).spec_pending() is Some
                && final(self).spec_answered() == old(self).spec_answered().push(
                old(self).spec_pending()->0,
            ),
            old(self).well_behaved() && old(self).models_pending() ==> (old(self).spec_pending() matches Some(q)
                ==> is_simple_path(q.src, q.dest, path@) ==> r is Ok),
            r is Ok && old(self).well_behaved() ==> final(self).well_behaved(),
    ;
}

/// One turn of the solver's own work: the path it ships for query `q`,
/// shortest under the estimator's current costs, with that cost. A query
/// off the grid is refused.
pub fn plan_turn(est: &GraphEstimator, q: &Query) -> (r: Result<(Vec<Dir>, u64), EnvError>)
    requires
        est.wf(),
    ensures
        r is Err <==> !q.wf(),
        r is Err ==> r == Err::<(Vec<Dir>, u64), EnvError>(EnvError::MalformedLine),
        r matches Ok(p) ==> {
            &&& is_simple_path(q.src, q.dest, p.0@)
            &&& p.0@.len() < crate::grid::NUM_CELLS
            &&& p.1 == walk_cost(est, q.src, p.0@)
            &&& forall|w: Seq<Dir>| walk_end(q.src, w) == Some(q.dest) ==> p.1 <= #[trigger] walk_cost(est, q.src, w)
        },
{
    if !query_in_grid(q) {
        return Err(EnvError::MalformedLine);
    }
    Ok(compute_shortest_path(est, q.src, q.dest))
}

/// Whether both endpoints of a query lie on the grid.
pub fn query_in_grid(q: &Query) -> (ok: bool)
    ensures
        ok == q.wf(),
{
    (q.src.r as usize) < GRID_LEN && (q.src.c as usize) < GRID_LEN && (q.dest.r as usize) < GRID_LEN
        && (q.dest.c as usize) < GRID_LEN
}

/// Plays a session: for each query, ships the path that is shortest under
/// the current estimate and folds the response into the estimator. Ends when
/// the environment has no further query, or after `NUM_TURN` of them.
pub fn run_solver<E: Environment>(env: &mut E, time_limit_ms: u64) -> (r: Result<GraphEstimator, EnvError>)
    requires
        old(env).env_ready(),
    ensures
        final(env).models_pending() == old(env).models_pending(),
        r matches Ok(est) ==> est.wf() && est.spec_records().len() <= NUM_TURN && forall|t: int|
            0 <= t < est.spec_records().len() ==> #[trigger] is_simple_path(
                est.spec_records()[t].query.src,
                est.spec_records()[t].query.dest,
                est.spec_records()[t].path@,
            ),
        old(env).well_behaved() && old(env).models_pending() ==> r is Ok,
        r matches Ok(est) ==> old(env).models_pending() ==> {
            let n = old(env).spec_answered().len();
            &&& est.spec_records().len() == NUM_TURN || final(env).spec_pending() is None
            &&& final(env).spec_answered().len() == n + est.spec_records().len()
            &&& forall|t: int|
                0 <= t < est.spec_records().len() ==> #[trigger] est.spec_records()[t].query
                    == final(env).spec_answered()[n + t]
        },
{
    let mut estimator = GraphEstimator::new(time_limit_ms);
    let mut turn: usize = 0;
    let ghost n = old(env).spec_answered().len();
    while turn < NUM_TURN
        invariant
            estimator.wf(),
            estimator.spec_records().len() == turn,
            turn <= NUM_TURN,
            env.env_ready(),
            env.models_pending() == old(env).models_pending(),
            old(env).well_behaved() ==> env.well_behaved(),
            n == old(env).spec_answered().len(),
            forall|t: int|
                0 <= t < estimator.spec_records().len() ==> #[trigger] is_simple_path(
                    estimator.spec_records()[t].query.src,
                    estimator.spec_records()[t].query.dest,
                    estimator.spec_records()[t].path@,
                ),
            env.models_pending() ==> env.spec_answered().len() == n + turn && forall|t: int|
                0 <= t < turn ==> #[trigger] estimator.spec_records()[t].query == env.spec_answered()[n + t],
        decreases NUM_TURN - turn,
    {
        let query = match env.next_query() {
            Some(q) => q,
            None => {
                return Ok(estimator);
            },
        };
        let (path, _estimated) = match plan_turn(&estimator, &query) {
            Ok(p) => p,
            Err(e) => return Err(e),
        };
        let ghost before_env = env.spec_answered();
        let response = match env.do_answer(&path) {
            Ok(v) => v,
            Err(e) => return Err(e),
        };
        let ghost before = estimator.spec_records();
        estimator.insert_new_record(&query, &path, response);
        proof {
            assert forall|t: int| 0 <= t < estimator.spec_records().len() implies #[trigger] is_simple_path(
                estimator.spec_records()[t].query.src,
                estimator.spec_records()[t].query.dest,
                estimator.spec_records()[t].path@,
            ) by {
                if t < before.len() {
                    assert(estimator.spec_records()[t] == before[t]);
                }
            }
            if env.models_pending() {
                assert forall|t: int| 0 <= t < turn + 1 implies #[trigger] estimator.spec_records()[t].query
                    == env.spec_answered()[n + t] by {
                    if t < turn {
                        assert(estimator.spec_records()[t] == before[t]);
                        assert(env.spec_answered()[n + t] == before_env[n + t]);
                    }
                }
            }
        }
        turn += 1;
    }
    Ok(estimator)
}

} // verus!
