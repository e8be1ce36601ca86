//! The planning strategies behind one entry point.

use crate::edge_flow::{is_decoded_walk, is_edge_flow_plan, is_static_walk};
use crate::greedy::greedy_walk;
use crate::grid::{in_bounds, Graph, Position};
use crate::path::{numbered_from_one, PathfindingResult};
use crate::program::PlanningError;
use crate::time_indexed::{is_time_indexed_plan, is_trajectory, time_indexed_walk};
use crate::time_model::family_size;
use vstd::prelude::*;

verus! {

/// How a walk is planned.
#[derive(Debug, Clone, Copy, PartialEq, Eq)]
pub enum Strategy {
    /// Move to the best neighbour, step by step.
    Greedy,
    /// Solve the edge-flow model, which takes rewards as they stand.
    EdgeFlow,
    /// Solve the time-indexed model, which follows rewards through time.
    TimeIndexed,
}

/// Plans a walk of at most `step_budget` steps from `start` with the given
/// strategy. A start outside the grid is reported by every strategy; the
/// greedy walker fails in no other way.
pub fn plan(
    graph: &Graph,
    strategy: Strategy,
    start: Position,
    step_budget: u32,
    recovery_rate: u32,
) -> (r: Result<PathfindingResult, PlanningError>)
    requires
        graph.wf(),
    ensures
        !in_bounds(graph.spec_size(), start) <==> r matches Err(PlanningError::StartOutOfBounds),
        strategy == Strategy::Greedy && in_bounds(graph.spec_size(), start) ==> r is Ok,
        strategy == Strategy::EdgeFlow ==> is_edge_flow_plan(
            graph@,
            graph.spec_size(),
            start,
            step_budget,
            r,
        ),
        strategy == Strategy::TimeIndexed ==> is_time_indexed_plan(
            graph@,
            graph.spec_size(),
            start,
            step_budget,
            recovery_rate,
            r,
        ),
        r matches Ok(found) ==> found.path.len() <= step_budget && numbered_from_one(found.path@),
        r matches Ok(found) ==> match strategy {
            Strategy::Greedy => found.path@ == greedy_walk(
                graph@,
                start,
                step_budget as nat,
                0,
                recovery_rate,
            ) && (graph.spec_size() >= 2 ==> found.path.len() == step_budget),
            Strategy::EdgeFlow => is_static_walk(
                graph@,
                graph.spec_size(),
                start,
                step_budget,
                found.path@,
            ) && is_decoded_walk(graph@, graph.spec_size(), start, step_budget, found.path@),
            Strategy::TimeIndexed => is_trajectory(
                graph.spec_size(),
                start,
                step_budget as nat,
                found.path@,
            ) && exists|values: Seq<i64>|
                values.len() == 4 * family_size(graph.spec_size(), step_budget as nat)
                    && found.path@ == #[trigger] time_indexed_walk(
                    graph@,
                    graph.spec_size(),
                    start,
                    step_budget as nat,
                    recovery_rate,
                    values,
                ),
        },
{
    if start.0 >= graph.size() || start.1 >= graph.size() {
        return Err(PlanningError::StartOutOfBounds);
    }
    match strategy {
        Strategy::Greedy => Ok(graph.path_planning_bfs(start, step_budget, recovery_rate)),
        Strategy::EdgeFlow => graph.lp(start, step_budget),
        Strategy::TimeIndexed => graph.path_planning_lp(start, step_budget, recovery_rate),
    }
}

} // verus!
