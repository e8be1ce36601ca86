//! The exact edge-flow planner: it explores the grid from the start, hands
//! the edge-flow model of what it found to the solver, and reads the walk
//! off the solution.
//!
//! The walk is read off the used moves from the start on, at every cell by
//! the first used move in the order of the cell's neighbours, until the
//! budget is spent or no used move leads on. Under an assignment that the
//! model admits a used move always leads on, so that the walk has as many
//! steps as the budget; it may go over the same moves more than once. Each
//! step carries the reward that its cell holds in the grid as it stands.

use crate::flow_model::{
    budget_constraint, edge_flow_model, edge_flow_program, lemma_position_exists,
    lemma_position_unique, node_constraint, position_of, terms_for,
};
use crate::grid::{
    adjacent, in_bounds, lemma_neighbors, neighbors, reward_at, Graph, Position, Rewards,
};
use crate::path::{numbered_from_one, PathfindingResult, PathfindingStep};
use crate::program::{
    constraint_valid, holds_of_nothing, is_feasible, lemma_sum_concat, meets, program_exact,
    program_valid, solve, solve_outcome, sum_of, total_magnitude, PlanningError, Term,
    VariableKind,
};
use crate::subgraph::{
    edge_of, edges_in, edges_out, find_edge, is_edge, is_reachable_subgraph, reachable_subgraph,
    Edge,
};
use vstd::prelude::*;

verus! {

/// The assignment `values` uses the move `e`: the move stands in `edges`,
/// and the variable at its position there has the value 1.
pub open spec fn is_selected(edges: Seq<Edge>, values: Seq<i64>, e: Edge) -> bool {
    &&& edges.contains(e)
    &&& position_of(edges, e) < values.len()
    &&& values[position_of(edges, e)] == 1
}

/// The first of `cells` to which a used move leads from `from`.
pub open spec fn first_selected(
    edges: Seq<Edge>,
    values: Seq<i64>,
    from: Position,
    cells: Seq<Position>,
) -> Option<Position>
    decreases cells.len(),
{
    if cells.len() == 0 {
        None
    } else if is_selected(edges, values, edge_of(from, cells[0])) {
        Some(cells[0])
    } else {
        first_selected(edges, values, from, cells.drop_first())
    }
}

/// The steps that follow used moves from `from`, at most `steps` of them,
/// after `taken` steps have been made. At each cell the walk takes the first
/// used move in the order of the cell's neighbours, and it ends where no
/// move out of the cell is used.
pub open spec fn follow(
    g: Rewards,
    n: nat,
    edges: Seq<Edge>,
    values: Seq<i64>,
    from: Position,
    steps: nat,
    taken: nat,
) -> Seq<PathfindingStep>
    decreases steps,
{
    if steps == 0 {
        Seq::empty()
    } else {
        match first_selected(edges, values, from, neighbors(n, from)) {
            None => Seq::empty(),
            Some(to) => seq![
                PathfindingStep { node: to, score: reward_at(g, to), step: (taken + 1) as u32 },
            ] + follow(g, n, edges, values, to, (steps - 1) as nat, taken + 1),
        }
    }
}

/// The walk read off the assignment `values` to the moves `edges`: it begins
/// on `start`, follows used moves, and has at most `budget` steps. Each step
/// carries the reward that its cell holds in `g`.
pub open spec fn decoded_walk(
    g: Rewards,
    n: nat,
    start: Position,
    budget: u32,
    edges: Seq<Edge>,
    values: Seq<i64>,
) -> Seq<PathfindingStep> {
    if budget == 0 {
        Seq::empty()
    } else {
        seq![PathfindingStep { node: start, score: reward_at(g, start), step: 1 }] + follow(
            g,
            n,
            edges,
            values,
            start,
            (budget - 1) as nat,
            1,
        )
    }
}

/// `path` is a walk from `start` of at most `budget` steps over a grid of
/// side `n`: its steps are numbered from 1 without a gap, each goes to a
/// neighbour of the one before, and each carries the reward that its cell
/// holds in `g`.
pub open spec fn is_static_walk(
    g: Rewards,
    n: nat,
    start: Position,
    budget: u32,
    path: Seq<PathfindingStep>,
) -> bool {
    &&& path.len() <= budget
    &&& budget >= 1 ==> path.len() >= 1 && path[0].node == start
    &&& numbered_from_one(path)
    &&& forall|i: int|
        0 <= i < path.len() ==> in_bounds(n, (#[trigger] path[i]).node) && path[i].score
            == reward_at(g, path[i].node)
    &&& forall|i: int|
        0 <= i < path.len() - 1 ==> adjacent((#[trigger] path[i]).node, path[i + 1].node)
}

/// Every move that `path` makes is used by `values`.
pub open spec fn follows_selected(
    edges: Seq<Edge>,
    values: Seq<i64>,
    path: Seq<PathfindingStep>,
) -> bool {
    forall|i: int|
        0 <= i < path.len() - 1 ==> is_selected(
            edges,
            values,
            edge_of((#[trigger] path[i]).node, path[i + 1].node),
        )
}

/// `path` is the walk read off some assignment of a value to every move of
/// the grid.
pub open spec fn is_decoded_walk(
    g: Rewards,
    n: nat,
    start: Position,
    budget: u32,
    path: Seq<PathfindingStep>,
) -> bool {
    exists|edges: Seq<Edge>, values: Seq<i64>|
        {
            &&& edges.no_duplicates()
            &&& forall|e: Edge| #[trigger] edges.contains(e) <==> is_edge(n, e)
            &&& values.len() == edges.len()
            &&& path == #[trigger] decoded_walk(g, n, start, budget, edges, values)
        }
}

/// What the planner makes of the moves `edges` and the cells `nodes` that
/// the search found: the walk read off the values that solving their
/// edge-flow model gives, or the reason why solving gives none.
pub open spec fn edge_flow_outcome(
    g: Rewards,
    n: nat,
    start: Position,
    budget: u32,
    edges: Seq<Edge>,
    nodes: Seq<Position>,
) -> Result<Seq<PathfindingStep>, PlanningError> {
    match solve_outcome(edge_flow_model(g, n, start, budget, edges, nodes)) {
        Ok(values) => Ok(decoded_walk(g, n, start, budget, edges, values)),
        Err(e) => Err(e),
    }
}

/// `r` is what the edge-flow planner returns for a walk of `budget` steps
/// from `start`. A start outside the grid is refused. For any other start
/// the result is the outcome for some list of all moves of the grid, each
/// once, that begins with the moves out of the start, and some list of all
/// cells that a move leads to, each once.
pub open spec fn is_edge_flow_plan(
    g: Rewards,
    n: nat,
    start: Position,
    budget: u32,
    r: Result<PathfindingResult, PlanningError>,
) -> bool {
    if !in_bounds(n, start) {
        r == Err::<PathfindingResult, PlanningError>(PlanningError::StartOutOfBounds)
    } else {
        exists|edges: Seq<Edge>, nodes: Seq<Position>|
            {
                &&& is_reachable_subgraph(n, edges, nodes)
                &&& edges_out(n, start).is_prefix_of(edges)
                &&& match #[trigger] edge_flow_outcome(g, n, start, budget, edges, nodes) {
                    Ok(path) => r is Ok && r->Ok_0.path@ == path,
                    Err(e) => r == Err::<PathfindingResult, PlanningError>(e),
                }
            }
    }
}

/// Infeasibility on a single cell: a grid of side 1 has no move, so its
/// model has no variable and asks that no move number `budget`. The planner
/// returns the empty walk for a budget of 0 and reports infeasibility for
/// any other, without a walk cut short.
pub proof fn lemma_single_cell_plan(
    g: Rewards,
    start: Position,
    budget: u32,
    r: Result<PathfindingResult, PlanningError>,
)
    requires
        in_bounds(1, start),
        is_edge_flow_plan(g, 1, start, budget, r),
    ensures
        budget >= 1 ==> r == Err::<PathfindingResult, PlanningError>(PlanningError::Infeasible),
        budget == 0 ==> r is Ok && r->Ok_0.path@ == Seq::<PathfindingStep>::empty(),
{
    let (edges, nodes) = choose|edges: Seq<Edge>, nodes: Seq<Position>|
        {
            &&& is_reachable_subgraph(1, edges, nodes)
            &&& edges_out(1, start).is_prefix_of(edges)
            &&& match #[trigger] edge_flow_outcome(g, 1, start, budget, edges, nodes) {
                Ok(path) => r is Ok && r->Ok_0.path@ == path,
                Err(e) => r == Err::<PathfindingResult, PlanningError>(e),
            }
        };
    if edges.len() > 0 {
        assert(edges.contains(edges[0]));
        assert(is_edge(1, edges[0]));
    }
    if nodes.len() > 0 {
        assert(nodes.contains(nodes[0]));
    }
    let model = edge_flow_model(g, 1, start, budget, edges, nodes);
    let only = budget_constraint(0, budget);
    assert(model.kinds.len() == 0);
    assert(model.objective.len() == 0);
    assert(model.constraints.len() == 1);
    assert(model.constraints[0] == only);
    assert(only.terms.len() == 0);
    assert(total_magnitude(only.terms) == 0);
    assert(total_magnitude(model.objective) == 0);
    assert(constraint_valid(model.constraints[0], 0));
    assert(program_valid(model));
    assert(program_exact(model));
    assert(holds_of_nothing(model.constraints[0]) <==> budget == 0);
}

/// What `first_selected` finds is one of the cells, and the move to it is
/// used.
proof fn lemma_first_selected(
    edges: Seq<Edge>,
    values: Seq<i64>,
    from: Position,
    cells: Seq<Position>,
)
    ensures
        first_selected(edges, values, from, cells) matches Some(to) ==> cells.contains(to)
            && is_selected(edges, values, edge_of(from, to)),
    decreases cells.len(),
{
    if cells.len() > 0 {
        if is_selected(edges, values, edge_of(from, cells[0])) {
            assert(cells.contains(cells[0]));
        } else {
            lemma_first_selected(edges, values, from, cells.drop_first());
            if let Some(to) = first_selected(edges, values, from, cells.drop_first()) {
                let i = choose|i: int|
                    0 <= i < cells.drop_first().len() && cells.drop_first()[i] == to;
                assert(cells[i + 1] == to);
            }
        }
    }
}

/// The shape of the steps that follow used moves.
proof fn lemma_follow_shape(
    g: Rewards,
    n: nat,
    edges: Seq<Edge>,
    values: Seq<i64>,
    from: Position,
    steps: nat,
    taken: nat,
)
    requires
        in_bounds(n, from),
        taken + steps <= u32::MAX,
    ensures
        follow(g, n, edges, values, from, steps, taken).len() <= steps,
        follow(g, n, edges, values, from, steps, taken).len() > 0 ==> adjacent(
            from,
            follow(g, n, edges, values, from, steps, taken)[0].node,
        ) && is_selected(
            edges,
            values,
            edge_of(from, follow(g, n, edges, values, from, steps, taken)[0].node),
        ),
        forall|i: int|
            0 <= i < follow(g, n, edges, values, from, steps, taken).len() ==> {
                let s = #[trigger] follow(g, n, edges, values, from, steps, taken)[i];
                s.step == taken + i + 1 && in_bounds(n, s.node) && s.score == reward_at(g, s.node)
            },
        forall|i: int|
            0 <= i < follow(g, n, edges, values, from, steps, taken).len() - 1 ==> adjacent(
                (#[trigger] follow(g, n, edges, values, from, steps, taken)[i]).node,
                follow(g, n, edges, values, from, steps, taken)[i + 1].node,
            ) && is_selected(
                edges,
                values,
                edge_of(
                    follow(g, n, edges, values, from, steps, taken)[i].node,
                    follow(g, n, edges, values, from, steps, taken)[i + 1].node,
                ),
            ),
    decreases steps,
{
    if steps > 0 {
        lemma_first_selected(edges, values, from, neighbors(n, from));
        lemma_neighbors(n, from);
        if let Some(to) = first_selected(edges, values, from, neighbors(n, from)) {
            let whole = follow(g, n, edges, values, from, steps, taken);
            let rest = follow(g, n, edges, values, to, (steps - 1) as nat, taken + 1);
            lemma_follow_shape(g, n, edges, values, to, (steps - 1) as nat, taken + 1);
            assert(whole.len() == rest.len() + 1);
            assert forall|i: int| 0 < i < whole.len() implies whole[i] == rest[i - 1] by {}
            assert forall|i: int| 0 <= i < whole.len() implies {
                let s = #[trigger] whole[i];
                s.step == taken + i + 1 && in_bounds(n, s.node) && s.score == reward_at(g, s.node)
            } by {
                if i > 0 {
                    assert(whole[i] == rest[i - 1]);
                }
            }
            assert forall|i: int| 0 <= i < whole.len() - 1 implies adjacent(
                (#[trigger] whole[i]).node,
                whole[i + 1].node,
            ) && is_selected(edges, values, edge_of(whole[i].node, whole[i + 1].node)) by {
                assert(whole[i + 1] == rest[i]);
                if i > 0 {
                    assert(whole[i] == rest[i - 1]);
                }
            }
        }
    }
}

/// A walk read off an assignment is a walk from the start within the step
/// budget, and every move that it makes is used by the assignment.
pub proof fn lemma_decoded_walk_shape(
    g: Rewards,
    n: nat,
    start: Position,
    budget: u32,
    edges: Seq<Edge>,
    values: Seq<i64>,
)
    requires
        in_bounds(n, start),
    ensures
        is_static_walk(g, n, start, budget, decoded_walk(g, n, start, budget, edges, values)),
        follows_selected(edges, values, decoded_walk(g, n, start, budget, edges, values)),
{
    if budget > 0 {
        let whole = decoded_walk(g, n, start, budget, edges, values);
        let rest = follow(g, n, edges, values, start, (budget - 1) as nat, 1);
        lemma_follow_shape(g, n, edges, values, start, (budget - 1) as nat, 1);
        assert(whole.len() == rest.len() + 1);
        assert forall|i: int| 0 < i < whole.len() implies whole[i] == rest[i - 1] by {}
        assert forall|i: int| 0 <= i < whole.len() implies (#[trigger] whole[i]).step == i + 1
            && in_bounds(n, whole[i].node) && whole[i].score == reward_at(g, whole[i].node) by {
            if i > 0 {
                assert(whole[i] == rest[i - 1]);
            }
        }
        assert forall|i: int| 0 <= i < whole.len() - 1 implies adjacent(
            (#[trigger] whole[i]).node,
            whole[i + 1].node,
        ) && is_selected(edges, values, edge_of(whole[i].node, whole[i + 1].node)) by {
            assert(whole[i + 1] == rest[i]);
            if i > 0 {
                assert(whole[i] == rest[i - 1]);
            }
        }
    }
}

/// Every value of `x` that belongs to a move of `edges` is 0 or 1.
pub open spec fn is_choice(edges: Seq<Edge>, x: Seq<i64>) -> bool {
    &&& x.len() == edges.len()
    &&& forall|k: int| 0 <= k < x.len() ==> #[trigger] x[k] == 0 || x[k] == 1
}

/// A used move leads from `from` to one of its neighbours.
pub open spec fn has_used_move(n: nat, edges: Seq<Edge>, values: Seq<i64>, from: Position) -> bool {
    exists|j: int|
        0 <= j < neighbors(n, from).len() && is_selected(
            edges,
            values,
            edge_of(from, #[trigger] neighbors(n, from)[j]),
        )
}

/// The sum of the terms of `wanted` counts the used moves among them: with
/// the coefficient 1 it is 0 or more, at least 1 where one of the moves is
/// used, and 1 or more only where one is.
proof fn lemma_counting_sum(edges: Seq<Edge>, wanted: Seq<Edge>, x: Seq<i64>)
    requires
        edges.len() <= usize::MAX,
        is_choice(edges, x),
    ensures
        sum_of(terms_for(edges, wanted, 1), x) >= 0,
        sum_of(terms_for(edges, wanted, -1i64), x) == -sum_of(terms_for(edges, wanted, 1), x),
        forall|j: int|
            0 <= j < wanted.len() && is_selected(edges, x, #[trigger] wanted[j]) ==> sum_of(
                terms_for(edges, wanted, 1),
                x,
            ) >= 1,
        sum_of(terms_for(edges, wanted, 1), x) >= 1 ==> exists|j: int|
            0 <= j < wanted.len() && is_selected(edges, x, #[trigger] wanted[j]),
    decreases wanted.len(),
{
    if wanted.len() > 0 {
        let front = wanted.drop_last();
        let e = wanted.last();
        lemma_counting_sum(edges, front, x);
        let plus = terms_for(edges, wanted, 1);
        let minus = terms_for(edges, wanted, -1i64);
        let plus_front = terms_for(edges, front, 1);
        let minus_front = terms_for(edges, front, -1i64);
        if edges.contains(e) {
            lemma_position_exists(edges, e);
            let k = position_of(edges, e);
            assert(plus.drop_last() =~= plus_front);
            assert(minus.drop_last() =~= minus_front);
            assert(plus.last() == Term { var: k as usize, coef: 1 });
            assert(minus.last() == Term { var: k as usize, coef: -1i64 });
            assert(x[k] == 0 || x[k] == 1);
            assert(sum_of(plus, x) == sum_of(plus_front, x) + 1 * x[k]);
            assert(sum_of(minus, x) == sum_of(minus_front, x) + (-1) * x[k]);
        } else {
            assert(plus == plus_front);
            assert(minus == minus_front);
        }
        assert forall|j: int|
            0 <= j < wanted.len() && is_selected(edges, x, #[trigger] wanted[j]) implies sum_of(
            plus,
            x,
        ) >= 1 by {
            if j < front.len() {
                assert(front[j] == wanted[j]);
            }
        }
        if sum_of(plus, x) >= 1 {
            if edges.contains(e) && x[position_of(edges, e)] == 1 {
                assert(is_selected(edges, x, wanted[wanted.len() - 1]));
            } else {
                assert(sum_of(plus_front, x) >= 1);
                let j = choose|j: int|
                    0 <= j < front.len() && is_selected(edges, x, #[trigger] front[j]);
                assert(wanted[j] == front[j]);
            }
        }
    }
}

/// Where a used move leads from `from` to one of `cells`, `first_selected`
/// finds a cell.
proof fn lemma_first_selected_some(
    edges: Seq<Edge>,
    values: Seq<i64>,
    from: Position,
    cells: Seq<Position>,
    j: int,
)
    requires
        0 <= j < cells.len(),
        is_selected(edges, values, edge_of(from, cells[j])),
    ensures
        first_selected(edges, values, from, cells) is Some,
    decreases cells.len(),
{
    if !is_selected(edges, values, edge_of(from, cells[0])) {
        assert(cells.drop_first()[j - 1] == cells[j]);
        lemma_first_selected_some(edges, values, from, cells.drop_first(), j - 1);
    }
}

/// Under an assignment that the edge-flow model admits, a used move leads
/// out of the start, and out of every cell into which a used move leads.
proof fn lemma_flow_goes_on(
    g: Rewards,
    n: nat,
    start: Position,
    budget: u32,
    edges: Seq<Edge>,
    nodes: Seq<Position>,
    values: Seq<i64>,
    from: Position,
    to: Position,
)
    requires
        edges.len() <= usize::MAX,
        in_bounds(n, start),
        is_reachable_subgraph(n, edges, nodes),
        is_feasible(edge_flow_model(g, n, start, budget, edges, nodes), values),
        n >= 2,
        to == start || (is_edge(n, edge_of(from, to)) && is_selected(
            edges,
            values,
            edge_of(from, to),
        )),
    ensures
        has_used_move(n, edges, values, to),
{
    let model = edge_flow_model(g, n, start, budget, edges, nodes);
    assert(is_choice(edges, values)) by {
        assert forall|k: int| 0 <= k < values.len() implies #[trigger] values[k] == 0 || values[k]
            == 1 by {
            assert(model.kinds[k] == VariableKind::Binary);
        }
    }
    assert(in_bounds(n, to));
    assert(nodes.contains(to));
    let k = choose|k: int| 0 <= k < nodes.len() && nodes[k] == to;
    assert(model.constraints[k] == node_constraint(n, edges, start, to));
    assert(meets(model.constraints[k], values));
    let outs = edges_out(n, to);
    lemma_counting_sum(edges, outs, values);
    if to != start {
        let ins = edges_in(n, to);
        lemma_counting_sum(edges, ins, values);
        lemma_sum_concat(terms_for(edges, ins, 1), terms_for(edges, outs, -1i64), values);
        lemma_neighbors(n, to);
        lemma_neighbors(n, from);
        assert(neighbors(n, to).contains(from));
        let i = choose|i: int| 0 <= i < neighbors(n, to).len() && neighbors(n, to)[i] == from;
        assert(ins[i] == edge_of(from, to));
        assert(is_selected(edges, values, ins[i]));
        assert(sum_of(terms_for(edges, ins, 1), values) >= 1);
    }
    assert(sum_of(terms_for(edges, outs, 1), values) >= 1);
    let j = choose|j: int| 0 <= j < outs.len() && is_selected(edges, values, #[trigger] outs[j]);
    assert(outs[j] == edge_of(to, neighbors(n, to)[j]));
    assert(is_selected(edges, values, edge_of(to, neighbors(n, to)[j])));
}

/// Under an assignment that the edge-flow model admits, the steps that
/// follow used moves from a cell with a used move out of it never run out
/// of moves.
proof fn lemma_follow_is_full(
    g: Rewards,
    n: nat,
    start: Position,
    budget: u32,
    edges: Seq<Edge>,
    nodes: Seq<Position>,
    values: Seq<i64>,
    from: Position,
    steps: nat,
    taken: nat,
)
    requires
        edges.len() <= usize::MAX,
        in_bounds(n, start),
        in_bounds(n, from),
        is_reachable_subgraph(n, edges, nodes),
        is_feasible(edge_flow_model(g, n, start, budget, edges, nodes), values),
        n >= 2,
        has_used_move(n, edges, values, from),
    ensures
        follow(g, n, edges, values, from, steps, taken).len() == steps,
    decreases steps,
{
    if steps > 0 {
        let j = choose|j: int|
            0 <= j < neighbors(n, from).len() && is_selected(
                edges,
                values,
                edge_of(from, #[trigger] neighbors(n, from)[j]),
            );
        lemma_first_selected_some(edges, values, from, neighbors(n, from), j);
        lemma_first_selected(edges, values, from, neighbors(n, from));
        let to = first_selected(edges, values, from, neighbors(n, from))->Some_0;
        lemma_neighbors(n, from);
        assert(is_edge(n, edge_of(from, to)));
        lemma_flow_goes_on(g, n, start, budget, edges, nodes, values, from, to);
        lemma_follow_is_full(
            g,
            n,
            start,
            budget,
            edges,
            nodes,
            values,
            to,
            (steps - 1) as nat,
            taken + 1,
        );
    }
}

/// The walk read off an assignment that the edge-flow model admits has
/// exactly as many steps as the budget allows: where the walk arrives, a
/// used move leads on, be it one that the walk has used before. The model
/// is that of a grid of two cells or more a side, over the moves and cells
/// that the search finds.
pub proof fn lemma_feasible_walk_is_full(
    g: Rewards,
    n: nat,
    start: Position,
    budget: u32,
    edges: Seq<Edge>,
    nodes: Seq<Position>,
    values: Seq<i64>,
)
    requires
        edges.len() <= usize::MAX,
        in_bounds(n, start),
        n >= 2,
        is_reachable_subgraph(n, edges, nodes),
        is_feasible(edge_flow_model(g, n, start, budget, edges, nodes), values),
    ensures
        decoded_walk(g, n, start, budget, edges, values).len() == budget,
{
    if budget > 0 {
        lemma_flow_goes_on(g, n, start, budget, edges, nodes, values, start, start);
        lemma_follow_is_full(
            g,
            n,
            start,
            budget,
            edges,
            nodes,
            values,
            start,
            (budget - 1) as nat,
            1,
        );
    }
}

/// The first neighbour of `from` to which a used move leads.
fn next_selected(graph: &Graph, edges: &Vec<Edge>, values: &Vec<i64>, from: Position) -> (r:
    Option<Position>)
    ensures
        r == first_selected(edges@, values@, from, neighbors(graph.spec_size(), from)),
        r matches Some(to) ==> in_bounds(graph.spec_size(), to),
{
    let cells = graph.get_nodes_out(from);
    let mut k: usize = 0;
    assert(cells@.skip(0) == cells@);
    while k < cells.len()
        invariant
            k <= cells.len(),
            cells@ == neighbors(graph.spec_size(), from),
            forall|i: int|
                0 <= i < cells.len() ==> in_bounds(graph.spec_size(), #[trigger] cells[i]),
            first_selected(edges@, values@, from, cells@) == first_selected(
                edges@,
                values@,
                from,
                cells@.skip(k as int),
            ),
        decreases cells.len() - k,
    {
        let e = Edge::new(from, cells[k]);
        let used = match find_edge(edges, &e) {
            Some(i) => {
                proof {
                    lemma_position_unique(edges@, e, i as int);
                }
                i < values.len() && values[i] == 1
            },
            None => false,
        };
        proof {
            assert(cells@.skip(k as int)[0] == cells[k as int]);
            assert(cells@.skip(k as int).drop_first() == cells@.skip(k + 1));
            assert(used == is_selected(edges@, values@, edge_of(from, cells[k as int])));
        }
        if used {
            return Some(cells[k]);
        }
        k += 1;
    }
    None
}

/// Reads the walk off a solution of the edge-flow model: `values` holds the
/// value of each move's variable, in the order of `edges`.
pub fn decode_edge_flow(
    graph: &Graph,
    start: Position,
    max_timesteps: u32,
    edges: &Vec<Edge>,
    values: &Vec<i64>,
) -> (r: PathfindingResult)
    requires
        graph.wf(),
        in_bounds(graph.spec_size(), start),
    ensures
        r.path@ == decoded_walk(
            graph@,
            graph.spec_size(),
            start,
            max_timesteps,
            edges@,
            values@,
        ),
        is_static_walk(graph@, graph.spec_size(), start, max_timesteps, r.path@),
        follows_selected(edges@, values@, r.path@),
{
    let ghost n = graph.spec_size();
    let ghost whole = decoded_walk(graph@, n, start, max_timesteps, edges@, values@);
    proof {
        lemma_decoded_walk_shape(graph@, n, start, max_timesteps, edges@, values@);
    }
    let mut path: Vec<PathfindingStep> = Vec::new();
    if max_timesteps == 0 {
        return PathfindingResult { path };
    }
    let mut step: u32 = 1;
    path.push(PathfindingStep { node: start, score: *graph.get_score_at(start), step });
    let mut at = start;
    let mut stopped = false;
    while step < max_timesteps && !stopped
        invariant
            1 <= step <= max_timesteps,
            graph.wf(),
            n == graph.spec_size(),
            in_bounds(n, at),
            !stopped ==> whole == path@ + follow(
                graph@,
                n,
                edges@,
                values@,
                at,
                (max_timesteps - step) as nat,
                step as nat,
            ),
            stopped ==> whole == path@,
        decreases max_timesteps - step + (if stopped { 0int } else { 1int }),
    {
        let ghost tail = follow(
            graph@,
            n,
            edges@,
            values@,
            at,
            (max_timesteps - step) as nat,
            step as nat,
        );
        match next_selected(graph, edges, values, at) {
            None => {
                stopped = true;
                assert(whole =~= path@);
            },
            Some(to) => {
                step += 1;
                let here = PathfindingStep { node: to, score: *graph.get_score_at(to), step };
                proof {
                    let rest = follow(
                        graph@,
                        n,
                        edges@,
                        values@,
                        to,
                        (max_timesteps - step) as nat,
                        step as nat,
                    );
                    assert(tail =~= seq![here] + rest);
                    assert(whole =~= path@.push(here) + rest);
                }
                path.push(here);
                at = to;
            },
        }
    }
    proof {
        if !stopped {
            assert(whole =~= path@);
        }
    }
    PathfindingResult { path }
}

impl Graph {
    /// Plans a walk from `start` with the exact edge-flow model: explores
    /// the grid from `start`, builds the model over the moves found, hands it
    /// to the solver and reads the walk off the solution.
    ///
    /// Whether the solver finds a solution, and which, is its own doing:
    /// the result is the walk read off the solver's values for the model,
    /// or the solver's reason for giving none. A model whose rewards the
    /// solver cannot add up exactly is refused as too large.
    pub fn lp(&self, start: Position, max_timesteps: u32) -> (r: Result<
        PathfindingResult,
        PlanningError,
    >)
        requires
            self.wf(),
        ensures
            is_edge_flow_plan(self@, self.spec_size(), start, max_timesteps, r),
            self.spec_size() == 1 && in_bounds(self.spec_size(), start) && max_timesteps >= 1
                ==> r == Err::<PathfindingResult, PlanningError>(PlanningError::Infeasible),
            match r {
                Ok(found) => {
                    &&& in_bounds(self.spec_size(), start)
                    &&& is_static_walk(self@, self.spec_size(), start, max_timesteps, found.path@)
                    &&& is_decoded_walk(self@, self.spec_size(), start, max_timesteps, found.path@)
                },
                Err(e) => {
                    &&& e is StartOutOfBounds <==> !in_bounds(self.spec_size(), start)
                    &&& e is StartOutOfBounds || e is TooLarge || e is Infeasible || e is Unbounded
                        || e is Solver
                },
            },
    {
        if start.0 >= self.size() || start.1 >= self.size() {
            return Err(PlanningError::StartOutOfBounds);
        }
        let subgraph = reachable_subgraph(self, start);
        proof {
            assert forall|k: int| 0 <= k < subgraph.edges.len() implies in_bounds(
                self.spec_size(),
                (#[trigger] subgraph.edges[k]).to,
            ) by {
                assert(subgraph.edges@.contains(subgraph.edges[k]));
            }
        }
        let program = edge_flow_program(self, start, max_timesteps, &subgraph);
        let r = match solve(&program) {
            Ok(values) => {
                let found = decode_edge_flow(self, start, max_timesteps, &subgraph.edges, &values);
                Ok(found)
            },
            Err(e) => Err(e),
        };
        proof {
            let outcome = edge_flow_outcome(
                self@,
                self.spec_size(),
                start,
                max_timesteps,
                subgraph.edges@,
                subgraph.nodes@,
            );
            assert(match outcome {
                Ok(path) => r is Ok && r->Ok_0.path@ == path,
                Err(e) => r == Err::<PathfindingResult, PlanningError>(e),
            });
            if self.spec_size() == 1 {
                lemma_single_cell_plan(self@, start, max_timesteps, r);
            }
        }
        r
    }
}

} // verus!
