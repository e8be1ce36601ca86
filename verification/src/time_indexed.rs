//! The exact time-indexed planner: it hands the time-indexed model to the
//! solver and reads the walk off the solution.
//!
//! The walk is read off the `visit` variables. It begins on the start at
//! time 0; at each later time it goes to the first cell in row-major order
//! on which the solution makes it stand, and it ends at the first time at
//! which it stands nowhere. Each step collects what its cell holds by then,
//! under the same visits and recoveries as the greedy walker's.
//!
//! As the model puts a walk that leaves a cell on every neighbour of that
//! cell, two steps of the walk read off need not lie next to each other.

use crate::dynamics::{
    after_step, changes_of, lemma_apply_changes_concat, lemma_changes_of_concat,
    lemma_changes_of_one, rewards_before,
};
use crate::grid::{
    in_bounds, lemma_neighbors, neighbors, reward_at, row_major_less, Graph, Position, Rewards,
};
use crate::path::{PathfindingResult, PathfindingStep};
use crate::program::{
    is_feasible, lemma_sum_concat, meets, solve, solve_outcome, sum_of, ConstraintModel,
    PlanningError, ProgramModel, Term, VariableKind,
};
use crate::time_model::{
    arrival, family_size, index_of_var, is_model_constraint, is_step_constraint, lemma_var_index,
    move_var, start_move, term, time_indexed_kinds, time_indexed_model, time_indexed_program,
    visit_var,
};
use vstd::prelude::*;

verus! {

/// The assignment `values` says that the walk stands on `cell` at time `t`.
pub open spec fn is_visited(
    n: nat,
    horizon: nat,
    values: Seq<i64>,
    cell: Position,
    t: nat,
) -> bool {
    visit_var(n, horizon, cell, t) < values.len() && values[visit_var(n, horizon, cell, t) as int]
        == 1
}

/// `cell` is the first cell in row-major order on which the walk stands at
/// time `t`.
pub open spec fn is_first_visited(
    n: nat,
    horizon: nat,
    values: Seq<i64>,
    t: nat,
    cell: Position,
) -> bool {
    &&& in_bounds(n, cell)
    &&& is_visited(n, horizon, values, cell, t)
    &&& forall|other: Position|
        in_bounds(n, other) && row_major_less(other, cell) ==> !#[trigger] is_visited(
            n,
            horizon,
            values,
            other,
            t,
        )
}

/// The first cell in row-major order on which the walk stands at time `t`,
/// if it stands on any.
pub open spec fn first_visited(n: nat, horizon: nat, values: Seq<i64>, t: nat) -> Option<Position> {
    if exists|cell: Position| is_first_visited(n, horizon, values, t, cell) {
        Some(choose|cell: Position| is_first_visited(n, horizon, values, t, cell))
    } else {
        None
    }
}

/// The steps read off `values` from time `t` on, over the rewards `g` that
/// the grid holds at that time: one step for each timestep, to the first
/// cell on which the walk stands then, until a timestep has no such cell or
/// the horizon ends. Each step collects what its cell holds when the walk
/// arrives, and the grid changes as it does under the greedy walker.
pub open spec fn replay(
    g: Rewards,
    n: nat,
    horizon: nat,
    values: Seq<i64>,
    rate: u32,
    t: nat,
) -> Seq<PathfindingStep>
    decreases horizon - t,
{
    if t >= horizon {
        Seq::empty()
    } else {
        match first_visited(n, horizon, values, t) {
            None => Seq::empty(),
            Some(cell) => seq![
                PathfindingStep { node: cell, score: reward_at(g, cell), step: (t + 1) as u32 },
            ] + replay(after_step(g, cell, rate), n, horizon, values, rate, t + 1),
        }
    }
}

/// The walk read off a solution of the time-indexed model: it begins on
/// `start` at time 0 and goes on as `replay` says.
pub open spec fn time_indexed_walk(
    g: Rewards,
    n: nat,
    start: Position,
    horizon: nat,
    rate: u32,
    values: Seq<i64>,
) -> Seq<PathfindingStep> {
    if horizon == 0 {
        Seq::empty()
    } else {
        seq![PathfindingStep { node: start, score: reward_at(g, start), step: 1 }] + replay(
            after_step(g, start, rate),
            n,
            horizon,
            values,
            rate,
            1,
        )
    }
}

/// `r` is what the time-indexed planner returns for a walk of `budget` steps
/// from `start`. A start outside the grid is refused; a budget of 0 is
/// infeasible, as a model over no timestep cannot make the walk leave the
/// start; a model with more variables than can be indexed is too large. For
/// anything else the result is the walk read off the values that solving
/// the model gives, or the reason why solving gives none.
pub open spec fn is_time_indexed_plan(
    g: Rewards,
    n: nat,
    start: Position,
    budget: u32,
    rate: u32,
    r: Result<PathfindingResult, PlanningError>,
) -> bool {
    if !in_bounds(n, start) {
        r == Err::<PathfindingResult, PlanningError>(PlanningError::StartOutOfBounds)
    } else if budget == 0 {
        r == Err::<PathfindingResult, PlanningError>(PlanningError::Infeasible)
    } else if 4 * family_size(n, budget as nat) > usize::MAX {
        r == Err::<PathfindingResult, PlanningError>(PlanningError::TooLarge)
    } else {
        match solve_outcome(time_indexed_model(g, n, budget as nat, rate, start)) {
            Ok(values) => r is Ok && r->Ok_0.path@ == time_indexed_walk(
                g,
                n,
                start,
                budget as nat,
                rate,
                values,
            ),
            Err(e) => r == Err::<PathfindingResult, PlanningError>(e),
        }
    }
}

/// `path` has at most `budget` steps, numbered from 1 without a gap, each on
/// a cell of the grid, the first on `start`.
pub open spec fn is_trajectory(
    n: nat,
    start: Position,
    budget: nat,
    path: Seq<PathfindingStep>,
) -> bool {
    &&& path.len() <= budget
    &&& budget >= 1 ==> path.len() >= 1 && path[0].node == start
    &&& forall|i: int|
        0 <= i < path.len() ==> (#[trigger] path[i]).step == i + 1 && in_bounds(n, path[i].node)
}

/// Only one cell is the first on which the walk stands.
pub proof fn lemma_first_visited_unique(
    n: nat,
    horizon: nat,
    values: Seq<i64>,
    t: nat,
    cell: Position,
)
    requires
        is_first_visited(n, horizon, values, t, cell),
    ensures
        first_visited(n, horizon, values, t) == Some(cell),
{
    let other = choose|other: Position| is_first_visited(n, horizon, values, t, other);
    assert(is_first_visited(n, horizon, values, t, other));
    if other != cell {
        if row_major_less(other, cell) {
            assert(!is_visited(n, horizon, values, other, t));
        } else {
            assert(row_major_less(cell, other));
            assert(!is_visited(n, horizon, values, cell, t));
        }
    }
}

/// Where the walk stands on some cell at time `t`, there is a first such
/// cell in row-major order.
pub proof fn lemma_first_visited_exists(
    n: nat,
    horizon: nat,
    values: Seq<i64>,
    t: nat,
    cell: Position,
)
    requires
        in_bounds(n, cell),
        is_visited(n, horizon, values, cell, t),
    ensures
        first_visited(n, horizon, values, t) is Some,
    decreases cell.0, cell.1,
{
    if exists|other: Position|
        in_bounds(n, other) && row_major_less(other, cell) && is_visited(
            n,
            horizon,
            values,
            other,
            t,
        ) {
        let other = choose|other: Position|
            in_bounds(n, other) && row_major_less(other, cell) && is_visited(
                n,
                horizon,
                values,
                other,
                t,
            );
        lemma_first_visited_exists(n, horizon, values, t, other);
    } else {
        assert(is_first_visited(n, horizon, values, t, cell));
    }
}

/// A sum of terms with the coefficient -1 over variables that hold 0 or 1 is
/// 0 or less, and -1 or less where one of the variables holds 1.
proof fn lemma_negative_sum(terms: Seq<Term>, x: Seq<i64>)
    requires
        forall|k: int|
            0 <= k < terms.len() ==> (#[trigger] terms[k]).coef == -1 && terms[k].var < x.len() && (
            x[terms[k].var as int] == 0 || x[terms[k].var as int] == 1),
    ensures
        sum_of(terms, x) <= 0,
        forall|k: int|
            0 <= k < terms.len() && x[(#[trigger] terms[k]).var as int] == 1 ==> sum_of(terms, x)
                <= -1,
    decreases terms.len(),
{
    if terms.len() > 0 {
        let front = terms.drop_last();
        assert forall|k: int| 0 <= k < front.len() implies (#[trigger] front[k]).coef == -1
            && front[k].var < x.len() && (x[front[k].var as int] == 0 || x[front[k].var as int]
            == 1) by {
            assert(front[k] == terms[k]);
        }
        lemma_negative_sum(front, x);
        let last = terms[terms.len() - 1];
        assert(sum_of(terms, x) == sum_of(front, x) + (-1) * x[last.var as int]);
        assert forall|k: int|
            0 <= k < terms.len() && x[(#[trigger] terms[k]).var as int] == 1 implies sum_of(
            terms,
            x,
        ) <= -1 by {
            if k < front.len() {
                assert(front[k] == terms[k]);
            }
        }
    }
}

/// Under an assignment that the time-indexed model admits, the walk stands
/// at time 1 on every neighbour of the start: the model makes the walk leave
/// the start at time 0 and puts it on every cell next to a cell that it
/// leaves. So on a grid of two cells or more a side, with a budget of two
/// steps or more, the walk read off the assignment has at least two steps.
pub proof fn lemma_feasible_walk_arrives(
    g: Rewards,
    n: nat,
    start: Position,
    horizon: nat,
    rate: u32,
    p: ProgramModel,
    values: Seq<i64>,
)
    requires
        in_bounds(n, start),
        n >= 2,
        2 <= horizon <= u32::MAX,
        4 * family_size(n, horizon) <= usize::MAX,
        p.kinds == time_indexed_kinds(n, horizon),
        forall|c: ConstraintModel|
            is_model_constraint(g, n, horizon, rate, start, c) ==> p.constraints.contains(c),
        is_feasible(p, values),
    ensures
        forall|j: int|
            0 <= j < neighbors(n, start).len() ==> is_visited(
                n,
                horizon,
                values,
                #[trigger] neighbors(n, start)[j],
                1,
            ),
        time_indexed_walk(g, n, start, horizon, rate, values).len() >= 2,
{
    lemma_neighbors(n, start);
    // the walk leaves the start at time 0
    let leaving = start_move(n, horizon, start);
    assert(p.constraints.contains(leaving));
    let at = choose|k: int| 0 <= k < p.constraints.len() && p.constraints[k] == leaving;
    assert(meets(p.constraints[at], values));
    assert(leaving.terms.drop_last() =~= Seq::<Term>::empty());
    lemma_var_index(n, horizon, 0, start, 0);
    let left = move_var(n, horizon, start, 0);
    assert(leaving.terms.last() == term(left, 1));
    assert(term(left, 1).var == left && term(left, 1).coef == 1);
    assert(sum_of(leaving.terms.drop_last(), values) == 0);
    assert(sum_of(leaving.terms, values) == 0 + 1 * values[left as int]);
    assert(values[left as int] == 1);
    assert forall|j: int| 0 <= j < neighbors(n, start).len() implies is_visited(
        n,
        horizon,
        values,
        #[trigger] neighbors(n, start)[j],
        1,
    ) by {
        let q = neighbors(n, start)[j];
        let tie = arrival(n, horizon, q, 1);
        assert(is_step_constraint(g, n, horizon, rate, q, 1, tie));
        assert(is_model_constraint(g, n, horizon, rate, start, tie));
        assert(p.constraints.contains(tie));
        let k = choose|k: int| 0 <= k < p.constraints.len() && p.constraints[k] == tie;
        assert(meets(p.constraints[k], values));
        lemma_var_index(n, horizon, 1, q, 1);
        let standing = visit_var(n, horizon, q, 1);
        let head = seq![term(standing, 1)];
        let tail = neighbors(n, q).map_values(
            |r: Position| term(move_var(n, horizon, r, 0), -1),
        );
        assert(tie.terms == head + tail);
        lemma_sum_concat(head, tail, values);
        assert(head.drop_last() =~= Seq::<Term>::empty());
        assert(head.last() == term(standing, 1));
        assert(term(standing, 1).var == standing && term(standing, 1).coef == 1);
        assert(sum_of(head.drop_last(), values) == 0);
        assert(sum_of(head, values) == 0 + 1 * values[standing as int]);
        lemma_neighbors(n, q);
        assert forall|i: int| 0 <= i < tail.len() implies (#[trigger] tail[i]).coef == -1
            && tail[i].var < values.len() && (values[tail[i].var as int] == 0
            || values[tail[i].var as int] == 1) by {
            let r = neighbors(n, q)[i];
            lemma_var_index(n, horizon, 0, r, 0);
            assert(p.kinds[move_var(n, horizon, r, 0) as int] == VariableKind::Binary);
        }
        lemma_negative_sum(tail, values);
        assert(neighbors(n, q).contains(start));
        let i = choose|i: int| 0 <= i < neighbors(n, q).len() && neighbors(n, q)[i] == start;
        assert(tail[i].var == left);
        assert(sum_of(tail, values) <= -1);
        assert(p.kinds[standing as int] == VariableKind::Binary);
        assert(values[standing as int] == 1);
    }
    let other: Position = if start.0 == 0 {
        (1usize, start.1)
    } else {
        ((start.0 - 1) as usize, start.1)
    };
    assert(neighbors(n, start).contains(other));
    let j = choose|j: int| 0 <= j < neighbors(n, start).len() && neighbors(n, start)[j] == other;
    assert(is_visited(n, horizon, values, neighbors(n, start)[j], 1));
    lemma_first_visited_exists(n, horizon, values, 1, other);
}

/// The shape of the steps that `replay` reads.
proof fn lemma_replay_shape(
    g: Rewards,
    n: nat,
    horizon: nat,
    values: Seq<i64>,
    rate: u32,
    t: nat,
)
    requires
        horizon <= u32::MAX,
        t <= horizon,
    ensures
        replay(g, n, horizon, values, rate, t).len() <= horizon - t,
        forall|i: int|
            0 <= i < replay(g, n, horizon, values, rate, t).len() ==> (#[trigger] replay(
                g,
                n,
                horizon,
                values,
                rate,
                t,
            )[i]).step == t + i + 1 && in_bounds(n, replay(g, n, horizon, values, rate, t)[i].node),
    decreases horizon - t,
{
    if t < horizon {
        if let Some(cell) = first_visited(n, horizon, values, t) {
            assert(is_first_visited(n, horizon, values, t, cell));
            let whole = replay(g, n, horizon, values, rate, t);
            let rest = replay(after_step(g, cell, rate), n, horizon, values, rate, t + 1);
            lemma_replay_shape(after_step(g, cell, rate), n, horizon, values, rate, t + 1);
            assert(whole.len() == rest.len() + 1);
            assert forall|i: int| 0 <= i < whole.len() implies (#[trigger] whole[i]).step == t + i
                + 1 && in_bounds(n, whole[i].node) by {
                if i > 0 {
                    assert(whole[i] == rest[i - 1]);
                }
            }
        }
    }
}

/// A walk read off a solution of the time-indexed model is a trajectory
/// from the start within the step budget.
pub proof fn lemma_time_indexed_walk_shape(
    g: Rewards,
    n: nat,
    start: Position,
    horizon: nat,
    rate: u32,
    values: Seq<i64>,
)
    requires
        in_bounds(n, start),
        horizon <= u32::MAX,
    ensures
        is_trajectory(n, start, horizon, time_indexed_walk(g, n, start, horizon, rate, values)),
{
    if horizon > 0 {
        let whole = time_indexed_walk(g, n, start, horizon, rate, values);
        let rest = replay(after_step(g, start, rate), n, horizon, values, rate, 1);
        lemma_replay_shape(after_step(g, start, rate), n, horizon, values, rate, 1);
        assert(whole.len() == rest.len() + 1);
        assert forall|i: int| 0 <= i < whole.len() implies (#[trigger] whole[i]).step == i + 1
            && in_bounds(n, whole[i].node) by {
            if i > 0 {
                assert(whole[i] == rest[i - 1]);
            }
        }
    }
}

/// Every step that `replay` reads collects what its cell holds at that
/// time: the reward in `g` after the visits and recoveries of the steps
/// before.
proof fn lemma_replay_collects(
    g: Rewards,
    n: nat,
    horizon: nat,
    values: Seq<i64>,
    rate: u32,
    t: nat,
    i: int,
)
    requires
        0 <= i < replay(g, n, horizon, values, rate, t).len(),
    ensures
        replay(g, n, horizon, values, rate, t)[i].score == reward_at(
            rewards_before(g, replay(g, n, horizon, values, rate, t), rate, i),
            replay(g, n, horizon, values, rate, t)[i].node,
        ),
    decreases horizon - t,
{
    let walk = replay(g, n, horizon, values, rate, t);
    if i == 0 {
        assert(walk.take(0) =~= Seq::<PathfindingStep>::empty());
    } else {
        let cell = first_visited(n, horizon, values, t)->Some_0;
        let here = PathfindingStep { node: cell, score: reward_at(g, cell), step: (t + 1) as u32 };
        let after = after_step(g, cell, rate);
        let rest = replay(after, n, horizon, values, rate, t + 1);
        assert(walk == seq![here] + rest);
        assert(walk[i] == rest[i - 1]);
        lemma_replay_collects(after, n, horizon, values, rate, t + 1, i - 1);
        assert(walk.take(i) =~= seq![here] + rest.take(i - 1));
        lemma_changes_of_concat(seq![here], rest.take(i - 1), rate);
        lemma_apply_changes_concat(
            g,
            changes_of(seq![here], rate),
            changes_of(rest.take(i - 1), rate),
        );
        lemma_changes_of_one(g, here, rate);
    }
}

/// Every step of a walk read off a solution of the time-indexed model
/// collects what its cell holds at that time: the reward in the grid after
/// the visits and recoveries of the steps before.
pub proof fn lemma_time_indexed_walk_collects(
    g: Rewards,
    n: nat,
    start: Position,
    horizon: nat,
    rate: u32,
    values: Seq<i64>,
    i: int,
)
    requires
        0 <= i < time_indexed_walk(g, n, start, horizon, rate, values).len(),
    ensures
        time_indexed_walk(g, n, start, horizon, rate, values)[i].score == reward_at(
            rewards_before(g, time_indexed_walk(g, n, start, horizon, rate, values), rate, i),
            time_indexed_walk(g, n, start, horizon, rate, values)[i].node,
        ),
{
    let walk = time_indexed_walk(g, n, start, horizon, rate, values);
    if i == 0 {
        assert(walk.take(0) =~= Seq::<PathfindingStep>::empty());
    } else {
        let here = PathfindingStep { node: start, score: reward_at(g, start), step: 1 };
        let after = after_step(g, start, rate);
        let rest = replay(after, n, horizon, values, rate, 1);
        assert(walk == seq![here] + rest);
        assert(walk[i] == rest[i - 1]);
        lemma_replay_collects(after, n, horizon, values, rate, 1, i - 1);
        assert(walk.take(i) =~= seq![here] + rest.take(i - 1));
        lemma_changes_of_concat(seq![here], rest.take(i - 1), rate);
        lemma_apply_changes_concat(
            g,
            changes_of(seq![here], rate),
            changes_of(rest.take(i - 1), rate),
        );
        lemma_changes_of_one(g, here, rate);
    }
}

/// The first cell in row-major order on which the walk stands at time `t`.
fn find_first_visited(n: usize, horizon: usize, m: usize, values: &Vec<i64>, t: usize) -> (r:
    Option<Position>)
    requires
        t < horizon,
        m == family_size(n as nat, horizon as nat),
        4 * m <= usize::MAX,
        values.len() == 4 * m,
    ensures
        r == first_visited(n as nat, horizon as nat, values@, t as nat),
        r matches Some(cell) ==> in_bounds(n as nat, cell),
{
    let ghost nn = n as nat;
    let ghost h = horizon as nat;
    let ghost tt = t as nat;
    let mut i: usize = 0;
    while i < n
        invariant
            i <= n,
            t < horizon,
            nn == n,
            h == horizon,
            tt == t,
            m == family_size(nn, h),
            4 * m <= usize::MAX,
            values.len() == 4 * m,
            forall|other: Position|
                in_bounds(nn, other) && other.0 < i ==> !#[trigger] is_visited(
                    nn,
                    h,
                    values@,
                    other,
                    tt,
                ),
        decreases n - i,
    {
        let mut j: usize = 0;
        while j < n
            invariant
                j <= n,
                i < n,
                t < horizon,
                nn == n,
                h == horizon,
                tt == t,
                m == family_size(nn, h),
                4 * m <= usize::MAX,
                values.len() == 4 * m,
                forall|other: Position|
                    in_bounds(nn, other) && (other.0 < i || (other.0 == i && other.1 < j))
                        ==> !#[trigger] is_visited(nn, h, values@, other, tt),
            decreases n - j,
        {
            let k = index_of_var(n, horizon, m, 1, (i, j), t);
            if values[k] == 1 {
                proof {
                    let here: Position = (i, j);
                    assert(is_visited(nn, h, values@, here, tt));
                    assert(is_first_visited(nn, h, values@, tt, here));
                    lemma_first_visited_unique(nn, h, values@, tt, here);
                }
                return Some((i, j));
            }
            proof {
                let here: Position = (i, j);
                assert(!is_visited(nn, h, values@, here, tt));
                assert forall|other: Position|
                    in_bounds(nn, other) && (other.0 < i || (other.0 == i && other.1 < j + 1))
                    implies !#[trigger] is_visited(nn, h, values@, other, tt) by {
                    if other.0 == i && other.1 == j {
                        assert(other == here);
                    }
                }
            }
            j += 1;
        }
        i += 1;
    }
    proof {
        if exists|cell: Position| is_first_visited(nn, h, values@, tt, cell) {
            let cell = choose|cell: Position| is_first_visited(nn, h, values@, tt, cell);
            assert(is_visited(nn, h, values@, cell, tt));
        }
    }
    None
}

/// Reads the walk off a solution of the time-indexed model: `values` holds
/// the value of every variable of the model for `max_timesteps` timesteps,
/// in the order of the model.
pub fn decode_time_indexed(
    graph: &Graph,
    start: Position,
    max_timesteps: u32,
    recovery_rate: u32,
    values: &Vec<i64>,
) -> (r: PathfindingResult)
    requires
        graph.wf(),
        in_bounds(graph.spec_size(), start),
        values.len() == 4 * family_size(graph.spec_size(), max_timesteps as nat),
    ensures
        r.path@ == time_indexed_walk(
            graph@,
            graph.spec_size(),
            start,
            max_timesteps as nat,
            recovery_rate,
            values@,
        ),
        is_trajectory(graph.spec_size(), start, max_timesteps as nat, r.path@),
        forall|i: int|
            0 <= i < r.path.len() ==> (#[trigger] r.path[i]).score == reward_at(
                rewards_before(graph@, r.path@, recovery_rate, i),
                r.path[i].node,
            ),
{
    let n = graph.size();
    let horizon = max_timesteps as usize;
    let ghost nn = graph.spec_size();
    let ghost h = horizon as nat;
    let ghost whole = time_indexed_walk(graph@, nn, start, h, recovery_rate, values@);
    proof {
        lemma_time_indexed_walk_shape(graph@, nn, start, h, recovery_rate, values@);
        assert forall|i: int| 0 <= i < whole.len() implies (#[trigger] whole[i]).score
            == reward_at(rewards_before(graph@, whole, recovery_rate, i), whole[i].node) by {
            lemma_time_indexed_walk_collects(graph@, nn, start, h, recovery_rate, values@, i);
        }
    }
    let mut path: Vec<PathfindingStep> = Vec::new();
    if max_timesteps == 0 {
        return PathfindingResult { path };
    }
    let m = values.len() / 4;
    path.push(PathfindingStep { node: start, score: *graph.get_score_at(start), step: 1 });
    let mut current = graph.reset_score(start).recover_for(recovery_rate, start);
    let mut t: usize = 1;
    let mut stopped = false;
    while t < horizon && !stopped
        invariant
            1 <= t <= horizon,
            horizon == max_timesteps,
            h == horizon,
            nn == n,
            current.wf(),
            current.spec_size() == nn,
            m == family_size(nn, h),
            4 * m <= usize::MAX,
            values.len() == 4 * m,
            !stopped ==> whole == path@ + replay(current@, nn, h, values@, recovery_rate, t as nat),
            stopped ==> whole == path@,
        decreases horizon - t + (if stopped { 0int } else { 1int }),
    {
        let ghost tail = replay(current@, nn, h, values@, recovery_rate, t as nat);
        match find_first_visited(n, horizon, m, values, t) {
            None => {
                stopped = true;
                assert(whole =~= path@);
            },
            Some(cell) => {
                let here = PathfindingStep {
                    node: cell,
                    score: *current.get_score_at(cell),
                    step: (t + 1) as u32,
                };
                let next = current.reset_score(cell).recover_for(recovery_rate, cell);
                proof {
                    let rest = replay(next@, nn, h, values@, recovery_rate, (t + 1) as nat);
                    assert(tail =~= seq![here] + rest);
                    assert(whole =~= path@.push(here) + rest);
                }
                path.push(here);
                current = next;
                t += 1;
            },
        }
    }
    proof {
        if !stopped {
            assert(whole =~= path@);
        }
    }
    PathfindingResult { path }
}

impl Graph {
    /// Plans a walk from `start` with the exact time-indexed model: builds
    /// the model, hands it to the solver and reads the walk off the
    /// solution.
    ///
    /// Whether the solver finds a solution, and which, is its own doing:
    /// the result is the walk read off the solver's values for the model,
    /// or the solver's reason for giving none. A model that cannot be
    /// indexed, or whose numbers the solver cannot add up exactly, is
    /// refused as too large.
    pub fn path_planning_lp(&self, start: Position, max_timesteps: u32, recovery_rate: u32) -> (r:
        Result<PathfindingResult, PlanningError>)
        requires
            self.wf(),
        ensures
            match r {
                Ok(found) => {
                    &&& in_bounds(self.spec_size(), start)
                    &&& max_timesteps >= 1
                    &&& is_trajectory(self.spec_size(), start, max_timesteps as nat, found.path@)
                    &&& exists|values: Seq<i64>|
                        values.len() == 4 * family_size(self.spec_size(), max_timesteps as nat)
                            && found.path@ == #[trigger] time_indexed_walk(
                            self@,
                            self.spec_size(),
                            start,
                            max_timesteps as nat,
                            recovery_rate,
                            values,
                        )
                },
                Err(e) => {
                    &&& e is StartOutOfBounds <==> !in_bounds(self.spec_size(), start)
                    &&& in_bounds(self.spec_size(), start) && max_timesteps == 0 ==> e is Infeasible
                    &&& e is StartOutOfBounds || e is TooLarge || e is Infeasible || e is Unbounded
                        || e is Solver
                },
            },
            is_time_indexed_plan(
                self@,
                self.spec_size(),
                start,
                max_timesteps,
                recovery_rate,
                r,
            ),
    {
        let program = match time_indexed_program(self, start, max_timesteps, recovery_rate) {
            Err(e) => {
                return Err(e);
            },
            Ok(program) => program,
        };
        match solve(&program) {
            Ok(values) => {
                let found = decode_time_indexed(
                    self,
                    start,
                    max_timesteps,
                    recovery_rate,
                    &values,
                );
                Ok(found)
            },
            Err(e) => Err(e),
        }
    }
}

} // verus!
