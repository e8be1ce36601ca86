//! The model of the exact time-indexed planner: for every cell and every
//! timestep of the horizon it holds four variables, so that it can follow
//! how each reward recovers while the walk is under way.
//!
//! - `move`: 1 if the walk leaves the cell at that time;
//! - `visit`: 1 if the walk stands on the cell at that time;
//! - `score`: the reward that the cell holds at that time;
//! - `collected`: the reward that the walk banks on the cell at that time.
//!
//! The variables are laid out family by family in this order, within a
//! family cell by cell in row-major order, and within a cell by timestep.
//!
//! The model does not say where a move leads: a walk that leaves a cell is
//! put on every neighbour of that cell.

use crate::grid::{in_bounds, lemma_neighbors, neighbors, reward_at, Graph, Position, Rewards};
use crate::program::{
    constraint_valid, magnitude_limit, program_valid, ConstraintModel, LinearConstraint,
    LinearProgram, PlanningError, ProgramModel, Relation, Term, VariableKind,
};
use crate::sequences::lemma_concat_contains;
use vstd::prelude::*;

verus! {

/// The number of variables of one family.
pub open spec fn family_size(n: nat, horizon: nat) -> nat {
    n * n * horizon
}

/// The position of the variable of `family` for `cell` at time `t`.
pub open spec fn var_index(n: nat, horizon: nat, family: nat, cell: Position, t: nat) -> nat {
    (family * family_size(n, horizon) + (cell.0 * n + cell.1) * horizon + t) as nat
}

/// The variable that says whether the walk leaves `cell` at time `t`.
pub open spec fn move_var(n: nat, horizon: nat, cell: Position, t: nat) -> nat {
    var_index(n, horizon, 0, cell, t)
}

/// The variable that says whether the walk stands on `cell` at time `t`.
pub open spec fn visit_var(n: nat, horizon: nat, cell: Position, t: nat) -> nat {
    var_index(n, horizon, 1, cell, t)
}

/// The variable that holds the reward of `cell` at time `t`.
pub open spec fn score_var(n: nat, horizon: nat, cell: Position, t: nat) -> nat {
    var_index(n, horizon, 2, cell, t)
}

/// The variable that holds the reward banked on `cell` at time `t`.
pub open spec fn collected_var(n: nat, horizon: nat, cell: Position, t: nat) -> nat {
    var_index(n, horizon, 3, cell, t)
}

/// `coef` times the variable at position `var`.
pub open spec fn term(var: nat, coef: int) -> Term {
    Term { var: var as usize, coef: coef as i64 }
}

/// The walk leaves the start at time 0.
pub open spec fn start_move(n: nat, horizon: nat, start: Position) -> ConstraintModel {
    ConstraintModel {
        terms: seq![term(move_var(n, horizon, start, 0), 1)],
        relation: Relation::Equal,
        bound: 1,
    }
}

/// At time 0 the cell holds its reward in the grid.
pub open spec fn initial_score(
    g: Rewards,
    n: nat,
    horizon: nat,
    cell: Position,
) -> ConstraintModel {
    ConstraintModel {
        terms: seq![term(score_var(n, horizon, cell, 0), 1)],
        relation: Relation::Equal,
        bound: reward_at(g, cell) as int,
    }
}

/// From one timestep to the next the reward of a cell grows by `rate`,
/// unless the walk stands on it: `score[t-1] + rate * (1 - visit[t]) ==
/// score[t]`.
pub open spec fn recurrence(
    n: nat,
    horizon: nat,
    rate: u32,
    cell: Position,
    t: nat,
) -> ConstraintModel {
    ConstraintModel {
        terms: seq![
            term(score_var(n, horizon, cell, (t - 1) as nat), 1),
            term(visit_var(n, horizon, cell, t), -(rate as int)),
            term(score_var(n, horizon, cell, t), -1),
        ],
        relation: Relation::Equal,
        bound: -(rate as int),
    }
}

/// The walk stands on a cell at time `t` exactly if it left a neighbour of
/// the cell at time `t - 1`: `visit[t]` equals the sum of `move[t-1]` over
/// the neighbours.
pub open spec fn arrival(n: nat, horizon: nat, cell: Position, t: nat) -> ConstraintModel {
    ConstraintModel {
        terms: seq![term(visit_var(n, horizon, cell, t), 1)] + neighbors(n, cell).map_values(
            |q: Position| term(move_var(n, horizon, q, (t - 1) as nat), -1),
        ),
        relation: Relation::Equal,
        bound: 0,
    }
}

/// What is banked is at most what the cell holds: `collected <= score`.
pub open spec fn banked_below_score(
    n: nat,
    horizon: nat,
    cell: Position,
    t: nat,
) -> ConstraintModel {
    ConstraintModel {
        terms: seq![
            term(collected_var(n, horizon, cell, t), 1),
            term(score_var(n, horizon, cell, t), -1),
        ],
        relation: Relation::AtMost,
        bound: 0,
    }
}

/// Nothing is banked on a cell on which the walk does not stand:
/// `collected <= visit * reward`, with the reward of the cell in the grid.
pub open spec fn banked_below_reward(
    g: Rewards,
    n: nat,
    horizon: nat,
    cell: Position,
    t: nat,
) -> ConstraintModel {
    ConstraintModel {
        terms: seq![
            term(collected_var(n, horizon, cell, t), 1),
            term(visit_var(n, horizon, cell, t), -(reward_at(g, cell) as int)),
        ],
        relation: Relation::AtMost,
        bound: 0,
    }
}

/// `collected <= score - (1 - visit) * reward`, with the reward of the cell
/// in the grid.
pub open spec fn banked_when_visited(
    g: Rewards,
    n: nat,
    horizon: nat,
    cell: Position,
    t: nat,
) -> ConstraintModel {
    ConstraintModel {
        terms: seq![
            term(collected_var(n, horizon, cell, t), 1),
            term(score_var(n, horizon, cell, t), -1),
            term(visit_var(n, horizon, cell, t), -(reward_at(g, cell) as int)),
        ],
        relation: Relation::AtMost,
        bound: -(reward_at(g, cell) as int),
    }
}

/// Nothing negative is banked: `collected >= 0`.
pub open spec fn banked_nonnegative(
    n: nat,
    horizon: nat,
    cell: Position,
    t: nat,
) -> ConstraintModel {
    ConstraintModel {
        terms: seq![term(collected_var(n, horizon, cell, t), 1)],
        relation: Relation::AtLeast,
        bound: 0,
    }
}

/// `c` is one of the constraints that the model holds for `cell` at time
/// `t`: the four bounds on what is banked; at time 0 the reward that the cell
/// starts with; later the growth of its reward and, on a grid with more than
/// one cell, the tie between standing on it and leaving a neighbour.
pub open spec fn is_step_constraint(
    g: Rewards,
    n: nat,
    horizon: nat,
    rate: u32,
    cell: Position,
    t: nat,
    c: ConstraintModel,
) -> bool {
    ||| t == 0 && c == initial_score(g, n, horizon, cell)
    ||| t >= 1 && c == recurrence(n, horizon, rate, cell, t)
    ||| t >= 1 && n >= 2 && c == arrival(n, horizon, cell, t)
    ||| c == banked_below_score(n, horizon, cell, t)
    ||| c == banked_below_reward(g, n, horizon, cell, t)
    ||| c == banked_when_visited(g, n, horizon, cell, t)
    ||| c == banked_nonnegative(n, horizon, cell, t)
}

/// `c` is one of the constraints of the time-indexed model.
pub open spec fn is_model_constraint(
    g: Rewards,
    n: nat,
    horizon: nat,
    rate: u32,
    start: Position,
    c: ConstraintModel,
) -> bool {
    ||| c == start_move(n, horizon, start)
    ||| exists|cell: Position, t: nat|
        in_bounds(n, cell) && t < horizon && #[trigger] is_step_constraint(
            g,
            n,
            horizon,
            rate,
            cell,
            t,
            c,
        )
}

/// The constraints that the model holds for `cell` at time `t`, in order:
/// at time 0 the reward that the cell starts with; later the growth of its
/// reward and, on a grid with more than one cell, the tie between standing
/// on it and leaving a neighbour; then the four bounds on what is banked.
pub open spec fn step_constraints(
    g: Rewards,
    n: nat,
    horizon: nat,
    rate: u32,
    cell: Position,
    t: nat,
) -> Seq<ConstraintModel> {
    let head = if t == 0 {
        seq![initial_score(g, n, horizon, cell)]
    } else if n >= 2 {
        seq![recurrence(n, horizon, rate, cell, t), arrival(n, horizon, cell, t)]
    } else {
        seq![recurrence(n, horizon, rate, cell, t)]
    };
    head + seq![
        banked_below_score(n, horizon, cell, t),
        banked_below_reward(g, n, horizon, cell, t),
        banked_when_visited(g, n, horizon, cell, t),
        banked_nonnegative(n, horizon, cell, t),
    ]
}

/// The constraints of `cell` at the times before `until`, time by time.
pub open spec fn cell_constraints(
    g: Rewards,
    n: nat,
    horizon: nat,
    rate: u32,
    cell: Position,
    until: nat,
) -> Seq<ConstraintModel>
    decreases until,
{
    if until == 0 {
        Seq::empty()
    } else {
        cell_constraints(g, n, horizon, rate, cell, (until - 1) as nat) + step_constraints(
            g,
            n,
            horizon,
            rate,
            cell,
            (until - 1) as nat,
        )
    }
}

/// The constraints of the cells of `row` in the columns before `until`, cell
/// by cell, each over the whole horizon.
pub open spec fn row_constraints(
    g: Rewards,
    n: nat,
    horizon: nat,
    rate: u32,
    row: usize,
    until: nat,
) -> Seq<ConstraintModel>
    decreases until,
{
    if until == 0 {
        Seq::empty()
    } else {
        row_constraints(g, n, horizon, rate, row, (until - 1) as nat) + cell_constraints(
            g,
            n,
            horizon,
            rate,
            (row, (until - 1) as usize),
            horizon,
        )
    }
}

/// The constraints of the cells in the rows before `until`, row by row.
pub open spec fn grid_constraints(
    g: Rewards,
    n: nat,
    horizon: nat,
    rate: u32,
    until: nat,
) -> Seq<ConstraintModel>
    decreases until,
{
    if until == 0 {
        Seq::empty()
    } else {
        grid_constraints(g, n, horizon, rate, (until - 1) as nat) + row_constraints(
            g,
            n,
            horizon,
            rate,
            (until - 1) as usize,
            n,
        )
    }
}

/// The constraints of the time-indexed model, in order: first that the walk
/// leaves the start at time 0, then the constraints of every cell in
/// row-major order, those of a cell time by time.
pub open spec fn time_indexed_constraints(
    g: Rewards,
    n: nat,
    horizon: nat,
    rate: u32,
    start: Position,
) -> Seq<ConstraintModel> {
    seq![start_move(n, horizon, start)] + grid_constraints(g, n, horizon, rate, n)
}

/// The kinds of the variables: `move` and `visit` are binary, `score` and
/// `collected` continuous.
pub open spec fn time_indexed_kinds(n: nat, horizon: nat) -> Seq<VariableKind> {
    Seq::new(
        4 * family_size(n, horizon),
        |k: int|
            if k < 2 * family_size(n, horizon) {
                VariableKind::Binary
            } else {
                VariableKind::Continuous
            },
    )
}

/// The objective: everything that is banked.
pub open spec fn time_indexed_objective(n: nat, horizon: nat) -> Seq<Term> {
    Seq::new(
        family_size(n, horizon),
        |k: int| Term { var: (3 * family_size(n, horizon) + k) as usize, coef: 1 },
    )
}

/// The time-indexed model of a walk from `start` over `horizon` timesteps,
/// on a grid whose rewards recover by `rate` a step.
pub open spec fn time_indexed_model(
    g: Rewards,
    n: nat,
    horizon: nat,
    rate: u32,
    start: Position,
) -> ProgramModel {
    ProgramModel {
        kinds: time_indexed_kinds(n, horizon),
        objective: time_indexed_objective(n, horizon),
        constraints: time_indexed_constraints(g, n, horizon, rate, start),
    }
}

/// A variable of a cell of the grid at a time within the horizon lies among
/// the variables of the model, within its own family.
pub proof fn lemma_var_index(n: nat, horizon: nat, family: nat, cell: Position, t: nat)
    requires
        in_bounds(n, cell),
        t < horizon,
    ensures
        family * family_size(n, horizon) <= var_index(n, horizon, family, cell, t) < (family + 1)
            * family_size(n, horizon),
{
    let m = cell.0 * n + cell.1;
    assert(m + 1 <= n * n) by (nonlinear_arith)
        requires
            m == cell.0 * n + cell.1,
            cell.0 < n,
            cell.1 < n,
    ;
    assert(m * horizon + t < n * n * horizon) by (nonlinear_arith)
        requires
            m + 1 <= n * n,
            t < horizon,
    ;
    assert((family + 1) * family_size(n, horizon) == family * family_size(n, horizon)
        + family_size(n, horizon)) by (nonlinear_arith);
}

/// The constraints of `v` as mathematical values.
pub open spec fn models(v: Seq<LinearConstraint>) -> Seq<ConstraintModel> {
    v.map_values(|c: LinearConstraint| c@)
}

/// The numbers of a step constraint lie within the limit, and its variables
/// among those of the model.
proof fn lemma_step_constraint_valid(
    g: Rewards,
    n: nat,
    horizon: nat,
    rate: u32,
    cell: Position,
    t: nat,
    c: ConstraintModel,
)
    requires
        in_bounds(n, cell),
        t < horizon,
        4 * family_size(n, horizon) <= usize::MAX,
        is_step_constraint(g, n, horizon, rate, cell, t, c),
    ensures
        constraint_valid(c, 4 * family_size(n, horizon)),
{
    lemma_var_index(n, horizon, 1, cell, t);
    lemma_var_index(n, horizon, 2, cell, t);
    lemma_var_index(n, horizon, 3, cell, t);
    if t >= 1 {
        lemma_var_index(n, horizon, 2, cell, (t - 1) as nat);
        if c == arrival(n, horizon, cell, t) {
            lemma_neighbors(n, cell);
            assert forall|k: int| 0 <= k < c.terms.len() implies (#[trigger] c.terms[k]).var < 4
                * family_size(n, horizon) && -magnitude_limit() <= c.terms[k].coef
                <= magnitude_limit() by {
                if k > 0 {
                    let q = neighbors(n, cell)[k - 1];
                    assert(in_bounds(n, q));
                    lemma_var_index(n, horizon, 0, q, (t - 1) as nat);
                    assert(c.terms[k] == term(move_var(n, horizon, q, (t - 1) as nat), -1));
                }
            }
        }
    }
}

/// The number of variables of one family of a model for a grid of side `n`
/// over `horizon` timesteps, where all four families can be indexed. A model
/// over no timestep has no variables.
pub fn family_len(n: usize, horizon: usize) -> (r: Option<usize>)
    ensures
        match r {
            Some(m) => m == family_size(n as nat, horizon as nat) && 4 * m <= usize::MAX,
            None => 4 * family_size(n as nat, horizon as nat) > usize::MAX,
        },
{
    if horizon == 0 {
        assert(n * n * 0 == 0) by (nonlinear_arith);
        return Some(0);
    }
    match n.checked_mul(n) {
        None => {
            assert(n * n * horizon >= n * n) by (nonlinear_arith)
                requires
                    horizon >= 1,
            ;
            None
        },
        Some(cells) => match cells.checked_mul(horizon) {
            None => None,
            Some(m) => match m.checked_mul(4) {
                None => None,
                Some(_) => Some(m),
            },
        },
    }
}

/// The position of the variable of `family` for `cell` at time `t`, in a
/// model whose families have `m` variables each.
pub(crate) fn index_of_var(
    n: usize,
    horizon: usize,
    m: usize,
    family: usize,
    cell: Position,
    t: usize,
) -> (r: usize)
    requires
        family < 4,
        in_bounds(n as nat, cell),
        t < horizon,
        m == family_size(n as nat, horizon as nat),
        4 * m <= usize::MAX,
    ensures
        r == var_index(n as nat, horizon as nat, family as nat, cell, t as nat),
        r < 4 * m,
{
    proof {
        lemma_var_index(n as nat, horizon as nat, family as nat, cell, t as nat);
        let k = cell.0 * n + cell.1;
        assert(k + 1 <= n * n && cell.0 * n <= k) by (nonlinear_arith)
            requires
                k == cell.0 * n + cell.1,
                cell.0 < n,
                cell.1 < n,
        ;
        assert(k * horizon + t < n * n * horizon && k <= k * horizon) by (nonlinear_arith)
            requires
                k + 1 <= n * n,
                t < horizon,
                k >= 0,
        ;
        assert(family * m <= 3 * m) by (nonlinear_arith)
            requires
                family < 4,
                m >= 0,
        ;
        assert((family + 1) * m <= 4 * m) by (nonlinear_arith)
            requires
                family < 4,
                m >= 0,
        ;
    }
    family * m + (cell.0 * n + cell.1) * horizon + t
}

/// Appends the constraint `terms relation bound` to `out`.
fn push_constraint(
    out: &mut Vec<LinearConstraint>,
    terms: Vec<Term>,
    relation: Relation,
    bound: i64,
)
    ensures
        models(final(out)@) == models(old(out)@).push(
            ConstraintModel { terms: terms@, relation, bound: bound as int },
        ),
{
    let ghost before = out@;
    let ghost model = ConstraintModel { terms: terms@, relation, bound: bound as int };
    out.push(LinearConstraint { terms, relation, bound });
    assert(models(out@) =~= models(before).push(model));
}

/// Appends to `out` the constraints of `cell` at time `t`.
fn push_step_constraints(
    graph: &Graph,
    horizon: usize,
    m: usize,
    rate: u32,
    cell: Position,
    t: usize,
    out: &mut Vec<LinearConstraint>,
)
    requires
        graph.wf(),
        in_bounds(graph.spec_size(), cell),
        t < horizon,
        m == family_size(graph.spec_size(), horizon as nat),
        4 * m <= usize::MAX,
    ensures
        models(final(out)@) == models(old(out)@) + step_constraints(
            graph@,
            graph.spec_size(),
            horizon as nat,
            rate,
            cell,
            t as nat,
        ),
{
    let n = graph.size();
    let ghost g = graph@;
    let ghost nn = graph.spec_size();
    let ghost h = horizon as nat;
    let ghost tt = t as nat;
    let ghost base = models(out@);
    let reward = *graph.get_score_at(cell) as i64;
    let visit = index_of_var(n, horizon, m, 1, cell, t);
    let score = index_of_var(n, horizon, m, 2, cell, t);
    let collected = index_of_var(n, horizon, m, 3, cell, t);
    let ghost mut added: Seq<ConstraintModel> = Seq::empty();
    if t == 0 {
        let mut terms: Vec<Term> = Vec::new();
        terms.push(Term { var: score, coef: 1 });
        proof {
            assert(terms@ =~= initial_score(g, nn, h, cell).terms);
            added = added.push(initial_score(g, nn, h, cell));
        }
        push_constraint(out, terms, Relation::Equal, reward);
    } else {
        let earlier = index_of_var(n, horizon, m, 2, cell, t - 1);
        let mut terms: Vec<Term> = Vec::new();
        terms.push(Term { var: earlier, coef: 1 });
        terms.push(Term { var: visit, coef: -(rate as i64) });
        terms.push(Term { var: score, coef: -1 });
        proof {
            assert(terms@ =~= recurrence(nn, h, rate, cell, tt).terms);
            added = added.push(recurrence(nn, h, rate, cell, tt));
        }
        push_constraint(out, terms, Relation::Equal, -(rate as i64));
        if n >= 2 {
            let around = graph.get_nodes_out(cell);
            let mut terms: Vec<Term> = Vec::new();
            terms.push(Term { var: visit, coef: 1 });
            let mut k: usize = 0;
            while k < around.len()
                invariant
                    k <= around.len(),
                    around@ == neighbors(nn, cell),
                    forall|i: int| 0 <= i < around.len() ==> in_bounds(nn, #[trigger] around[i]),
                    n == nn,
                    h == horizon,
                    1 <= t < horizon,
                    tt == t,
                    m == family_size(nn, h),
                    4 * m <= usize::MAX,
                    terms.len() == k + 1,
                    terms[0] == term(visit_var(nn, h, cell, tt), 1),
                    forall|i: int|
                        0 <= i < k ==> #[trigger] terms[i + 1] == term(
                            move_var(nn, h, around[i], (tt - 1) as nat),
                            -1,
                        ),
                decreases around.len() - k,
            {
                let leaving = index_of_var(n, horizon, m, 0, around[k], t - 1);
                terms.push(Term { var: leaving, coef: -1 });
                k += 1;
            }
            proof {
                assert(terms@ =~= arrival(nn, h, cell, tt).terms) by {
                    assert forall|i: int| 0 <= i < terms.len() implies terms[i] == arrival(
                        nn,
                        h,
                        cell,
                        tt,
                    ).terms[i] by {
                        if i > 0 {
                            assert(terms[(i - 1) + 1] == term(
                                move_var(nn, h, around[i - 1], (tt - 1) as nat),
                                -1,
                            ));
                        }
                    }
                }
                added = added.push(arrival(nn, h, cell, tt));
            }
            push_constraint(out, terms, Relation::Equal, 0);
        }
    }
    let mut terms: Vec<Term> = Vec::new();
    terms.push(Term { var: collected, coef: 1 });
    terms.push(Term { var: score, coef: -1 });
    proof {
        assert(terms@ =~= banked_below_score(nn, h, cell, tt).terms);
        added = added.push(banked_below_score(nn, h, cell, tt));
    }
    push_constraint(out, terms, Relation::AtMost, 0);
    let mut terms: Vec<Term> = Vec::new();
    terms.push(Term { var: collected, coef: 1 });
    terms.push(Term { var: visit, coef: -reward });
    proof {
        assert(terms@ =~= banked_below_reward(g, nn, h, cell, tt).terms);
        added = added.push(banked_below_reward(g, nn, h, cell, tt));
    }
    push_constraint(out, terms, Relation::AtMost, 0);
    let mut terms: Vec<Term> = Vec::new();
    terms.push(Term { var: collected, coef: 1 });
    terms.push(Term { var: score, coef: -1 });
    terms.push(Term { var: visit, coef: -reward });
    proof {
        assert(terms@ =~= banked_when_visited(g, nn, h, cell, tt).terms);
        added = added.push(banked_when_visited(g, nn, h, cell, tt));
    }
    push_constraint(out, terms, Relation::AtMost, -reward);
    let mut terms: Vec<Term> = Vec::new();
    terms.push(Term { var: collected, coef: 1 });
    proof {
        assert(terms@ =~= banked_nonnegative(nn, h, cell, tt).terms);
        added = added.push(banked_nonnegative(nn, h, cell, tt));
    }
    push_constraint(out, terms, Relation::AtLeast, 0);
    proof {
        assert(added =~= step_constraints(g, nn, h, rate, cell, tt));
        assert(models(out@) =~= base + added);
    }
}

/// The constraints of a cell at a time are those that `is_step_constraint`
/// tells.
pub proof fn lemma_step_constraints(
    g: Rewards,
    n: nat,
    horizon: nat,
    rate: u32,
    cell: Position,
    t: nat,
)
    ensures
        forall|c: ConstraintModel|
            #[trigger] step_constraints(g, n, horizon, rate, cell, t).contains(c)
                <==> is_step_constraint(g, n, horizon, rate, cell, t, c),
{
    let all = step_constraints(g, n, horizon, rate, cell, t);
    let bounds = seq![
        banked_below_score(n, horizon, cell, t),
        banked_below_reward(g, n, horizon, cell, t),
        banked_when_visited(g, n, horizon, cell, t),
        banked_nonnegative(n, horizon, cell, t),
    ];
    let head = if t == 0 {
        seq![initial_score(g, n, horizon, cell)]
    } else if n >= 2 {
        seq![recurrence(n, horizon, rate, cell, t), arrival(n, horizon, cell, t)]
    } else {
        seq![recurrence(n, horizon, rate, cell, t)]
    };
    lemma_concat_contains(head, bounds);
    assert forall|c: ConstraintModel| #[trigger]
        all.contains(c) <==> is_step_constraint(g, n, horizon, rate, cell, t, c) by {
        if bounds.contains(c) {
            let i = choose|i: int| 0 <= i < bounds.len() && bounds[i] == c;
        }
        if head.contains(c) {
            let i = choose|i: int| 0 <= i < head.len() && head[i] == c;
        }
        if is_step_constraint(g, n, horizon, rate, cell, t, c) {
            if c == banked_below_score(n, horizon, cell, t) {
                assert(bounds[0] == c);
            } else if c == banked_below_reward(g, n, horizon, cell, t) {
                assert(bounds[1] == c);
            } else if c == banked_when_visited(g, n, horizon, cell, t) {
                assert(bounds[2] == c);
            } else if c == banked_nonnegative(n, horizon, cell, t) {
                assert(bounds[3] == c);
            } else if t >= 1 && n >= 2 && c == arrival(n, horizon, cell, t) {
                assert(head[1] == c);
            } else {
                assert(head[0] == c);
            }
        }
    }
}

/// The constraints of a cell before a time are the constraints of the cell
/// at the times before it.
proof fn lemma_cell_constraints(
    g: Rewards,
    n: nat,
    horizon: nat,
    rate: u32,
    cell: Position,
    until: nat,
)
    ensures
        forall|c: ConstraintModel|
            #[trigger] cell_constraints(g, n, horizon, rate, cell, until).contains(c) <==> exists|
                t: nat,
            | t < until && #[trigger] is_step_constraint(g, n, horizon, rate, cell, t, c),
    decreases until,
{
    if until > 0 {
        let before = (until - 1) as nat;
        let front = cell_constraints(g, n, horizon, rate, cell, before);
        let last = step_constraints(g, n, horizon, rate, cell, before);
        lemma_cell_constraints(g, n, horizon, rate, cell, before);
        lemma_step_constraints(g, n, horizon, rate, cell, before);
        lemma_concat_contains(front, last);
        assert forall|c: ConstraintModel| #[trigger]
            cell_constraints(g, n, horizon, rate, cell, until).contains(c) <==> exists|t: nat|
                t < until && #[trigger] is_step_constraint(g, n, horizon, rate, cell, t, c) by {
            if front.contains(c) {
                let t = choose|t: nat|
                    t < before && #[trigger] is_step_constraint(g, n, horizon, rate, cell, t, c);
                assert(t < until);
            }
            if last.contains(c) {
                assert(is_step_constraint(g, n, horizon, rate, cell, before, c));
            }
            if exists|t: nat|
                t < until && #[trigger] is_step_constraint(g, n, horizon, rate, cell, t, c) {
                let t = choose|t: nat|
                    t < until && #[trigger] is_step_constraint(g, n, horizon, rate, cell, t, c);
                if t < before {
                    assert(front.contains(c));
                } else {
                    assert(last.contains(c));
                }
            }
        }
    }
}

/// The constraints of a row before a column are the constraints of its cells
/// in the columns before it.
proof fn lemma_row_constraints(
    g: Rewards,
    n: nat,
    horizon: nat,
    rate: u32,
    row: usize,
    until: nat,
)
    requires
        until <= usize::MAX,
    ensures
        forall|c: ConstraintModel|
            #[trigger] row_constraints(g, n, horizon, rate, row, until).contains(c) <==> exists|
                cell: Position,
                t: nat,
            |
                cell.0 == row && cell.1 < until && t < horizon && #[trigger] is_step_constraint(
                    g,
                    n,
                    horizon,
                    rate,
                    cell,
                    t,
                    c,
                ),
    decreases until,
{
    if until > 0 {
        let before = (until - 1) as nat;
        let here: Position = (row, before as usize);
        let front = row_constraints(g, n, horizon, rate, row, before);
        let last = cell_constraints(g, n, horizon, rate, here, horizon);
        lemma_row_constraints(g, n, horizon, rate, row, before);
        lemma_cell_constraints(g, n, horizon, rate, here, horizon);
        lemma_concat_contains(front, last);
        assert forall|c: ConstraintModel| #[trigger]
            row_constraints(g, n, horizon, rate, row, until).contains(c) <==> exists|
                cell: Position,
                t: nat,
            |
                cell.0 == row && cell.1 < until && t < horizon && #[trigger] is_step_constraint(
                    g,
                    n,
                    horizon,
                    rate,
                    cell,
                    t,
                    c,
                ) by {
            if front.contains(c) {
                let (cell, t) = choose|cell: Position, t: nat|
                    cell.0 == row && cell.1 < before && t < horizon
                        && #[trigger] is_step_constraint(g, n, horizon, rate, cell, t, c);
                assert(cell.1 < until);
            }
            if last.contains(c) {
                let t = choose|t: nat|
                    t < horizon && #[trigger] is_step_constraint(g, n, horizon, rate, here, t, c);
                assert(here.0 == row && here.1 < until);
            }
            if exists|cell: Position, t: nat|
                cell.0 == row && cell.1 < until && t < horizon && #[trigger] is_step_constraint(
                    g,
                    n,
                    horizon,
                    rate,
                    cell,
                    t,
                    c,
                ) {
                let (cell, t) = choose|cell: Position, t: nat|
                    cell.0 == row && cell.1 < until && t < horizon
                        && #[trigger] is_step_constraint(g, n, horizon, rate, cell, t, c);
                if cell.1 < before {
                    assert(front.contains(c));
                } else {
                    assert(cell == here);
                    assert(last.contains(c));
                }
            }
        }
    }
}

/// The constraints of the grid before a row are the constraints of the
/// cells in the rows before it.
proof fn lemma_grid_constraints(g: Rewards, n: nat, horizon: nat, rate: u32, until: nat)
    requires
        n <= usize::MAX,
        until <= usize::MAX,
    ensures
        forall|c: ConstraintModel|
            #[trigger] grid_constraints(g, n, horizon, rate, until).contains(c) <==> exists|
                cell: Position,
                t: nat,
            |
                cell.0 < until && cell.1 < n && t < horizon && #[trigger] is_step_constraint(
                    g,
                    n,
                    horizon,
                    rate,
                    cell,
                    t,
                    c,
                ),
    decreases until,
{
    if until > 0 {
        let before = (until - 1) as nat;
        let row = before as usize;
        let front = grid_constraints(g, n, horizon, rate, before);
        let last = row_constraints(g, n, horizon, rate, row, n);
        lemma_grid_constraints(g, n, horizon, rate, before);
        lemma_row_constraints(g, n, horizon, rate, row, n);
        lemma_concat_contains(front, last);
        assert forall|c: ConstraintModel| #[trigger]
            grid_constraints(g, n, horizon, rate, until).contains(c) <==> exists|
                cell: Position,
                t: nat,
            |
                cell.0 < until && cell.1 < n && t < horizon && #[trigger] is_step_constraint(
                    g,
                    n,
                    horizon,
                    rate,
                    cell,
                    t,
                    c,
                ) by {
            if front.contains(c) {
                let (cell, t) = choose|cell: Position, t: nat|
                    cell.0 < before && cell.1 < n && t < horizon && #[trigger] is_step_constraint(
                        g,
                        n,
                        horizon,
                        rate,
                        cell,
                        t,
                        c,
                    );
                assert(cell.0 < until);
            }
            if last.contains(c) {
                let (cell, t) = choose|cell: Position, t: nat|
                    cell.0 == row && cell.1 < n && t < horizon && #[trigger] is_step_constraint(
                        g,
                        n,
                        horizon,
                        rate,
                        cell,
                        t,
                        c,
                    );
                assert(cell.0 < until);
            }
            if exists|cell: Position, t: nat|
                cell.0 < until && cell.1 < n && t < horizon && #[trigger] is_step_constraint(
                    g,
                    n,
                    horizon,
                    rate,
                    cell,
                    t,
                    c,
                ) {
                let (cell, t) = choose|cell: Position, t: nat|
                    cell.0 < until && cell.1 < n && t < horizon && #[trigger] is_step_constraint(
                        g,
                        n,
                        horizon,
                        rate,
                        cell,
                        t,
                        c,
                    );
                if cell.0 < before {
                    assert(front.contains(c));
                } else {
                    assert(cell.0 == row);
                    assert(last.contains(c));
                }
            }
        }
    }
}

/// The model holds exactly the constraints that `is_model_constraint`
/// tells: that the walk leaves the start at time 0, and the constraints of
/// every cell of the grid at every time of the horizon.
pub proof fn lemma_time_indexed_constraints(
    g: Rewards,
    n: nat,
    horizon: nat,
    rate: u32,
    start: Position,
)
    requires
        n <= usize::MAX,
    ensures
        forall|c: ConstraintModel|
            #[trigger] time_indexed_constraints(g, n, horizon, rate, start).contains(c)
                <==> is_model_constraint(g, n, horizon, rate, start, c),
{
    let first = seq![start_move(n, horizon, start)];
    let rest = grid_constraints(g, n, horizon, rate, n);
    lemma_grid_constraints(g, n, horizon, rate, n);
    lemma_concat_contains(first, rest);
    assert forall|c: ConstraintModel| #[trigger]
        time_indexed_constraints(g, n, horizon, rate, start).contains(c) <==> is_model_constraint(
            g,
            n,
            horizon,
            rate,
            start,
            c,
        ) by {
        if first.contains(c) {
            let i = choose|i: int| 0 <= i < first.len() && first[i] == c;
        }
        if c == start_move(n, horizon, start) {
            assert(first[0] == c);
        }
        if rest.contains(c) {
            let (cell, t) = choose|cell: Position, t: nat|
                cell.0 < n && cell.1 < n && t < horizon && #[trigger] is_step_constraint(
                    g,
                    n,
                    horizon,
                    rate,
                    cell,
                    t,
                    c,
                );
            assert(in_bounds(n, cell));
        }
        if is_model_constraint(g, n, horizon, rate, start, c) && c != start_move(
            n,
            horizon,
            start,
        ) {
            let (cell, t) = choose|cell: Position, t: nat|
                in_bounds(n, cell) && t < horizon && #[trigger] is_step_constraint(
                    g,
                    n,
                    horizon,
                    rate,
                    cell,
                    t,
                    c,
                );
            assert(cell.0 < n && cell.1 < n);
            assert(rest.contains(c));
        }
    }
}

/// Builds the time-indexed model of a walk of `max_timesteps` steps from
/// `start`, on a grid whose rewards recover by `recovery_rate` a step.
///
/// A model over no timestep cannot make the walk leave the start, so a
/// budget of 0 is reported as infeasible. A model with more variables than
/// can be indexed is reported as too large.
pub fn time_indexed_program(
    graph: &Graph,
    start: Position,
    max_timesteps: u32,
    recovery_rate: u32,
) -> (r: Result<LinearProgram, PlanningError>)
    requires
        graph.wf(),
    ensures
        match r {
            Ok(p) => {
                &&& in_bounds(graph.spec_size(), start)
                &&& max_timesteps >= 1
                &&& 4 * family_size(graph.spec_size(), max_timesteps as nat) <= usize::MAX
                &&& p@ == time_indexed_model(
                    graph@,
                    graph.spec_size(),
                    max_timesteps as nat,
                    recovery_rate,
                    start,
                )
                &&& p@.kinds == time_indexed_kinds(graph.spec_size(), max_timesteps as nat)
                &&& p@.objective == time_indexed_objective(graph.spec_size(), max_timesteps as nat)
                &&& p@.constraints == time_indexed_constraints(
                    graph@,
                    graph.spec_size(),
                    max_timesteps as nat,
                    recovery_rate,
                    start,
                )
                &&& forall|c: ConstraintModel|
                    #[trigger] p@.constraints.contains(c) <==> is_model_constraint(
                        graph@,
                        graph.spec_size(),
                        max_timesteps as nat,
                        recovery_rate,
                        start,
                        c,
                    )
                &&& program_valid(p@)
            },
            Err(e) => if !in_bounds(graph.spec_size(), start) {
                e == PlanningError::StartOutOfBounds
            } else if max_timesteps == 0 {
                e == PlanningError::Infeasible
            } else {
                e == PlanningError::TooLarge && 4 * family_size(
                    graph.spec_size(),
                    max_timesteps as nat,
                ) > usize::MAX
            },
        },
{
    let n = graph.size();
    if start.0 >= n || start.1 >= n {
        return Err(PlanningError::StartOutOfBounds);
    }
    if max_timesteps == 0 {
        return Err(PlanningError::Infeasible);
    }
    let horizon = max_timesteps as usize;
    let m = match family_len(n, horizon) {
        None => {
            return Err(PlanningError::TooLarge);
        },
        Some(m) => m,
    };
    let ghost g = graph@;
    let ghost nn = graph.spec_size();
    let ghost h = horizon as nat;
    let ghost first = seq![start_move(nn, h, start)];
    let mut constraints: Vec<LinearConstraint> = Vec::new();
    let leaving = index_of_var(n, horizon, m, 0, start, 0);
    let mut terms: Vec<Term> = Vec::new();
    terms.push(Term { var: leaving, coef: 1 });
    assert(terms@ =~= start_move(nn, h, start).terms);
    push_constraint(&mut constraints, terms, Relation::Equal, 1);
    assert(models(constraints@) =~= first + grid_constraints(g, nn, h, recovery_rate, 0));
    let mut i: usize = 0;
    while i < n
        invariant
            i <= n,
            graph.wf(),
            n == nn,
            nn == graph.spec_size(),
            g == graph@,
            h == horizon,
            horizon >= 1,
            m == family_size(nn, h),
            4 * m <= usize::MAX,
            models(constraints@) == first + grid_constraints(g, nn, h, recovery_rate, i as nat),
        decreases n - i,
    {
        let ghost rows = first + grid_constraints(g, nn, h, recovery_rate, i as nat);
        let mut j: usize = 0;
        assert(models(constraints@) =~= rows + row_constraints(g, nn, h, recovery_rate, i, 0));
        while j < n
            invariant
                j <= n,
                i < n,
                graph.wf(),
                n == nn,
                nn == graph.spec_size(),
                g == graph@,
                h == horizon,
                horizon >= 1,
                m == family_size(nn, h),
                4 * m <= usize::MAX,
                models(constraints@) == rows + row_constraints(
                    g,
                    nn,
                    h,
                    recovery_rate,
                    i,
                    j as nat,
                ),
            decreases n - j,
        {
            let ghost cells = rows + row_constraints(g, nn, h, recovery_rate, i, j as nat);
            let mut t: usize = 0;
            assert(models(constraints@) =~= cells + cell_constraints(
                g,
                nn,
                h,
                recovery_rate,
                (i, j),
                0,
            ));
            while t < horizon
                invariant
                    t <= horizon,
                    i < n,
                    j < n,
                    graph.wf(),
                    n == nn,
                    nn == graph.spec_size(),
                    g == graph@,
                    h == horizon,
                    m == family_size(nn, h),
                    4 * m <= usize::MAX,
                    models(constraints@) == cells + cell_constraints(
                        g,
                        nn,
                        h,
                        recovery_rate,
                        (i, j),
                        t as nat,
                    ),
                decreases horizon - t,
            {
                push_step_constraints(
                    graph,
                    horizon,
                    m,
                    recovery_rate,
                    (i, j),
                    t,
                    &mut constraints,
                );
                assert(models(constraints@) =~= cells + cell_constraints(
                    g,
                    nn,
                    h,
                    recovery_rate,
                    (i, j),
                    (t + 1) as nat,
                ));
                t += 1;
            }
            assert(models(constraints@) =~= rows + row_constraints(
                g,
                nn,
                h,
                recovery_rate,
                i,
                (j + 1) as nat,
            ));
            j += 1;
        }
        assert(models(constraints@) =~= first + grid_constraints(
            g,
            nn,
            h,
            recovery_rate,
            (i + 1) as nat,
        ));
        i += 1;
    }
    let mut kinds: Vec<VariableKind> = Vec::new();
    let mut k: usize = 0;
    while k < 4 * m
        invariant
            k <= 4 * m,
            4 * m <= usize::MAX,
            kinds.len() == k,
            forall|x: int|
                0 <= x < k ==> kinds[x] == if x < 2 * m {
                    VariableKind::Binary
                } else {
                    VariableKind::Continuous
                },
        decreases 4 * m - k,
    {
        if k < 2 * m {
            kinds.push(VariableKind::Binary);
        } else {
            kinds.push(VariableKind::Continuous);
        }
        k += 1;
    }
    let mut objective: Vec<Term> = Vec::new();
    let mut k: usize = 0;
    while k < m
        invariant
            k <= m,
            4 * m <= usize::MAX,
            objective.len() == k,
            forall|x: int|
                0 <= x < k ==> objective[x] == (Term { var: (3 * m + x) as usize, coef: 1 }),
        decreases m - k,
    {
        objective.push(Term { var: 3 * m + k, coef: 1 });
        k += 1;
    }
    let p = LinearProgram { kinds, objective, constraints };
    proof {
        assert(p@.kinds =~= time_indexed_kinds(nn, h));
        assert(p@.objective =~= time_indexed_objective(nn, h));
        assert(p@.constraints =~= models(p.constraints@));
        assert(p@.constraints == time_indexed_constraints(g, nn, h, recovery_rate, start));
        lemma_time_indexed_constraints(g, nn, h, recovery_rate, start);
        assert forall|x: int| 0 <= x < p@.constraints.len() implies constraint_valid(
            #[trigger] p@.constraints[x],
            p@.kinds.len(),
        ) by {
            let c = p@.constraints[x];
            assert(time_indexed_constraints(g, nn, h, recovery_rate, start).contains(c));
            lemma_model_constraint_valid(g, nn, h, recovery_rate, start, c);
        }
    }
    Ok(p)
}

/// The numbers of a constraint of the model lie within the limit, and its
/// variables among those of the model.
proof fn lemma_model_constraint_valid(
    g: Rewards,
    n: nat,
    horizon: nat,
    rate: u32,
    start: Position,
    c: ConstraintModel,
)
    requires
        in_bounds(n, start),
        horizon >= 1,
        4 * family_size(n, horizon) <= usize::MAX,
        is_model_constraint(g, n, horizon, rate, start, c),
    ensures
        constraint_valid(c, 4 * family_size(n, horizon)),
{
    if c == start_move(n, horizon, start) {
        lemma_var_index(n, horizon, 0, start, 0);
    } else {
        let (cell, t) = choose|cell: Position, t: nat|
            in_bounds(n, cell) && t < horizon && #[trigger] is_step_constraint(
                g,
                n,
                horizon,
                rate,
                cell,
                t,
                c,
            );
        lemma_step_constraint_valid(g, n, horizon, rate, cell, t, c);
    }
}

} // verus!
