//! The linear-programming solver that the exact planners hand their models
//! to. Nothing in this file is proved: each item states what the solver's
//! source shows of one of its functions.
//!
//! The solver keeps its numbers in floating point. The names below speak of
//! whole numbers only: a value of the solver has what they tell where every
//! number in it is whole and at most `exact_limit()` in magnitude, and the
//! wrappers ask of their callers that every sum and difference they cause
//! stays within that limit, where floating point is exact.
//!
//! The solver keeps the variables of a problem in a list and names each by
//! its position there; it indexes that list by the variables of whatever
//! expression it is handed.

use crate::program::PlanningError;
use good_lp::solvers::microlp::{MicroLpProblem, MicroLpSolution};
use good_lp::variable::UnsolvedProblem;
use good_lp::{Expression, ProblemVariables, ResolutionError, Variable, VariableDefinition};
use good_lp::{Solution, SolverModel};
use vstd::prelude::*;

verus! {

/// `good_lp::ProblemVariables`: the variables declared for one problem.
#[verifier::external_type_specification]
#[verifier::external_body]
pub struct ExProblemVariables(ProblemVariables);

/// `good_lp::VariableDefinition`: the kind and the bounds of a variable.
#[verifier::external_type_specification]
#[verifier::external_body]
pub struct ExVariableDefinition(VariableDefinition);

/// `good_lp::Variable`: a handle on one declared variable.
#[verifier::external_type_specification]
#[verifier::external_body]
pub struct ExVariable(Variable);

/// `good_lp::Expression`: a linear combination of variables plus a constant.
#[verifier::external_type_specification]
#[verifier::external_body]
pub struct ExExpression(Expression);

/// `good_lp::Constraint`: an equation or inequality between expressions.
#[verifier::external_type_specification]
#[verifier::external_body]
pub struct ExConstraint(good_lp::Constraint);

/// `good_lp::variable::UnsolvedProblem`: variables with an objective.
#[verifier::external_type_specification]
#[verifier::external_body]
pub struct ExUnsolvedProblem(UnsolvedProblem);

/// `good_lp::solvers::microlp::MicroLpProblem`: a model under construction.
#[verifier::external_type_specification]
#[verifier::external_body]
pub struct ExMicroLpProblem(MicroLpProblem);

/// `good_lp::solvers::microlp::MicroLpSolution`: a solved model.
#[verifier::external_type_specification]
#[verifier::external_body]
pub struct ExMicroLpSolution(MicroLpSolution);

/// `good_lp::ResolutionError`: why a model could not be solved.
#[verifier::external_type_specification]
#[verifier::external_body]
pub struct ExResolutionError(ResolutionError);

/// What an expression holds: a coefficient for each variable that it
/// mentions, by the variable's position, and a constant.
pub struct Affine {
    pub coefficients: Map<nat, int>,
    pub constant: int,
}

/// What a constraint holds: the expression that it compares with 0, and
/// whether it asks for `== 0` or for `<= 0`.
pub struct Row {
    pub coefficients: Map<nat, int>,
    pub constant: int,
    pub equality: bool,
}

/// What a problem to maximise holds: the kind of each variable and the
/// coefficients of the objective.
pub struct Posed {
    pub kinds: Seq<int>,
    pub objective: Map<nat, int>,
}

/// What a model for the solver holds: the kind of each variable, the
/// coefficient of each variable in the objective to maximise, and the
/// constraints in the order in which they were added.
pub struct Assembled {
    pub kinds: Seq<int>,
    pub objective: Seq<int>,
    pub rows: Seq<Row>,
}

/// The greatest magnitude up to which floating point holds every whole
/// number: 2 to the power of 53.
pub open spec fn exact_limit() -> int {
    9007199254740992
}

/// The kind of a continuous variable without bounds.
pub open spec fn continuous_kind() -> int {
    0
}

/// The kind of a variable restricted to 0 and 1.
pub open spec fn binary_kind() -> int {
    1
}

/// The coefficient that `m` holds for the variable at position `i`: 0 where
/// it mentions none.
pub open spec fn at(m: Map<nat, int>, i: nat) -> int {
    if m.dom().contains(i) {
        m[i]
    } else {
        0
    }
}

/// Every position in `positions` lies below `bound`.
pub open spec fn below(positions: Set<nat>, bound: nat) -> bool {
    forall|i: nat| positions.contains(i) ==> i < bound
}

/// `a - b` can be taken exactly: no coefficient of the difference, nor its
/// constant, passes the limit.
pub open spec fn can_subtract(a: Affine, b: Affine) -> bool {
    &&& forall|i: nat|
        -exact_limit() <= #[trigger] at(a.coefficients, i) - at(b.coefficients, i)
            <= exact_limit()
    &&& -exact_limit() <= a.constant - b.constant <= exact_limit()
}

/// The coefficients of `a - b`: one for every variable that either mentions.
pub open spec fn minus(a: Map<nat, int>, b: Map<nat, int>) -> Map<nat, int> {
    Map::new(|i: nat| a.dom().contains(i) || b.dom().contains(i), |i: nat| at(a, i) - at(b, i))
}

/// The kind of the variable that `d` defines: `continuous_kind()` where `d`
/// is a continuous variable without bounds and without a value to start
/// from, `binary_kind()` where it is a whole variable between 0 and 1
/// without a value to start from, and 2 for anything else.
pub uninterp spec fn definition_kind(d: VariableDefinition) -> int;

/// The kinds of the variables declared in `vars`, in order.
pub uninterp spec fn kinds_of(vars: ProblemVariables) -> Seq<int>;

/// The position of `v` among the variables of the problem it was declared in.
pub uninterp spec fn index_of(v: Variable) -> nat;

/// What `e` holds, where every number in it is whole and within the limit.
pub uninterp spec fn affine(e: Expression) -> Option<Affine>;

/// What `c` holds, where every number in it is whole and within the limit.
pub uninterp spec fn row(c: good_lp::Constraint) -> Option<Row>;

/// What `p` holds, where it is a problem to maximise and every number in
/// its objective is whole and within the limit.
pub uninterp spec fn posed(p: UnsolvedProblem) -> Option<Posed>;

/// What `m` holds, where it is a model to maximise, without a time limit, a
/// gap or values to start from, every variable of it is continuous without
/// bounds or binary, and every number in it is whole and within the limit.
pub uninterp spec fn assembled(m: MicroLpProblem) -> Option<Assembled>;

/// The value that `s` gives to each variable, in order, turned into a whole
/// number as `as` does it: the fraction is cut off, and a value beyond the
/// range of `i64` becomes the nearest end of it.
pub uninterp spec fn solution_values(s: MicroLpSolution) -> Seq<i64>;

/// The failure that `failure_of` makes of `e`.
pub uninterp spec fn failure_kind(e: ResolutionError) -> PlanningError;

/// What the solver makes of a model that holds `a`: the value of every
/// variable, in order, or the reason why it found none. The solver reads no
/// clock unless it is given a time limit and draws no random number, so the
/// same model has the same outcome.
pub uninterp spec fn solver_outcome(a: Assembled) -> Result<Seq<i64>, PlanningError>;

/// `ProblemVariables::new`: a problem without variables.
#[verifier::external_body]
pub(crate) fn no_variables() -> (vars: ProblemVariables)
    ensures
        kinds_of(vars) == Seq::<int>::empty(),
{
    ProblemVariables::new()
}

/// `good_lp::variable`: the definition of a continuous variable without
/// bounds.
#[verifier::external_body]
pub(crate) fn continuous() -> (d: VariableDefinition)
    ensures
        definition_kind(d) == continuous_kind(),
{
    good_lp::variable()
}

/// `VariableDefinition::binary`: the definition made whole, with the bounds
/// 0 and 1; whatever else it holds stays.
#[verifier::external_body]
pub(crate) fn binary(definition: VariableDefinition) -> (d: VariableDefinition)
    ensures
        definition_kind(definition) == continuous_kind() ==> definition_kind(d) == binary_kind(),
{
    definition.binary()
}

/// `ProblemVariables::add`: declares one more variable. Its position is the
/// number of variables declared before it.
#[verifier::external_body]
pub(crate) fn declare(vars: &mut ProblemVariables, definition: VariableDefinition) -> (v: Variable)
    ensures
        index_of(v) == kinds_of(*old(vars)).len(),
        kinds_of(*final(vars)) == kinds_of(*old(vars)).push(definition_kind(definition)),
{
    vars.add(definition)
}

/// `Expression::default`: the expression 0, which mentions no variable.
#[verifier::external_body]
pub(crate) fn zero_expression() -> (e: Expression)
    ensures
        affine(e) == Some(Affine { coefficients: Map::<nat, int>::empty(), constant: 0 }),
{
    Expression::default()
}

/// `Expression::add_mul`: adds `coef` times `v` to `e`. Afterwards `e`
/// mentions `v`, whatever `coef` is, with `coef` more than before.
#[verifier::external_body]
pub(crate) fn add_term(e: &mut Expression, coef: u32, v: Variable)
    requires
        affine(*old(e)) is Some,
        at(affine(*old(e))->Some_0.coefficients, index_of(v)) + coef <= exact_limit(),
    ensures
        affine(*final(e)) == Some(
            Affine {
                coefficients: affine(*old(e))->Some_0.coefficients.insert(
                    index_of(v),
                    at(affine(*old(e))->Some_0.coefficients, index_of(v)) + coef,
                ),
                constant: affine(*old(e))->Some_0.constant,
            },
        ),
{
    e.add_mul(coef, v);
}

/// `Expression`'s `+=` with a number: adds `c` to the constant of `e`.
#[verifier::external_body]
pub(crate) fn add_constant(e: &mut Expression, c: u32)
    requires
        affine(*old(e)) is Some,
        affine(*old(e))->Some_0.constant + c <= exact_limit(),
    ensures
        affine(*final(e)) == Some(
            Affine {
                coefficients: affine(*old(e))->Some_0.coefficients,
                constant: affine(*old(e))->Some_0.constant + c,
            },
        ),
{
    *e += c;
}

/// `Expression`'s `-` with an expression: `a - b`, which mentions the
/// variables of both.
#[verifier::external_body]
pub(crate) fn difference(a: Expression, b: Expression) -> (e: Expression)
    requires
        affine(a) is Some,
        affine(b) is Some,
        can_subtract(affine(a)->Some_0, affine(b)->Some_0),
    ensures
        affine(e) == Some(
            Affine {
                coefficients: minus(
                    affine(a)->Some_0.coefficients,
                    affine(b)->Some_0.coefficients,
                ),
                constant: affine(a)->Some_0.constant - affine(b)->Some_0.constant,
            },
        ),
{
    a - b
}

/// `good_lp::constraint::eq`: the constraint `left - right == 0`.
#[verifier::external_body]
pub(crate) fn equal(left: Expression, right: Expression) -> (c: good_lp::Constraint)
    requires
        affine(left) is Some,
        affine(right) is Some,
        can_subtract(affine(left)->Some_0, affine(right)->Some_0),
    ensures
        row(c) == Some(
            Row {
                coefficients: minus(
                    affine(left)->Some_0.coefficients,
                    affine(right)->Some_0.coefficients,
                ),
                constant: affine(left)->Some_0.constant - affine(right)->Some_0.constant,
                equality: true,
            },
        ),
{
    good_lp::constraint::eq(left, right)
}

/// `good_lp::constraint::leq`: the constraint `left - right <= 0`.
#[verifier::external_body]
pub(crate) fn at_most(left: Expression, right: Expression) -> (c: good_lp::Constraint)
    requires
        affine(left) is Some,
        affine(right) is Some,
        can_subtract(affine(left)->Some_0, affine(right)->Some_0),
    ensures
        row(c) == Some(
            Row {
                coefficients: minus(
                    affine(left)->Some_0.coefficients,
                    affine(right)->Some_0.coefficients,
                ),
                constant: affine(left)->Some_0.constant - affine(right)->Some_0.constant,
                equality: false,
            },
        ),
{
    good_lp::constraint::leq(left, right)
}

/// `good_lp::constraint::geq`: the constraint `left >= right`, which the
/// solver keeps as `right - left <= 0`.
#[verifier::external_body]
pub(crate) fn at_least(left: Expression, right: Expression) -> (c: good_lp::Constraint)
    requires
        affine(left) is Some,
        affine(right) is Some,
        can_subtract(affine(right)->Some_0, affine(left)->Some_0),
    ensures
        row(c) == Some(
            Row {
                coefficients: minus(
                    affine(right)->Some_0.coefficients,
                    affine(left)->Some_0.coefficients,
                ),
                constant: affine(right)->Some_0.constant - affine(left)->Some_0.constant,
                equality: false,
            },
        ),
{
    good_lp::constraint::geq(left, right)
}

/// `ProblemVariables::maximise`: the problem of maximising `objective` over
/// the declared variables. It panics where the objective mentions more
/// variables than were declared.
#[verifier::external_body]
pub(crate) fn maximise(vars: ProblemVariables, objective: Expression) -> (p: UnsolvedProblem)
    requires
        affine(objective) is Some,
        affine(objective)->Some_0.coefficients.dom().finite(),
        below(affine(objective)->Some_0.coefficients.dom(), kinds_of(vars).len()),
    ensures
        posed(p) == Some(
            Posed { kinds: kinds_of(vars), objective: affine(objective)->Some_0.coefficients },
        ),
{
    vars.maximise(objective)
}

/// `UnsolvedProblem::using` with `good_lp::default_solver`: a model of the
/// problem for the solver, without constraints. Each variable has in the
/// objective the coefficient that the problem holds for it, 0 where it
/// holds none.
#[verifier::external_body]
pub(crate) fn with_default_solver(p: UnsolvedProblem) -> (m: MicroLpProblem)
    requires
        posed(p) is Some,
        forall|k: int|
            0 <= k < posed(p)->Some_0.kinds.len() ==> #[trigger] posed(p)->Some_0.kinds[k]
                == continuous_kind() || posed(p)->Some_0.kinds[k] == binary_kind(),
    ensures
        assembled(m) == Some(
            Assembled {
                kinds: posed(p)->Some_0.kinds,
                objective: Seq::new(
                    posed(p)->Some_0.kinds.len(),
                    |i: int| at(posed(p)->Some_0.objective, i as nat),
                ),
                rows: Seq::<Row>::empty(),
            },
        ),
{
    p.using(good_lp::default_solver)
}

/// `SolverModel::add_constraint`: adds `c` to the model, after the
/// constraints that it holds. It indexes the model's variables by those
/// that `c` mentions.
#[verifier::external_body]
pub(crate) fn add_constraint(m: &mut MicroLpProblem, c: good_lp::Constraint)
    requires
        assembled(*old(m)) is Some,
        row(c) is Some,
        below(row(c)->Some_0.coefficients.dom(), assembled(*old(m))->Some_0.kinds.len()),
    ensures
        assembled(*final(m)) == Some(
            Assembled {
                kinds: assembled(*old(m))->Some_0.kinds,
                objective: assembled(*old(m))->Some_0.objective,
                rows: assembled(*old(m))->Some_0.rows.push(row(c)->Some_0),
            },
        ),
{
    m.add_constraint(c);
}

/// `SolverModel::solve`: runs the solver. What comes back is the outcome
/// that the solver has for what the model holds. A solution gives a value
/// to every variable of the model.
#[verifier::external_body]
pub(crate) fn run_solver(m: MicroLpProblem) -> (r: Result<MicroLpSolution, ResolutionError>)
    requires
        assembled(m) is Some,
    ensures
        match r {
            Ok(s) => solver_outcome(assembled(m)->Some_0) == Ok::<Seq<i64>, PlanningError>(
                solution_values(s),
            ) && solution_values(s).len() == assembled(m)->Some_0.kinds.len(),
            Err(e) => solver_outcome(assembled(m)->Some_0) == Err::<Seq<i64>, PlanningError>(
                failure_kind(e),
            ),
        },
{
    m.solve()
}

/// `Solution::value`: the value that the solution gives to `v`, turned into
/// a whole number as `as` does it. The solver hands out the value of a
/// binary variable rounded to a whole number. It indexes the solution by
/// `v`.
#[verifier::external_body]
pub(crate) fn value_of(s: &MicroLpSolution, v: Variable) -> (x: i64)
    requires
        index_of(v) < solution_values(*s).len(),
    ensures
        x == solution_values(*s)[index_of(v) as int],
{
    s.value(v) as i64
}

/// Tells the variants of `good_lp::ResolutionError` apart. The result is one
/// of `Unbounded`, `Infeasible` and `Solver`, the last with the solver's
/// message.
#[verifier::external_body]
pub(crate) fn failure_of(e: ResolutionError) -> (r: PlanningError)
    ensures
        r == failure_kind(e),
        r is Unbounded || r is Infeasible || r is Solver,
{
    match e {
        ResolutionError::Unbounded => PlanningError::Unbounded,
        ResolutionError::Infeasible => PlanningError::Infeasible,
        ResolutionError::Other(s) => PlanningError::Solver(String::from(s)),
        ResolutionError::Str(s) => PlanningError::Solver(s),
    }
}

} // verus!
