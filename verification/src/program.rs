//! Linear programs as plain data, and the routine that hands one to the
//! solver.

use crate::solver::{
    add_constant, add_constraint, add_term, affine, assembled, at, at_least, at_most, below,
    binary, binary_kind, can_subtract, continuous, continuous_kind, declare, difference, equal,
    exact_limit, failure_of, index_of, kinds_of, maximise, minus, no_variables, row, run_solver,
    solution_values, solver_outcome, value_of, with_default_solver, zero_expression, Affine,
    Assembled, Row,
};
use good_lp::{Expression, Variable};
use vstd::prelude::*;

verus! {

/// Why planning failed.
#[derive(Debug, Clone, PartialEq)]
pub enum PlanningError {
    /// The start cell does not lie in the grid.
    StartOutOfBounds,
    /// The model of the problem has more variables than can be indexed, or
    /// numbers whose sum the solver cannot hold exactly.
    TooLarge,
    /// The model mentions a variable that it does not declare, or a number
    /// beyond the range of a reward.
    InvalidModel,
    /// No assignment satisfies all constraints.
    Infeasible,
    /// The objective can grow without limit.
    Unbounded,
    /// The solver gave up, with this message.
    Solver(String),
}

/// What values a variable may take.
#[derive(Debug, Clone, Copy, PartialEq)]
pub enum VariableKind {
    /// 0 or 1.
    Binary,
    /// Any real number.
    Continuous,
}

/// How the left-hand side of a constraint relates to its bound.
#[derive(Debug, Clone, Copy, PartialEq)]
pub enum Relation {
    Equal,
    AtMost,
    AtLeast,
}

/// `coef` times the variable at position `var`.
#[derive(Debug, Clone, Copy, PartialEq)]
pub struct Term {
    pub var: usize,
    pub coef: i64,
}

/// The sum of `terms` stands in `relation` to `bound`.
#[derive(Debug, Clone, PartialEq)]
pub struct LinearConstraint {
    pub terms: Vec<Term>,
    pub relation: Relation,
    pub bound: i64,
}

/// Maximise the sum of `objective` over variables of the given kinds, subject
/// to `constraints`.
#[derive(Debug, Clone, PartialEq)]
pub struct LinearProgram {
    pub kinds: Vec<VariableKind>,
    pub objective: Vec<Term>,
    pub constraints: Vec<LinearConstraint>,
}

/// A constraint as a mathematical value.
pub struct ConstraintModel {
    pub terms: Seq<Term>,
    pub relation: Relation,
    pub bound: int,
}

/// A linear program as a mathematical value.
pub struct ProgramModel {
    pub kinds: Seq<VariableKind>,
    pub objective: Seq<Term>,
    pub constraints: Seq<ConstraintModel>,
}

impl View for LinearConstraint {
    type V = ConstraintModel;

    /// The constraint with its terms as a sequence.
    open spec fn view(&self) -> ConstraintModel {
        ConstraintModel { terms: self.terms@, relation: self.relation, bound: self.bound as int }
    }
}

impl View for LinearProgram {
    type V = ProgramModel;

    /// The program with its parts as sequences.
    open spec fn view(&self) -> ProgramModel {
        ProgramModel {
            kinds: self.kinds@,
            objective: self.objective@,
            constraints: Seq::new(self.constraints.len() as nat, |k: int| self.constraints[k]@),
        }
    }
}

/// The greatest magnitude of a coefficient or a bound.
pub open spec fn magnitude_limit() -> int {
    u32::MAX as int
}

/// Every term names one of `count` variables and has a coefficient within the
/// limit.
pub open spec fn terms_valid(terms: Seq<Term>, count: nat) -> bool {
    forall|k: int|
        0 <= k < terms.len() ==> (#[trigger] terms[k]).var < count && -magnitude_limit()
            <= terms[k].coef <= magnitude_limit()
}

/// The constraint speaks of `count` variables at most, with numbers within
/// the limit.
pub open spec fn constraint_valid(c: ConstraintModel, count: nat) -> bool {
    terms_valid(c.terms, count) && -magnitude_limit() <= c.bound <= magnitude_limit()
}

/// The program mentions only variables that it declares, with numbers within
/// the limit.
pub open spec fn program_valid(p: ProgramModel) -> bool {
    &&& terms_valid(p.objective, p.kinds.len())
    &&& forall|k: int|
        0 <= k < p.constraints.len() ==> constraint_valid(
            #[trigger] p.constraints[k],
            p.kinds.len(),
        )
}

/// The magnitude of a coefficient.
pub open spec fn magnitude(c: i64) -> int {
    if c >= 0 {
        c as int
    } else {
        -(c as int)
    }
}

/// The sum of the magnitudes of the coefficients of `terms`.
pub open spec fn total_magnitude(terms: Seq<Term>) -> int
    decreases terms.len(),
{
    if terms.len() == 0 {
        0
    } else {
        total_magnitude(terms.drop_last()) + magnitude(terms.last().coef)
    }
}

/// The solver can add up the coefficients of `terms` exactly, however they
/// fall to the variables.
pub open spec fn terms_exact(terms: Seq<Term>) -> bool {
    total_magnitude(terms) <= exact_limit()
}

/// The solver can hold the program exactly.
pub open spec fn program_exact(p: ProgramModel) -> bool {
    &&& terms_exact(p.objective)
    &&& forall|k: int|
        0 <= k < p.constraints.len() ==> terms_exact((#[trigger] p.constraints[k]).terms)
}

/// For each variable that a term of `terms` with a coefficient of the given
/// sign names (`positive`: 0 or more), the sum of the magnitudes of those
/// terms' coefficients.
pub open spec fn gathered(terms: Seq<Term>, positive: bool) -> Map<nat, int>
    decreases terms.len(),
{
    if terms.len() == 0 {
        Map::empty()
    } else {
        let rest = gathered(terms.drop_last(), positive);
        let t = terms.last();
        if (t.coef >= 0) == positive {
            rest.insert(t.var as nat, at(rest, t.var as nat) + magnitude(t.coef))
        } else {
            rest
        }
    }
}

/// The left side of `sum of terms = bound` as the solver is handed it: the
/// terms with a coefficient of 0 or more, and the bound with its sign turned
/// where it is below 0.
pub open spec fn left_side(terms: Seq<Term>, bound: int) -> Affine {
    Affine {
        coefficients: gathered(terms, true),
        constant: if bound < 0 {
            -bound
        } else {
            0
        },
    }
}

/// The right side of `sum of terms = bound` as the solver is handed it: the
/// terms with a coefficient below 0, their signs turned, and the bound where
/// it is 0 or more.
pub open spec fn right_side(terms: Seq<Term>, bound: int) -> Affine {
    Affine {
        coefficients: gathered(terms, false),
        constant: if bound >= 0 {
            bound
        } else {
            0
        },
    }
}

/// The constraint as the solver holds it: `left - right` compared with 0,
/// the sides exchanged where the constraint asks for at least the bound.
pub open spec fn row_of(c: ConstraintModel) -> Row {
    let left = left_side(c.terms, c.bound);
    let right = right_side(c.terms, c.bound);
    match c.relation {
        Relation::Equal => Row {
            coefficients: minus(left.coefficients, right.coefficients),
            constant: left.constant - right.constant,
            equality: true,
        },
        Relation::AtMost => Row {
            coefficients: minus(left.coefficients, right.coefficients),
            constant: left.constant - right.constant,
            equality: false,
        },
        Relation::AtLeast => Row {
            coefficients: minus(right.coefficients, left.coefficients),
            constant: right.constant - left.constant,
            equality: false,
        },
    }
}

/// The kind of a variable as the solver knows it.
pub open spec fn kind_code(k: VariableKind) -> int {
    match k {
        VariableKind::Binary => binary_kind(),
        VariableKind::Continuous => continuous_kind(),
    }
}

/// The program as the solver holds it.
pub open spec fn assembled_of(p: ProgramModel) -> Assembled {
    Assembled {
        kinds: Seq::new(p.kinds.len(), |k: int| kind_code(p.kinds[k])),
        objective: Seq::new(
            p.kinds.len(),
            |i: int|
                at(minus(gathered(p.objective, true), gathered(p.objective, false)), i as nat),
        ),
        rows: Seq::new(p.constraints.len(), |k: int| row_of(p.constraints[k])),
    }
}

/// A constraint without terms holds or fails by its bound alone.
pub open spec fn holds_of_nothing(c: ConstraintModel) -> bool {
    match c.relation {
        Relation::Equal => c.bound == 0,
        Relation::AtMost => c.bound >= 0,
        Relation::AtLeast => c.bound <= 0,
    }
}

/// What `solve` returns for the program `p`: its own refusal where the
/// program is not valid or cannot be held exactly; for a program without
/// variables, in which there is nothing to solve, the empty assignment
/// where every constraint holds by its bound, and infeasibility where one
/// does not; and else what the solver makes of the program.
pub open spec fn solve_outcome(p: ProgramModel) -> Result<Seq<i64>, PlanningError> {
    if !program_valid(p) {
        Err(PlanningError::InvalidModel)
    } else if !program_exact(p) {
        Err(PlanningError::TooLarge)
    } else if p.kinds.len() == 0 {
        if forall|k: int|
            0 <= k < p.constraints.len() ==> holds_of_nothing(#[trigger] p.constraints[k]) {
            Ok(Seq::empty())
        } else {
            Err(PlanningError::Infeasible)
        }
    } else {
        solver_outcome(assembled_of(p))
    }
}

/// The magnitudes of the first terms of a list sum to no more than those of
/// the whole list.
pub proof fn lemma_total_magnitude_take(terms: Seq<Term>, k: int)
    requires
        0 <= k <= terms.len(),
    ensures
        0 <= total_magnitude(terms.take(k)) <= total_magnitude(terms),
    decreases terms.len(),
{
    if k == terms.len() {
        assert(terms.take(k) =~= terms);
        lemma_total_magnitude_nonnegative(terms);
    } else {
        assert(terms.take(k) =~= terms.drop_last().take(k));
        lemma_total_magnitude_take(terms.drop_last(), k);
    }
}

/// A sum of magnitudes is 0 or more.
pub proof fn lemma_total_magnitude_nonnegative(terms: Seq<Term>)
    ensures
        0 <= total_magnitude(terms),
    decreases terms.len(),
{
    if terms.len() > 0 {
        lemma_total_magnitude_nonnegative(terms.drop_last());
    }
}

/// What is gathered from valid terms names declared variables, finitely
/// many, and no coefficient gathered is below 0 or above the sum of all
/// magnitudes.
pub proof fn lemma_gathered(terms: Seq<Term>, positive: bool, count: nat)
    requires
        terms_valid(terms, count),
    ensures
        gathered(terms, positive).dom().finite(),
        below(gathered(terms, positive).dom(), count),
        forall|i: nat|
            0 <= #[trigger] at(gathered(terms, positive), i) <= total_magnitude(terms),
    decreases terms.len(),
{
    if terms.len() > 0 {
        let front = terms.drop_last();
        assert forall|k: int| 0 <= k < front.len() implies (#[trigger] front[k]).var < count
            && -magnitude_limit() <= front[k].coef <= magnitude_limit() by {
            assert(front[k] == terms[k]);
        }
        lemma_gathered(front, positive, count);
        lemma_total_magnitude_nonnegative(front);
        let rest = gathered(front, positive);
        let t = terms[terms.len() - 1];
        assert forall|i: nat| 0 <= #[trigger] at(gathered(terms, positive), i) <= total_magnitude(
            terms,
        ) by {
            assert(0 <= at(rest, i) <= total_magnitude(front));
        }
    }
}

/// The value of the sum of `terms` under the assignment `x`.
pub open spec fn sum_of(terms: Seq<Term>, x: Seq<i64>) -> int
    decreases terms.len(),
{
    if terms.len() == 0 {
        0
    } else {
        sum_of(terms.drop_last(), x) + terms.last().coef * x[terms.last().var as int]
    }
}

/// The assignment `x` meets the constraint `c`.
pub open spec fn meets(c: ConstraintModel, x: Seq<i64>) -> bool {
    match c.relation {
        Relation::Equal => sum_of(c.terms, x) == c.bound,
        Relation::AtMost => sum_of(c.terms, x) <= c.bound,
        Relation::AtLeast => sum_of(c.terms, x) >= c.bound,
    }
}

/// The assignment `x` of a whole number to every variable is admitted by
/// the program: binary variables have 0 or 1, and every constraint is met.
pub open spec fn is_feasible(p: ProgramModel, x: Seq<i64>) -> bool {
    &&& x.len() == p.kinds.len()
    &&& forall|k: int|
        0 <= k < x.len() && p.kinds[k] == VariableKind::Binary ==> #[trigger] x[k] == 0 || x[k]
            == 1
    &&& forall|k: int| 0 <= k < p.constraints.len() ==> meets(#[trigger] p.constraints[k], x)
}

/// The sum of two lists of terms joined is the sum of their sums.
pub proof fn lemma_sum_concat(a: Seq<Term>, b: Seq<Term>, x: Seq<i64>)
    ensures
        sum_of(a + b, x) == sum_of(a, x) + sum_of(b, x),
    decreases b.len(),
{
    if b.len() == 0 {
        assert(a + b =~= a);
    } else {
        lemma_sum_concat(a, b.drop_last(), x);
        assert((a + b).drop_last() =~= a + b.drop_last());
        assert((a + b).last() == b.last());
    }
}

/// Whether every term names one of `count` variables and has a coefficient
/// within the limit.
fn check_terms(terms: &Vec<Term>, count: usize) -> (ok: bool)
    ensures
        ok == terms_valid(terms@, count as nat),
{
    let mut k: usize = 0;
    while k < terms.len()
        invariant
            k <= terms.len(),
            terms_valid(terms@.take(k as int), count as nat),
        decreases terms.len() - k,
    {
        let t = terms[k];
        if t.var >= count || t.coef < -4294967295 || t.coef > 4294967295 {
            return false;
        }
        assert forall|i: int| 0 <= i < k + 1 implies (#[trigger] terms@.take(k + 1)[i]).var < count
            && -magnitude_limit() <= terms@.take(k + 1)[i].coef <= magnitude_limit() by {
            if i < k {
                assert(terms@.take(k as int)[i] == terms@.take(k + 1)[i]);
            }
        }
        k += 1;
    }
    assert(terms@.take(terms.len() as int) == terms@);
    true
}

impl LinearProgram {
    /// Whether the program mentions only variables that it declares, with
    /// numbers within the limit.
    pub fn is_valid(&self) -> (ok: bool)
        ensures
            ok == program_valid(self@),
    {
        let count = self.kinds.len();
        if !check_terms(&self.objective, count) {
            return false;
        }
        let mut k: usize = 0;
        while k < self.constraints.len()
            invariant
                k <= self.constraints.len(),
                count == self.kinds.len(),
                forall|i: int|
                    0 <= i < k ==> constraint_valid(#[trigger] self@.constraints[i], count as nat),
            decreases self.constraints.len() - k,
        {
            let c = &self.constraints[k];
            assert(self@.constraints[k as int] == c@);
            if !check_terms(&c.terms, count) || c.bound < -4294967295 || c.bound > 4294967295 {
                return false;
            }
            k += 1;
        }
        true
    }
}

/// Whether the magnitudes of the coefficients of `terms` sum to no more
/// than the solver can hold exactly.
fn check_exact(terms: &Vec<Term>) -> (ok: bool)
    requires
        forall|k: int|
            0 <= k < terms.len() ==> -magnitude_limit() <= (#[trigger] terms[k]).coef
                <= magnitude_limit(),
    ensures
        ok == terms_exact(terms@),
{
    let mut total: u64 = 0;
    let mut k: usize = 0;
    proof {
        assert(terms@.take(0) =~= Seq::<Term>::empty());
    }
    while k < terms.len()
        invariant
            k <= terms.len(),
            forall|i: int|
                0 <= i < terms.len() ==> -magnitude_limit() <= (#[trigger] terms[i]).coef
                    <= magnitude_limit(),
            total == total_magnitude(terms@.take(k as int)),
            total <= exact_limit(),
        decreases terms.len() - k,
    {
        let c = terms[k].coef;
        let size: u64 = if c >= 0 {
            c as u64
        } else {
            (-c) as u64
        };
        proof {
            assert(terms@.take(k + 1).drop_last() =~= terms@.take(k as int));
            assert(terms@.take(k + 1).last() == terms[k as int]);
            assert(total_magnitude(terms@.take(k + 1)) == total + size);
        }
        total = total + size;
        if total > 9007199254740992 {
            proof {
                lemma_total_magnitude_take(terms@, k + 1);
            }
            return false;
        }
        k += 1;
    }
    assert(terms@.take(terms.len() as int) =~= terms@);
    true
}

impl LinearProgram {
    /// Whether the solver can hold the program exactly: in the objective and
    /// in every constraint the magnitudes of the coefficients sum to no more
    /// than 2 to the power of 53.
    pub fn is_exact(&self) -> (ok: bool)
        requires
            program_valid(self@),
        ensures
            ok == program_exact(self@),
    {
        if !check_exact(&self.objective) {
            return false;
        }
        let mut k: usize = 0;
        while k < self.constraints.len()
            invariant
                k <= self.constraints.len(),
                program_valid(self@),
                forall|i: int| 0 <= i < k ==> terms_exact((#[trigger] self@.constraints[i]).terms),
            decreases self.constraints.len() - k,
        {
            let c = &self.constraints[k];
            assert(self@.constraints[k as int] == c@);
            assert(constraint_valid(self@.constraints[k as int], self@.kinds.len()));
            if !check_exact(&c.terms) {
                return false;
            }
            k += 1;
        }
        true
    }
}

/// The two sides of `sum of terms = bound`, so arranged that every number
/// is added: on the left the terms with a coefficient of 0 or more, on the
/// right the others with their sign turned, and the bound on the right where
/// it is 0 or more, else with its sign turned on the left.
fn sides_of(terms: &Vec<Term>, bound: i64, handles: &Vec<Variable>) -> (sides: (
    Expression,
    Expression,
))
    requires
        terms_valid(terms@, handles.len() as nat),
        terms_exact(terms@),
        -magnitude_limit() <= bound <= magnitude_limit(),
        forall|i: int| 0 <= i < handles.len() ==> index_of(#[trigger] handles[i]) == i,
    ensures
        affine(sides.0) == Some(left_side(terms@, bound as int)),
        affine(sides.1) == Some(right_side(terms@, bound as int)),
        can_subtract(left_side(terms@, bound as int), right_side(terms@, bound as int)),
        can_subtract(right_side(terms@, bound as int), left_side(terms@, bound as int)),
        minus(gathered(terms@, true), gathered(terms@, false)).dom().finite(),
        minus(gathered(terms@, false), gathered(terms@, true)).dom().finite(),
        below(
            minus(gathered(terms@, true), gathered(terms@, false)).dom(),
            handles.len() as nat,
        ),
        below(
            minus(gathered(terms@, false), gathered(terms@, true)).dom(),
            handles.len() as nat,
        ),
{
    let mut left = zero_expression();
    let mut right = zero_expression();
    let mut k: usize = 0;
    proof {
        assert(terms@.take(0) =~= Seq::<Term>::empty());
    }
    while k < terms.len()
        invariant
            k <= terms.len(),
            terms_valid(terms@, handles.len() as nat),
            terms_exact(terms@),
            forall|i: int| 0 <= i < handles.len() ==> index_of(#[trigger] handles[i]) == i,
            affine(left) == Some(
                Affine { coefficients: gathered(terms@.take(k as int), true), constant: 0 },
            ),
            affine(right) == Some(
                Affine { coefficients: gathered(terms@.take(k as int), false), constant: 0 },
            ),
        decreases terms.len() - k,
    {
        let t = terms[k];
        let v = handles[t.var];
        proof {
            let before = terms@.take(k as int);
            assert(terms@.take(k + 1).drop_last() =~= before);
            assert(terms@.take(k + 1).last() == t);
            lemma_total_magnitude_take(terms@, k as int);
            lemma_total_magnitude_take(terms@, k + 1);
            assert forall|i: int| 0 <= i < before.len() implies (#[trigger] before[i]).var
                < handles.len() && -magnitude_limit() <= before[i].coef <= magnitude_limit() by {
                assert(before[i] == terms[i]);
            }
            lemma_gathered(before, true, handles.len() as nat);
            lemma_gathered(before, false, handles.len() as nat);
            assert(at(gathered(before, true), t.var as nat) <= total_magnitude(before));
            assert(at(gathered(before, false), t.var as nat) <= total_magnitude(before));
            assert(total_magnitude(terms@.take(k + 1)) == total_magnitude(before) + magnitude(
                t.coef,
            ));
        }
        if t.coef >= 0 {
            add_term(&mut left, t.coef as u32, v);
        } else {
            add_term(&mut right, (-t.coef) as u32, v);
        }
        k += 1;
    }
    assert(terms@.take(terms.len() as int) =~= terms@);
    if bound >= 0 {
        add_constant(&mut right, bound as u32);
    } else {
        add_constant(&mut left, (-bound) as u32);
    }
    proof {
        lemma_gathered(terms@, true, handles.len() as nat);
        lemma_gathered(terms@, false, handles.len() as nat);
        let l = left_side(terms@, bound as int);
        let r = right_side(terms@, bound as int);
        assert forall|i: nat|
            -exact_limit() <= #[trigger] at(l.coefficients, i) - at(r.coefficients, i)
                <= exact_limit() by {
            assert(0 <= at(gathered(terms@, true), i) <= total_magnitude(terms@));
            assert(0 <= at(gathered(terms@, false), i) <= total_magnitude(terms@));
        }
        assert forall|i: nat|
            -exact_limit() <= #[trigger] at(r.coefficients, i) - at(l.coefficients, i)
                <= exact_limit() by {
            assert(0 <= at(gathered(terms@, true), i) <= total_magnitude(terms@));
            assert(0 <= at(gathered(terms@, false), i) <= total_magnitude(terms@));
        }
        let both = gathered(terms@, true).dom().union(gathered(terms@, false).dom());
        assert(minus(gathered(terms@, true), gathered(terms@, false)).dom() =~= both);
        assert(minus(gathered(terms@, false), gathered(terms@, true)).dom() =~= both);
    }
    (left, right)
}

/// Hands `program` to the solver and reads back the value of every variable,
/// in the order in which the program declares them, each with its fraction
/// cut off.
///
/// A program that is not valid, or that the solver cannot hold exactly,
/// never reaches the solver; nor does a program without variables, which is
/// decided by the bounds of its constraints. For any other the result is the
/// solver's outcome for the program as `assembled_of` lays it out: which
/// values that is, and whether any, is the solver's doing.
pub fn solve(program: &LinearProgram) -> (r: Result<Vec<i64>, PlanningError>)
    ensures
        match solve_outcome(program@) {
            Ok(values) => r is Ok && r->Ok_0@ == values,
            Err(e) => r == Err::<Vec<i64>, PlanningError>(e),
        },
        !program_valid(program@) <==> r == Err::<Vec<i64>, PlanningError>(
            PlanningError::InvalidModel,
        ),
        program_valid(program@) ==> (!program_exact(program@) <==> r == Err::<
            Vec<i64>,
            PlanningError,
        >(PlanningError::TooLarge)),
        r matches Ok(values) ==> values.len() == program.kinds.len(),
        r matches Err(e) ==> e is InvalidModel || e is TooLarge || e is Infeasible
            || e is Unbounded || e is Solver,
{
    if !program.is_valid() {
        return Err(PlanningError::InvalidModel);
    }
    if !program.is_exact() {
        return Err(PlanningError::TooLarge);
    }
    let count = program.kinds.len();
    if count == 0 {
        let mut k: usize = 0;
        while k < program.constraints.len()
            invariant
                k <= program.constraints.len(),
                program_valid(program@),
                program_exact(program@),
                program.kinds.len() == 0,
                forall|i: int| 0 <= i < k ==> holds_of_nothing(#[trigger] program@.constraints[i]),
            decreases program.constraints.len() - k,
        {
            let c = &program.constraints[k];
            assert(program@.constraints[k as int] == c@);
            let holds = match c.relation {
                Relation::Equal => c.bound == 0,
                Relation::AtMost => c.bound >= 0,
                Relation::AtLeast => c.bound <= 0,
            };
            if !holds {
                assert(!holds_of_nothing(program@.constraints[k as int]));
                return Err(PlanningError::Infeasible);
            }
            k += 1;
        }
        return Ok(Vec::new());
    }
    let ghost wanted = assembled_of(program@);
    let mut vars = no_variables();
    let mut handles: Vec<Variable> = Vec::new();
    let mut k: usize = 0;
    while k < count
        invariant
            k <= count,
            count == program.kinds.len(),
            kinds_of(vars) == Seq::new(k as nat, |i: int| kind_code(program.kinds[i])),
            handles.len() == k,
            forall|i: int| 0 <= i < k ==> index_of(#[trigger] handles[i]) == i,
        decreases count - k,
    {
        let ghost before = kinds_of(vars);
        let definition = match program.kinds[k] {
            VariableKind::Binary => binary(continuous()),
            VariableKind::Continuous => continuous(),
        };
        let v = declare(&mut vars, definition);
        handles.push(v);
        assert(kinds_of(vars) =~= Seq::new((k + 1) as nat, |i: int| kind_code(program.kinds[i])));
        k += 1;
    }
    assert(kinds_of(vars) =~= wanted.kinds);
    let (gains, losses) = sides_of(&program.objective, 0, &handles);
    let objective = difference(gains, losses);
    let mut model = with_default_solver(maximise(vars, objective));
    assert(assembled(model)->Some_0.objective =~= wanted.objective);
    assert(wanted.rows.take(0) =~= Seq::<Row>::empty());
    let mut c: usize = 0;
    while c < program.constraints.len()
        invariant
            c <= program.constraints.len(),
            program_valid(program@),
            program_exact(program@),
            count == program.kinds.len(),
            handles.len() == count,
            forall|i: int| 0 <= i < count ==> index_of(#[trigger] handles[i]) == i,
            wanted == assembled_of(program@),
            assembled(model) == Some(
                Assembled {
                    kinds: wanted.kinds,
                    objective: wanted.objective,
                    rows: wanted.rows.take(c as int),
                },
            ),
        decreases program.constraints.len() - c,
    {
        let constraint = &program.constraints[c];
        assert(program@.constraints[c as int] == constraint@);
        assert(constraint_valid(program@.constraints[c as int], count as nat));
        assert(terms_exact(program@.constraints[c as int].terms));
        let (left, right) = sides_of(&constraint.terms, constraint.bound, &handles);
        let demand = match constraint.relation {
            Relation::Equal => equal(left, right),
            Relation::AtMost => at_most(left, right),
            Relation::AtLeast => at_least(left, right),
        };
        assert(row(demand) == Some(row_of(constraint@)));
        add_constraint(&mut model, demand);
        assert(wanted.rows.take(c + 1) =~= wanted.rows.take(c as int).push(row_of(constraint@)));
        c += 1;
    }
    assert(wanted.rows.take(program.constraints.len() as int) =~= wanted.rows);
    assert(assembled(model) == Some(wanted));
    match run_solver(model) {
        Err(e) => Err(failure_of(e)),
        Ok(solution) => {
            let mut values: Vec<i64> = Vec::new();
            let mut k: usize = 0;
            while k < count
                invariant
                    k <= count,
                    handles.len() == count,
                    forall|i: int| 0 <= i < count ==> index_of(#[trigger] handles[i]) == i,
                    solution_values(solution).len() == count,
                    values@ == solution_values(solution).take(k as int),
                decreases count - k,
            {
                values.push(value_of(&solution, handles[k]));
                assert(values@ =~= solution_values(solution).take(k + 1));
                k += 1;
            }
            assert(solution_values(solution).take(count as int) =~= solution_values(solution));
            Ok(values)
        },
    }
}

} // verus!
