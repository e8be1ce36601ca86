use pathfinding::program::{
    solve, LinearConstraint, LinearProgram, PlanningError, Relation, Term, VariableKind,
};

fn terms(pairs: &[(usize, i64)]) -> Vec<Term> {
    pairs.iter().map(|&(var, coef)| Term { var, coef }).collect()
}

fn lp_short_path_problem() -> Result<Vec<i64>, PlanningError> {
    // variables x12, x13, x14, x23, x41, in this order; to minimise
    // 10 x12 + 60 x13 + 70 x14 + 20 x23 is to maximise its negative
    let program = LinearProgram {
        kinds: vec![VariableKind::Binary; 5],
        objective: terms(&[(0, -10), (1, -60), (2, -70), (3, -20)]),
        constraints: vec![
            // node 1 - move out of the start
            LinearConstraint {
                terms: terms(&[(0, 1), (1, 1), (2, 1)]),
                relation: Relation::Equal,
                bound: 1,
            },
            // node 2 - should be able to move from 12 to 23
            LinearConstraint {
                terms: terms(&[(3, 1), (0, -1)]),
                relation: Relation::Equal,
                bound: 0,
            },
            // node 3 - end node, should be able to move from 13 or 23
            LinearConstraint {
                terms: terms(&[(3, 1), (1, 1)]),
                relation: Relation::Equal,
                bound: 1,
            },
            // node 4 - should be able to move from 14 to 41
            LinearConstraint {
                terms: terms(&[(2, 1), (4, -1)]),
                relation: Relation::Equal,
                bound: 0,
            },
        ],
    };
    solve(&program)
}

#[test]
fn test_small_lp_problem() {
    let solution = lp_short_path_problem().expect("Unable to solve the problem");
    println!("x12: {}", solution[0]);
    println!("x13: {}", solution[1]);
    println!("x14: {}", solution[2]);
    println!("x23: {}", solution[3]);
    println!("x41: {}", solution[4]);
}

#[test]
fn small_lp_problem_takes_the_cheap_way() {
    // 1 -> 2 -> 3 costs 30, 1 -> 3 costs 60
    assert_eq!(lp_short_path_problem(), Ok(vec![1, 0, 0, 1, 0]));
}

#[test]
fn solve_picks_the_better_of_two_binaries() {
    // maximise 3x + 5y subject to x + y == 1
    let program = LinearProgram {
        kinds: vec![VariableKind::Binary, VariableKind::Binary],
        objective: terms(&[(0, 3), (1, 5)]),
        constraints: vec![LinearConstraint {
            terms: terms(&[(0, 1), (1, 1)]),
            relation: Relation::Equal,
            bound: 1,
        }],
    };
    assert_eq!(solve(&program), Ok(vec![0, 1]));
    assert!(program.is_valid());
}

#[test]
fn solve_keeps_the_order_of_the_variables() {
    // maximise x0 + 2 x1 + 3 x2 with x0 <= 5, x1 <= 7, x2 <= 9
    let program = LinearProgram {
        kinds: vec![VariableKind::Continuous; 3],
        objective: terms(&[(0, 1), (1, 2), (2, 3)]),
        constraints: vec![
            LinearConstraint { terms: terms(&[(0, 1)]), relation: Relation::AtMost, bound: 5 },
            LinearConstraint { terms: terms(&[(1, 1)]), relation: Relation::AtMost, bound: 7 },
            LinearConstraint { terms: terms(&[(2, 1)]), relation: Relation::AtMost, bound: 9 },
        ],
    };
    assert_eq!(solve(&program), Ok(vec![5, 7, 9]));
}

#[test]
fn solve_tells_binary_from_continuous() {
    // maximise x + y with 2x <= 3 and 2y <= 7: the binary x is 1, y is 3.5
    let program = LinearProgram {
        kinds: vec![VariableKind::Binary, VariableKind::Continuous],
        objective: terms(&[(0, 1), (1, 1)]),
        constraints: vec![
            LinearConstraint { terms: terms(&[(0, 2)]), relation: Relation::AtMost, bound: 3 },
            LinearConstraint { terms: terms(&[(1, 2)]), relation: Relation::AtMost, bound: 7 },
        ],
    };
    // the fraction of y is cut off
    assert_eq!(solve(&program), Ok(vec![1, 3]));
}

#[test]
fn solve_reports_an_empty_infeasible_program() {
    let program = LinearProgram {
        kinds: vec![],
        objective: vec![],
        constraints: vec![LinearConstraint { terms: vec![], relation: Relation::Equal, bound: 3 }],
    };
    assert_eq!(solve(&program), Err(PlanningError::Infeasible));
}

#[test]
fn solve_decides_a_program_without_variables_by_its_bounds() {
    let with = |relation: Relation, bound: i64| LinearProgram {
        kinds: vec![],
        objective: vec![],
        constraints: vec![
            LinearConstraint { terms: vec![], relation: Relation::Equal, bound: 0 },
            LinearConstraint { terms: vec![], relation, bound },
        ],
    };
    assert_eq!(solve(&with(Relation::Equal, 0)), Ok(vec![]));
    assert_eq!(solve(&with(Relation::Equal, -1)), Err(PlanningError::Infeasible));
    assert_eq!(solve(&with(Relation::AtMost, 0)), Ok(vec![]));
    assert_eq!(solve(&with(Relation::AtMost, 7)), Ok(vec![]));
    assert_eq!(solve(&with(Relation::AtMost, -7)), Err(PlanningError::Infeasible));
    assert_eq!(solve(&with(Relation::AtLeast, 0)), Ok(vec![]));
    assert_eq!(solve(&with(Relation::AtLeast, -7)), Ok(vec![]));
    assert_eq!(solve(&with(Relation::AtLeast, 7)), Err(PlanningError::Infeasible));
}

#[test]
fn solve_refuses_sums_that_the_solver_cannot_hold_exactly() {
    // 2^21 + 1 coefficients of 2^32 - 1 sum to more than 2^53
    let many = terms(&vec![(0usize, 4294967295i64); (1 << 21) + 1]);
    let program = LinearProgram {
        kinds: vec![VariableKind::Continuous],
        objective: many.clone(),
        constraints: vec![],
    };
    assert!(program.is_valid());
    assert!(!program.is_exact());
    assert_eq!(solve(&program), Err(PlanningError::TooLarge));
    // the signs do not matter, only the magnitudes
    let mixed: Vec<Term> = many
        .iter()
        .enumerate()
        .map(|(k, t)| Term { var: 0, coef: if k % 2 == 0 { t.coef } else { -t.coef } })
        .collect();
    let program = LinearProgram {
        kinds: vec![VariableKind::Continuous],
        objective: vec![],
        constraints: vec![LinearConstraint { terms: mixed, relation: Relation::AtMost, bound: 1 }],
    };
    assert!(!program.is_exact());
    assert_eq!(solve(&program), Err(PlanningError::TooLarge));
    // 2^21 of them sum to less
    let fewer = terms(&vec![(0usize, 4294967295i64); 1 << 21]);
    let program = LinearProgram {
        kinds: vec![VariableKind::Continuous],
        objective: vec![],
        constraints: vec![LinearConstraint { terms: fewer, relation: Relation::AtMost, bound: 1 }],
    };
    assert!(program.is_exact());
}

#[test]
fn solve_adds_up_the_terms_of_one_variable() {
    // maximise 2x + 3x - x = 4x subject to x + x - 5x = -3x >= -6: x = 2
    let program = LinearProgram {
        kinds: vec![VariableKind::Continuous],
        objective: terms(&[(0, 2), (0, 3), (0, -1)]),
        constraints: vec![LinearConstraint {
            terms: terms(&[(0, 1), (0, 1), (0, -5)]),
            relation: Relation::AtLeast,
            bound: -6,
        }],
    };
    assert_eq!(solve(&program), Ok(vec![2]));
    // maximise x - x subject to x <= 3 and x >= 3
    let program = LinearProgram {
        kinds: vec![VariableKind::Continuous],
        objective: terms(&[(0, 1), (0, -1)]),
        constraints: vec![
            LinearConstraint { terms: terms(&[(0, 1)]), relation: Relation::AtMost, bound: 3 },
            LinearConstraint { terms: terms(&[(0, 1)]), relation: Relation::AtLeast, bound: 3 },
        ],
    };
    assert_eq!(solve(&program), Ok(vec![3]));
}

#[test]
fn solve_accepts_an_empty_program() {
    let program = LinearProgram { kinds: vec![], objective: vec![], constraints: vec![] };
    assert_eq!(solve(&program), Ok(vec![]));
}

#[test]
fn solve_reports_unbounded() {
    let program = LinearProgram {
        kinds: vec![VariableKind::Continuous],
        objective: terms(&[(0, 1)]),
        constraints: vec![],
    };
    assert_eq!(solve(&program), Err(PlanningError::Unbounded));
}

#[test]
fn solve_reports_infeasible() {
    let program = LinearProgram {
        kinds: vec![VariableKind::Binary],
        objective: terms(&[(0, 1)]),
        constraints: vec![LinearConstraint {
            terms: terms(&[(0, 1)]),
            relation: Relation::AtLeast,
            bound: 2,
        }],
    };
    assert_eq!(solve(&program), Err(PlanningError::Infeasible));
}

#[test]
fn solve_rejects_an_invalid_model() {
    let undeclared = LinearProgram {
        kinds: vec![VariableKind::Binary],
        objective: terms(&[(1, 1)]),
        constraints: vec![],
    };
    assert!(!undeclared.is_valid());
    assert_eq!(solve(&undeclared), Err(PlanningError::InvalidModel));
    let undeclared_in_constraint = LinearProgram {
        kinds: vec![VariableKind::Binary],
        objective: vec![],
        constraints: vec![LinearConstraint {
            terms: terms(&[(0, 1), (5, 1)]),
            relation: Relation::Equal,
            bound: 0,
        }],
    };
    assert_eq!(solve(&undeclared_in_constraint), Err(PlanningError::InvalidModel));
    let coefficient = LinearProgram {
        kinds: vec![VariableKind::Binary],
        objective: terms(&[(0, 4294967296)]),
        constraints: vec![],
    };
    assert_eq!(solve(&coefficient), Err(PlanningError::InvalidModel));
    let bound = LinearProgram {
        kinds: vec![VariableKind::Binary],
        objective: vec![],
        constraints: vec![LinearConstraint {
            terms: vec![],
            relation: Relation::AtMost,
            bound: -4294967296,
        }],
    };
    assert_eq!(solve(&bound), Err(PlanningError::InvalidModel));
}

#[test]
fn solve_takes_the_greatest_numbers() {
    // maximise 4294967295 x with 4294967295 x <= 4294967295: x = 1
    let program = LinearProgram {
        kinds: vec![VariableKind::Continuous],
        objective: terms(&[(0, 4294967295)]),
        constraints: vec![LinearConstraint {
            terms: terms(&[(0, 4294967295)]),
            relation: Relation::AtMost,
            bound: 4294967295,
        }],
    };
    assert!(program.is_valid());
    assert_eq!(solve(&program), Ok(vec![1]));
}

#[test]
fn solve_handles_negative_coefficients_and_bounds() {
    // maximise -x + y subject to -x <= -1 (so x = 1) and 2y - 3x <= 5 (so y = 4)
    let program = LinearProgram {
        kinds: vec![VariableKind::Binary, VariableKind::Continuous],
        objective: terms(&[(0, -1), (1, 1)]),
        constraints: vec![
            LinearConstraint { terms: terms(&[(0, -1)]), relation: Relation::AtMost, bound: -1 },
            LinearConstraint {
                terms: terms(&[(1, 2), (0, -3)]),
                relation: Relation::AtMost,
                bound: 5,
            },
        ],
    };
    assert_eq!(solve(&program), Ok(vec![1, 4]));
}

#[test]
fn solve_handles_at_least() {
    // maximise -y subject to y >= 3 - x, x binary: x = 1, y = 2
    let program = LinearProgram {
        kinds: vec![VariableKind::Binary, VariableKind::Continuous],
        objective: terms(&[(1, -1)]),
        constraints: vec![LinearConstraint {
            terms: terms(&[(1, 1), (0, 1)]),
            relation: Relation::AtLeast,
            bound: 3,
        }],
    };
    assert_eq!(solve(&program), Ok(vec![1, 2]));
}
