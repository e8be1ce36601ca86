use pathfinding::grid::Graph;
use pathfinding::path::{PathfindingResult, PathfindingStep};
use pathfinding::program::{LinearConstraint, PlanningError, Relation, Term, VariableKind};
use pathfinding::time_indexed::decode_time_indexed;
use pathfinding::time_model::{family_len, time_indexed_program};

fn small() -> Graph {
    let mut graph = Graph::new(2);
    graph.add_node((0, 0), 1);
    graph.add_node((0, 1), 2);
    graph.add_node((1, 0), 3);
    graph.add_node((1, 1), 4);
    graph
}

// In a model of side n over h timesteps the variable of family f for the cell
// (r, c) at time t stands at f n n h + (r n + c) h + t.
fn var(n: usize, h: usize, family: usize, cell: (usize, usize), t: usize) -> usize {
    family * n * n * h + (cell.0 * n + cell.1) * h + t
}

const MOVE: usize = 0;
const VISIT: usize = 1;
const SCORE: usize = 2;
const COLLECTED: usize = 3;

fn constraint(terms: &[(usize, i64)], relation: Relation, bound: i64) -> LinearConstraint {
    LinearConstraint {
        terms: terms.iter().map(|&(var, coef)| Term { var, coef }).collect(),
        relation,
        bound,
    }
}

#[test]
fn program_of_a_single_cell() {
    let mut graph = Graph::new(1);
    graph.add_node((0, 0), 6);
    let program = time_indexed_program(&graph, (0, 0), 2, 5).unwrap();
    assert_eq!(
        program.kinds,
        vec![
            VariableKind::Binary,
            VariableKind::Binary,
            VariableKind::Binary,
            VariableKind::Binary,
            VariableKind::Continuous,
            VariableKind::Continuous,
            VariableKind::Continuous,
            VariableKind::Continuous
        ]
    );
    assert_eq!(program.objective, vec![Term { var: 6, coef: 1 }, Term { var: 7, coef: 1 }]);
    let expected = vec![
        // the walk leaves the start at time 0
        constraint(&[(0, 1)], Relation::Equal, 1),
        // time 0: the cell holds its reward
        constraint(&[(4, 1)], Relation::Equal, 6),
        constraint(&[(6, 1), (4, -1)], Relation::AtMost, 0),
        constraint(&[(6, 1), (2, -6)], Relation::AtMost, 0),
        constraint(&[(6, 1), (4, -1), (2, -6)], Relation::AtMost, -6),
        constraint(&[(6, 1)], Relation::AtLeast, 0),
        // time 1: the reward recovers; a single cell has no neighbour to arrive from
        constraint(&[(4, 1), (3, -5), (5, -1)], Relation::Equal, -5),
        constraint(&[(7, 1), (5, -1)], Relation::AtMost, 0),
        constraint(&[(7, 1), (3, -6)], Relation::AtMost, 0),
        constraint(&[(7, 1), (5, -1), (3, -6)], Relation::AtMost, -6),
        constraint(&[(7, 1)], Relation::AtLeast, 0),
    ];
    assert_eq!(program.constraints, expected);
    assert!(program.is_valid());
}

#[test]
fn program_lists_the_constraints_cell_by_cell() {
    let graph = small();
    let (n, h) = (2, 2);
    let program = time_indexed_program(&graph, (0, 1), 2, 1).unwrap();
    assert_eq!(
        program.constraints[0],
        constraint(&[(var(n, h, MOVE, (0, 1), 0), 1)], Relation::Equal, 1)
    );
    // every cell has 5 constraints at time 0 and 6 at time 1
    let cells = [(0, 0), (0, 1), (1, 0), (1, 1)];
    for (k, &cell) in cells.iter().enumerate() {
        let at = 1 + 11 * k;
        assert_eq!(
            program.constraints[at],
            constraint(
                &[(var(n, h, SCORE, cell, 0), 1)],
                Relation::Equal,
                *graph.get_score_at(cell) as i64
            )
        );
        assert_eq!(
            program.constraints[at + 5],
            constraint(
                &[
                    (var(n, h, SCORE, cell, 0), 1),
                    (var(n, h, VISIT, cell, 1), -1),
                    (var(n, h, SCORE, cell, 1), -1)
                ],
                Relation::Equal,
                -1
            )
        );
        assert_eq!(
            program.constraints[at + 6].terms[0],
            Term { var: var(n, h, VISIT, cell, 1), coef: 1 }
        );
        assert_eq!(program.constraints[at + 6].terms.len(), 4);
        assert_eq!(
            program.constraints[at + 10],
            constraint(&[(var(n, h, COLLECTED, cell, 1), 1)], Relation::AtLeast, 0)
        );
    }
    assert_eq!(program.constraints.len(), 45);
}

#[test]
fn family_len_counts_the_variables_of_a_family() {
    assert_eq!(family_len(3, 2), Some(18));
    assert_eq!(family_len(0, 5), Some(0));
    // a model over no timestep has no variables, whatever the side
    assert_eq!(family_len(3, 0), Some(0));
    assert_eq!(family_len(usize::MAX, 0), Some(0));
    assert_eq!(family_len(1, 1), Some(1));
    assert_eq!(family_len(10, u32::MAX as usize), Some(100 * u32::MAX as usize));
    // four families of this size can still be indexed, of the next size not
    let most = usize::MAX / 4;
    assert_eq!(family_len(1, most), Some(most));
    assert_eq!(family_len(1, most + 1), None);
    assert_eq!(family_len(usize::MAX, 1), None);
    assert_eq!(family_len(1 << 20, 1 << 31), None);
}

#[test]
fn program_ties_arrival_to_the_neighbours() {
    let graph = small();
    let (n, h) = (2, 3);
    let program = time_indexed_program(&graph, (1, 0), 3, 7).unwrap();
    assert_eq!(program.kinds.len(), 4 * n * n * h);
    assert_eq!(program.kinds[2 * n * n * h - 1], VariableKind::Binary);
    assert_eq!(program.kinds[2 * n * n * h], VariableKind::Continuous);
    assert_eq!(program.objective.len(), n * n * h);
    assert_eq!(program.objective[0], Term { var: 3 * n * n * h, coef: 1 });
    // 1 for the start, and for each of 4 cells: 5 at time 0, 6 at each later time
    assert_eq!(program.constraints.len(), 1 + 4 * (5 + 6 + 6));
    let wanted = vec![
        constraint(&[(var(n, h, MOVE, (1, 0), 0), 1)], Relation::Equal, 1),
        constraint(&[(var(n, h, SCORE, (1, 1), 0), 1)], Relation::Equal, 4),
        constraint(
            &[
                (var(n, h, VISIT, (0, 1), 2), 1),
                (var(n, h, MOVE, (0, 0), 1), -1),
                (var(n, h, MOVE, (1, 0), 1), -1),
                (var(n, h, MOVE, (1, 1), 1), -1),
            ],
            Relation::Equal,
            0,
        ),
        constraint(
            &[
                (var(n, h, SCORE, (1, 0), 1), 1),
                (var(n, h, VISIT, (1, 0), 2), -7),
                (var(n, h, SCORE, (1, 0), 2), -1),
            ],
            Relation::Equal,
            -7,
        ),
        constraint(
            &[(var(n, h, COLLECTED, (0, 1), 2), 1), (var(n, h, VISIT, (0, 1), 2), -2)],
            Relation::AtMost,
            0,
        ),
        constraint(
            &[
                (var(n, h, COLLECTED, (1, 0), 1), 1),
                (var(n, h, SCORE, (1, 0), 1), -1),
                (var(n, h, VISIT, (1, 0), 1), -3),
            ],
            Relation::AtMost,
            -3,
        ),
    ];
    for c in wanted.iter() {
        assert!(program.constraints.contains(c), "missing {:?}", c);
    }
    assert!(program.is_valid());
}

#[test]
fn program_refuses_what_cannot_be_planned() {
    let graph = small();
    assert_eq!(
        time_indexed_program(&graph, (2, 0), 3, 1).err(),
        Some(PlanningError::StartOutOfBounds)
    );
    assert_eq!(
        time_indexed_program(&graph, (2, 0), 0, 1).err(),
        Some(PlanningError::StartOutOfBounds)
    );
    assert_eq!(time_indexed_program(&graph, (0, 0), 0, 1).err(), Some(PlanningError::Infeasible));
}

#[test]
fn decode_replays_the_rewards() {
    let graph = small();
    let (n, h) = (2, 3);
    let mut values = vec![0i64; 4 * n * n * h];
    values[var(n, h, VISIT, (1, 1), 1)] = 1;
    values[var(n, h, VISIT, (0, 0), 2)] = 1;
    let result = decode_time_indexed(&graph, (0, 0), 3, 10, &values);
    assert_eq!(
        result,
        PathfindingResult {
            path: vec![
                PathfindingStep { node: (0, 0), score: 1, step: 1 },
                // one recovery of 10 on top of 4
                PathfindingStep { node: (1, 1), score: 14, step: 2 },
                // collected at step 1, recovered once since
                PathfindingStep { node: (0, 0), score: 10, step: 3 }
            ]
        }
    );
    assert_eq!(result.score(), 25);
}

#[test]
fn decode_takes_the_first_cell_of_a_timestep() {
    let graph = small();
    let (n, h) = (2, 2);
    let mut values = vec![0i64; 4 * n * n * h];
    values[var(n, h, VISIT, (1, 0), 1)] = 1;
    values[var(n, h, VISIT, (0, 1), 1)] = 1;
    values[var(n, h, VISIT, (1, 1), 1)] = 1;
    // what is marked at time 0 is not read: the walk begins on the start
    values[var(n, h, VISIT, (0, 0), 0)] = 1;
    let result = decode_time_indexed(&graph, (1, 1), 2, 1, &values);
    assert_eq!(
        result,
        PathfindingResult {
            path: vec![
                PathfindingStep { node: (1, 1), score: 4, step: 1 },
                PathfindingStep { node: (0, 1), score: 3, step: 2 }
            ]
        }
    );
}

#[test]
fn decode_stops_at_a_timestep_without_a_cell() {
    let graph = small();
    let (n, h) = (2, 4);
    let mut values = vec![0i64; 4 * n * n * h];
    values[var(n, h, VISIT, (0, 1), 1)] = 1;
    values[var(n, h, VISIT, (1, 1), 3)] = 1;
    // other families and other values do not count
    values[var(n, h, MOVE, (1, 0), 2)] = 1;
    values[var(n, h, SCORE, (1, 0), 2)] = 1;
    values[var(n, h, COLLECTED, (1, 0), 2)] = 1;
    values[var(n, h, VISIT, (1, 0), 2)] = 2;
    let result = decode_time_indexed(&graph, (0, 0), 4, 1, &values);
    assert_eq!(
        result,
        PathfindingResult {
            path: vec![
                PathfindingStep { node: (0, 0), score: 1, step: 1 },
                PathfindingStep { node: (0, 1), score: 3, step: 2 }
            ]
        }
    );
}

#[test]
fn time_indexed_decode_with_no_budget_is_empty() {
    let graph = small();
    assert_eq!(decode_time_indexed(&graph, (0, 0), 0, 1, &vec![]), PathfindingResult::empty());
}

#[test]
fn planner_gives_a_trajectory_from_the_start() {
    let graph = small();
    for start in [(0, 0), (1, 1)] {
        for budget in 1..4u32 {
            let result = graph.path_planning_lp(start, budget, 2).unwrap();
            assert!(!result.path.is_empty());
            assert!(result.path.len() <= budget as usize);
            // the walk is put on the neighbours of the start at time 1
            assert!(budget < 2 || result.path.len() >= 2);
            assert_eq!(result.path[0].node, start);
            assert_eq!(result.path[0].score, *graph.get_score_at(start));
            for (k, step) in result.path.iter().enumerate() {
                assert_eq!(step.step as usize, k + 1);
                assert!(step.node.0 < 2 && step.node.1 < 2);
            }
        }
    }
    assert_eq!(*graph.get_score_at((1, 1)), 4);
}

#[test]
fn planner_reaches_every_neighbour_of_the_start_at_time_one() {
    // the walk leaves the start at time 0, so the model puts it on every
    // neighbour of the start at time 1; the first of them is read
    let graph = small();
    let result = graph.path_planning_lp((1, 1), 2, 5).unwrap();
    assert_eq!(
        result,
        PathfindingResult {
            path: vec![
                PathfindingStep { node: (1, 1), score: 4, step: 1 },
                PathfindingStep { node: (0, 0), score: 6, step: 2 }
            ]
        }
    );
}

#[test]
fn planner_on_a_single_cell_stays_on_it() {
    let mut graph = Graph::new(1);
    graph.add_node((0, 0), 8);
    let result = graph.path_planning_lp((0, 0), 1, 1).unwrap();
    assert_eq!(result.path, vec![PathfindingStep { node: (0, 0), score: 8, step: 1 }]);
}

#[test]
fn planner_refuses_what_cannot_be_planned() {
    let graph = small();
    assert_eq!(graph.path_planning_lp((0, 2), 3, 1), Err(PlanningError::StartOutOfBounds));
    assert_eq!(graph.path_planning_lp((0, 0), 0, 1), Err(PlanningError::Infeasible));
}
