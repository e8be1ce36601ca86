use pathfinding::edge_flow::decode_edge_flow;
use pathfinding::flow_model::edge_flow_program;
use pathfinding::grid::Graph;
use pathfinding::path::{PathfindingResult, PathfindingStep};
use pathfinding::program::{LinearConstraint, PlanningError, Relation, Term, VariableKind};
use pathfinding::subgraph::{reachable_subgraph, Edge, Subgraph};

fn sample() -> Graph {
    let mut graph = Graph::new(3);
    let scores = [
        [((0, 0), 0), ((0, 1), 5), ((0, 2), 5)],
        [((1, 0), 5), ((1, 1), 7), ((1, 2), 5)],
        [((2, 0), 5), ((2, 1), 10), ((2, 2), 5)],
    ];
    for row in 0..3 {
        for col in 0..3 {
            graph.add_node((row, col), scores[row][col].1);
        }
    }
    graph
}

fn is_walk_from(graph: &Graph, start: (usize, usize), result: &PathfindingResult) -> bool {
    result.path.iter().enumerate().all(|(k, step)| {
        step.step as usize == k + 1
            && step.score == *graph.get_score_at(step.node)
            && if k == 0 {
                step.node == start
            } else {
                let before = result.path[k - 1].node;
                before != step.node
                    && before.0.abs_diff(step.node.0) <= 1
                    && before.1.abs_diff(step.node.1) <= 1
            }
    })
}

// The model asks for as many used moves as the budget, one of them out of the
// start, and for as many moves into every other cell as out of it. Three used
// moves can only be a round trip through the start, which cannot pass (2, 1):
// the best one collects 7 and 5 on the way.
#[test]
fn test_lp() {
    let graph = sample();

    let start = (0, 0);
    let max_timesteps = 3;

    let result = graph.lp(start, max_timesteps).expect("Could not find a solution");

    println!("Result: {:?}", result);

    assert_eq!(result.path.len(), 3);
    assert_eq!(result.path[0], PathfindingStep { node: (0, 0), score: 0, step: 1 });
    assert!(is_walk_from(&graph, start, &result));
    assert_eq!(result.score(), 12);
    let visited = [result.path[1].node, result.path[2].node];
    assert!(visited.contains(&(1, 1)));
    assert!(visited.contains(&(0, 1)) || visited.contains(&(1, 0)));
}

#[test]
fn decode_reads_the_walk_off_the_used_moves() {
    let graph = sample();
    let edges = vec![
        Edge::new((1, 1), (2, 1)),
        Edge::new((0, 0), (0, 1)),
        Edge::new((0, 0), (1, 1)),
        Edge::new((2, 1), (2, 2)),
    ];
    let result = decode_edge_flow(&graph, (0, 0), 3, &edges, &vec![1, 0, 1, 1]);
    assert_eq!(
        result,
        PathfindingResult {
            path: vec![
                PathfindingStep { node: (0, 0), score: 0, step: 1 },
                PathfindingStep { node: (1, 1), score: 7, step: 2 },
                PathfindingStep { node: (2, 1), score: 10, step: 3 }
            ]
        }
    );
    // a greater budget lets the walk go on
    let result = decode_edge_flow(&graph, (0, 0), 9, &edges, &vec![1, 0, 1, 1]);
    assert_eq!(result.path.len(), 4);
    assert_eq!(result.path[3], PathfindingStep { node: (2, 2), score: 5, step: 4 });
}

#[test]
fn decode_takes_the_first_used_move_in_row_major_order() {
    let graph = sample();
    let edges = vec![
        Edge::new((0, 0), (1, 1)),
        Edge::new((0, 0), (1, 0)),
        Edge::new((0, 0), (0, 1)),
    ];
    let result = decode_edge_flow(&graph, (0, 0), 2, &edges, &vec![1, 1, 0]);
    assert_eq!(result.path[1], PathfindingStep { node: (1, 0), score: 5, step: 2 });
    let result = decode_edge_flow(&graph, (0, 0), 2, &edges, &vec![1, 1, 1]);
    assert_eq!(result.path[1], PathfindingStep { node: (0, 1), score: 5, step: 2 });
}

#[test]
fn decode_stops_where_no_move_is_used() {
    let graph = sample();
    let edges = vec![Edge::new((0, 0), (1, 1)), Edge::new((1, 1), (2, 1))];
    let only_start = PathfindingResult {
        path: vec![PathfindingStep { node: (0, 0), score: 0, step: 1 }],
    };
    assert_eq!(decode_edge_flow(&graph, (0, 0), 3, &edges, &vec![0, 1]), only_start);
    // a value other than 1 does not count
    assert_eq!(decode_edge_flow(&graph, (0, 0), 3, &edges, &vec![2, 1]), only_start);
    // nor does a move without a value
    assert_eq!(decode_edge_flow(&graph, (0, 0), 3, &edges, &vec![]), only_start);
    // nor a move that is not listed
    assert_eq!(decode_edge_flow(&graph, (0, 0), 3, &vec![], &vec![1, 1]), only_start);
}

#[test]
fn decode_with_no_budget_is_empty() {
    let graph = sample();
    let edges = vec![Edge::new((0, 0), (1, 1))];
    assert_eq!(decode_edge_flow(&graph, (0, 0), 0, &edges, &vec![1]), PathfindingResult::empty());
    let result = decode_edge_flow(&graph, (0, 0), 1, &edges, &vec![1]);
    assert_eq!(result.path, vec![PathfindingStep { node: (0, 0), score: 0, step: 1 }]);
}

#[test]
fn decode_goes_round_a_cycle_until_the_budget_ends() {
    let graph = sample();
    let edges = vec![Edge::new((0, 0), (1, 1)), Edge::new((1, 1), (0, 0))];
    let result = decode_edge_flow(&graph, (0, 0), 5, &edges, &vec![1, 1]);
    let nodes: Vec<_> = result.path.iter().map(|s| s.node).collect();
    assert_eq!(nodes, vec![(0, 0), (1, 1), (0, 0), (1, 1), (0, 0)]);
    assert_eq!(result.score(), 14);
}

#[test]
fn program_of_a_small_subgraph() {
    let mut graph = Graph::new(2);
    graph.add_node((0, 0), 3);
    graph.add_node((0, 1), 4);
    graph.add_node((1, 1), 6);
    let subgraph = Subgraph {
        edges: vec![
            Edge::new((0, 0), (0, 1)),
            Edge::new((0, 1), (1, 1)),
            Edge::new((1, 1), (0, 0)),
            Edge::new((0, 0), (1, 1)),
        ],
        nodes: vec![(0, 1), (0, 0), (1, 1)],
    };
    let program = edge_flow_program(&graph, (0, 0), 3, &subgraph);
    assert_eq!(program.kinds, vec![VariableKind::Binary; 4]);
    assert_eq!(
        program.objective,
        vec![
            Term { var: 0, coef: 4 },
            Term { var: 1, coef: 6 },
            Term { var: 2, coef: 3 },
            Term { var: 3, coef: 6 }
        ]
    );
    assert_eq!(
        program.constraints,
        vec![
            // (0, 1): in from (0, 0); out to (1, 1)
            LinearConstraint {
                terms: vec![Term { var: 0, coef: 1 }, Term { var: 1, coef: -1 }],
                relation: Relation::Equal,
                bound: 0
            },
            // the start: out to (0, 1) and to (1, 1)
            LinearConstraint {
                terms: vec![Term { var: 0, coef: 1 }, Term { var: 3, coef: 1 }],
                relation: Relation::Equal,
                bound: 1
            },
            // (1, 1): in from (0, 0) and from (0, 1); out to (0, 0)
            LinearConstraint {
                terms: vec![
                    Term { var: 3, coef: 1 },
                    Term { var: 1, coef: 1 },
                    Term { var: 2, coef: -1 }
                ],
                relation: Relation::Equal,
                bound: 0
            },
            // the budget
            LinearConstraint {
                terms: vec![
                    Term { var: 0, coef: 1 },
                    Term { var: 1, coef: 1 },
                    Term { var: 2, coef: 1 },
                    Term { var: 3, coef: 1 }
                ],
                relation: Relation::Equal,
                bound: 3
            },
        ]
    );
    assert!(program.is_valid());
}

#[test]
fn program_of_the_whole_grid() {
    let graph = sample();
    let subgraph = reachable_subgraph(&graph, (0, 0));
    let program = edge_flow_program(&graph, (0, 0), 4, &subgraph);
    assert_eq!(program.kinds.len(), 40);
    assert_eq!(program.objective.len(), 40);
    assert_eq!(program.constraints.len(), 10);
    for (k, term) in program.objective.iter().enumerate() {
        assert_eq!(term.var, k);
        assert_eq!(term.coef, *graph.get_score_at(subgraph.edges[k].to) as i64);
    }
    assert_eq!(program.constraints[9].bound, 4);
    assert_eq!(program.constraints[9].terms.len(), 40);
    for (k, &cell) in subgraph.nodes.iter().enumerate() {
        let constraint = &program.constraints[k];
        let degree = graph.get_nodes_out(cell).len();
        if cell == (0, 0) {
            assert_eq!(constraint.bound, 1);
            assert_eq!(constraint.terms.len(), degree);
            assert!(constraint.terms.iter().all(|t| t.coef == 1));
        } else {
            assert_eq!(constraint.bound, 0);
            assert_eq!(constraint.terms.len(), 2 * degree);
            assert!(constraint.terms[..degree].iter().all(|t| t.coef == 1));
            assert!(constraint.terms[degree..].iter().all(|t| t.coef == -1));
        }
    }
}

// The greedy walker counts what it finds after recovery, the edge-flow model
// what the grid holds at the outset, and the model makes the walk come back to
// the start: on this grid the greedy walker collects more.
#[test]
fn edge_flow_beside_greedy_on_the_sample() {
    let graph = sample();
    let greedy = graph.path_planning_bfs((0, 0), 3, 1);
    assert_eq!(greedy.score(), 20);
    let exact = graph.lp((0, 0), 3).unwrap();
    assert_eq!(exact.score(), 12);
    let exact = graph.lp((0, 0), 2).unwrap();
    assert_eq!(
        exact,
        PathfindingResult {
            path: vec![
                PathfindingStep { node: (0, 0), score: 0, step: 1 },
                PathfindingStep { node: (1, 1), score: 7, step: 2 }
            ]
        }
    );
    assert_eq!(graph.path_planning_bfs((0, 0), 2, 1).score(), 8);
}

#[test]
fn edge_flow_on_a_single_cell_is_infeasible() {
    let mut graph = Graph::new(1);
    graph.add_node((0, 0), 9);
    assert_eq!(graph.lp((0, 0), 1), Err(PlanningError::Infeasible));
    assert_eq!(graph.lp((0, 0), 3), Err(PlanningError::Infeasible));
    assert_eq!(graph.lp((0, 0), u32::MAX), Err(PlanningError::Infeasible));
    // no step asked for, none made
    assert_eq!(graph.lp((0, 0), 0), Ok(PathfindingResult::empty()));
}

#[test]
fn edge_flow_cannot_stop_after_one_move() {
    // one used move would have to end on a cell that it does not leave again
    let graph = sample();
    assert_eq!(graph.lp((0, 0), 1), Err(PlanningError::Infeasible));
    assert_eq!(graph.lp((0, 0), 0), Err(PlanningError::Infeasible));
}

#[test]
fn edge_flow_reports_a_start_outside_the_grid() {
    let graph = sample();
    assert_eq!(graph.lp((3, 0), 3), Err(PlanningError::StartOutOfBounds));
    assert_eq!(graph.lp((0, 3), 3), Err(PlanningError::StartOutOfBounds));
    assert_eq!(Graph::new(0).lp((0, 0), 3), Err(PlanningError::StartOutOfBounds));
}

#[test]
fn edge_flow_results_are_walks() {
    let graph = sample();
    for start in [(0, 0), (1, 1), (2, 1)] {
        for budget in 2..6u32 {
            let result = graph.lp(start, budget).unwrap();
            // a walk that the model admits never runs out of used moves
            assert_eq!(result.path.len(), budget as usize);
            assert!(is_walk_from(&graph, start, &result));
        }
    }
    // the graph itself is as it was
    assert_eq!(*graph.get_score_at((2, 1)), 10);
}
