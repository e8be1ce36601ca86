use pathfinding::grid::Graph;
use pathfinding::path::{PathfindingResult, PathfindingStep};

fn sample() -> Graph {
    let mut graph = Graph::new(3);
    let scores = [
        [((0, 0), 0), ((0, 1), 5), ((0, 2), 5)],
        [((1, 0), 5), ((1, 1), 7), ((1, 2), 5)],
        [((2, 0), 5), ((2, 1), 10), ((2, 2), 5)],
    ];
    for row in 0..3 {
        for col in 0..3 {
            graph.add_node((row, col), scores[row][col].1);
        }
    }
    graph
}

#[test]
fn test_path_planning_bfs() {
    let graph = Graph::new(5);
    let start = (0, 0);
    let max_timesteps = 10;
    let recovery_rate = 1;

    let result = graph.path_planning_bfs(start, max_timesteps, recovery_rate);

    assert_eq!(result.path.len(), 10);
}

#[test]
fn test_path_planning_bfs_output() {
    let graph = sample();

    let start = (0, 0);
    let max_timesteps = 3;
    let recovery_rate = 1;

    let result = graph.path_planning_bfs(start, max_timesteps, recovery_rate);

    assert_eq!(
        result,
        PathfindingResult {
            path: vec![
                PathfindingStep { node: (0, 0), score: 0, step: 1 },
                PathfindingStep { node: (1, 1), score: 8, step: 2 },
                PathfindingStep { node: (2, 1), score: 12, step: 3 }
            ]
        }
    );
    assert_eq!(result.score(), 20);
}

#[test]
fn greedy_does_not_change_the_graph() {
    let graph = sample();
    let _ = graph.path_planning_bfs((0, 0), 5, 3);
    assert_eq!(*graph.get_score_at((1, 1)), 7);
    assert_eq!(*graph.get_score_at((2, 1)), 10);
    assert_eq!(*graph.get_score_at((0, 0)), 0);
}

#[test]
fn greedy_has_as_many_steps_as_the_budget() {
    for size in 2..5usize {
        let mut graph = Graph::new(size);
        for row in 0..size {
            for col in 0..size {
                graph.add_node((row, col), ((row * 7 + col * 3) % 11) as u32);
            }
        }
        for budget in 0..9u32 {
            let result = graph.path_planning_bfs((size - 1, 0), budget, 2);
            assert_eq!(result.path.len(), budget as usize);
            let mut sum: u32 = 0;
            for (k, step) in result.path.iter().enumerate() {
                assert_eq!(step.step as usize, k + 1);
                sum += step.score;
                if k > 0 {
                    let before = result.path[k - 1].node;
                    assert_ne!(before, step.node);
                    assert!(before.0.abs_diff(step.node.0) <= 1);
                    assert!(before.1.abs_diff(step.node.1) <= 1);
                }
            }
            assert_eq!(result.score(), sum);
            if budget > 0 {
                assert_eq!(result.path[0].node, (size - 1, 0));
            }
        }
    }
}

#[test]
fn greedy_stops_early_on_a_single_cell() {
    let mut graph = Graph::new(1);
    graph.add_node((0, 0), 4);
    let result = graph.path_planning_bfs((0, 0), 5, 1);
    assert_eq!(
        result,
        PathfindingResult { path: vec![PathfindingStep { node: (0, 0), score: 4, step: 1 }] }
    );
}

#[test]
fn greedy_with_no_budget_is_empty() {
    let result = sample().path_planning_bfs((1, 1), 0, 1);
    assert_eq!(result, PathfindingResult::empty());
}

#[test]
fn greedy_breaks_ties_in_row_major_order() {
    // every reward equal: the walker goes to the first neighbour, row by row
    let graph = Graph::new(3);
    let result = graph.path_planning_bfs((1, 1), 3, 0);
    assert_eq!(
        result,
        PathfindingResult {
            path: vec![
                PathfindingStep { node: (1, 1), score: 0, step: 1 },
                PathfindingStep { node: (0, 0), score: 0, step: 2 },
                PathfindingStep { node: (0, 1), score: 0, step: 3 }
            ]
        }
    );
    // with recovery the cell just left holds less than the others
    let result = graph.path_planning_bfs((0, 0), 4, 1);
    assert_eq!(
        result,
        PathfindingResult {
            path: vec![
                PathfindingStep { node: (0, 0), score: 0, step: 1 },
                PathfindingStep { node: (0, 1), score: 1, step: 2 },
                PathfindingStep { node: (0, 2), score: 2, step: 3 },
                PathfindingStep { node: (1, 1), score: 3, step: 4 }
            ]
        }
    );
}

#[test]
fn greedy_comes_back_for_a_recovered_reward() {
    let mut graph = Graph::new(2);
    graph.add_node((0, 0), 1);
    graph.add_node((1, 1), 50);
    let result = graph.path_planning_bfs((0, 0), 4, 10);
    assert_eq!(
        result,
        PathfindingResult {
            path: vec![
                PathfindingStep { node: (0, 0), score: 1, step: 1 },
                PathfindingStep { node: (1, 1), score: 60, step: 2 },
                PathfindingStep { node: (0, 1), score: 20, step: 3 },
                PathfindingStep { node: (1, 0), score: 30, step: 4 }
            ]
        }
    );
    assert_eq!(result.score(), 111);
}
