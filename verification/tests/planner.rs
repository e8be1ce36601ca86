use pathfinding::grid::Graph;
use pathfinding::planner::{plan, Strategy};
use pathfinding::program::PlanningError;

fn sample() -> Graph {
    let mut graph = Graph::new(3);
    let scores = [[0, 5, 5], [5, 7, 5], [5, 10, 5]];
    for row in 0..3 {
        for col in 0..3 {
            graph.add_node((row, col), scores[row][col]);
        }
    }
    graph
}

#[test]
fn plan_runs_the_chosen_strategy() {
    let graph = sample();
    assert_eq!(
        plan(&graph, Strategy::Greedy, (0, 0), 3, 1),
        Ok(graph.path_planning_bfs((0, 0), 3, 1))
    );
    assert_eq!(plan(&graph, Strategy::Greedy, (0, 0), 3, 1).unwrap().score(), 20);
    assert_eq!(plan(&graph, Strategy::EdgeFlow, (0, 0), 3, 1).unwrap().score(), 12);
    let found = plan(&graph, Strategy::TimeIndexed, (0, 0), 2, 1).unwrap();
    assert_eq!(found.path[0].node, (0, 0));
    assert_eq!(found.path.len(), 2);
}

#[test]
fn plan_reports_a_start_outside_the_grid() {
    let graph = sample();
    for strategy in [Strategy::Greedy, Strategy::EdgeFlow, Strategy::TimeIndexed] {
        assert_eq!(plan(&graph, strategy, (3, 3), 4, 1), Err(PlanningError::StartOutOfBounds));
        assert_eq!(plan(&graph, strategy, (0, 5), 0, 1), Err(PlanningError::StartOutOfBounds));
    }
}

#[test]
fn plan_reports_infeasibility() {
    let graph = Graph::new(1);
    assert_eq!(plan(&graph, Strategy::EdgeFlow, (0, 0), 2, 1), Err(PlanningError::Infeasible));
    assert_eq!(plan(&graph, Strategy::TimeIndexed, (0, 0), 0, 1), Err(PlanningError::Infeasible));
    assert_eq!(plan(&graph, Strategy::Greedy, (0, 0), 2, 1).unwrap().path.len(), 1);
}
