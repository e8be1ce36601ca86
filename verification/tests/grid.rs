use pathfinding::grid::Graph;

fn sample() -> Graph {
    let mut graph = Graph::new(3);
    let scores = [[0, 5, 5], [5, 7, 5], [5, 10, 5]];
    for row in 0..3 {
        for col in 0..3 {
            graph.add_node((row, col), scores[row][col]);
        }
    }
    graph
}

#[test]
fn new_grid_is_all_zero() {
    let graph = Graph::new(4);
    assert_eq!(graph.size(), 4);
    for row in 0..4 {
        for col in 0..4 {
            assert_eq!(*graph.get_score_at((row, col)), 0);
        }
    }
    assert_eq!(Graph::new(0).size(), 0);
}

#[test]
fn add_node_sets_one_cell() {
    let mut graph = Graph::new(3);
    graph.add_node((1, 2), 9);
    for row in 0..3 {
        for col in 0..3 {
            let expected = if (row, col) == (1, 2) { 9 } else { 0 };
            assert_eq!(*graph.get_score_at((row, col)), expected);
        }
    }
}

#[test]
fn reset_score_zeroes_one_cell_of_a_copy() {
    let graph = sample();
    let after = graph.reset_score((2, 1));
    assert_eq!(*after.get_score_at((2, 1)), 0);
    assert_eq!(*after.get_score_at((1, 1)), 7);
    assert_eq!(*after.get_score_at((0, 1)), 5);
    // the graph itself is as it was
    assert_eq!(*graph.get_score_at((2, 1)), 10);
}

#[test]
fn recover_for_adds_the_rate_to_all_but_one() {
    let graph = sample();
    let after = graph.recover_for(3, (1, 1));
    let expected = [[3, 8, 8], [8, 7, 8], [8, 13, 8]];
    for row in 0..3 {
        for col in 0..3 {
            assert_eq!(*after.get_score_at((row, col)), expected[row][col]);
        }
    }
    assert_eq!(*graph.get_score_at((0, 0)), 0);
}

#[test]
fn recover_for_with_the_exception_outside_the_grid() {
    let graph = sample();
    let after = graph.recover_for(1, (9, 9));
    assert_eq!(*after.get_score_at((1, 1)), 8);
    assert_eq!(*after.get_score_at((0, 0)), 1);
}

#[test]
fn recovery_saturates() {
    let mut graph = Graph::new(2);
    graph.add_node((0, 0), u32::MAX - 1);
    graph.add_node((0, 1), 7);
    let after = graph.recover_for(5, (1, 1));
    assert_eq!(*after.get_score_at((0, 0)), u32::MAX);
    assert_eq!(*after.get_score_at((0, 1)), 12);
    let again = after.recover_for(u32::MAX, (1, 1));
    assert_eq!(*again.get_score_at((0, 0)), u32::MAX);
    assert_eq!(*again.get_score_at((0, 1)), u32::MAX);
    assert_eq!(*again.get_score_at((1, 1)), 0);
}

#[test]
fn rewards_stay_valid_under_visits_and_recoveries() {
    let mut graph = sample();
    let cells = [(0, 0), (2, 2), (1, 1), (0, 2), (1, 1)];
    for (k, &cell) in cells.iter().enumerate() {
        let before = graph.clone();
        graph = graph.reset_score(cell);
        assert_eq!(*graph.get_score_at(cell), 0);
        graph = graph.recover_for(k as u32 * 1_000_000_000, cell);
        assert_eq!(graph.size(), 3);
        assert_eq!(*graph.get_score_at(cell), 0);
        for row in 0..3 {
            for col in 0..3 {
                if (row, col) != cell {
                    assert!(*graph.get_score_at((row, col)) >= *before.get_score_at((row, col)));
                }
            }
        }
    }
}

#[test]
fn clone_keeps_every_reward() {
    let graph = sample();
    let copy = graph.clone();
    assert_eq!(copy.size(), 3);
    for row in 0..3 {
        for col in 0..3 {
            assert_eq!(copy.get_score_at((row, col)), graph.get_score_at((row, col)));
        }
    }
}
