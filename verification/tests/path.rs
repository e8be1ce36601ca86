use pathfinding::path::{PathfindingResult, PathfindingStep};

fn walk() -> PathfindingResult {
    PathfindingResult {
        path: vec![
            PathfindingStep { node: (0, 0), score: 0, step: 1 },
            PathfindingStep { node: (1, 1), score: 8, step: 2 },
            PathfindingStep { node: (0, 0), score: 2, step: 3 },
            PathfindingStep { node: (1, 1), score: 3, step: 4 },
            PathfindingStep { node: (2, 1), score: 12, step: 5 },
        ],
    }
}

#[test]
fn empty_result_has_no_steps() {
    let result = PathfindingResult::empty();
    assert_eq!(result.path, vec![]);
    assert_eq!(result.score(), 0);
    assert_eq!(result.occurs_at((0, 0)), None);
    assert!(result.steps_at((0, 0)).is_empty());
}

#[test]
fn score_is_the_sum_of_the_steps() {
    assert_eq!(walk().score(), 25);
}

#[test]
fn score_saturates() {
    let result = PathfindingResult {
        path: vec![
            PathfindingStep { node: (0, 0), score: u32::MAX - 1, step: 1 },
            PathfindingStep { node: (0, 1), score: 1, step: 2 },
        ],
    };
    assert_eq!(result.score(), u32::MAX);
    let result = PathfindingResult {
        path: vec![
            PathfindingStep { node: (0, 0), score: u32::MAX, step: 1 },
            PathfindingStep { node: (0, 1), score: 5, step: 2 },
            PathfindingStep { node: (0, 0), score: 0, step: 3 },
        ],
    };
    assert_eq!(result.score(), u32::MAX);
}

#[test]
fn steps_at_lists_every_arrival_in_order() {
    let result = walk();
    let at_center = result.steps_at((1, 1));
    assert_eq!(
        at_center,
        vec![
            &PathfindingStep { node: (1, 1), score: 8, step: 2 },
            &PathfindingStep { node: (1, 1), score: 3, step: 4 }
        ]
    );
    assert_eq!(
        result.steps_at((2, 1)),
        vec![&PathfindingStep { node: (2, 1), score: 12, step: 5 }]
    );
    assert!(result.steps_at((2, 2)).is_empty());
    // rows and columns are not mixed up
    let result = PathfindingResult {
        path: vec![PathfindingStep { node: (1, 2), score: 1, step: 1 }],
    };
    assert!(result.steps_at((2, 1)).is_empty());
}

#[test]
fn occurs_at_gives_the_first_position() {
    let result = walk();
    assert_eq!(result.occurs_at((0, 0)), Some(0));
    assert_eq!(result.occurs_at((1, 1)), Some(1));
    assert_eq!(result.occurs_at((2, 1)), Some(4));
    assert_eq!(result.occurs_at((1, 2)), None);
}
