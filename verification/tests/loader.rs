use pathfinding::grid::Graph;
use pathfinding::loader::GridError;

fn rewards(graph: &Graph) -> Vec<Vec<u32>> {
    let n = graph.size();
    (0..n).map(|row| (0..n).map(|col| *graph.get_score_at((row, col))).collect()).collect()
}

fn text_of(rows: &[Vec<u32>]) -> Vec<u8> {
    let mut text = String::new();
    for row in rows {
        let cells: Vec<String> = row.iter().map(|v| format!("{}", v)).collect();
        text.push_str(&cells.join(" "));
        text.push('\n');
    }
    text.into_bytes()
}

#[test]
fn from_bytes_reads_a_grid() {
    let graph = Graph::from_bytes(b"0 5 5\n5 7 5\n5 10 5\n".to_vec()).unwrap();
    assert_eq!(graph.size(), 3);
    assert_eq!(rewards(&graph), vec![vec![0, 5, 5], vec![5, 7, 5], vec![5, 10, 5]]);
}

#[test]
fn from_bytes_without_a_final_line_feed() {
    let graph = Graph::from_bytes(b"1 2\n3 4".to_vec()).unwrap();
    assert_eq!(rewards(&graph), vec![vec![1, 2], vec![3, 4]]);
}

#[test]
fn from_bytes_accepts_blanks_and_carriage_returns() {
    let graph = Graph::from_bytes(b"  1\t 2 \r\n3   4\r\n".to_vec()).unwrap();
    assert_eq!(rewards(&graph), vec![vec![1, 2], vec![3, 4]]);
}

#[test]
fn from_bytes_of_nothing_is_the_empty_grid() {
    let graph = Graph::from_bytes(Vec::new()).unwrap();
    assert_eq!(graph.size(), 0);
    let graph = Graph::from_bytes(b"  ".to_vec()).unwrap();
    assert_eq!(graph.size(), 0);
}

#[test]
fn from_bytes_reads_the_extremes() {
    let graph = Graph::from_bytes(b"4294967295 0\n007 10\n".to_vec()).unwrap();
    assert_eq!(rewards(&graph), vec![vec![u32::MAX, 0], vec![7, 10]]);
}

#[test]
fn from_bytes_rejects_a_number_too_large() {
    assert_eq!(Graph::from_bytes(b"4294967296".to_vec()).err(), Some(GridError::NumberTooLarge));
    assert_eq!(
        Graph::from_bytes(b"1 2\n3 99999999999999999999999\n".to_vec()).err(),
        Some(GridError::NumberTooLarge)
    );
}

#[test]
fn from_bytes_rejects_other_bytes() {
    assert_eq!(Graph::from_bytes(b"1 a\n2 3\n".to_vec()).err(), Some(GridError::InvalidByte));
    assert_eq!(Graph::from_bytes(b"-1".to_vec()).err(), Some(GridError::InvalidByte));
    assert_eq!(Graph::from_bytes(b"1,2\n3,4\n".to_vec()).err(), Some(GridError::InvalidByte));
    assert_eq!(Graph::from_bytes(vec![49, 0xff]).err(), Some(GridError::InvalidByte));
}

#[test]
fn from_bytes_reports_the_first_fault() {
    assert_eq!(Graph::from_bytes(b"x 4294967296".to_vec()).err(), Some(GridError::InvalidByte));
    assert_eq!(Graph::from_bytes(b"4294967296 x".to_vec()).err(), Some(GridError::NumberTooLarge));
}

#[test]
fn from_bytes_rejects_what_is_not_square() {
    assert_eq!(Graph::from_bytes(b"1 2 3\n4 5 6\n".to_vec()).err(), Some(GridError::NotSquare));
    assert_eq!(Graph::from_bytes(b"1 2\n3\n".to_vec()).err(), Some(GridError::NotSquare));
    assert_eq!(Graph::from_bytes(b"1 2\n3 4\n5 6\n".to_vec()).err(), Some(GridError::NotSquare));
    assert_eq!(Graph::from_bytes(b"1 2\n\n3 4\n".to_vec()).err(), Some(GridError::NotSquare));
    assert_eq!(Graph::from_bytes(b"\n".to_vec()).err(), Some(GridError::NotSquare));
}

#[test]
fn text_form_round_trip() {
    let grids: Vec<Vec<Vec<u32>>> = vec![
        vec![],
        vec![vec![0]],
        vec![vec![u32::MAX]],
        vec![vec![10, 200], vec![3000, 40000]],
        vec![vec![0, 5, 5], vec![5, 7, 5], vec![5, 10, 5]],
        vec![
            vec![1, 0, 4294967295, 9],
            vec![100, 101, 110, 99],
            vec![7, 70, 700, 7000],
            vec![0, 0, 0, 0],
        ],
    ];
    for rows in grids {
        let graph = Graph::from_bytes(text_of(&rows)).unwrap();
        assert_eq!(graph.size(), rows.len());
        assert_eq!(rewards(&graph), rows);
    }
}
