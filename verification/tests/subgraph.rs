use pathfinding::grid::Graph;
use pathfinding::subgraph::{find_edge, reachable_subgraph, same_edge, Edge, Node};

fn all_edges(size: usize) -> Vec<Edge> {
    let graph = Graph::new(size);
    let mut edges = Vec::new();
    for row in 0..size {
        for col in 0..size {
            for to in graph.get_nodes_out((row, col)) {
                edges.push(Edge { from: (row, col), to });
            }
        }
    }
    edges
}

fn key(e: &Edge) -> (usize, usize, usize, usize) {
    (e.from.0, e.from.1, e.to.0, e.to.1)
}

#[test]
fn edges_out_and_in_of_a_corner() {
    let graph = Graph::new(3);
    assert_eq!(
        Edge::get_edges_out(&graph, (0, 0)),
        vec![Edge::new((0, 0), (0, 1)), Edge::new((0, 0), (1, 0)), Edge::new((0, 0), (1, 1))]
    );
    assert_eq!(
        Edge::get_edges_in(&graph, (0, 0)),
        vec![Edge::new((0, 1), (0, 0)), Edge::new((1, 0), (0, 0)), Edge::new((1, 1), (0, 0))]
    );
    assert_eq!(Edge::get_edges_in(&graph, (3, 3)), vec![]);
}

#[test]
fn start_gives_the_moves_out() {
    let graph = Graph::new(2);
    let (node, edges) = Node::start(&graph, (1, 0));
    assert_eq!(node, Node { pos: (1, 0) });
    assert_eq!(
        edges,
        vec![Edge::new((1, 0), (0, 0)), Edge::new((1, 0), (0, 1)), Edge::new((1, 0), (1, 1))]
    );
}

#[test]
fn neighbour_gives_moves_in_then_moves_out() {
    let graph = Graph::new(2);
    let (node, edges) = Node::neighbour(Edge::new((0, 0), (1, 1)), &graph);
    assert_eq!(node, Node { pos: (1, 1) });
    assert_eq!(
        edges,
        vec![
            // into (0, 0)
            Edge::new((0, 1), (0, 0)),
            Edge::new((1, 0), (0, 0)),
            Edge::new((1, 1), (0, 0)),
            // out of (1, 1)
            Edge::new((1, 1), (0, 0)),
            Edge::new((1, 1), (0, 1)),
            Edge::new((1, 1), (1, 0)),
        ]
    );
}

#[test]
fn same_edge_looks_at_both_ends() {
    let e = Edge::new((0, 1), (1, 2));
    assert!(same_edge(&e, &Edge::new((0, 1), (1, 2))));
    assert!(!same_edge(&e, &Edge::new((1, 2), (0, 1))));
    assert!(!same_edge(&e, &Edge::new((0, 1), (1, 1))));
    assert!(!same_edge(&e, &Edge::new((1, 0), (1, 2))));
    assert!(!same_edge(&e, &Edge::new((0, 1), (2, 2))));
    assert!(!same_edge(&e, &Edge::new((0, 0), (1, 2))));
}

#[test]
fn find_edge_gives_the_first_position() {
    let a = Edge::new((0, 0), (0, 1));
    let b = Edge::new((0, 1), (0, 0));
    let edges = vec![a, b, a];
    assert_eq!(find_edge(&edges, &a), Some(0));
    assert_eq!(find_edge(&edges, &b), Some(1));
    assert_eq!(find_edge(&edges, &Edge::new((1, 1), (0, 0))), None);
    assert_eq!(find_edge(&Vec::new(), &a), None);
}

#[test]
fn search_finds_every_move_and_every_cell() {
    for size in 2..5usize {
        let graph = Graph::new(size);
        for start in [(0, 0), (size - 1, size - 1), (size / 2, 0)] {
            let found = reachable_subgraph(&graph, start);
            let mut edges: Vec<_> = found.edges.iter().map(key).collect();
            edges.sort();
            let mut expected: Vec<_> = all_edges(size).iter().map(key).collect();
            expected.sort();
            assert_eq!(edges, expected);
            let mut nodes = found.nodes.clone();
            nodes.sort();
            let mut cells = Vec::new();
            for row in 0..size {
                for col in 0..size {
                    cells.push((row, col));
                }
            }
            assert_eq!(nodes, cells);
        }
    }
}

#[test]
fn search_counts_the_moves() {
    // a grid of side n has 4 (n - 1) (2 n - 1) moves
    assert_eq!(reachable_subgraph(&Graph::new(2), (0, 0)).edges.len(), 12);
    assert_eq!(reachable_subgraph(&Graph::new(3), (1, 1)).edges.len(), 40);
    assert_eq!(reachable_subgraph(&Graph::new(4), (3, 0)).edges.len(), 84);
}

#[test]
fn search_on_a_single_cell_finds_nothing() {
    let found = reachable_subgraph(&Graph::new(1), (0, 0));
    assert_eq!(found.edges, vec![]);
    assert_eq!(found.nodes, vec![]);
}

#[test]
fn search_begins_with_the_moves_out_of_the_start() {
    let graph = Graph::new(3);
    let found = reachable_subgraph(&graph, (2, 2));
    assert_eq!(
        found.edges[..3].to_vec(),
        vec![Edge::new((2, 2), (1, 1)), Edge::new((2, 2), (1, 2)), Edge::new((2, 2), (2, 1))]
    );
}
