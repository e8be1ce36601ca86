//! The part of the grid that a walk from a start cell can use: the moves
//! found by following, from the moves out of the start, every move out of a
//! cell that was reached and every move into a cell that was left, until
//! nothing new turns up.

use crate::grid::{adjacent, in_bounds, lemma_neighbors, neighbors, Graph, Position};
use crate::sequences::lemma_push_contains;
use vstd::prelude::*;
use vstd::set_lib::*;

verus! {

/// One legal move, from a cell to a neighbour.
#[derive(Debug, Clone, Copy, PartialEq, Eq, Hash)]
pub struct Edge {
    pub from: Position,
    pub to: Position,
}

/// A cell that the search has touched.
#[derive(Debug, Clone, Copy, PartialEq, Eq, Hash)]
pub struct Node {
    pub pos: Position,
}

/// The moves and the cells that the search found.
#[derive(Debug, Clone, PartialEq)]
pub struct Subgraph {
    pub edges: Vec<Edge>,
    pub nodes: Vec<Position>,
}

/// `e` is a move between two cells of a grid of side `n`.
pub open spec fn is_edge(n: nat, e: Edge) -> bool {
    in_bounds(n, e.from) && in_bounds(n, e.to) && adjacent(e.from, e.to)
}

/// The move from `from` to `to`.
pub open spec fn edge_of(from: Position, to: Position) -> Edge {
    Edge { from, to }
}

/// The moves out of `p`, in the order of its neighbours.
pub open spec fn edges_out(n: nat, p: Position) -> Seq<Edge> {
    neighbors(n, p).map_values(|q: Position| Edge { from: p, to: q })
}

/// The moves into `p`, in the order of its neighbours; none where `p` lies
/// outside the grid.
pub open spec fn edges_in(n: nat, p: Position) -> Seq<Edge> {
    if in_bounds(n, p) {
        neighbors(n, p).map_values(|q: Position| Edge { from: q, to: p })
    } else {
        Seq::empty()
    }
}

/// The moves that the search looks at after it has followed `e`: those into
/// the cell that `e` left, then those out of the cell that `e` reached.
pub open spec fn edges_around(n: nat, e: Edge) -> Seq<Edge> {
    edges_in(n, e.from) + edges_out(n, e.to)
}

/// Whether two moves are the same.
pub fn same_edge(a: &Edge, b: &Edge) -> (r: bool)
    ensures
        r == (*a == *b),
{
    a.from.0 == b.from.0 && a.from.1 == b.from.1 && a.to.0 == b.to.0 && a.to.1 == b.to.1
}

/// The position of `e` in `edges`, the first where it stands there more than
/// once.
pub fn find_edge(edges: &Vec<Edge>, e: &Edge) -> (r: Option<usize>)
    ensures
        match r {
            Some(k) => k < edges.len() && edges[k as int] == *e && forall|i: int|
                0 <= i < k ==> edges[i] != *e,
            None => !edges@.contains(*e),
        },
{
    let mut k: usize = 0;
    while k < edges.len()
        invariant
            k <= edges.len(),
            forall|i: int| 0 <= i < k ==> edges[i] != *e,
        decreases edges.len() - k,
    {
        if same_edge(&edges[k], e) {
            return Some(k);
        }
        k += 1;
    }
    None
}

/// Whether `p` stands in `cells`.
fn has_cell(cells: &Vec<Position>, p: Position) -> (r: bool)
    ensures
        r == cells@.contains(p),
{
    let mut k: usize = 0;
    while k < cells.len()
        invariant
            k <= cells.len(),
            forall|i: int| 0 <= i < k ==> cells[i] != p,
        decreases cells.len() - k,
    {
        if cells[k].0 == p.0 && cells[k].1 == p.1 {
            return true;
        }
        k += 1;
    }
    false
}

impl Edge {
    /// The move from `from` to `to`.
    pub fn new(from: Position, to: Position) -> (e: Edge)
        ensures
            e == (Edge { from, to }),
    {
        Edge { from, to }
    }

    /// The moves out of `pos`.
    pub fn get_edges_out(graph: &Graph, pos: Position) -> (r: Vec<Edge>)
        ensures
            r@ == edges_out(graph.spec_size(), pos),
    {
        let cells = graph.get_nodes_out(pos);
        let mut out: Vec<Edge> = Vec::new();
        let mut k: usize = 0;
        while k < cells.len()
            invariant
                k <= cells.len(),
                cells@ == neighbors(graph.spec_size(), pos),
                out.len() == k,
                forall|i: int| 0 <= i < k ==> out[i] == (Edge { from: pos, to: cells[i] }),
            decreases cells.len() - k,
        {
            out.push(Edge::new(pos, cells[k]));
            k += 1;
        }
        assert(out@ =~= edges_out(graph.spec_size(), pos));
        out
    }

    /// The moves into `pos`.
    pub fn get_edges_in(graph: &Graph, pos: Position) -> (r: Vec<Edge>)
        ensures
            r@ == edges_in(graph.spec_size(), pos),
    {
        let cells = graph.get_edges_in(pos);
        let mut out: Vec<Edge> = Vec::new();
        let mut k: usize = 0;
        while k < cells.len()
            invariant
                k <= cells.len(),
                cells@ == if in_bounds(graph.spec_size(), pos) {
                    neighbors(graph.spec_size(), pos)
                } else {
                    Seq::<Position>::empty()
                },
                out.len() == k,
                forall|i: int| 0 <= i < k ==> out[i] == (Edge { from: cells[i], to: pos }),
            decreases cells.len() - k,
        {
            out.push(Edge::new(cells[k], pos));
            k += 1;
        }
        assert(out@ =~= edges_in(graph.spec_size(), pos));
        out
    }
}

impl Node {
    /// The cell that `edge` reaches, with the moves that the search looks at
    /// next: those into the cell that `edge` left, then those out of the cell
    /// that it reached.
    pub fn neighbour(edge: Edge, graph: &Graph) -> (r: (Node, Vec<Edge>))
        ensures
            r.0.pos == edge.to,
            r.1@ == edges_around(graph.spec_size(), edge),
    {
        let mut edges_out = Edge::get_edges_out(graph, edge.to);
        let mut edges_in = Edge::get_edges_in(graph, edge.from);
        let mut edges: Vec<Edge> = Vec::new();
        edges.append(&mut edges_in);
        edges.append(&mut edges_out);
        (Node { pos: edge.to }, edges)
    }

    /// The start cell, with the moves out of it.
    pub fn start(graph: &Graph, pos: Position) -> (r: (Node, Vec<Edge>))
        ensures
            r.0.pos == pos,
            r.1@ == edges_out(graph.spec_size(), pos),
    {
        let edges = Edge::get_edges_out(graph, pos);
        (Node { pos }, edges)
    }
}

/// All moves of a grid of side `n`.
pub open spec fn all_edges(n: nat) -> Set<Edge> {
    Set::new(|e: Edge| is_edge(n, e))
}

/// The search is done with the move `e`: the cell that it reaches is among
/// the touched cells `touched`, and every move out of that cell, and every
/// move into the cell that `e` left, is among the moves `found`.
pub open spec fn settled(n: nat, found: Seq<Edge>, touched: Seq<Position>, e: Edge) -> bool {
    &&& touched.contains(e.to)
    &&& forall|x: Edge|
        #[trigger] is_edge(n, x) && (x.from == e.to || x.to == e.from) ==> found.contains(x)
}

/// What the search returns for a start cell of a grid of side `n`: every
/// move of the grid, each once, and every cell that a move leads to, each
/// once. A grid of side 1 has neither.
pub open spec fn is_reachable_subgraph(n: nat, edges: Seq<Edge>, nodes: Seq<Position>) -> bool {
    &&& edges.no_duplicates()
    &&& nodes.no_duplicates()
    &&& forall|e: Edge| #[trigger] edges.contains(e) <==> is_edge(n, e)
    &&& forall|p: Position| #[trigger] nodes.contains(p) <==> in_bounds(n, p) && n >= 2
}

/// The pairs of members of two finite sets are finitely many.
proof fn lemma_pairs_finite<A, B>(a: Set<A>, b: Set<B>)
    requires
        a.finite(),
        b.finite(),
    ensures
        Set::new(|p: (A, B)| a.contains(p.0) && b.contains(p.1)).finite(),
{
    let inner = |x: A| b.map(|y: B| (x, y));
    let outer = a.map(inner);
    a.lemma_map_finite(inner);
    assert forall|t: Set<(A, B)>| outer.contains(t) implies #[trigger] t.finite() by {
        let x = choose|x: A| a.contains(x) && inner(x) == t;
        b.lemma_map_finite(|y: B| (x, y));
    }
    outer.lemma_flatten_finite();
    let product = Set::new(|p: (A, B)| a.contains(p.0) && b.contains(p.1));
    assert forall|p: (A, B)| product.contains(p) implies outer.flatten().contains(p) by {
        assert(outer.contains(inner(p.0)));
        assert(inner(p.0).contains(p));
    }
    lemma_set_subset_finite(outer.flatten(), product);
}

/// A grid has finitely many moves.
pub proof fn lemma_all_edges_finite(n: nat)
    ensures
        all_edges(n).finite(),
{
    let range = set_int_range(0, n as int);
    lemma_int_range(0, n as int);
    lemma_pairs_finite(range, range);
    let int_pairs = Set::new(|p: (int, int)| range.contains(p.0) && range.contains(p.1));
    let to_cell = |p: (int, int)| (p.0 as usize, p.1 as usize);
    int_pairs.lemma_map_finite(to_cell);
    let cells = Set::new(|p: Position| in_bounds(n, p));
    assert forall|p: Position| cells.contains(p) implies int_pairs.map(to_cell).contains(p) by {
        let ip = (p.0 as int, p.1 as int);
        assert(int_pairs.contains(ip));
        assert(to_cell(ip) == p);
    }
    lemma_set_subset_finite(int_pairs.map(to_cell), cells);
    lemma_pairs_finite(cells, cells);
    let cell_pairs = Set::new(|p: (Position, Position)| cells.contains(p.0) && cells.contains(p.1));
    let to_edge = |p: (Position, Position)| Edge { from: p.0, to: p.1 };
    cell_pairs.lemma_map_finite(to_edge);
    assert forall|e: Edge| all_edges(n).contains(e) implies cell_pairs.map(to_edge).contains(e) by {
        let cp = (e.from, e.to);
        assert(cell_pairs.contains(cp));
        assert(to_edge(cp) == e);
    }
    lemma_set_subset_finite(cell_pairs.map(to_edge), all_edges(n));
}

/// The moves that the search looks at after `e` are moves of the grid, and
/// among them is every move out of the cell that `e` reaches and every move
/// into the cell that `e` left.
proof fn lemma_edges_around(n: nat, e: Edge)
    requires
        is_edge(n, e),
    ensures
        forall|k: int|
            0 <= k < edges_around(n, e).len() ==> is_edge(n, #[trigger] edges_around(n, e)[k]),
        forall|x: Edge|
            #[trigger] is_edge(n, x) && (x.from == e.to || x.to == e.from) ==> edges_around(
                n,
                e,
            ).contains(x),
{
    lemma_neighbors(n, e.from);
    lemma_neighbors(n, e.to);
    let ins = edges_in(n, e.from);
    let outs = edges_out(n, e.to);
    let around = edges_around(n, e);
    assert forall|k: int| 0 <= k < around.len() implies is_edge(n, #[trigger] around[k]) by {
        if k < ins.len() {
            assert(around[k] == ins[k]);
            assert(ins[k].from == neighbors(n, e.from)[k]);
        } else {
            assert(around[k] == outs[k - ins.len()]);
            assert(outs[k - ins.len()].to == neighbors(n, e.to)[k - ins.len()]);
        }
    }
    assert forall|x: Edge| #[trigger]
        is_edge(n, x) && (x.from == e.to || x.to == e.from) implies around.contains(x) by {
        if x.from == e.to {
            assert(neighbors(n, e.to).contains(x.to));
            let i = choose|i: int|
                0 <= i < neighbors(n, e.to).len() && neighbors(n, e.to)[i] == x.to;
            assert(outs[i] == x);
            assert(around[ins.len() + i] == x);
        } else {
            assert(neighbors(n, e.from).contains(x.from));
            let i = choose|i: int|
                0 <= i < neighbors(n, e.from).len() && neighbors(n, e.from)[i] == x.from;
            assert(ins[i] == x);
            assert(around[i] == x);
        }
    }
}

/// The number of moves that separate two cells.
pub open spec fn distance(a: Position, b: Position) -> nat {
    let dr = if a.0 >= b.0 {
        a.0 - b.0
    } else {
        b.0 - a.0
    };
    let dc = if a.1 >= b.1 {
        a.1 - b.1
    } else {
        b.1 - a.1
    };
    if dr >= dc {
        dr as nat
    } else {
        dc as nat
    }
}

/// The neighbour of `u` that lies one move closer to `target`.
pub open spec fn toward(u: Position, target: Position) -> Position {
    (
        if u.0 < target.0 {
            (u.0 + 1) as usize
        } else if u.0 > target.0 {
            (u.0 - 1) as usize
        } else {
            u.0
        },
        if u.1 < target.1 {
            (u.1 + 1) as usize
        } else if u.1 > target.1 {
            (u.1 - 1) as usize
        } else {
            u.1
        },
    )
}

/// Where the search is done with every move that it found, and found the
/// moves out of the start, it found the moves out of every cell: each cell
/// is tied to the start by a chain of moves.
proof fn lemma_out_edges_found(
    n: nat,
    found: Seq<Edge>,
    touched: Seq<Position>,
    start: Position,
    u: Position,
)
    requires
        in_bounds(n, start),
        in_bounds(n, u),
        forall|q: Position|
            in_bounds(n, q) && adjacent(start, q) ==> found.contains(
                #[trigger] edge_of(start, q),
            ),
        forall|i: int| 0 <= i < found.len() ==> settled(n, found, touched, #[trigger] found[i]),
    ensures
        forall|q: Position|
            in_bounds(n, q) && adjacent(u, q) ==> found.contains(#[trigger] edge_of(u, q)),
    decreases distance(u, start),
{
    if u != start {
        let w = toward(u, start);
        assert(in_bounds(n, w) && adjacent(w, u) && distance(w, start) < distance(u, start));
        lemma_out_edges_found(n, found, touched, start, w);
        let e = Edge { from: w, to: u };
        assert(found.contains(edge_of(w, u)));
        let i = choose|i: int| 0 <= i < found.len() && found[i] == e;
        assert(settled(n, found, touched, found[i]));
        assert forall|q: Position| in_bounds(n, q) && adjacent(u, q) implies found.contains(
            #[trigger] edge_of(u, q),
        ) by {
            let x = Edge { from: u, to: q };
            assert(is_edge(n, x) && x.from == e.to);
        }
    }
}

/// Explores the grid from `start` and returns every move that it comes
/// upon, with every cell that such a move leads to.
///
/// The search keeps a stack of moves. It begins with the moves out of
/// `start`. For each move that it takes off the stack it notes the cell that
/// the move reaches and looks at the moves into the cell that the move left
/// and out of the cell that it reached; those that it has not seen go onto
/// the stack. As any two cells of a grid are tied by a chain of moves, it
/// ends with all of them.
pub fn reachable_subgraph(graph: &Graph, start: Position) -> (r: Subgraph)
    requires
        in_bounds(graph.spec_size(), start),
    ensures
        is_reachable_subgraph(graph.spec_size(), r.edges@, r.nodes@),
        edges_out(graph.spec_size(), start).is_prefix_of(r.edges@),
{
    let ghost n = graph.spec_size();
    let mut edges: Vec<Edge> = Vec::new();
    let mut nodes: Vec<Position> = Vec::new();
    let mut stack: Vec<Edge> = Vec::new();
    let (_, initial) = Node::start(graph, start);
    proof {
        lemma_neighbors(n, start);
        lemma_all_edges_finite(n);
    }
    let mut k: usize = 0;
    while k < initial.len()
        invariant
            k <= initial.len(),
            initial@ == edges_out(n, start),
            neighbors(n, start).no_duplicates(),
            forall|i: int|
                0 <= i < neighbors(n, start).len() ==> in_bounds(
                    n,
                    #[trigger] neighbors(n, start)[i],
                ) && adjacent(start, neighbors(n, start)[i]),
            in_bounds(n, start),
            edges@ == initial@.take(k as int),
            stack@ == initial@.take(k as int),
        decreases initial.len() - k,
    {
        edges.push(initial[k]);
        stack.push(initial[k]);
        assert(initial@.take(k + 1) =~= initial@.take(k as int).push(initial[k as int]));
        k += 1;
    }
    proof {
        assert(initial@.take(initial.len() as int) == initial@);
        assert forall|i: int| 0 <= i < edges.len() implies is_edge(n, #[trigger] edges[i]) by {
            assert(edges[i].to == neighbors(n, start)[i]);
        }
        assert forall|i: int, j: int|
            0 <= i < edges.len() && 0 <= j < edges.len() && i != j implies edges[i]
            != edges[j] by {
            assert(edges[i].to == neighbors(n, start)[i]);
            assert(edges[j].to == neighbors(n, start)[j]);
        }
        assert forall|q: Position| in_bounds(n, q) && adjacent(start, q) implies edges@.contains(
            #[trigger] edge_of(start, q),
        ) by {
            assert(neighbors(n, start).contains(q));
            let i = choose|i: int|
                0 <= i < neighbors(n, start).len() && neighbors(n, start)[i] == q;
            assert(edges[i] == Edge { from: start, to: q });
        }
        assert forall|i: int| 0 <= i < edges.len() implies stack@.contains(#[trigger] edges[i]) by {
            assert(stack[i] == edges[i]);
        }
        assert forall|i: int| 0 <= i < stack.len() implies edges@.contains(#[trigger] stack[i]) by {
            assert(stack[i] == edges[i]);
        }
    }
    while stack.len() > 0
        invariant
            n == graph.spec_size(),
            in_bounds(n, start),
            all_edges(n).finite(),
            forall|i: int| 0 <= i < edges.len() ==> is_edge(n, #[trigger] edges[i]),
            edges@.no_duplicates(),
            forall|i: int| 0 <= i < stack.len() ==> edges@.contains(#[trigger] stack[i]),
            forall|q: Position|
                in_bounds(n, q) && adjacent(start, q) ==> edges@.contains(
                    #[trigger] edge_of(start, q),
                ),
            forall|i: int|
                0 <= i < edges.len() ==> stack@.contains(#[trigger] edges[i]) || settled(
                    n,
                    edges@,
                    nodes@,
                    edges[i],
                ),
            nodes@.no_duplicates(),
            forall|i: int|
                0 <= i < nodes.len() ==> in_bounds(n, #[trigger] nodes[i]) && n >= 2,
            initial@ == edges_out(n, start),
            initial@.is_prefix_of(edges@),
        decreases all_edges(n).difference(edges@.to_set()).len(), stack.len(),
    {
        let ghost edges0 = edges@;
        let ghost stack0 = stack@;
        let ghost nodes0 = nodes@;
        let edge = stack.pop().unwrap();
        assert(edges0.contains(edge)) by {
            assert(stack0[stack0.len() - 1] == edge);
        }
        assert(is_edge(n, edge)) by {
            let i = choose|i: int| 0 <= i < edges0.len() && edges0[i] == edge;
            assert(is_edge(n, edges0[i]));
        }
        let (node, around) = Node::neighbour(edge, graph);
        if !has_cell(&nodes, node.pos) {
            nodes.push(node.pos);
        }
        proof {
            lemma_edges_around(n, edge);
            lemma_push_contains(nodes0, node.pos);
            assert(n >= 2) by {
                if n < 2 {
                    assert(edge.from == edge.to);
                }
            }
            assert forall|i: int| 0 <= i < stack.len() implies edges@.contains(
                #[trigger] stack[i],
            ) by {
                assert(stack[i] == stack0[i]);
            }
            assert forall|x: Edge| stack0.contains(x) && x != edge implies stack@.contains(x) by {
                let i = choose|i: int| 0 <= i < stack0.len() && stack0[i] == x;
                assert(stack[i] == x);
            }
        }
        let ghost nodes1 = nodes@;
        let mut j: usize = 0;
        while j < around.len()
            invariant
                j <= around.len(),
                around@ == edges_around(n, edge),
                is_edge(n, edge),
                all_edges(n).finite(),
                forall|i: int| 0 <= i < around.len() ==> is_edge(n, #[trigger] around[i]),
                forall|i: int| 0 <= i < edges.len() ==> is_edge(n, #[trigger] edges[i]),
                edges@.no_duplicates(),
                forall|i: int| 0 <= i < stack.len() ==> edges@.contains(#[trigger] stack[i]),
                forall|x: Edge| edges0.contains(x) ==> edges@.contains(x),
                forall|x: Edge| stack0.contains(x) && x != edge ==> stack@.contains(x),
                forall|i: int|
                    0 <= i < edges.len() && !edges0.contains(edges[i]) ==> stack@.contains(
                        #[trigger] edges[i],
                    ),
                forall|i: int| 0 <= i < j ==> edges@.contains(#[trigger] around[i]),
                edges.len() >= edges0.len(),
                edges0.is_prefix_of(edges@),
                edges.len() == edges0.len() ==> edges@ == edges0 && stack.len() == stack0.len() - 1,
                edges.len() > edges0.len() ==> all_edges(n).difference(edges@.to_set()).len()
                    < all_edges(n).difference(edges0.to_set()).len(),
            decreases around.len() - j,
        {
            let x = around[j];
            if find_edge(&edges, &x).is_none() {
                let ghost edges_before = edges@;
                let ghost stack_before = stack@;
                edges.push(x);
                stack.push(x);
                proof {
                    lemma_push_contains(edges_before, x);
                    lemma_push_contains(stack_before, x);
                    assert(edges@.to_set() =~= edges_before.to_set().insert(x));
                    assert(all_edges(n).contains(x));
                    all_edges(n).lemma_set_insert_diff_decreases(edges_before.to_set(), x);
                    assert forall|i: int| 0 <= i < stack.len() implies edges@.contains(
                        #[trigger] stack[i],
                    ) by {
                        if i < stack_before.len() {
                            assert(stack[i] == stack_before[i]);
                            assert(edges_before.contains(stack_before[i]));
                        }
                    }
                    assert forall|i: int|
                        0 <= i < edges.len() && !edges0.contains(
                            edges[i],
                        ) implies stack@.contains(#[trigger] edges[i]) by {
                        if i < edges_before.len() {
                            assert(edges[i] == edges_before[i]);
                            assert(stack_before.contains(edges_before[i]));
                        }
                    }
                    assert forall|i: int| 0 <= i < j + 1 implies edges@.contains(
                        #[trigger] around[i],
                    ) by {
                        if i < j {
                            assert(edges_before.contains(around[i]));
                        }
                    }
                    assert forall|a: int, b: int|
                        0 <= a < edges.len() && 0 <= b < edges.len() && a != b implies edges[a]
                        != edges[b] by {
                        if a < edges_before.len() {
                            assert(edges[a] == edges_before[a]);
                            assert(edges_before.contains(edges_before[a]));
                        }
                        if b < edges_before.len() {
                            assert(edges[b] == edges_before[b]);
                            assert(edges_before.contains(edges_before[b]));
                        }
                    }
                    if edges_before.len() == edges0.len() {
                        assert(edges_before == edges0);
                    }
                    assert(edges0.is_prefix_of(edges@)) by {
                        assert(edges0 =~= edges_before.subrange(0, edges0.len() as int));
                        assert(edges0 =~= edges@.subrange(0, edges0.len() as int));
                    }
                }
            }
            j += 1;
        }
        proof {
            assert(initial@.is_prefix_of(edges@)) by {
                assert(initial@ =~= edges0.subrange(0, initial.len() as int));
                assert(edges0 =~= edges@.subrange(0, edges0.len() as int));
                assert(initial@ =~= edges@.subrange(0, initial.len() as int));
            }
            assert(stack0 == stack0.drop_last().push(edge));
            assert forall|i: int| 0 <= i < edges.len() implies stack@.contains(
                #[trigger] edges[i],
            ) || settled(n, edges@, nodes@, edges[i]) by {
                let e = edges[i];
                if e == edge {
                    assert forall|x: Edge| #[trigger]
                        is_edge(n, x) && (x.from == e.to || x.to == e.from) implies edges@.contains(
                        x,
                    ) by {
                        assert(around@.contains(x));
                        let m = choose|m: int| 0 <= m < around.len() && around[m] == x;
                        assert(edges@.contains(around[m]));
                    }
                    assert(settled(n, edges@, nodes@, e));
                } else if edges0.contains(e) {
                    let i0 = choose|i0: int| 0 <= i0 < edges0.len() && edges0[i0] == e;
                    assert(stack0.contains(edges0[i0]) || settled(n, edges0, nodes0, edges0[i0]));
                    if stack0.contains(e) {
                        assert(stack@.contains(e));
                    } else {
                        assert(settled(n, edges@, nodes@, e));
                    }
                }
            }
            assert forall|i: int| 0 <= i < nodes.len() implies in_bounds(n, #[trigger] nodes[i])
                && n >= 2 by {
                if i < nodes0.len() {
                    assert(nodes[i] == nodes0[i]);
                }
            }
            assert(nodes@.no_duplicates()) by {
                assert forall|a: int, b: int|
                    0 <= a < nodes.len() && 0 <= b < nodes.len() && a != b implies nodes[a]
                    != nodes[b] by {
                    if a < nodes0.len() {
                        assert(nodes[a] == nodes0[a]);
                        assert(nodes0.contains(nodes0[a]));
                    }
                    if b < nodes0.len() {
                        assert(nodes[b] == nodes0[b]);
                        assert(nodes0.contains(nodes0[b]));
                    }
                }
            }
            assert forall|q: Position|
                in_bounds(n, q) && adjacent(start, q) implies edges@.contains(
                #[trigger] edge_of(start, q),
            ) by {
                assert(edges0.contains(edge_of(start, q)));
            }
        }
    }
    proof {
        assert forall|i: int| 0 <= i < edges.len() implies settled(
            n,
            edges@,
            nodes@,
            #[trigger] edges[i],
        ) by {
            assert(!stack@.contains(edges[i]));
        }
        assert forall|e: Edge| #[trigger] edges@.contains(e) <==> is_edge(n, e) by {
            if edges@.contains(e) {
                let i = choose|i: int| 0 <= i < edges.len() && edges[i] == e;
                assert(is_edge(n, edges[i]));
            }
            if is_edge(n, e) {
                lemma_out_edges_found(n, edges@, nodes@, start, e.from);
                assert(edges@.contains(edge_of(e.from, e.to)));
            }
        }
        assert forall|p: Position| #[trigger] nodes@.contains(p) <==> in_bounds(n, p) && n >= 2 by {
            if nodes@.contains(p) {
                let i = choose|i: int| 0 <= i < nodes.len() && nodes[i] == p;
                assert(in_bounds(n, nodes[i]));
            }
            if in_bounds(n, p) && n >= 2 {
                let q: Position = if p.0 == 0 {
                    (1usize, p.1)
                } else {
                    ((p.0 - 1) as usize, p.1)
                };
                let e = Edge { from: q, to: p };
                assert(is_edge(n, e));
                assert(edges@.contains(e));
                let i = choose|i: int| 0 <= i < edges.len() && edges[i] == e;
                assert(settled(n, edges@, nodes@, edges[i]));
            }
        }
    }
    Subgraph { edges, nodes }
}

} // verus!
