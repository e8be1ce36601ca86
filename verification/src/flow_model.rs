//! The model of the exact edge-flow planner: one binary variable per move
//! says whether the walk uses it. The model counts the reward that each used
//! move finds at its destination in the grid as it stands, so it is exact
//! only where rewards do not change during the walk.
//!
//! The model asks that one used move leaves the start, that at every other
//! touched cell as many used moves arrive as leave, and that the number of
//! used moves equals the step budget. It does not ask that the used moves
//! hang together: some may form rounds that the walk never comes to.

use crate::grid::{in_bounds, reward_at, Graph, Position, Rewards};
use crate::program::{
    constraint_valid, program_valid, ConstraintModel, LinearConstraint, LinearProgram,
    ProgramModel, Relation, Term, VariableKind,
};
use crate::subgraph::{edges_in, edges_out, find_edge, Edge, Subgraph};
use vstd::prelude::*;

verus! {

/// `k` is the first position of `e` in `edges`.
pub open spec fn is_position_of(edges: Seq<Edge>, e: Edge, k: int) -> bool {
    &&& 0 <= k < edges.len()
    &&& edges[k] == e
    &&& forall|i: int| 0 <= i < k ==> edges[i] != e
}

/// The first position of `e` in `edges`, where it stands there.
pub open spec fn position_of(edges: Seq<Edge>, e: Edge) -> int {
    choose|k: int| is_position_of(edges, e, k)
}

/// Only one position is the first.
pub proof fn lemma_position_unique(edges: Seq<Edge>, e: Edge, k: int)
    requires
        is_position_of(edges, e, k),
    ensures
        position_of(edges, e) == k,
{
    let p = position_of(edges, e);
    assert(is_position_of(edges, e, p));
}

/// One term of coefficient `coef` for each move of `wanted` that stands in
/// `edges`, on the variable at the move's position there, in the order of
/// `wanted`.
pub open spec fn terms_for(edges: Seq<Edge>, wanted: Seq<Edge>, coef: i64) -> Seq<Term>
    decreases wanted.len(),
{
    if wanted.len() == 0 {
        Seq::empty()
    } else {
        let rest = terms_for(edges, wanted.drop_last(), coef);
        if edges.contains(wanted.last()) {
            rest.push(Term { var: position_of(edges, wanted.last()) as usize, coef })
        } else {
            rest
        }
    }
}

/// The constraint of the touched cell `p`. At the start: the used moves out
/// of it number 1. Elsewhere: the used moves into it, less those out of it,
/// number 0.
pub open spec fn node_constraint(
    n: nat,
    edges: Seq<Edge>,
    start: Position,
    p: Position,
) -> ConstraintModel {
    if p == start {
        ConstraintModel {
            terms: terms_for(edges, edges_out(n, p), 1),
            relation: Relation::Equal,
            bound: 1,
        }
    } else {
        ConstraintModel {
            terms: terms_for(edges, edges_in(n, p), 1) + terms_for(edges, edges_out(n, p), -1i64),
            relation: Relation::Equal,
            bound: 0,
        }
    }
}

/// The constraint that the used moves number `budget`.
pub open spec fn budget_constraint(count: nat, budget: u32) -> ConstraintModel {
    ConstraintModel {
        terms: Seq::new(count, |k: int| Term { var: k as usize, coef: 1 }),
        relation: Relation::Equal,
        bound: budget as int,
    }
}

/// The edge-flow model of a walk from `start` over the moves `edges` and the
/// touched cells `nodes`: a binary variable for each move, in the order of
/// `edges`; as objective the reward at each move's destination; a constraint
/// for each touched cell, in the order of `nodes`; and, last, the constraint
/// on the number of used moves.
pub open spec fn edge_flow_model(
    g: Rewards,
    n: nat,
    start: Position,
    budget: u32,
    edges: Seq<Edge>,
    nodes: Seq<Position>,
) -> ProgramModel {
    ProgramModel {
        kinds: Seq::new(edges.len(), |k: int| VariableKind::Binary),
        objective: Seq::new(
            edges.len(),
            |k: int| Term { var: k as usize, coef: reward_at(g, edges[k].to) as i64 },
        ),
        constraints: Seq::new(
            nodes.len(),
            |k: int| node_constraint(n, edges, start, nodes[k]),
        ).push(budget_constraint(edges.len(), budget)),
    }
}

/// The terms of `terms_for` name positions in `edges`, with the coefficient
/// asked for.
proof fn lemma_terms_for(edges: Seq<Edge>, wanted: Seq<Edge>, coef: i64)
    requires
        edges.len() <= usize::MAX,
    ensures
        forall|k: int|
            0 <= k < terms_for(edges, wanted, coef).len() ==> (#[trigger] terms_for(
                edges,
                wanted,
                coef,
            )[k]).var < edges.len() && terms_for(edges, wanted, coef)[k].coef == coef,
    decreases wanted.len(),
{
    if wanted.len() > 0 {
        lemma_terms_for(edges, wanted.drop_last(), coef);
        let rest = terms_for(edges, wanted.drop_last(), coef);
        let whole = terms_for(edges, wanted, coef);
        if edges.contains(wanted.last()) {
            lemma_position_exists(edges, wanted.last());
        }
        assert forall|k: int| 0 <= k < whole.len() implies (#[trigger] whole[k]).var < edges.len()
            && whole[k].coef == coef by {
            if k < rest.len() {
                assert(whole[k] == rest[k]);
            }
        }
    }
}

/// A move that stands in `edges` has a first position there.
pub proof fn lemma_position_exists(edges: Seq<Edge>, e: Edge)
    requires
        edges.contains(e),
    ensures
        is_position_of(edges, e, position_of(edges, e)),
    decreases edges.len(),
{
    let i = choose|i: int| 0 <= i < edges.len() && edges[i] == e;
    let front = edges.take(i);
    if front.contains(e) {
        lemma_position_exists(front, e);
        let k = position_of(front, e);
        assert(is_position_of(edges, e, k)) by {
            assert(front[k] == edges[k]);
            assert forall|j: int| 0 <= j < k implies edges[j] != e by {
                assert(front[j] == edges[j]);
            }
        }
    } else {
        assert(is_position_of(edges, e, i)) by {
            assert forall|j: int| 0 <= j < i implies edges[j] != e by {
                assert(front[j] == edges[j]);
                assert(front.contains(front[j]));
            }
        }
    }
}

/// Appends to `out` the terms of `wanted` over `edges`.
fn push_terms(edges: &Vec<Edge>, wanted: &Vec<Edge>, coef: i64, out: &mut Vec<Term>)
    ensures
        final(out)@ == old(out)@ + terms_for(edges@, wanted@, coef),
{
    let ghost before = out@;
    let mut k: usize = 0;
    while k < wanted.len()
        invariant
            k <= wanted.len(),
            out@ == before + terms_for(edges@, wanted@.take(k as int), coef),
        decreases wanted.len() - k,
    {
        proof {
            assert(wanted@.take(k + 1).drop_last() == wanted@.take(k as int));
        }
        match find_edge(edges, &wanted[k]) {
            Some(i) => {
                proof {
                    lemma_position_unique(edges@, wanted[k as int], i as int);
                }
                out.push(Term { var: i, coef });
                assert(out@ =~= before + terms_for(edges@, wanted@.take(k + 1), coef));
            },
            None => {},
        }
        k += 1;
    }
    assert(wanted@.take(wanted.len() as int) == wanted@);
}

/// Builds the edge-flow model of a walk of `max_timesteps` steps from
/// `start` over the moves and touched cells of `subgraph`.
pub fn edge_flow_program(
    graph: &Graph,
    start: Position,
    max_timesteps: u32,
    subgraph: &Subgraph,
) -> (p: LinearProgram)
    requires
        graph.wf(),
        forall|k: int|
            0 <= k < subgraph.edges.len() ==> in_bounds(
                graph.spec_size(),
                (#[trigger] subgraph.edges[k]).to,
            ),
    ensures
        p@ == edge_flow_model(
            graph@,
            graph.spec_size(),
            start,
            max_timesteps,
            subgraph.edges@,
            subgraph.nodes@,
        ),
        program_valid(p@),
{
    let ghost n = graph.spec_size();
    let ghost model = edge_flow_model(
        graph@,
        n,
        start,
        max_timesteps,
        subgraph.edges@,
        subgraph.nodes@,
    );
    let edges = &subgraph.edges;
    let count = edges.len();
    let mut kinds: Vec<VariableKind> = Vec::new();
    let mut objective: Vec<Term> = Vec::new();
    let mut all: Vec<Term> = Vec::new();
    let mut k: usize = 0;
    while k < count
        invariant
            k <= count,
            count == edges.len(),
            graph.wf(),
            n == graph.spec_size(),
            forall|i: int| 0 <= i < edges.len() ==> in_bounds(n, (#[trigger] edges[i]).to),
            kinds.len() == k,
            objective.len() == k,
            all.len() == k,
            forall|i: int| 0 <= i < k ==> kinds[i] == VariableKind::Binary,
            forall|i: int|
                0 <= i < k ==> objective[i] == (Term {
                    var: i as usize,
                    coef: reward_at(graph@, edges[i].to) as i64,
                }),
            forall|i: int| 0 <= i < k ==> all[i] == (Term { var: i as usize, coef: 1 }),
        decreases count - k,
    {
        kinds.push(VariableKind::Binary);
        let reward = *graph.get_score_at(edges[k].to);
        objective.push(Term { var: k, coef: reward as i64 });
        all.push(Term { var: k, coef: 1 });
        k += 1;
    }
    let mut constraints: Vec<LinearConstraint> = Vec::new();
    let mut c: usize = 0;
    while c < subgraph.nodes.len()
        invariant
            c <= subgraph.nodes.len(),
            n == graph.spec_size(),
            edges@ == subgraph.edges@,
            constraints.len() == c,
            forall|i: int|
                0 <= i < c ==> (#[trigger] constraints[i])@ == node_constraint(
                    n,
                    edges@,
                    start,
                    subgraph.nodes[i],
                ),
        decreases subgraph.nodes.len() - c,
    {
        let p = subgraph.nodes[c];
        let outs = Edge::get_edges_out(graph, p);
        let mut terms: Vec<Term> = Vec::new();
        if p.0 == start.0 && p.1 == start.1 {
            push_terms(edges, &outs, 1, &mut terms);
            assert(terms@ =~= terms_for(edges@, edges_out(n, p), 1));
            constraints.push(LinearConstraint { terms, relation: Relation::Equal, bound: 1 });
        } else {
            let ins = Edge::get_edges_in(graph, p);
            push_terms(edges, &ins, 1, &mut terms);
            push_terms(edges, &outs, -1, &mut terms);
            assert(terms@ =~= terms_for(edges@, edges_in(n, p), 1) + terms_for(
                edges@,
                edges_out(n, p),
                -1i64,
            ));
            constraints.push(LinearConstraint { terms, relation: Relation::Equal, bound: 0 });
        }
        c += 1;
    }
    constraints.push(
        LinearConstraint { terms: all, relation: Relation::Equal, bound: max_timesteps as i64 },
    );
    let p = LinearProgram { kinds, objective, constraints };
    proof {
        assert(p@.kinds =~= model.kinds);
        assert(p@.objective =~= model.objective);
        assert(p@.constraints[subgraph.nodes.len() as int].terms =~= budget_constraint(
            edges@.len(),
            max_timesteps,
        ).terms);
        assert(p@.constraints =~= model.constraints);
        assert forall|k: int| 0 <= k < p@.constraints.len() implies constraint_valid(
            #[trigger] p@.constraints[k],
            p@.kinds.len(),
        ) by {
            if k < subgraph.nodes.len() {
                let q = subgraph.nodes[k];
                lemma_terms_for(edges@, edges_out(n, q), 1);
                lemma_terms_for(edges@, edges_out(n, q), -1i64);
                lemma_terms_for(edges@, edges_in(n, q), 1);
            }
        }
    }
    p
}

} // verus!
