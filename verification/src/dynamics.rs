//! How the rewards of a grid change while a walk is under way: a visit
//! collects the reward of a cell, and at every step the rewards of all other
//! cells recover.

use crate::grid::{in_bounds, is_square, recovered, visited, Position, Rewards};
use crate::path::PathfindingStep;
use vstd::prelude::*;

verus! {

/// One change of the rewards of a grid.
pub enum GridChange {
    /// The reward of the cell is collected.
    Visit(Position),
    /// Every cell but the given one recovers by the given rate.
    Recover(u32, Position),
}

/// The rewards after one change.
pub open spec fn apply_change(g: Rewards, c: GridChange) -> Rewards {
    match c {
        GridChange::Visit(p) => visited(g, p),
        GridChange::Recover(rate, except) => recovered(g, rate, except),
    }
}

/// The rewards after the changes `cs`, made in order.
pub open spec fn apply_changes(g: Rewards, cs: Seq<GridChange>) -> Rewards
    decreases cs.len(),
{
    if cs.len() == 0 {
        g
    } else {
        apply_change(apply_changes(g, cs.drop_last()), cs.last())
    }
}

/// Reward invariant: whatever cells of a square grid are visited and however
/// often the grid recovers, it stays a square grid of the same side, and no
/// reward in it is negative.
pub proof fn lemma_rewards_stay_valid(g: Rewards, n: nat, cs: Seq<GridChange>)
    requires
        is_square(g, n),
        forall|k: int|
            0 <= k < cs.len() ==> (#[trigger] cs[k] matches GridChange::Visit(p) ==> in_bounds(
                n,
                p,
            )),
    ensures
        is_square(apply_changes(g, cs), n),
        forall|i: int, j: int|
            0 <= i < n && 0 <= j < n ==> #[trigger] apply_changes(g, cs)[i][j] >= 0,
    decreases cs.len(),
{
    if cs.len() > 0 {
        lemma_rewards_stay_valid(g, n, cs.drop_last());
        lemma_change_keeps_square(apply_changes(g, cs.drop_last()), n, cs.last());
    }
}

/// One change of a square grid leaves a square grid of the same side. A
/// recovery lowers no reward; a visit leaves 0 on the visited cell and
/// changes no other.
pub proof fn lemma_change_keeps_square(g: Rewards, n: nat, c: GridChange)
    requires
        is_square(g, n),
        c matches GridChange::Visit(p) ==> in_bounds(n, p),
    ensures
        is_square(apply_change(g, c), n),
        forall|i: int, j: int|
            0 <= i < n && 0 <= j < n ==> match c {
                GridChange::Visit(p) => #[trigger] apply_change(g, c)[i][j] == if i == p.0 && j
                    == p.1 {
                    0u32
                } else {
                    g[i][j]
                },
                GridChange::Recover(rate, except) => apply_change(g, c)[i][j] >= g[i][j],
            },
{
    let after = apply_change(g, c);
    assert forall|i: int| 0 <= i < n implies (#[trigger] after[i]).len() == n by {}
}

/// The grid after the walker has collected at `at` and one step has passed.
pub open spec fn after_step(g: Rewards, at: Position, rate: u32) -> Rewards {
    recovered(visited(g, at), rate, at)
}

/// Collecting at a cell of a square grid and letting a step pass leaves a
/// square grid of the same side.
pub proof fn lemma_after_step_square(g: Rewards, n: nat, at: Position, rate: u32)
    requires
        is_square(g, n),
        in_bounds(n, at),
    ensures
        is_square(after_step(g, at, rate), n),
{
    let v = visited(g, at);
    assert forall|i: int| 0 <= i < n implies (#[trigger] v[i]).len() == n by {}
    let r = after_step(g, at, rate);
    assert forall|i: int| 0 <= i < n implies (#[trigger] r[i]).len() == n by {}
}

/// The changes that a walk along `path` makes to the grid: at each step the
/// reward of the cell is collected, and then every other cell recovers.
pub open spec fn changes_of(path: Seq<PathfindingStep>, rate: u32) -> Seq<GridChange>
    decreases path.len(),
{
    if path.len() == 0 {
        Seq::empty()
    } else {
        changes_of(path.drop_last(), rate).push(GridChange::Visit(path.last().node)).push(
            GridChange::Recover(rate, path.last().node),
        )
    }
}

/// The rewards that a walk along `path` finds when it makes the step at
/// position `i`: those of `g` after the changes of the steps before.
pub open spec fn rewards_before(
    g: Rewards,
    path: Seq<PathfindingStep>,
    rate: u32,
    i: int,
) -> Rewards {
    apply_changes(g, changes_of(path.take(i), rate))
}

/// Changes made one after the other are the changes of the two lists joined.
pub proof fn lemma_apply_changes_concat(g: Rewards, a: Seq<GridChange>, b: Seq<GridChange>)
    ensures
        apply_changes(g, a + b) == apply_changes(apply_changes(g, a), b),
    decreases b.len(),
{
    if b.len() == 0 {
        assert(a + b =~= a);
    } else {
        lemma_apply_changes_concat(g, a, b.drop_last());
        assert((a + b).drop_last() =~= a + b.drop_last());
        assert((a + b).last() == b.last());
    }
}

/// The changes of two walks joined are the changes of the one, then those of
/// the other.
pub proof fn lemma_changes_of_concat(a: Seq<PathfindingStep>, b: Seq<PathfindingStep>, rate: u32)
    ensures
        changes_of(a + b, rate) == changes_of(a, rate) + changes_of(b, rate),
    decreases b.len(),
{
    if b.len() == 0 {
        assert(a + b =~= a);
        assert(changes_of(a, rate) + changes_of(b, rate) =~= changes_of(a, rate));
    } else {
        lemma_changes_of_concat(a, b.drop_last(), rate);
        assert((a + b).drop_last() =~= a + b.drop_last());
        assert((a + b).last() == b.last());
        assert(changes_of(a + b, rate) =~= changes_of(a, rate) + changes_of(b, rate));
    }
}

/// One step changes the grid as `after_step` says.
pub proof fn lemma_changes_of_one(g: Rewards, step: PathfindingStep, rate: u32)
    ensures
        apply_changes(g, changes_of(seq![step], rate)) == after_step(g, step.node, rate),
{
    let one = seq![step];
    let none = Seq::<PathfindingStep>::empty();
    assert(one.drop_last() =~= none);
    assert(one.last() == step);
    assert(changes_of(none, rate) =~= Seq::<GridChange>::empty());
    let visit = GridChange::Visit(step.node);
    let recover = GridChange::Recover(rate, step.node);
    let cs = changes_of(one, rate);
    assert(cs == Seq::<GridChange>::empty().push(visit).push(recover));
    assert(cs.last() == recover);
    assert(cs.drop_last() =~= Seq::<GridChange>::empty().push(visit));
    assert(cs.drop_last().last() == visit);
    assert(cs.drop_last().drop_last() =~= Seq::<GridChange>::empty());
    assert(apply_changes(g, cs.drop_last().drop_last()) == g);
    assert(apply_changes(g, cs.drop_last()) == apply_change(g, visit));
    assert(apply_changes(g, cs) == apply_change(apply_change(g, visit), recover));
}

} // verus!
