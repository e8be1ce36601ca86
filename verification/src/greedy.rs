//! The greedy walker: at every step it collects the reward under it and moves
//! to the neighbour that holds the most, never looking further than one move
//! ahead and never going back on a choice.
//!
//! Among neighbours that hold the same reward the walker takes the first in
//! row-major order.

use crate::dynamics::{
    after_step, changes_of, lemma_after_step_square, lemma_apply_changes_concat,
    lemma_changes_of_concat, lemma_changes_of_one, rewards_before,
};
use crate::grid::{
    adjacent, in_bounds, is_square, lemma_neighbors, neighbors, reward_at, Graph, Position,
    Rewards,
};
use crate::path::{numbered_from_one, PathfindingResult, PathfindingStep};
use vstd::prelude::*;

verus! {

/// `cells[k]` holds the greatest reward among `cells`, and no earlier cell
/// holds as much.
pub open spec fn is_best(g: Rewards, cells: Seq<Position>, k: int) -> bool {
    &&& 0 <= k < cells.len()
    &&& forall|j: int|
        0 <= j < cells.len() ==> reward_at(g, #[trigger] cells[j]) <= reward_at(g, cells[k])
    &&& forall|j: int| 0 <= j < k ==> reward_at(g, #[trigger] cells[j]) < reward_at(g, cells[k])
}

/// The index of the cell that the walker prefers among `cells`.
pub open spec fn best_index(g: Rewards, cells: Seq<Position>) -> int {
    choose|k: int| is_best(g, cells, k)
}

/// The trajectory of the greedy walker that stands on `at` with `steps` steps
/// left, after `taken` steps have been made.
pub open spec fn greedy_walk(g: Rewards, at: Position, steps: nat, taken: nat, rate: u32) -> Seq<
    PathfindingStep,
>
    decreases steps,
{
    if steps == 0 {
        Seq::empty()
    } else {
        let here = PathfindingStep { node: at, score: reward_at(g, at), step: (taken + 1) as u32 };
        let after = after_step(g, at, rate);
        let around = neighbors(g.len(), at);
        if around.len() == 0 {
            seq![here]
        } else {
            seq![here] + greedy_walk(
                after,
                around[best_index(after, around)],
                (steps - 1) as nat,
                taken + 1,
                rate,
            )
        }
    }
}

/// Only one index is the best of `cells`.
pub proof fn lemma_best_unique(g: Rewards, cells: Seq<Position>, k: int)
    requires
        is_best(g, cells, k),
    ensures
        best_index(g, cells) == k,
{
    let b = best_index(g, cells);
    assert(is_best(g, cells, b));
    if b < k {
        assert(reward_at(g, cells[b]) < reward_at(g, cells[k]));
    } else if k < b {
        assert(reward_at(g, cells[k]) < reward_at(g, cells[b]));
    }
}

/// The shape of a greedy trajectory on a square grid: it is no longer than
/// the step budget, its steps are numbered without a gap from `taken + 1` on,
/// it begins on the cell where the walker stands, and each of its steps goes
/// to a neighbour of the step before. On a grid with at least two cells a
/// side the walker never gets stuck, so the trajectory has exactly as many
/// steps as the budget allows.
pub proof fn lemma_greedy_walk_shape(
    g: Rewards,
    n: nat,
    at: Position,
    steps: nat,
    taken: nat,
    rate: u32,
)
    requires
        is_square(g, n),
        in_bounds(n, at),
        taken + steps <= u32::MAX,
    ensures
        greedy_walk(g, at, steps, taken, rate).len() <= steps,
        n >= 2 ==> greedy_walk(g, at, steps, taken, rate).len() == steps,
        steps >= 1 ==> greedy_walk(g, at, steps, taken, rate).len() >= 1 && greedy_walk(
            g,
            at,
            steps,
            taken,
            rate,
        )[0].node == at && greedy_walk(g, at, steps, taken, rate)[0].score == reward_at(g, at),
        forall|i: int|
            0 <= i < greedy_walk(g, at, steps, taken, rate).len() ==> (#[trigger] greedy_walk(
                g,
                at,
                steps,
                taken,
                rate,
            )[i]).step == taken + i + 1,
        forall|i: int|
            0 <= i < greedy_walk(g, at, steps, taken, rate).len() ==> in_bounds(
                n,
                (#[trigger] greedy_walk(g, at, steps, taken, rate)[i]).node,
            ),
        forall|i: int|
            0 <= i < greedy_walk(g, at, steps, taken, rate).len() - 1 ==> adjacent(
                (#[trigger] greedy_walk(g, at, steps, taken, rate)[i]).node,
                greedy_walk(g, at, steps, taken, rate)[i + 1].node,
            ),
    decreases steps,
{
    if steps > 0 {
        let walk = greedy_walk(g, at, steps, taken, rate);
        let after = after_step(g, at, rate);
        let around = neighbors(n, at);
        lemma_neighbors(n, at);
        lemma_after_step_square(g, n, at, rate);
        if n >= 2 {
            let other: Position = if at.0 == 0 {
                (1usize, at.1)
            } else {
                ((at.0 - 1) as usize, at.1)
            };
            assert(in_bounds(n, other) && adjacent(at, other));
            assert(around.contains(other));
        }
        if around.len() > 0 {
            lemma_best_exists(after, around);
            let k = best_index(after, around);
            let next = around[k];
            let rest = greedy_walk(after, next, (steps - 1) as nat, taken + 1, rate);
            lemma_greedy_walk_shape(after, n, next, (steps - 1) as nat, taken + 1, rate);
            assert(walk.len() == rest.len() + 1);
            assert forall|i: int| 0 < i < walk.len() implies walk[i] == rest[i - 1] by {}
            assert forall|i: int| 0 <= i < walk.len() - 1 implies adjacent(
                (#[trigger] walk[i]).node,
                walk[i + 1].node,
            ) by {
                if i == 0 {
                    assert(walk[1] == rest[0]);
                } else {
                    assert(walk[i] == rest[i - 1]);
                    assert(walk[i + 1] == rest[i]);
                }
            }
            assert forall|i: int| 0 <= i < walk.len() implies (#[trigger] walk[i]).step == taken
                + i + 1 && in_bounds(n, walk[i].node) by {
                if i > 0 {
                    assert(walk[i] == rest[i - 1]);
                }
            }
        }
    }
}

/// Every step of the greedy walker collects what its cell holds at that
/// time: the reward in the grid after the visits and recoveries of the steps
/// before. With `PathfindingResult::score`, which adds up the rewards of the
/// steps, the total score is the sum of the rewards collected in order.
pub proof fn lemma_greedy_collects(
    g: Rewards,
    at: Position,
    steps: nat,
    taken: nat,
    rate: u32,
    i: int,
)
    requires
        0 <= i < greedy_walk(g, at, steps, taken, rate).len(),
    ensures
        greedy_walk(g, at, steps, taken, rate)[i].score == reward_at(
            rewards_before(g, greedy_walk(g, at, steps, taken, rate), rate, i),
            greedy_walk(g, at, steps, taken, rate)[i].node,
        ),
    decreases steps,
{
    let walk = greedy_walk(g, at, steps, taken, rate);
    if i == 0 {
        assert(walk.take(0) =~= Seq::<PathfindingStep>::empty());
    } else {
        let here = PathfindingStep { node: at, score: reward_at(g, at), step: (taken + 1) as u32 };
        let after = after_step(g, at, rate);
        let around = neighbors(g.len(), at);
        let next = around[best_index(after, around)];
        let rest = greedy_walk(after, next, (steps - 1) as nat, taken + 1, rate);
        assert(walk == seq![here] + rest);
        assert(walk[i] == rest[i - 1]);
        lemma_greedy_collects(after, next, (steps - 1) as nat, taken + 1, rate, i - 1);
        assert(walk.take(i) =~= seq![here] + rest.take(i - 1));
        lemma_changes_of_concat(seq![here], rest.take(i - 1), rate);
        lemma_apply_changes_concat(
            g,
            changes_of(seq![here], rate),
            changes_of(rest.take(i - 1), rate),
        );
        lemma_changes_of_one(g, here, rate);
    }
}

/// Among one cell or more, some cell is the best.
pub proof fn lemma_best_exists(g: Rewards, cells: Seq<Position>)
    requires
        cells.len() > 0,
    ensures
        is_best(g, cells, best_index(g, cells)),
    decreases cells.len(),
{
    if cells.len() == 1 {
        assert(is_best(g, cells, 0));
    } else {
        let front = cells.drop_last();
        lemma_best_exists(g, front);
        let k = best_index(g, front);
        let last = cells.len() - 1;
        assert forall|j: int| 0 <= j < front.len() implies front[j] == cells[j] by {}
        if reward_at(g, cells[last]) > reward_at(g, cells[k]) {
            assert forall|j: int| 0 <= j < cells.len() implies reward_at(g, #[trigger] cells[j])
                <= reward_at(g, cells[last]) by {
                if j < last {
                    assert(front[j] == cells[j]);
                }
            }
            assert forall|j: int| 0 <= j < last implies reward_at(g, #[trigger] cells[j])
                < reward_at(g, cells[last]) by {
                assert(front[j] == cells[j]);
            }
            assert(is_best(g, cells, last));
        } else {
            assert forall|j: int| 0 <= j < cells.len() implies reward_at(g, #[trigger] cells[j])
                <= reward_at(g, cells[k]) by {
                if j < last {
                    assert(front[j] == cells[j]);
                }
            }
            assert forall|j: int| 0 <= j < k implies reward_at(g, #[trigger] cells[j])
                < reward_at(g, cells[k]) by {
                assert(front[j] == cells[j]);
            }
            assert(is_best(g, cells, k));
        }
    }
}

/// The index of the cell that holds the greatest reward among `cells`, the
/// first of them where several hold it.
fn pick_best(graph: &Graph, cells: &Vec<Position>) -> (k: usize)
    requires
        graph.wf(),
        cells.len() > 0,
        forall|j: int| 0 <= j < cells.len() ==> in_bounds(graph.spec_size(), #[trigger] cells[j]),
    ensures
        is_best(graph@, cells@, k as int),
        k == best_index(graph@, cells@),
{
    let mut best: usize = 0;
    let mut best_reward: u32 = *graph.get_score_at(cells[0]);
    let mut j: usize = 1;
    while j < cells.len()
        invariant
            1 <= j <= cells.len(),
            graph.wf(),
            forall|i: int|
                0 <= i < cells.len() ==> in_bounds(graph.spec_size(), #[trigger] cells[i]),
            best < j,
            best_reward == reward_at(graph@, cells[best as int]),
            forall|i: int|
                0 <= i < j ==> reward_at(graph@, #[trigger] cells[i]) <= reward_at(
                    graph@,
                    cells[best as int],
                ),
            forall|i: int|
                0 <= i < best ==> reward_at(graph@, #[trigger] cells[i]) < reward_at(
                    graph@,
                    cells[best as int],
                ),
        decreases cells.len() - j,
    {
        let reward = *graph.get_score_at(cells[j]);
        if reward > best_reward {
            best = j;
            best_reward = reward;
        }
        j += 1;
    }
    proof {
        lemma_best_unique(graph@, cells@, best as int);
    }
    best
}

impl Graph {
    /// Plans a walk of at most `max_timesteps` steps from `start` by always
    /// moving to the neighbour that holds the greatest reward. The walk is
    /// made on a copy of the graph, on which every collected reward drops to
    /// 0 and every other reward grows by `recovery_rate` at each step.
    pub fn path_planning_bfs(&self, start: Position, max_timesteps: u32, recovery_rate: u32) -> (r:
        PathfindingResult)
        requires
            self.wf(),
            in_bounds(self.spec_size(), start),
        ensures
            r.path@ == greedy_walk(self@, start, max_timesteps as nat, 0, recovery_rate),
            r.path.len() <= max_timesteps,
            self.spec_size() >= 2 ==> r.path.len() == max_timesteps,
            numbered_from_one(r.path@),
            max_timesteps >= 1 ==> r.path.len() >= 1 && r.path[0].node == start && r.path[0].score
                == reward_at(self@, start),
            forall|i: int|
                0 <= i < r.path.len() ==> in_bounds(self.spec_size(), (#[trigger] r.path[i]).node),
            forall|i: int|
                0 <= i < r.path.len() - 1 ==> adjacent(
                    (#[trigger] r.path[i]).node,
                    r.path[i + 1].node,
                ),
            forall|i: int|
                0 <= i < r.path.len() ==> (#[trigger] r.path[i]).score == reward_at(
                    rewards_before(self@, r.path@, recovery_rate, i),
                    r.path[i].node,
                ),
    {
        let ghost whole = greedy_walk(self@, start, max_timesteps as nat, 0, recovery_rate);
        proof {
            assert forall|i: int| 0 <= i < whole.len() implies (#[trigger] whole[i]).score
                == reward_at(rewards_before(self@, whole, recovery_rate, i), whole[i].node) by {
                lemma_greedy_collects(self@, start, max_timesteps as nat, 0, recovery_rate, i);
            }
            lemma_greedy_walk_shape(
                self@,
                self.spec_size(),
                start,
                max_timesteps as nat,
                0,
                recovery_rate,
            );
        }
        let mut path: Vec<PathfindingStep> = Vec::new();
        let mut graph = self.clone();
        let mut at = start;
        let mut step: u32 = 0;
        let mut stuck = false;
        while step < max_timesteps && !stuck
            invariant
                step <= max_timesteps,
                graph.wf(),
                graph.spec_size() == self.spec_size(),
                in_bounds(graph.spec_size(), at),
                !stuck ==> whole == path@ + greedy_walk(
                    graph@,
                    at,
                    (max_timesteps - step) as nat,
                    step as nat,
                    recovery_rate,
                ),
                stuck ==> whole == path@,
            decreases max_timesteps - step,
        {
            let ghost before = graph@;
            let ghost tail = greedy_walk(
                before,
                at,
                (max_timesteps - step) as nat,
                step as nat,
                recovery_rate,
            );
            let reward = *graph.get_score_at(at);
            step += 1;
            path.push(PathfindingStep { node: at, score: reward, step });
            graph = graph.reset_score(at).recover_for(recovery_rate, at);
            let around = graph.get_nodes_out(at);
            if around.len() == 0 {
                stuck = true;
                assert(tail =~= seq![PathfindingStep { node: at, score: reward, step }]);
                assert(whole =~= path@);
            } else {
                let k = pick_best(&graph, &around);
                let next = around[k];
                proof {
                    let rest = greedy_walk(
                        graph@,
                        next,
                        (max_timesteps - step) as nat,
                        step as nat,
                        recovery_rate,
                    );
                    assert(tail =~= seq![PathfindingStep { node: at, score: reward, step }]
                        + rest);
                    assert(whole =~= path@ + rest);
                }
                at = next;
            }
        }
        proof {
            if !stuck {
                assert(whole =~= path@);
            }
        }
        PathfindingResult { path }
    }
}

} // verus!
