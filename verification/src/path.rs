//! The outcome of planning: an ordered trajectory with the reward collected
//! at each step.

use crate::grid::Position;
use vstd::prelude::*;

verus! {

/// One step of a trajectory: the cell arrived at, the reward collected there,
/// and the 1-based index of the step.
#[derive(Debug, Clone, Copy, PartialEq)]
pub struct PathfindingStep {
    pub node: Position,
    pub score: u32,
    pub step: u32,
}

/// A trajectory, in the order in which its cells were visited.
#[derive(Debug, Clone, PartialEq)]
pub struct PathfindingResult {
    pub path: Vec<PathfindingStep>,
}

/// The sum of the rewards collected along `path`.
pub open spec fn total_reward(path: Seq<PathfindingStep>) -> nat
    decreases path.len(),
{
    if path.len() == 0 {
        0
    } else {
        total_reward(path.drop_last()) + path.last().score as nat
    }
}

/// The steps of `path` are numbered 1, 2, 3, ... without a gap.
pub open spec fn numbered_from_one(path: Seq<PathfindingStep>) -> bool {
    forall|i: int| 0 <= i < path.len() ==> (#[trigger] path[i]).step == i + 1
}

/// The steps of `path` that arrive at `node`, in order.
pub open spec fn steps_on(path: Seq<PathfindingStep>, node: Position) -> Seq<PathfindingStep> {
    path.filter(|s: PathfindingStep| s.node == node)
}

impl PathfindingResult {
    /// A trajectory without any step.
    pub fn empty() -> (r: PathfindingResult)
        ensures
            r.path@ == Seq::<PathfindingStep>::empty(),
    {
        PathfindingResult { path: Vec::new() }
    }

    /// The steps that arrive at `node`, in the order of the trajectory.
    pub fn steps_at(&self, node: Position) -> (r: Vec<&PathfindingStep>)
        ensures
            r@.map_values(|s: &PathfindingStep| *s) == steps_on(self.path@, node),
    {
        let mut out: Vec<&PathfindingStep> = Vec::new();
        let mut i: usize = 0;
        while i < self.path.len()
            invariant
                i <= self.path.len(),
                out@.map_values(|s: &PathfindingStep| *s) == steps_on(
                    self.path@.take(i as int),
                    node,
                ),
            decreases self.path.len() - i,
        {
            let s = &self.path[i];
            proof {
                let pred = |s: PathfindingStep| s.node == node;
                assert(self.path@.take(i + 1).drop_last() == self.path@.take(i as int));
                reveal(Seq::filter);
                assert(steps_on(self.path@.take(i + 1), node) == if pred(self.path@[i as int]) {
                    steps_on(self.path@.take(i as int), node).push(self.path@[i as int])
                } else {
                    steps_on(self.path@.take(i as int), node)
                });
            }
            if s.node.0 == node.0 && s.node.1 == node.1 {
                let ghost before = out@;
                out.push(s);
                assert(out@.map_values(|s: &PathfindingStep| *s) =~= before.map_values(
                    |s: &PathfindingStep| *s,
                ).push(*s));
            }
            i += 1;
        }
        assert(self.path@.take(self.path.len() as int) == self.path@);
        out
    }

    /// The position in the trajectory of the first step that arrives at
    /// `node`, if there is one.
    pub fn occurs_at(&self, node: Position) -> (r: Option<usize>)
        ensures
            match r {
                Some(i) => i < self.path.len() && self.path[i as int].node == node && forall|
                    k: int,
                | 0 <= k < i ==> (#[trigger] self.path[k]).node != node,
                None => forall|k: int|
                    0 <= k < self.path.len() ==> (#[trigger] self.path[k]).node != node,
            },
    {
        let mut i: usize = 0;
        while i < self.path.len()
            invariant
                i <= self.path.len(),
                forall|k: int| 0 <= k < i ==> (#[trigger] self.path[k]).node != node,
            decreases self.path.len() - i,
        {
            if self.path[i].node.0 == node.0 && self.path[i].node.1 == node.1 {
                return Some(i);
            }
            i += 1;
        }
        None
    }

    /// The total reward of the trajectory. A total that would pass `u32::MAX`
    /// is reported as `u32::MAX`.
    pub fn score(&self) -> (r: u32)
        ensures
            r == if total_reward(self.path@) > u32::MAX {
                u32::MAX as nat
            } else {
                total_reward(self.path@)
            },
    {
        let mut sum: u32 = 0;
        let mut i: usize = 0;
        while i < self.path.len()
            invariant
                i <= self.path.len(),
                sum == if total_reward(self.path@.take(i as int)) > u32::MAX {
                    u32::MAX as nat
                } else {
                    total_reward(self.path@.take(i as int))
                },
            decreases self.path.len() - i,
        {
            proof {
                assert(self.path@.take(i + 1).drop_last() == self.path@.take(i as int));
            }
            sum = sum.saturating_add(self.path[i].score);
            i += 1;
        }
        assert(self.path@.take(self.path.len() as int) == self.path@);
        sum
    }
}

} // verus!
