//! Why a generation stage failed. Every failure is a value, so that a caller
//! can tell the stages and reasons apart before it decides to retry.

use crate::causality::Effect;
use crate::graph::NodeId;
use vstd::prelude::*;

verus! {

/// A failure of one generation stage.
#[derive(Debug, Clone, Copy, PartialEq, Eq, Structural)]
pub enum LevelError {
    /// Topology validation: `goal` cannot be reached from the start.
    UnreachableGoal { goal: NodeId },
    /// Causality generation: a mechanic needs `needed` distinct reachable
    /// platforms other than the goal, and only `available` exist.
    InsufficientSites { needed: usize, available: usize },
    /// Chain validation: the step that achieves `effect` needs one of
    /// several effects first, and none of them has been achieved.
    NoneAchieved { effect: Effect },
    /// Chain validation: the step that achieves `effect` needs `missing`
    /// first, which has not been achieved.
    NotAchieved { effect: Effect, missing: Effect },
    /// Chain validation: no step of the chain achieves `effect`, its
    /// declared goal.
    GoalNotAchieved { effect: Effect },
    /// Terrain application: the chain places terrain on node `id`, which
    /// the graph does not have.
    MissingNode { id: NodeId },
}

} // verus!
