//! The target-finder capability: any path-following strategy a controller
//! can ask for a target point once per tick.

use vstd::prelude::*;

use crate::waypoint::{bounded, Waypoint};

verus! {

/// Trait for structures which take a current position and give back a target
/// position. A controller can depend on this capability without knowing the
/// concrete path-following algorithm behind it.
pub trait PathTargetFinder {
    /// The strategy's path and state are usable.
    spec fn ready(&self) -> bool;

    /// The dimension of the positions the strategy works in.
    spec fn target_dim(&self) -> int;

    /// Gets the target position for the controller from the robot's current
    /// position. The strategy stays usable and keeps its dimension, and the
    /// target has that dimension with bounded coordinates. Each engine's
    /// implementation strengthens this with the engine's own step contract,
    /// so through a concrete engine the call is pinned to its `step`.
    fn get_target_point(&mut self, position: Waypoint) -> (target: Waypoint)
        requires
            old(self).ready(),
            position@.len() == old(self).target_dim(),
            position.bounded_spec(),
        ensures
            final(self).ready(),
            final(self).target_dim() == old(self).target_dim(),
            target@.len() == old(self).target_dim(),
            bounded(target@),
    ;
}

} // verus!
