//! Pure pursuit path tracking: waypoints, a two-phase path configuration,
//! and the segment-advance engine that computes the lookahead target point.

pub mod dynamic_pursuer;
pub mod errors;
pub mod math;
pub mod path_target_finder;
pub mod pathematics;
pub mod pursuit;
pub mod waypoint;

pub use dynamic_pursuer::{DynamicPathBuilder, DynamicPursuer};
pub use errors::ConfigurationError;
pub use path_target_finder::PathTargetFinder;
pub use pathematics::{path_builder, PathBuilder, Pathematics};
pub use waypoint::Waypoint;
