//! Errors surfaced while configuring a path.

use vstd::prelude::*;

verus! {

/// Why a path configuration was rejected at build time. Rejection is fatal to
/// the configuration attempt only; the running engine itself never fails.
#[derive(Clone, Copy, Debug, PartialEq, Eq, Structural)]
pub enum ConfigurationError {
    /// The lookahead radius was zero or negative.
    NonPositiveRadius,
    /// The lookahead radius was larger than `COORD_LIMIT`.
    RadiusTooLarge,
    /// Fewer than two waypoints were supplied.
    TooFewPoints,
    /// The first waypoint has no coordinates.
    ZeroDimension,
    /// The waypoints have more than `DIM_LIMIT` coordinates.
    DimensionTooLarge,
    /// Two waypoints have different numbers of coordinates.
    DimensionMismatch,
    /// A coordinate exceeds `COORD_LIMIT` in magnitude.
    CoordinateOutOfRange,
    /// Two adjacent waypoints coincide, so a segment has no direction.
    DegenerateSegment,
}

} // verus!
