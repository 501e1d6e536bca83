//! The ways in which a request to a space can fail.

use vstd::prelude::*;

verus! {

/// Why a space refused a request. A refused request leaves the space as it was.
#[derive(Clone, Copy, PartialEq, Eq, Debug, Structural)]
pub enum SpaceError {
    /// A star already stands at the coordinate of the star to insert.
    DuplicateCoordinate,
    /// No star stands where the link should start.
    UnknownOrigin,
    /// No star stands where the link should end.
    UnknownDestination,
    /// No star stands at one of the two coordinates of a distance query.
    UnknownCoordinate,
    /// The journey found between the two stars has no positive cost.
    NoPath,
}

} // verus!
