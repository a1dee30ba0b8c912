//! The ways in which a request to a colony can be refused.

use vstd::prelude::*;

verus! {

/// Why a colony refused a request.
#[derive(Copy, Clone, Debug, PartialEq, Eq, Structural)]
pub enum ColonyError {
    /// The request names a bug that the colony does not have.
    OutOfRange,
    /// A line of input does not hold the numbers it should.
    MalformedInput,
}

} // verus!
