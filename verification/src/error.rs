//! The ways in which a request for a block can fail.

use vstd::prelude::*;

verus! {

/// Why a request for a block was refused. Both outcomes are ordinary
/// results that the caller decides about; neither leaves the allocator in
/// a state that needs repair.
#[derive(Clone, Copy, Debug, PartialEq, Eq, Structural)]
pub enum AllocError {
    /// The class that serves the request has handed out all its blocks. A
    /// later request succeeds once a block of that class has been released.
    Exhausted,
    /// The request asks for more bytes than the largest class offers.
    Unsupported,
}

} // verus!
