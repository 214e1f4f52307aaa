//! The state of one secret sharing instance as seen by an observer.

use vstd::prelude::*;

verus! {

/// The possible states of a VSS instance.
#[derive(Clone, Debug)]
pub enum VSSState<Affine> {
    /// The instance is still sharing; `weight_ready` is the combined weight
    /// of the participants that have signalled Ready so far.
    Sharing { weight_ready: u32 },
    /// The instance completed with the commitment to the shared secret.
    Success { final_secret: Affine },
    /// The instance ended in failure.
    Failure,
}

} // verus!
