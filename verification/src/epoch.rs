//! Reclamation status of an epoch-managed snapshot.
use vstd::prelude::*;

verus! {

/// The state of epoch reclamation.
#[derive(Debug, Clone, Copy, PartialEq, Eq, Structural)]
pub struct ReclamationStatus {
    /// The current epoch number.
    pub current_epoch: u64,
    /// Outstanding references to the current snapshot; 1 means no active readers.
    pub current_ref_count: usize,
}

} // verus!
