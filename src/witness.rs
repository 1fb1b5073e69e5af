//! The witness schedule that the DAG consults to derive epochs.

use std::collections::HashSet;
use vstd::prelude::*;

use crate::types::UID;

verus! {

/// Answers which participants witness each epoch.
///
/// Implementations should be deterministic: every honest participant has to derive the
/// same epochs from the same messages.
pub trait WitnessSelector {
    /// The witnesses of `epoch`.
    fn epoch_witnesses(&self, epoch: u64) -> &HashSet<UID>;

    /// The leader of `epoch`, conventionally its least witness.
    fn epoch_leader(&self, epoch: u64) -> UID;

    /// A pseudo-random witness of `epoch`.
    fn random_witness(&self, epoch: u64) -> UID;
}

} // verus!
