//! A validator and the epochs between which it is active.

use vstd::prelude::*;

verus! {

/// A validator, as far as its part in an epoch goes.
///
/// Both epochs start out as the last epoch there is: never activated, never to exit.
#[derive(Debug, PartialEq, Eq, Structural)]
pub struct Validator {
    pub activation_epoch: u64,
    pub exit_epoch: u64,
}

impl Validator {
    /// Whether the validator is active at `epoch`: activated at `epoch` or before it, and
    /// not yet at its exit.
    pub open spec fn active_at(&self, epoch: u64) -> bool {
        self.activation_epoch <= epoch < self.exit_epoch
    }

    /// This predicate indicates if the validator represented by this record is considered
    /// "active" at `epoch`.
    pub fn is_active_at(&self, epoch: u64) -> (active: bool)
        ensures
            active == self.active_at(epoch),
    {
        self.activation_epoch <= epoch && epoch < self.exit_epoch
    }

    /// A validator activated at an epoch and exiting at the next is active at the first and
    /// not at the second.
    pub proof fn lemma_active_from_activation_until_exit(validator: Validator, epoch: u64)
        requires
            epoch < u64::MAX,
            validator.activation_epoch == epoch,
            validator.exit_epoch == epoch + 1,
        ensures
            validator.active_at(epoch),
            !validator.active_at((epoch + 1) as u64),
    {
    }
}

impl Clone for Validator {
    fn clone(&self) -> (copy: Self)
        ensures
            copy == *self,
    {
        Validator { activation_epoch: self.activation_epoch, exit_epoch: self.exit_epoch }
    }
}

impl Default for Validator {
    /// Yields a validator that was never activated.
    fn default() -> (validator: Self)
        ensures
            validator.activation_epoch == u64::MAX,
            validator.exit_epoch == u64::MAX,
    {
        Validator { activation_epoch: u64::MAX, exit_epoch: u64::MAX }
    }
}

} // verus!
