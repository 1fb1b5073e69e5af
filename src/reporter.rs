//! Append-only log of protocol violations.

use vstd::prelude::*;

use crate::types::StructHash;

verus! {

/// A protocol violation observed in an accepted message.
#[derive(Clone, Copy, Debug, PartialEq, Eq, Structural)]
pub enum ViolationType {
    /// The epoch claimed by `message` differs from the derived one.
    BadEpoch { message: StructHash },
    /// The owner of `message_1` had earlier issued `message_0`, which `message_1` does not
    /// reference through its ancestors.
    ForkAttempt { message_0: StructHash, message_1: StructHash },
    /// The signature of `message` does not match its owner.
    BadSignature { message: StructHash },
}

/// Records violations in the order they are found; entries are never changed.
pub struct MisbehaviourReporter {
    violations: Vec<ViolationType>,
}

impl MisbehaviourReporter {
    /// The violations reported so far, in order.
    pub closed spec fn view(&self) -> Seq<ViolationType> {
        self.violations@
    }

    pub fn new() -> (r: Self)
        ensures
            r@ == Seq::<ViolationType>::empty(),
    {
        MisbehaviourReporter { violations: Vec::new() }
    }

    /// Appends `v` to the log.
    pub fn report(&mut self, v: ViolationType)
        ensures
            final(self)@ == old(self)@.push(v),
    {
        self.violations.push(v);
    }

    /// The violations reported so far, in order.
    pub fn violations(&self) -> (r: &Vec<ViolationType>)
        ensures
            r@ == self@,
    {
        &self.violations
    }
}

} // verus!
