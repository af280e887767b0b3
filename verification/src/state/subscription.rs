//! Subscriber identity.

use vstd::prelude::*;

verus! {

/// One subscriber's identity within one target. Opaque.
#[derive(Debug, Clone, Copy, PartialEq, Eq, Hash, Structural)]
pub struct SubscriberId(u64);

impl SubscriberId {
    /// The counter value behind the id.
    pub closed spec fn raw(self) -> u64 {
        self.0
    }

    /// Mints an id from a counter the target owns.
    ///
    /// Ids are unique within one target, never globally.
    pub fn from_raw(raw: u64) -> (id: SubscriberId)
        ensures
            id.raw() == raw,
    {
        SubscriberId(raw)
    }

    /// The counter value behind the id.
    pub fn as_raw(self) -> (raw: u64)
        ensures
            raw == self.raw(),
    {
        self.0
    }
}

/// Two ids are the same exactly when their counters are.
pub proof fn subscriber_identity(a: SubscriberId, b: SubscriberId)
    ensures
        a == b <==> a.raw() == b.raw(),
{
}

/// What a non-tree subscription target must be able to do.
pub trait Unsubscribe: Send + Sync {
    /// Drops one subscriber.
    fn unsubscribe(&self, id: SubscriberId);
}

} // verus!
