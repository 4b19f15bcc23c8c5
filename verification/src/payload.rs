use vstd::prelude::*;

verus! {

use crate::message::Message;

/// A payload that can absorb another payload addressed to the same
/// destination, so several pending updates coalesce into one message. The
/// combined value is stated against the payload's view.
pub trait MergePayload: View + Sized {
    /// The view of the value after merging `other` into `self`.
    spec fn merged_view(self, other: Self) -> Self::V;

    /// Merge `other` into `self` in place.
    fn merge_from(&mut self, other: Self)
        ensures
            final(self)@ == (*old(self)).merged_view(other),
    ;
}

/// A payload that can produce a copy of itself with the same view, so a
/// queued message can be re-emitted while the queue keeps the original.
pub trait DuplicatePayload: View + Sized {
    /// A copy with the same view.
    fn duplicate(&self) -> (r: Self)
        ensures
            r@ == self@,
    ;
}

impl<P: DuplicatePayload> Message<P> {
    /// A copy of the whole message: the same header, and a payload with the
    /// same view.
    pub fn duplicate(&self) -> (r: Message<P>)
        ensures
            r.header == self.header,
            r.payload@ == self.payload@,
    {
        Message { header: self.header, payload: self.payload.duplicate() }
    }
}

} // verus!
