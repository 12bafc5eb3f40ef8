use vstd::prelude::*;

verus! {

/// An opaque reference to a container inside a pool.
///
/// Handles are minted by a pool's counter, so two handles from one pool are
/// equal exactly when they were minted by the same call.
#[derive(Clone, Copy, PartialEq, Eq, Structural, Hash, Debug)]
pub struct Handle {
    pub(crate) id: u64,
}

impl Handle {
    /// The counter value this handle was minted from.
    pub closed spec fn id(self) -> u64 {
        self.id
    }

    /// A handle with the given counter value.
    pub(crate) fn from_id(id: u64) -> (r: Handle)
        ensures
            r.id() == id,
            r == Handle::from_id_spec(id),
    {
        Handle { id }
    }

    /// The handle with the given counter value.
    pub closed spec fn from_id_spec(id: u64) -> Handle {
        Handle { id }
    }

    /// A handle is the one with its own counter value.
    pub proof fn lemma_from_id_spec(h: Handle)
        ensures
            Handle::from_id_spec(h.id()) == h,
            forall|id: u64| #[trigger] Handle::from_id_spec(id).id() == id,
    {
    }

    /// The counter value this handle was minted from.
    pub(crate) fn raw(&self) -> (r: u64)
        ensures
            r == self.id(),
    {
        self.id
    }
}

/// Two handles are equal exactly when their counter values are.
pub broadcast proof fn lemma_id_determines(a: Handle, b: Handle)
    ensures
        #![trigger a.id(), b.id()]
        a.id() == b.id() <==> a == b,
{
}

} // verus!
