use vstd::prelude::*;

use crate::handle::Handle;

verus! {

/// The recoverable failures of the store.
#[derive(Debug)]
pub enum RuleError {
    /// The container has no value under this attribute name.
    AttributeNotFound { name: String },
    /// The handle does not resolve to a container of this pool.
    NotFound { handle: Handle },
    /// A container already exists under this handle.
    DuplicateHandle { handle: Handle },
    /// The handle's counter value has not yet been reached by this pool's
    /// counter, so the pool could mint it again later.
    ForeignHandle { handle: Handle },
    /// No index is registered for this attribute name.
    IndexMissing { name: String },
    /// A serialized value carries a type tag that no value type has.
    UnknownDiscriminator { discriminator: String },
    /// A serialized value's payload does not have the shape its tag calls for.
    MalformedPayload { discriminator: String },
}

} // verus!
