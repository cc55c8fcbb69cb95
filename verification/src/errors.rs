//! Failure kinds of the engine's fallible operations.

use vstd::prelude::*;

verus! {

/// The tagged errors a store operation can return.
#[derive(Clone, Copy, PartialEq, Eq, Structural, Debug)]
pub enum StoreError {
    /// A numeric increment was attempted on a value of another kind.
    TypeMismatch,
    /// A positional list write referenced an index outside the list.
    IndexOutOfRange,
    /// A write would overwrite an existing key while the store is in safe
    /// mode.
    SafeModeViolation,
    /// A stored payload could not be decoded into the requested shape.
    SerializationError,
}

} // verus!
