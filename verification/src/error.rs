//! Typed failures of decoding and traversal.

use vstd::prelude::*;

verus! {

/// Everything that can go wrong while decoding wire bytes or resolving
/// decoded records into values. No failure is retried internally.
#[derive(Clone, Copy, PartialEq, Eq, Structural, Debug)]
pub enum Error {
    /// A message or enum type referenced by a field descriptor is not yet
    /// linked in the descriptor registry.
    UnresolvedType,
    /// A group-encoded field was encountered; groups are not supported.
    UnsupportedWireConstruct,
    /// Malformed wire data: a truncated or overlong varint, an invalid tag,
    /// or a length running past the end of the buffer.
    MalformedInput,
    /// A decoded enum number has no symbolic match in its enum type.
    UnknownEnumValue { value: i32 },
    /// The declared field type cannot satisfy the requested resolution.
    TypeWireMismatch,
}

} // verus!
