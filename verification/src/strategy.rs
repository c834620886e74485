//! The allocation-strategy handle.
//!
//! A `String` is bound to one strategy handle at construction time. The handle
//! is an opaque capability: it owns no memory itself, it only names the
//! allocation service through which the backing buffer acquires and releases
//! storage. Handles are cheap to clone and have a well-defined default
//! instance (the global allocation service).

use vstd::prelude::*;

verus! {

/// An opaque, cloneable, default-constructible handle to a memory
/// allocation/deallocation service.
///
/// Equality, ordering and hashing of the strings built on top of a strategy
/// are defined purely over text content and are independent of which strategy
/// instance backs either operand.
#[derive(Clone, Copy, Debug, Default, PartialEq, Eq, Structural)]
pub struct AllocStrategy;

} // verus!
