//! A growable, contiguous byte buffer that is guaranteed, at every
//! externally observable point, to hold valid UTF-8 text, bound to a
//! pluggable memory-allocation strategy handle chosen at construction.
//!
//! The crate is organized around one invariant — the stored bytes always
//! decode as well-formed UTF-8 — and the machinery to keep it across
//! mutations that work at character granularity while storage is
//! byte-granular:
//!
//! - [`AllocStrategy`]: the opaque allocation-strategy handle a string is
//!   bound to.
//! - `buffer`: the byte buffer, owning storage and managing capacity growth
//!   and shrink.
//! - [`codec`]: UTF-8 encoding and decoding of single characters, and the
//!   algebra connecting byte sequences to character sequences.
//! - [`translate`]: the boundary translator, mapping character ordinal
//!   indices to byte offsets by scanning lead bytes, and validating raw
//!   bytes.
//! - [`String`]: the string core, the public mutation surface; its
//!   contracts state every operation's effect on the character sequence.
//!
//! An allocation request the underlying service cannot satisfy terminates
//! the process; no partially updated, invalid buffer is ever observable.

use vstd::prelude::*;

mod buffer;
pub mod codec;
mod err;
pub mod order;
mod strategy;
mod string;
pub mod translate;

pub use err::Utf8ValidationError;
pub use strategy::AllocStrategy;
pub use string::String;

verus! {

} // verus!
