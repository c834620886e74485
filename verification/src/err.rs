//! Error raised by checked construction from raw bytes.

use vstd::prelude::*;

verus! {

/// The bytes handed to checked construction are not a valid UTF-8 encoding.
///
/// Carries the byte offset of the first invalid sequence: the bytes before
/// `valid_up_to` decode as well-formed UTF-8, and no well-formed scalar
/// encoding starts at `valid_up_to`. Fully recoverable; construction never
/// takes ownership of broken storage.
#[derive(Debug, Clone, Copy, PartialEq, Eq, Structural)]
pub struct Utf8ValidationError {
    /// Byte offset of the first invalid sequence.
    pub valid_up_to: usize,
}

impl Utf8ValidationError {
    /// Byte offset of the first invalid sequence.
    pub fn valid_up_to(&self) -> (r: usize)
        ensures
            r == self.valid_up_to,
    {
        self.valid_up_to
    }
}

} // verus!
