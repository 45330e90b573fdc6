//! Conversion of the primitive integer types to their canonical decimal
//! text, written into a caller-owned fixed-size buffer with no heap
//! allocation.
//!
//! A [`Buffer`] is a reusable 40-byte scratch region, sized for the longest
//! possible output (the most negative 128-bit value with its sign). Its
//! [`Buffer::format`] method writes the decimal digits of any supported
//! integer back-to-front into the scratch region and returns the occupied
//! range as text.
#![allow(unused_imports)]
use vstd::prelude::*;

pub mod digits;
mod ints;
pub mod laws;
mod sealed;
mod udiv;
mod writer;

use digits::char_text;

verus! {

/// A reusable scratch region for formatting integers to text.
///
/// Large enough for the decimal text of every supported integer type,
/// including a leading sign. Construction is cheap and the buffer may be
/// reused across calls; each call simply overwrites whatever a previous
/// call left behind.
pub struct Buffer {
    bytes: [u8; 40],
}

impl Buffer {
    /// A fresh scratch buffer. The initial contents carry no meaning:
    /// `format` never reads them.
    pub fn new() -> (r: Buffer) {
        Buffer { bytes: [0u8; 40] }
    }

    /// Write the decimal text of `i` into this buffer and return the
    /// written range as a string slice borrowed from the buffer.
    pub fn format<I: Integer>(&mut self, i: I) -> (r: &str)
        ensures
            r@ == char_text(i.as_int()),
    {
        i.write(self)
    }
}

/// An integer that can be written into a [`Buffer`].
///
/// This trait is sealed: the set of supported types is exactly the
/// primitive integer types of 8 through 128 bits plus the pointer-sized
/// aliases, and cannot be extended from outside.
pub trait Integer: sealed::Sealed + Sized {
    /// The mathematical value of this integer.
    spec fn as_int(self) -> int;

    /// Write the decimal text of `self` into `buf` and return it.
    fn write(self, buf: &mut Buffer) -> (r: &str)
        ensures
            r@ == char_text(self.as_int()),
    ;
}

} // verus!
