//! Base85 encoding with the RFC 1924 alphabet.
//!
//! `encode` turns bytes into text and `decode` turns text back into bytes.
//! During decoding, ASCII whitespace (space, tab, carriage return and line
//! feed) is ignored.

pub mod alphabet;
pub mod codec;
pub mod laws;

pub use codec::{decode, encode};

use vstd::prelude::*;

verus! {

/// Why a text could not be decoded.
#[derive(Debug, Clone, Copy, PartialEq, Eq, Structural)]
pub enum Error {
    /// A trailing group holds a single character, which carries no byte.
    UnexpectedEof,
    /// A byte that is neither an alphabet symbol nor whitespace.
    InvalidCharacter(u8),
}

} // verus!
