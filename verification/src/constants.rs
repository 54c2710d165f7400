//! Constants of the GLZ format and of the default compression policy.

use vstd::prelude::*;

verus! {

/// Smallest match length that a sequence may carry.
pub const GLZ_MIN_MATCH: usize = 3;

/// Distance from the end of a block at which the match finder stops.
pub const WINDOW_SIZE: usize = 10;

/// Position of the low offset bits in a token.
pub const OFFSET_BIT: u8 = 6;

/// Position of the literal-length field in a token.
pub const LITERAL_BITS: u8 = 0;

/// Position of the match-length field in a token.
pub const ML_BITS: u8 = 3;

/// Default number of chain hops the match finder performs per position.
pub const DEPTH_STRIDE: i32 = 20;

/// Extra bytes callers add to their input and output buffers.
pub const SLOP_BYTES: usize = 65_536;

/// Size of the buffers the command-line tool allocates.
pub const MEM_SIZE: usize = 16_777_216;

/// Largest literal or match length a token holds without an extension.
pub const TOKEN: usize = 7;

/// Largest number of input bytes compressed as one block.
pub const BLOCK_SIZE: usize = 262_144;

} // verus!
