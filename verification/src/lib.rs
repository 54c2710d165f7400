//! GLZ: an LZ77-family, byte-oriented block compressor and decompressor.
//!
//! A block of input is cut into sequences, each a run of literals followed by
//! a match that repeats bytes seen before. [`compress::compress_block`] finds
//! the matches with a hash-chain match finder and writes the sequences as a
//! payload; [`decompress::decode_sequences`] rebuilds the block from a
//! payload. [`format`] says what a payload decodes to, and
//! [`compress::lemma_encoded_round_trip`] that the payload of a block decodes
//! to the block.

pub mod compress;
pub mod constants;
pub mod copy;
pub mod decompress;
pub mod encode_mod;
pub mod format;
pub mod frame;
pub mod hash_chains;
pub mod match_finder;
pub mod sequence;
pub mod utils;
