//! BillHash: a small 64-bit hash over byte strings, built from zero padding,
//! fixed-size blocks, a byte-twiddling compression function and a final
//! bitwise complement.
use vstd::prelude::*;

pub mod padding;
pub mod mixing;
pub mod chain;

pub use chain::{bill_hash, compress, finalize};
pub use mixing::{transform, twiddle};
pub use padding::{convert_string_to_u8s, split, strengthen};

verus! {

/// The size, in bytes, of the blocks that the compression function consumes.
pub const BLOCK_SIZE: usize = 8;

/// The initialization vector: the chaining value before the first block.
pub const INITIALIZATION_VECTOR: u64 = 0x0123_4567_89AB_CDEF;

} // verus!
