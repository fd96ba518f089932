//! Block types and the forward DCT interface.
use vstd::prelude::*;

verus! {

/// An 8x8 block of samples.
pub type BlockU8 = [[u8; 8]; 8];

/// An 8x8 block of coefficients.
pub type BlockI16 = [[i16; 8]; 8];

/// A forward discrete cosine transform of an 8x8 block of samples.
pub trait Dct {
    fn forward_dct(&self, blk: &BlockU8) -> BlockI16;
}

} // verus!
