//! Planar YCbCr images.
use vstd::prelude::*;

verus! {

/// An image as three planes of 8-bit samples in row-major order.
pub struct YCbCrImage {
    pub width: usize,
    pub height: usize,
    pub y: Vec<u8>,
    pub cb: Vec<u8>,
    pub cr: Vec<u8>,
}

impl YCbCrImage {
    /// Each plane holds `width * height` samples.
    pub open spec fn wf(&self) -> bool {
        &&& self.y@.len() == self.width * self.height
        &&& self.cb@.len() == self.width * self.height
        &&& self.cr@.len() == self.width * self.height
    }
}

} // verus!
