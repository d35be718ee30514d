//! The element type of a DMA buffer.

use vstd::prelude::*;

verus! {

/// A word the DMA engine moves in one transfer: a primitive unsigned integer
/// of one, two or four bytes.
pub trait Word: Copy {

}

impl Word for u8 {

}

impl Word for u16 {

}

impl Word for u32 {

}

} // verus!
