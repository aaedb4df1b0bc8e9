use vstd::prelude::*;

use crate::layout::BLOCK_HEADER_SIZE;

verus! {

/// One allocation unit inside a region: a header at `address`, followed by
/// `size` bytes of content.
#[derive(Clone, Copy, Debug, PartialEq, Eq, Structural)]
pub struct Block {
    /// Address of the block's header.
    pub address: usize,
    /// Content size in bytes, the header excluded.
    pub size: usize,
    /// Whether the block is free, that is, available to a later request.
    pub free: bool,
}

impl Block {
    /// First address of the block's content.
    pub open spec fn content(self) -> int {
        self.address + BLOCK_HEADER_SIZE
    }

    /// First address after the block's content.
    pub open spec fn end(self) -> int {
        self.address + BLOCK_HEADER_SIZE + self.size
    }
}

} // verus!
