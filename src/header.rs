use vstd::prelude::*;

use crate::layout::BLOCK_HEADER_SIZE;

verus! {

/// The header placed immediately before the content of every block. The
/// content address is always the header address plus `BLOCK_HEADER_SIZE`.
pub struct Header;

impl Header {
    /// Address of the header that precedes the content at `address`.
    pub fn from_content_address(address: usize) -> (r: usize)
        requires
            address >= BLOCK_HEADER_SIZE,
        ensures
            r + BLOCK_HEADER_SIZE == address,
    {
        address - BLOCK_HEADER_SIZE
    }

    /// Address of the content that follows the header at `header`.
    pub fn content_address_of(header: usize) -> (r: usize)
        requires
            header + BLOCK_HEADER_SIZE <= usize::MAX,
        ensures
            r == header + BLOCK_HEADER_SIZE,
    {
        header + BLOCK_HEADER_SIZE
    }
}

} // verus!
