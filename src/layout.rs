use vstd::arithmetic::div_mod::{lemma_fundamental_div_mod, lemma_mod_multiples_vanish};
use vstd::prelude::*;

verus! {

/// Size of a page handed out by the page provider, in bytes.
pub const PAGE_SIZE: usize = 4096;

/// Every block size and every header address is a multiple of this.
pub const ALIGNMENT: usize = 16;

/// Bytes taken by the header at the start of a region.
pub const REGION_HEADER_SIZE: usize = 48;

/// Bytes taken by the header in front of every block.
pub const BLOCK_HEADER_SIZE: usize = 48;

/// Smallest content size a block may have; a split leaving less is not made.
pub const MIN_BLOCK_SIZE: usize = 16;

/// The smallest multiple of `to` that is at least `x`.
pub open spec fn round_up(x: int, to: int) -> int {
    if x % to == 0 {
        x
    } else {
        x - x % to + to
    }
}

/// Content size of a block that serves a request of `size` bytes.
pub open spec fn block_size(size: int) -> int {
    round_up(if size < MIN_BLOCK_SIZE { MIN_BLOCK_SIZE as int } else { size }, ALIGNMENT as int)
}

/// Length of the region mapped for a block of content size `bsize`.
pub open spec fn region_length(bsize: int) -> int {
    round_up(REGION_HEADER_SIZE + BLOCK_HEADER_SIZE + bsize, PAGE_SIZE as int)
}

/// `round_up(x, to)` is a multiple of `to`, at least `x`, and less than `x + to`.
pub proof fn lemma_round_up(x: int, to: int)
    requires
        to > 0,
        x >= 0,
    ensures
        round_up(x, to) % to == 0,
        x <= round_up(x, to) < x + to,
{
    lemma_fundamental_div_mod(x, to);
    let q = x / to;
    if x % to != 0 {
        assert(x - x % to + to == to * (q + 1) + 0) by (nonlinear_arith)
            requires
                x == to * q + x % to,
        ;
        lemma_mod_multiples_vanish(q + 1, 0, to);
    }
}

/// Rounds `x` up to a multiple of `to`, or `None` where that does not fit in a `usize`.
pub fn align_up(x: usize, to: usize) -> (r: Option<usize>)
    requires
        to > 0,
    ensures
        r matches Some(v) ==> v == round_up(x as int, to as int),
        r is None <==> round_up(x as int, to as int) > usize::MAX,
{
    let rem = x % to;
    if rem == 0 {
        Some(x)
    } else {
        proof {
            assert(rem <= x) by (nonlinear_arith)
                requires
                    rem == x % to,
                    to > 0,
            ;
        }
        let down = x - rem;
        if down > usize::MAX - to {
            None
        } else {
            Some(down + to)
        }
    }
}

/// Content size of the block that serves `size` bytes, or `None` where it does not fit.
pub fn block_size_for(size: usize) -> (r: Option<usize>)
    ensures
        r matches Some(v) ==> v == block_size(size as int),
        r is None <==> block_size(size as int) > usize::MAX,
{
    let at_least = if size < MIN_BLOCK_SIZE { MIN_BLOCK_SIZE } else { size };
    align_up(at_least, ALIGNMENT)
}

/// Length of the region to map for a block of content size `bsize`, or `None`
/// where it does not fit.
pub fn region_length_for(bsize: usize) -> (r: Option<usize>)
    ensures
        r matches Some(v) ==> v == region_length(bsize as int),
        r is None <==> region_length(bsize as int) > usize::MAX,
{
    if bsize > usize::MAX - REGION_HEADER_SIZE - BLOCK_HEADER_SIZE {
        proof {
            assert(region_length(bsize as int) >= REGION_HEADER_SIZE + BLOCK_HEADER_SIZE + bsize)
                by (nonlinear_arith);
        }
        None
    } else {
        align_up(REGION_HEADER_SIZE + BLOCK_HEADER_SIZE + bsize, PAGE_SIZE)
    }
}

} // verus!
