use vstd::prelude::*;

use crate::block::Block;
use crate::layout::{ALIGNMENT, BLOCK_HEADER_SIZE, MIN_BLOCK_SIZE, PAGE_SIZE, REGION_HEADER_SIZE};

verus! {

/// Block `i` ends exactly where block `i + 1` begins.
pub open spec fn linked(blocks: Seq<Block>, i: int) -> bool {
    blocks[i + 1].address == blocks[i].end()
}

/// `blocks` tile the span `[start, end)` in address order, each one aligned.
pub open spec fn tiles(blocks: Seq<Block>, start: int, end: int) -> bool {
    &&& blocks.len() > 0
    &&& blocks[0].address == start
    &&& blocks.last().end() == end
    &&& forall|i: int| 0 <= i < blocks.len() - 1 ==> #[trigger] linked(blocks, i)
    &&& forall|i: int|
        0 <= i < blocks.len() ==> (#[trigger] blocks[i]).address % ALIGNMENT == 0
            && blocks[i].size % ALIGNMENT == 0
}

/// No two neighbouring blocks are both free.
pub open spec fn coalesced(blocks: Seq<Block>) -> bool {
    forall|i: int| 0 <= i < blocks.len() - 1 ==> !((#[trigger] blocks[i]).free && blocks[i + 1].free)
}

/// `blocks` tile `[start, end)` and every free run is a single block.
pub open spec fn blocks_wf(blocks: Seq<Block>, start: int, end: int) -> bool {
    tiles(blocks, start, end) && coalesced(blocks)
}

/// The abstract value of a region.
pub struct RegionView {
    pub address: usize,
    pub length: usize,
    pub blocks: Seq<Block>,
}

/// One span of mapped memory, `length` bytes from `address`, cut into blocks.
pub struct Region {
    pub address: usize,
    pub length: usize,
    pub blocks: Vec<Block>,
}

/// The blocks after block `i` of `blocks` takes `need` bytes: when enough is
/// left over for another block, the rest becomes a free block of its own.
pub open spec fn take_spec(blocks: Seq<Block>, i: int, need: int) -> Seq<Block> {
    let b = blocks[i];
    if b.size >= need + BLOCK_HEADER_SIZE + MIN_BLOCK_SIZE {
        blocks.take(i).push(Block { address: b.address, size: need as usize, free: false }).push(
            Block {
                address: (b.address + BLOCK_HEADER_SIZE + need) as usize,
                size: (b.size - need - BLOCK_HEADER_SIZE) as usize,
                free: true,
            },
        ) + blocks.skip(i + 1)
    } else {
        blocks.update(i, Block { free: false, ..b })
    }
}

/// Block `i` absorbs block `i + 1`.
pub open spec fn merge_next(blocks: Seq<Block>, i: int) -> Seq<Block> {
    blocks.update(
        i,
        Block { size: (blocks[i].size + BLOCK_HEADER_SIZE + blocks[i + 1].size) as usize, ..blocks[i] },
    ).remove(i + 1)
}

/// The blocks after block `i` is freed and merged with a free neighbour on
/// either side.
pub open spec fn free_spec(blocks: Seq<Block>, i: int) -> Seq<Block> {
    let s0 = blocks.update(i, Block { free: true, ..blocks[i] });
    let s1 = if i + 1 < s0.len() && s0[i + 1].free {
        merge_next(s0, i)
    } else {
        s0
    };
    if i > 0 && s1[i - 1].free {
        merge_next(s1, i - 1)
    } else {
        s1
    }
}

proof fn lemma_chain(blocks: Seq<Block>, start: int, end: int, i: int, j: int)
    requires
        tiles(blocks, start, end),
        0 <= i < j < blocks.len(),
    ensures
        blocks[i].end() <= blocks[j].address,
    decreases j - i,
{
    assert(linked(blocks, j - 1));
    if i < j - 1 {
        lemma_chain(blocks, start, end, i, j - 1);
    }
}

/// Every block lies inside `[start, end)`, and blocks come in address order.
pub proof fn lemma_blocks_ordered(blocks: Seq<Block>, start: int, end: int)
    requires
        tiles(blocks, start, end),
    ensures
        forall|i: int, j: int|
            0 <= i < j < blocks.len() ==> (#[trigger] blocks[i]).end() <= (#[trigger] blocks[j]).address,
        forall|i: int| 0 <= i < blocks.len() ==> start <= (#[trigger] blocks[i]).address,
        forall|i: int| 0 <= i < blocks.len() ==> (#[trigger] blocks[i]).end() <= end,
{
    assert forall|i: int, j: int| 0 <= i < j < blocks.len() implies (#[trigger] blocks[i]).end()
        <= (#[trigger] blocks[j]).address by {
        lemma_chain(blocks, start, end, i, j);
    }
    assert forall|i: int| 0 <= i < blocks.len() implies start <= (#[trigger] blocks[i]).address by {
        if i > 0 {
            lemma_chain(blocks, start, end, 0, i);
        }
    }
    assert forall|i: int| 0 <= i < blocks.len() implies (#[trigger] blocks[i]).end() <= end by {
        if i < blocks.len() - 1 {
            lemma_chain(blocks, start, end, i, blocks.len() - 1);
        }
    }
}

/// Sums and differences of multiples of `ALIGNMENT` are multiples of it; so are
/// multiples of `PAGE_SIZE`.
pub proof fn lemma_aligned_sum(a: int, b: int)
    requires
        a % (ALIGNMENT as int) == 0,
        b % (ALIGNMENT as int) == 0,
    ensures
        (a + b) % (ALIGNMENT as int) == 0,
        (a - b) % (ALIGNMENT as int) == 0,
{
    assert((a + b) % 16 == 0 && (a - b) % 16 == 0) by (nonlinear_arith)
        requires
            a % 16 == 0,
            b % 16 == 0,
    ;
}

/// A multiple of `PAGE_SIZE` is a multiple of `ALIGNMENT`.
pub proof fn lemma_page_aligned(a: int)
    requires
        a % (PAGE_SIZE as int) == 0,
    ensures
        a % (ALIGNMENT as int) == 0,
{
    assert(a % 16 == 0) by (nonlinear_arith)
        requires
            a % 4096 == 0,
    ;
}

/// Taking a free block keeps the tiling, the alignment and the coalescing.
pub proof fn lemma_take_wf(blocks: Seq<Block>, start: int, end: int, i: int, need: int)
    requires
        blocks_wf(blocks, start, end),
        end <= usize::MAX,
        0 <= i < blocks.len(),
        blocks[i].free,
        0 <= need <= blocks[i].size,
        need % (ALIGNMENT as int) == 0,
    ensures
        blocks_wf(take_spec(blocks, i, need), start, end),
{
    lemma_blocks_ordered(blocks, start, end);
    let b = blocks[i];
    let nb = take_spec(blocks, i, need);
    if b.size >= need + BLOCK_HEADER_SIZE + MIN_BLOCK_SIZE {
        lemma_aligned_sum(b.address as int, BLOCK_HEADER_SIZE as int);
        lemma_aligned_sum(b.address + BLOCK_HEADER_SIZE, need);
        lemma_aligned_sum(b.size as int, need);
        lemma_aligned_sum(b.size - need, BLOCK_HEADER_SIZE as int);
        assert(nb.len() == blocks.len() + 1);
        assert forall|k: int| 0 <= k < nb.len() - 1 implies #[trigger] linked(nb, k) by {
            if k < i {
                assert(linked(blocks, k));
            } else if k > i {
                assert(linked(blocks, k - 1));
            }
        }
        assert forall|k: int| 0 <= k < nb.len() - 1 implies !((#[trigger] nb[k]).free
            && nb[k + 1].free) by {
            if k > i {
                assert(!(blocks[k - 1].free && blocks[k].free));
            } else if k < i - 1 {
                assert(!(blocks[k].free && blocks[k + 1].free));
            }
        }
        assert forall|k: int| 0 <= k < nb.len() implies (#[trigger] nb[k]).address % ALIGNMENT
            == 0 && nb[k].size % ALIGNMENT == 0 by {
            if k < i {
                assert(blocks[k] == nb[k]);
            } else if k > i + 1 {
                assert(blocks[k - 1] == nb[k]);
            }
        }
        if i == blocks.len() - 1 {
            assert(nb.last() == nb[i + 1]);
        } else {
            assert(nb.last() == blocks.last());
        }
    } else {
        assert forall|k: int| 0 <= k < nb.len() - 1 implies #[trigger] linked(nb, k) by {
            assert(linked(blocks, k));
        }
        assert forall|k: int| 0 <= k < nb.len() - 1 implies !((#[trigger] nb[k]).free
            && nb[k + 1].free) by {
            assert(!(blocks[k].free && blocks[k + 1].free));
        }
        assert forall|k: int| 0 <= k < nb.len() implies (#[trigger] nb[k]).address % ALIGNMENT
            == 0 && nb[k].size % ALIGNMENT == 0 by {
            assert(blocks[k].address == nb[k].address);
        }
    }
}

/// Merging two neighbours keeps the tiling and the alignment.
pub proof fn lemma_merge_tiles(blocks: Seq<Block>, start: int, end: int, i: int)
    requires
        tiles(blocks, start, end),
        end <= usize::MAX,
        0 <= i < blocks.len() - 1,
    ensures
        blocks[i].address + BLOCK_HEADER_SIZE + (blocks[i].size + BLOCK_HEADER_SIZE + blocks[i
            + 1].size) == blocks[i + 1].end(),
        blocks[i + 1].end() <= usize::MAX,
        tiles(merge_next(blocks, i), start, end),
{
    lemma_blocks_ordered(blocks, start, end);
    assert(linked(blocks, i));
    let nb = merge_next(blocks, i);
    lemma_aligned_sum(blocks[i].size as int, BLOCK_HEADER_SIZE as int);
    lemma_aligned_sum(blocks[i].size + BLOCK_HEADER_SIZE, blocks[i + 1].size as int);
    assert forall|k: int| 0 <= k < nb.len() - 1 implies #[trigger] linked(nb, k) by {
        if k < i {
            assert(linked(blocks, k));
        } else {
            assert(linked(blocks, k + 1));
        }
    }
    assert forall|k: int| 0 <= k < nb.len() implies (#[trigger] nb[k]).address % ALIGNMENT == 0
        && nb[k].size % ALIGNMENT == 0 by {
        if k < i {
            assert(blocks[k] == nb[k]);
        } else if k > i {
            assert(blocks[k + 1] == nb[k]);
        }
    }
    if i == blocks.len() - 2 {
        assert(nb.last() == nb[i]);
    } else {
        assert(nb.last() == blocks.last());
    }
}

/// Freeing a used block, with its merges, keeps the region well formed.
pub proof fn lemma_free_wf(blocks: Seq<Block>, start: int, end: int, i: int)
    requires
        blocks_wf(blocks, start, end),
        end <= usize::MAX,
        0 <= i < blocks.len(),
        !blocks[i].free,
    ensures
        blocks_wf(free_spec(blocks, i), start, end),
{
    let s0 = blocks.update(i, Block { free: true, ..blocks[i] });
    assert forall|k: int| 0 <= k < s0.len() - 1 implies #[trigger] linked(s0, k) by {
        assert(linked(blocks, k));
    }
    assert forall|k: int| 0 <= k < s0.len() implies (#[trigger] s0[k]).address % ALIGNMENT == 0
        && s0[k].size % ALIGNMENT == 0 by {
        assert(blocks[k].address == s0[k].address);
    }
    assert(tiles(s0, start, end));
    let s1 = if i + 1 < s0.len() && s0[i + 1].free {
        merge_next(s0, i)
    } else {
        s0
    };
    if i + 1 < s0.len() && s0[i + 1].free {
        lemma_merge_tiles(s0, start, end, i);
    }
    assert(tiles(s1, start, end));
    assert(s1[i].free);
    assert forall|k: int| 0 <= k < s1.len() - 1 && k != i - 1 implies !((#[trigger] s1[k]).free
        && s1[k + 1].free) by {
        if i + 1 < s0.len() && s0[i + 1].free {
            if k < i - 1 {
                assert(!(blocks[k].free && blocks[k + 1].free));
            } else if k == i {
                assert(!(blocks[i + 1].free && blocks[i + 2].free));
            } else if k > i {
                assert(!(blocks[k + 1].free && blocks[k + 2].free));
            }
        } else {
            if k != i {
                assert(!(blocks[k].free && blocks[k + 1].free));
            }
        }
    }
    let s2 = free_spec(blocks, i);
    if i > 0 && s1[i - 1].free {
        lemma_merge_tiles(s1, start, end, i - 1);
        assert(s2 == merge_next(s1, i - 1));
        assert forall|k: int| 0 <= k < s2.len() - 1 implies !((#[trigger] s2[k]).free
            && s2[k + 1].free) by {
            if k < i - 1 {
                assert(!(s1[k].free && s1[k + 1].free));
            } else {
                assert(!(s1[k + 1].free && s1[k + 2].free));
            }
        }
    } else {
        assert(s2 == s1);
    }
}

/// Taking a free block and freeing it again gives back the blocks as they
/// were.
pub proof fn lemma_take_free(blocks: Seq<Block>, start: int, end: int, i: int, need: int)
    requires
        blocks_wf(blocks, start, end),
        0 <= i < blocks.len(),
        blocks[i].free,
        0 <= need <= blocks[i].size,
    ensures
        !take_spec(blocks, i, need)[i].free,
        take_spec(blocks, i, need)[i].address == blocks[i].address,
        free_spec(take_spec(blocks, i, need), i) == blocks,
{
    let t = take_spec(blocks, i, need);
    let f = free_spec(t, i);
    if i > 0 {
        assert(!(blocks[i - 1].free && blocks[i].free));
    }
    if i + 1 < blocks.len() {
        assert(!(blocks[i].free && blocks[i + 1].free));
    }
    assert(f =~= blocks);
}

/// Freeing a block leaves its region unused exactly when every other block
/// of it was free already.
pub proof fn lemma_free_unused(blocks: Seq<Block>, start: int, end: int, i: int)
    requires
        blocks_wf(blocks, start, end),
        0 <= i < blocks.len(),
        !blocks[i].free,
    ensures
        ({
            let f = free_spec(blocks, i);
            f.len() == 1 && f[0].free
        }) <==> (forall|k: int| 0 <= k < blocks.len() && k != i ==> #[trigger] blocks[k].free),
{
    let f = free_spec(blocks, i);
    if forall|k: int| 0 <= k < blocks.len() && k != i ==> #[trigger] blocks[k].free {
        if blocks.len() > 3 || (blocks.len() == 3 && i != 1) {
            let k = if i >= 2 { 0 } else { i + 1 };
            assert(blocks[k].free && blocks[k + 1].free);
        }
    } else {
        let k = choose|k: int| 0 <= k < blocks.len() && k != i && !#[trigger] blocks[k].free;
        assert(!blocks[k].free);
        if f.len() == 1 {
            assert(blocks.len() <= 3);
            if k == i + 1 {
                assert(f.len() >= 2);
            } else if k == i - 1 {
                assert(f.len() >= 2);
            } else if k > i {
                assert(f.len() >= 2);
            } else {
                assert(f.len() >= 2);
            }
        }
    }
}

impl View for Region {
    type V = RegionView;

    open spec fn view(&self) -> RegionView {
        RegionView { address: self.address, length: self.length, blocks: self.blocks@ }
    }
}

impl RegionView {
    /// Address of the first block's header.
    pub open spec fn start(self) -> int {
        self.address + REGION_HEADER_SIZE
    }

    /// First address after the region.
    pub open spec fn end(self) -> int {
        self.address + self.length
    }

    /// A page-aligned span inside the address space, tiled by its blocks
    /// after the region header.
    pub open spec fn wf(self) -> bool {
        &&& self.address % PAGE_SIZE == 0
        &&& self.length % PAGE_SIZE == 0
        &&& self.address + self.length <= usize::MAX
        &&& blocks_wf(self.blocks, self.start(), self.end())
    }

    /// The region is one free block: nothing in it is in use.
    pub open spec fn is_unused(self) -> bool {
        self.blocks.len() == 1 && self.blocks[0].free
    }
}

impl Region {
    /// A region over `length` mapped bytes at `address`, holding one free block.
    pub fn new(address: usize, length: usize) -> (r: Region)
        requires
            address % PAGE_SIZE == 0,
            length % PAGE_SIZE == 0,
            length >= REGION_HEADER_SIZE + BLOCK_HEADER_SIZE,
            address + length <= usize::MAX,
        ensures
            r@.wf(),
            r@.address == address,
            r@.length == length,
            r@.blocks == seq![
                Block {
                    address: (address + REGION_HEADER_SIZE) as usize,
                    size: (length - REGION_HEADER_SIZE - BLOCK_HEADER_SIZE) as usize,
                    free: true,
                },
            ],
    {
        let block = Block {
            address: address + REGION_HEADER_SIZE,
            size: length - REGION_HEADER_SIZE - BLOCK_HEADER_SIZE,
            free: true,
        };
        proof {
            lemma_page_aligned(address as int);
            lemma_page_aligned(length as int);
            lemma_aligned_sum(address as int, REGION_HEADER_SIZE as int);
            lemma_aligned_sum(length as int, (REGION_HEADER_SIZE + BLOCK_HEADER_SIZE) as int);
        }
        let mut blocks: Vec<Block> = Vec::new();
        blocks.push(block);
        let r = Region { address, length, blocks };
        assert(r@.blocks =~= seq![block]);
        r
    }

    /// Hands out free block `i` for `need` bytes; what is left over becomes a
    /// free block of its own when it can hold a header and a minimal block.
    pub fn take(&mut self, i: usize, need: usize)
        requires
            old(self)@.wf(),
            i < old(self)@.blocks.len(),
            old(self)@.blocks[i as int].free,
            need <= old(self)@.blocks[i as int].size,
            need % ALIGNMENT == 0,
        ensures
            final(self)@.wf(),
            final(self)@.address == old(self)@.address,
            final(self)@.length == old(self)@.length,
            final(self)@.blocks == take_spec(old(self)@.blocks, i as int, need as int),
    {
        let ghost old_blocks = self.blocks@;
        proof {
            lemma_blocks_ordered(self.blocks@, self@.start(), self@.end());
            lemma_take_wf(self.blocks@, self@.start(), self@.end(), i as int, need as int);
        }
        let b = self.blocks[i];
        if b.size >= need + BLOCK_HEADER_SIZE + MIN_BLOCK_SIZE {
            let used = Block { address: b.address, size: need, free: false };
            let rest = Block {
                address: b.address + BLOCK_HEADER_SIZE + need,
                size: b.size - need - BLOCK_HEADER_SIZE,
                free: true,
            };
            self.blocks.set(i, used);
            assert(self.blocks.len() == old_blocks.len());
            self.blocks.insert(i + 1, rest);
            assert(self.blocks@ =~= take_spec(old_blocks, i as int, need as int));
        } else {
            self.blocks.set(i, Block { free: false, ..b });
            assert(self.blocks@ =~= take_spec(old_blocks, i as int, need as int));
        }
    }

    /// Frees used block `i` and merges it with a free neighbour on either side.
    pub fn release_block(&mut self, i: usize)
        requires
            old(self)@.wf(),
            i < old(self)@.blocks.len(),
            !old(self)@.blocks[i as int].free,
        ensures
            final(self)@.wf(),
            final(self)@.address == old(self)@.address,
            final(self)@.length == old(self)@.length,
            final(self)@.blocks == free_spec(old(self)@.blocks, i as int),
    {
        let ghost old_blocks = self.blocks@;
        proof {
            lemma_free_wf(old_blocks, self@.start(), self@.end(), i as int);
        }
        let b = self.blocks[i];
        self.blocks.set(i, Block { free: true, ..b });
        let ghost s0 = self.blocks@;
        assert(self.blocks.len() == old_blocks.len());
        proof {
            assert forall|k: int| 0 <= k < s0.len() - 1 implies #[trigger] linked(s0, k) by {
                assert(linked(old_blocks, k));
            }
            assert forall|k: int| 0 <= k < s0.len() implies (#[trigger] s0[k]).address % ALIGNMENT
                == 0 && s0[k].size % ALIGNMENT == 0 by {
                assert(old_blocks[k].address == s0[k].address);
            }
        }
        if i + 1 < self.blocks.len() && self.blocks[i + 1].free {
            proof {
                lemma_merge_tiles(s0, self@.start(), self@.end(), i as int);
            }
            let next = self.blocks[i + 1];
            self.blocks.set(i, Block { address: b.address, size: b.size + BLOCK_HEADER_SIZE + next.size, free: true });
            self.blocks.remove(i + 1);
            assert(self.blocks@ =~= merge_next(s0, i as int));
        }
        let ghost s1 = self.blocks@;
        assert(tiles(s1, self@.start(), self@.end()));
        if i > 0 && self.blocks[i - 1].free {
            proof {
                lemma_merge_tiles(s1, self@.start(), self@.end(), i - 1);
            }
            let prev = self.blocks[i - 1];
            let cur = self.blocks[i];
            self.blocks.set(i - 1, Block { address: prev.address, size: prev.size + BLOCK_HEADER_SIZE + cur.size, free: true });
            self.blocks.remove(i);
            assert(self.blocks@ =~= merge_next(s1, i - 1));
        }
        assert(self.blocks@ =~= free_spec(old_blocks, i as int));
    }
}





} // verus!
