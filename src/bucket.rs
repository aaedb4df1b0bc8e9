use vstd::prelude::*;

use crate::block::Block;
use crate::header::Header;
use crate::layout::{
    block_size, block_size_for, lemma_round_up, ALIGNMENT, BLOCK_HEADER_SIZE, PAGE_SIZE, REGION_HEADER_SIZE,
};
use crate::region::{
    free_spec, lemma_blocks_ordered, lemma_free_unused, lemma_free_wf, lemma_take_free, lemma_take_wf,
    take_spec, Region, RegionView,
};

verus! {

/// Free block `b` can serve a request that needs `need` content bytes.
pub open spec fn fits(b: Block, need: int) -> bool {
    b.free && b.size >= need
}

/// Block `bi` of region `ri` exists.
pub open spec fn valid_index(regions: Seq<RegionView>, ri: int, bi: int) -> bool {
    0 <= ri < regions.len() && 0 <= bi < regions[ri].blocks.len()
}

/// Block `bi` of region `ri` is the first, in region order and then address
/// order, that can serve `need` bytes.
pub open spec fn is_first_fit(regions: Seq<RegionView>, need: int, ri: int, bi: int) -> bool {
    &&& valid_index(regions, ri, bi)
    &&& fits(regions[ri].blocks[bi], need)
    &&& forall|rj: int, bj: int|
        valid_index(regions, rj, bj) && (rj < ri || (rj == ri && bj < bi)) ==> !fits(
            #[trigger] regions[rj].blocks[bj],
            need,
        )
}

/// Some block of `regions` can serve `need` bytes.
pub open spec fn has_fit(regions: Seq<RegionView>, need: int) -> bool {
    exists|ri: int, bi: int| valid_index(regions, ri, bi) && fits(#[trigger] regions[ri].blocks[bi], need)
}

/// Block `bi` of region `ri` is in use and its content starts at `address`.
pub open spec fn holds_used(regions: Seq<RegionView>, ri: int, bi: int, address: int) -> bool {
    &&& valid_index(regions, ri, bi)
    &&& !regions[ri].blocks[bi].free
    &&& regions[ri].blocks[bi].content() == address
}

/// The two regions share no address.
pub open spec fn disjoint(a: RegionView, b: RegionView) -> bool {
    a.end() <= b.address || b.end() <= a.address
}

/// Every region is well formed and holds a block in use, and no two overlap.
pub open spec fn regions_wf(regions: Seq<RegionView>) -> bool {
    &&& forall|i: int| 0 <= i < regions.len() ==> (#[trigger] regions[i]).wf() && !regions[i].is_unused()
    &&& forall|i: int, j: int|
        0 <= i < regions.len() && 0 <= j < regions.len() && i != j ==> disjoint(
            #[trigger] regions[i],
            #[trigger] regions[j],
        )
}

/// The regions after block `bi` of region `ri` takes `need` bytes.
pub open spec fn alloc_spec(regions: Seq<RegionView>, ri: int, bi: int, need: int) -> Seq<RegionView> {
    regions.update(ri, RegionView { blocks: take_spec(regions[ri].blocks, bi, need), ..regions[ri] })
}

/// The regions after block `bi` of region `ri` is freed: the region goes when
/// nothing in it is left in use.
pub open spec fn dealloc_spec(regions: Seq<RegionView>, ri: int, bi: int) -> Seq<RegionView> {
    let r = RegionView { blocks: free_spec(regions[ri].blocks, bi), ..regions[ri] };
    if r.is_unused() {
        regions.remove(ri)
    } else {
        regions.update(ri, r)
    }
}

/// What freeing block `bi` of region `ri` hands back to the page provider.
pub open spec fn released(regions: Seq<RegionView>, ri: int, bi: int) -> Option<(usize, usize)> {
    let r = RegionView { blocks: free_spec(regions[ri].blocks, bi), ..regions[ri] };
    if r.is_unused() {
        Some((regions[ri].address, regions[ri].length))
    } else {
        None
    }
}

/// The region that a fresh mapping of `length` bytes at `address` starts as.
pub open spec fn fresh_region(address: usize, length: usize) -> RegionView {
    RegionView {
        address,
        length,
        blocks: seq![
            Block {
                address: (address + REGION_HEADER_SIZE) as usize,
                size: (length - REGION_HEADER_SIZE - BLOCK_HEADER_SIZE) as usize,
                free: true,
            },
        ],
    }
}

/// A mapping of `length` bytes at `address` can become a region of `regions`
/// that serves `need` bytes.
pub open spec fn can_add(regions: Seq<RegionView>, address: usize, length: usize, need: int) -> bool {
    &&& address % PAGE_SIZE == 0
    &&& length % PAGE_SIZE == 0
    &&& address + length <= usize::MAX
    &&& length >= REGION_HEADER_SIZE + BLOCK_HEADER_SIZE + need
    &&& forall|i: int| 0 <= i < regions.len() ==> disjoint(#[trigger] regions[i], fresh_region(address, length))
}

/// Two blocks in use with the same content address are the same block.
pub proof fn lemma_unique_content(regions: Seq<RegionView>, ri: int, bi: int, rj: int, bj: int, address: int)
    requires
        regions_wf(regions),
        holds_used(regions, ri, bi, address),
        holds_used(regions, rj, bj, address),
    ensures
        ri == rj && bi == bj,
{
    let a = regions[ri];
    let b = regions[rj];
    lemma_blocks_ordered(a.blocks, a.start(), a.end());
    lemma_blocks_ordered(b.blocks, b.start(), b.end());
    if ri != rj {
        assert(disjoint(regions[ri], regions[rj]));
    }
    if ri == rj && bi < bj {
        assert(a.blocks[bi].end() <= a.blocks[bj].address);
    }
    if ri == rj && bj < bi {
        assert(a.blocks[bj].end() <= a.blocks[bi].address);
    }
}

/// Serving a request from a free block and then freeing what was handed
/// out gives back the regions as they were.
pub proof fn lemma_allocate_deallocate(regions: Seq<RegionView>, ri: int, bi: int, need: int)
    requires
        regions_wf(regions),
        valid_index(regions, ri, bi),
        fits(regions[ri].blocks[bi], need),
        need >= 0,
    ensures
        holds_used(alloc_spec(regions, ri, bi, need), ri, bi, regions[ri].blocks[bi].content()),
        dealloc_spec(alloc_spec(regions, ri, bi, need), ri, bi) == regions,
        released(alloc_spec(regions, ri, bi, need), ri, bi) is None,
{
    let r = regions[ri];
    lemma_take_free(r.blocks, r.start(), r.end(), bi, need);
    let a = alloc_spec(regions, ri, bi, need);
    assert(a[ri].blocks == take_spec(r.blocks, bi, need));
    let back = RegionView { blocks: free_spec(a[ri].blocks, bi), ..a[ri] };
    assert(back == r);
    assert(regions.update(ri, back) =~= regions);
}

/// Serving a request from a fresh region and then freeing what was handed
/// out gives back the regions as they were: the region is released.
pub proof fn lemma_new_region_deallocate(regions: Seq<RegionView>, address: usize, length: usize, need: int)
    requires
        regions_wf(regions),
        can_add(regions, address, length, need),
        need >= 0,
    ensures
        holds_used(
            alloc_spec(regions.push(fresh_region(address, length)), regions.len() as int, 0, need),
            regions.len() as int,
            0,
            address + REGION_HEADER_SIZE + BLOCK_HEADER_SIZE,
        ),
        dealloc_spec(
            alloc_spec(regions.push(fresh_region(address, length)), regions.len() as int, 0, need),
            regions.len() as int,
            0,
        ) == regions,
        released(
            alloc_spec(regions.push(fresh_region(address, length)), regions.len() as int, 0, need),
            regions.len() as int,
            0,
        ) == Some((address, length)),
{
    let n = regions.len() as int;
    let p = regions.push(fresh_region(address, length));
    let fr = fresh_region(address, length);
    let a = alloc_spec(p, n, 0, need);
    assert(take_spec(fr.blocks, 0, need).len() <= 2);
    let f = free_spec(a[n].blocks, 0);
    assert(f =~= fr.blocks);
    assert(a.remove(n) =~= regions);
}

/// Freeing a block in use releases its region exactly when no other block
/// of that region is in use; otherwise the region stays.
pub proof fn lemma_last_free_releases(regions: Seq<RegionView>, ri: int, bi: int)
    requires
        regions_wf(regions),
        valid_index(regions, ri, bi),
        !regions[ri].blocks[bi].free,
    ensures
        released(regions, ri, bi) is Some <==> (forall|k: int|
            0 <= k < regions[ri].blocks.len() && k != bi ==> #[trigger] regions[ri].blocks[k].free),
        released(regions, ri, bi) is Some ==> dealloc_spec(regions, ri, bi) == regions.remove(ri),
        released(regions, ri, bi) is None ==> dealloc_spec(regions, ri, bi).len() == regions.len(),
{
    let r = regions[ri];
    lemma_free_unused(r.blocks, r.start(), r.end(), bi);
}

/// All the memory of one size class: a list of regions, each cut into blocks.
pub struct Bucket {
    pub regions: Vec<Region>,
}

impl View for Bucket {
    type V = Seq<RegionView>;

    open spec fn view(&self) -> Seq<RegionView> {
        self.regions@.map_values(|r: Region| r@)
    }
}

impl Bucket {
    /// See `regions_wf`.
    pub open spec fn wf(&self) -> bool {
        regions_wf(self@)
    }

    /// A bucket with no region.
    pub fn new() -> (r: Bucket)
        ensures
            r.wf(),
            r@ == Seq::<RegionView>::empty(),
    {
        let r = Bucket { regions: Vec::new() };
        assert(r@ =~= Seq::<RegionView>::empty());
        r
    }

    /// Number of regions the bucket holds.
    pub fn region_count(&self) -> (r: usize)
        ensures
            r == self@.len(),
    {
        self.regions.len()
    }

    /// First fit: the first free block, in region order and then address
    /// order, with room for `need` bytes.
    pub fn find_fit(&self, need: usize) -> (r: Option<(usize, usize)>)
        ensures
            r matches Some((ri, bi)) ==> is_first_fit(self@, need as int, ri as int, bi as int),
            r is None ==> !has_fit(self@, need as int),
    {
        let mut ri: usize = 0;
        while ri < self.regions.len()
            invariant
                ri <= self.regions.len(),
                forall|rj: int, bj: int|
                    valid_index(self@, rj, bj) && rj < ri ==> !fits(#[trigger] self@[rj].blocks[bj], need as int),
            decreases self.regions.len() - ri,
        {
            let blocks = &self.regions[ri].blocks;
            let mut bi: usize = 0;
            while bi < blocks.len()
                invariant
                    ri < self.regions.len(),
                    blocks@ == self@[ri as int].blocks,
                    bi <= blocks.len(),
                    forall|rj: int, bj: int|
                        valid_index(self@, rj, bj) && (rj < ri || (rj == ri && bj < bi)) ==> !fits(
                            #[trigger] self@[rj].blocks[bj],
                            need as int,
                        ),
                decreases blocks.len() - bi,
            {
                let b = blocks[bi];
                if b.free && b.size >= need {
                    return Some((ri, bi));
                }
                bi += 1;
            }
            ri += 1;
        }
        None
    }

    /// The block in use whose header is at `header`, if there is one.
    fn find_used(&self, header: usize) -> (r: Option<(usize, usize)>)
        ensures
            r matches Some((ri, bi)) ==> holds_used(self@, ri as int, bi as int, header + BLOCK_HEADER_SIZE),
            r is None ==> forall|ri: int, bi: int| !#[trigger] holds_used(self@, ri, bi, header + BLOCK_HEADER_SIZE),
    {
        let mut ri: usize = 0;
        while ri < self.regions.len()
            invariant
                ri <= self.regions.len(),
                forall|rj: int, bj: int|
                    rj < ri ==> !#[trigger] holds_used(self@, rj, bj, header + BLOCK_HEADER_SIZE),
            decreases self.regions.len() - ri,
        {
            let blocks = &self.regions[ri].blocks;
            let mut bi: usize = 0;
            while bi < blocks.len()
                invariant
                    ri < self.regions.len(),
                    blocks@ == self@[ri as int].blocks,
                    bi <= blocks.len(),
                    forall|rj: int, bj: int|
                        (rj < ri || (rj == ri && bj < bi)) ==> !#[trigger] holds_used(self@, rj, bj, header + BLOCK_HEADER_SIZE),
                decreases blocks.len() - bi,
            {
                let b = blocks[bi];
                if b.address == header && !b.free {
                    return Some((ri, bi));
                }
                bi += 1;
            }
            ri += 1;
        }
        None
    }

    /// Serves `size` bytes from the first free block with room for them, or
    /// returns `None`, and changes nothing, where no free block has room: a
    /// new region is then needed.
    pub fn allocate(&mut self, size: usize) -> (r: Option<usize>)
        requires
            old(self).wf(),
        ensures
            final(self).wf(),
            r is Some <==> block_size(size as int) <= usize::MAX && has_fit(
                old(self)@,
                block_size(size as int),
            ),
            r is None ==> final(self)@ == old(self)@,
            r matches Some(a) ==> a % ALIGNMENT == 0,
            r matches Some(a) ==> exists|ri: int, bi: int|
                is_first_fit(old(self)@, block_size(size as int), ri, bi) && a == old(
                    self,
                )@[ri].blocks[bi].content() && final(self)@ == alloc_spec(
                    old(self)@,
                    ri,
                    bi,
                    block_size(size as int),
                ),
    {
        let need = match block_size_for(size) {
            Some(n) => n,
            None => return None,
        };
        match self.find_fit(need) {
            None => None,
            Some((ri, bi)) => {
                let ghost old_view = self@;
                proof {
                    lemma_round_up(
                        if size < crate::layout::MIN_BLOCK_SIZE { crate::layout::MIN_BLOCK_SIZE as int } else { size as int },
                        ALIGNMENT as int,
                    );
                    let rv = old_view[ri as int];
                    lemma_blocks_ordered(rv.blocks, rv.start(), rv.end());
                    assert(rv.wf());
                    assert(rv.blocks[bi as int].address % ALIGNMENT == 0);
                    crate::region::lemma_aligned_sum(rv.blocks[bi as int].address as int, BLOCK_HEADER_SIZE as int);
                    lemma_take_wf(rv.blocks, rv.start(), rv.end(), bi as int, need as int);
                }
                let mut region = self.regions.remove(ri);
                let address = Header::content_address_of(region.blocks[bi].address);
                region.take(bi, need);
                self.regions.insert(ri, region);
                proof {
                    let nv = alloc_spec(old_view, ri as int, bi as int, need as int);
                    assert(self@ =~= nv);
                    assert(!nv[ri as int].blocks[bi as int].free);
                    assert forall|i: int| 0 <= i < nv.len() implies (#[trigger] nv[i]).wf()
                        && !nv[i].is_unused() by {
                        if i != ri {
                            assert(nv[i] == old_view[i]);
                        }
                    }
                    assert forall|i: int, j: int|
                        0 <= i < nv.len() && 0 <= j < nv.len() && i != j implies disjoint(
                        #[trigger] nv[i],
                        #[trigger] nv[j],
                    ) by {
                        assert(disjoint(old_view[i], old_view[j]));
                    }
                }
                Some(address)
            },
        }
    }

    /// Whether the span of `length` bytes at `address` meets a region of the bucket.
    pub fn overlaps(&self, address: usize, length: usize) -> (r: bool)
        requires
            self.wf(),
            address + length <= usize::MAX,
        ensures
            !r <==> forall|i: int| 0 <= i < self@.len() ==> disjoint(#[trigger] self@[i], fresh_region(address, length)),
    {
        let mut i: usize = 0;
        while i < self.regions.len()
            invariant
                i <= self.regions.len(),
                self.wf(),
                address + length <= usize::MAX,
                forall|k: int| 0 <= k < i ==> disjoint(#[trigger] self@[k], fresh_region(address, length)),
            decreases self.regions.len() - i,
        {
            let r = &self.regions[i];
            assert(self@[i as int].wf());
            if !(r.address + r.length <= address || address + length <= r.address) {
                assert(!disjoint(self@[i as int], fresh_region(address, length)));
                return true;
            }
            i += 1;
        }
        false
    }

    /// Turns a fresh mapping of `length` bytes at `address` into a new last
    /// region and serves `size` bytes from its start.
    pub fn allocate_in_new_region(&mut self, size: usize, address: usize, length: usize) -> (r: usize)
        requires
            old(self).wf(),
            block_size(size as int) <= usize::MAX,
            can_add(old(self)@, address, length, block_size(size as int)),
        ensures
            final(self).wf(),
            r == address + REGION_HEADER_SIZE + BLOCK_HEADER_SIZE,
            r % ALIGNMENT == 0,
            final(self)@ == alloc_spec(
                old(self)@.push(fresh_region(address, length)),
                old(self)@.len() as int,
                0,
                block_size(size as int),
            ),
    {
        let need = block_size_for(size).unwrap();
        let ghost old_view = self@;
        proof {
            lemma_round_up(
                if size < crate::layout::MIN_BLOCK_SIZE { crate::layout::MIN_BLOCK_SIZE as int } else { size as int },
                ALIGNMENT as int,
            );
        }
        let mut region = Region::new(address, length);
        proof {
            crate::region::lemma_page_aligned(address as int);
            crate::region::lemma_aligned_sum(address as int, (REGION_HEADER_SIZE + BLOCK_HEADER_SIZE) as int);
        }
        proof {
            lemma_take_wf(region@.blocks, region@.start(), region@.end(), 0, need as int);
        }
        region.take(0, need);
        self.regions.push(region);
        proof {
            let pv = old_view.push(fresh_region(address, length));
            let nv = alloc_spec(pv, old_view.len() as int, 0, need as int);
            assert(self@ =~= nv);
            assert(!nv[old_view.len() as int].blocks[0].free);
            assert forall|i: int| 0 <= i < nv.len() implies (#[trigger] nv[i]).wf()
                && !nv[i].is_unused() by {
                if i != old_view.len() {
                    assert(nv[i] == old_view[i]);
                }
            }
            assert forall|i: int, j: int|
                0 <= i < nv.len() && 0 <= j < nv.len() && i != j implies disjoint(
                #[trigger] nv[i],
                #[trigger] nv[j],
            ) by {
                if i < old_view.len() && j < old_view.len() {
                    assert(disjoint(old_view[i], old_view[j]));
                } else if i < old_view.len() {
                    assert(disjoint(old_view[i], fresh_region(address, length)));
                } else {
                    assert(disjoint(old_view[j], fresh_region(address, length)));
                }
            }
        }
        address + REGION_HEADER_SIZE + BLOCK_HEADER_SIZE
    }

    /// Frees the block in use whose content starts at `address` and merges it
    /// with its free neighbours. When nothing in its region is left in use,
    /// the region leaves the bucket and its address and length are returned,
    /// to be unmapped. An address that no block in use has changes nothing.
    pub fn deallocate(&mut self, address: usize) -> (r: Option<(usize, usize)>)
        requires
            old(self).wf(),
        ensures
            final(self).wf(),
            (forall|ri: int, bi: int| !#[trigger] holds_used(old(self)@, ri, bi, address as int))
                ==> r is None && final(self)@ == old(self)@,
            forall|ri: int, bi: int|
                #[trigger] holds_used(old(self)@, ri, bi, address as int) ==> final(self)@
                    == dealloc_spec(old(self)@, ri, bi) && r == released(old(self)@, ri, bi),
    {
        if address < BLOCK_HEADER_SIZE {
            assert forall|ri: int, bi: int| !#[trigger] holds_used(self@, ri, bi, address as int) by {
                if valid_index(self@, ri, bi) {
                    assert(self@[ri].blocks[bi].content() >= BLOCK_HEADER_SIZE);
                }
            }
            return None;
        }
        let header = Header::from_content_address(address);
        match self.find_used(header) {
            None => None,
            Some((ri, bi)) => {
                let ghost old_view = self@;
                proof {
                    assert forall|rj: int, bj: int| #[trigger] holds_used(old_view, rj, bj, address as int)
                        implies rj == ri && bj == bi by {
                        lemma_unique_content(old_view, ri as int, bi as int, rj, bj, address as int);
                    }
                    let rv = old_view[ri as int];
                    lemma_free_wf(rv.blocks, rv.start(), rv.end(), bi as int);
                }
                let mut region = self.regions.remove(ri);
                region.release_block(bi);
                if region.blocks.len() == 1 && region.blocks[0].free {
                    proof {
                        let nv = dealloc_spec(old_view, ri as int, bi as int);
                        assert(self@ =~= nv);
                        assert forall|i: int| 0 <= i < nv.len() implies (#[trigger] nv[i]).wf()
                            && !nv[i].is_unused() by {
                            if i < ri {
                                assert(nv[i] == old_view[i]);
                            } else {
                                assert(nv[i] == old_view[i + 1]);
                            }
                        }
                        assert forall|i: int, j: int|
                            0 <= i < nv.len() && 0 <= j < nv.len() && i != j implies disjoint(
                            #[trigger] nv[i],
                            #[trigger] nv[j],
                        ) by {
                            let oi = if i < ri { i } else { i + 1 };
                            let oj = if j < ri { j } else { j + 1 };
                            assert(disjoint(old_view[oi], old_view[oj]));
                        }
                    }
                    Some((region.address, region.length))
                } else {
                    self.regions.insert(ri, region);
                    proof {
                        let nv = dealloc_spec(old_view, ri as int, bi as int);
                        assert(self@ =~= nv);
                        assert forall|i: int| 0 <= i < nv.len() implies (#[trigger] nv[i]).wf()
                            && !nv[i].is_unused() by {
                            if i != ri {
                                assert(nv[i] == old_view[i]);
                            }
                        }
                        assert forall|i: int, j: int|
                            0 <= i < nv.len() && 0 <= j < nv.len() && i != j implies disjoint(
                            #[trigger] nv[i],
                            #[trigger] nv[j],
                        ) by {
                            assert(disjoint(old_view[i], old_view[j]));
                        }
                    }
                    None
                }
            },
        }
    }
}





} // verus!
