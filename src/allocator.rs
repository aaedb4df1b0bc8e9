use vstd::prelude::*;

use crate::bucket::{
    alloc_spec, can_add, dealloc_spec, disjoint, fresh_region, has_fit, holds_used, is_first_fit,
    fits, lemma_allocate_deallocate, lemma_new_region_deallocate, regions_wf, released, valid_index,
    Bucket,
};
use crate::layout::{
    block_size, block_size_for, region_length, region_length_for, ALIGNMENT, BLOCK_HEADER_SIZE,
    PAGE_SIZE, REGION_HEADER_SIZE,
};
use crate::region::{lemma_blocks_ordered, RegionView};

verus! {

/// The size classes are positive and strictly increasing.
pub open spec fn sizes_ok(sizes: Seq<usize>) -> bool {
    &&& forall|i: int| 0 <= i < sizes.len() ==> #[trigger] sizes[i] > 0
    &&& forall|i: int, j: int| 0 <= i < j < sizes.len() ==> #[trigger] sizes[i] < #[trigger] sizes[j]
}

/// The first class from `k` on that holds `size` bytes, or `sizes.len()`
/// (the dynamic bucket) where none does.
pub open spec fn class_from(sizes: Seq<usize>, size: int, k: int) -> int
    decreases sizes.len() - k,
{
    if k >= sizes.len() {
        sizes.len() as int
    } else if size <= sizes[k] {
        k
    } else {
        class_from(sizes, size, k + 1)
    }
}

/// Index of the bucket that serves `size` bytes; `sizes.len()` is the
/// dynamic bucket.
pub open spec fn class_of(sizes: Seq<usize>, size: int) -> int {
    class_from(sizes, size, 0)
}

proof fn lemma_class_below(sizes: Seq<usize>, size: int, k: int, i: int)
    requires
        sizes_ok(sizes),
        0 <= k <= i < sizes.len(),
        size <= sizes[i],
        i == 0 || sizes[i - 1] < size,
    ensures
        class_from(sizes, size, k) == i,
    decreases i - k,
{
    if k < i {
        if k < i - 1 {
            assert(sizes[k] < sizes[i - 1]);
        }
        lemma_class_below(sizes, size, k + 1, i);
    }
}

proof fn lemma_class_above(sizes: Seq<usize>, size: int, k: int)
    requires
        sizes_ok(sizes),
        0 <= k <= sizes.len(),
        sizes.len() == 0 || sizes.last() < size,
    ensures
        class_from(sizes, size, k) == sizes.len(),
    decreases sizes.len() - k,
{
    if k < sizes.len() {
        if k < sizes.len() - 1 {
            assert(sizes[k] < sizes[sizes.len() - 1]);
        }
        lemma_class_above(sizes, size, k + 1);
    }
}

/// A request larger than class `i - 1` and no larger than class `i` goes to
/// bucket `i`; one larger than every class goes to the dynamic bucket.
pub proof fn lemma_size_class_routing(sizes: Seq<usize>, size: int)
    requires
        sizes_ok(sizes),
    ensures
        forall|i: int|
            0 <= i < sizes.len() && size <= #[trigger] sizes[i] && (i == 0 || sizes[i - 1] < size)
                ==> class_of(sizes, size) == i,
        sizes.len() == 0 || sizes.last() < size ==> class_of(sizes, size) == sizes.len(),
{
    assert forall|i: int|
        0 <= i < sizes.len() && size <= #[trigger] sizes[i] && (i == 0 || sizes[i - 1] < size)
            implies class_of(sizes, size) == i by {
        lemma_class_below(sizes, size, 0, i);
    }
    if sizes.len() == 0 || sizes.last() < size {
        lemma_class_above(sizes, size, 0);
    }
}

/// Regions of different buckets never overlap.
pub open spec fn buckets_disjoint(buckets: Seq<Seq<RegionView>>) -> bool {
    forall|a: int, b: int, i: int, j: int|
        0 <= a < buckets.len() && 0 <= b < buckets.len() && a != b && 0 <= i < buckets[a].len() && 0
            <= j < buckets[b].len() ==> disjoint(#[trigger] buckets[a][i], #[trigger] buckets[b][j])
}

/// A fresh mapping meets no region of any bucket.
pub open spec fn fresh_everywhere(buckets: Seq<Seq<RegionView>>, address: usize, length: usize) -> bool {
    forall|a: int, i: int|
        0 <= a < buckets.len() && 0 <= i < buckets[a].len() ==> disjoint(
            #[trigger] buckets[a][i],
            fresh_region(address, length),
        )
}

/// Replacing one bucket by regions that meet no region of another bucket
/// keeps the buckets apart.
proof fn lemma_bucket_change(old: Seq<Seq<RegionView>>, c: int, nb: Seq<RegionView>)
    requires
        buckets_disjoint(old),
        0 <= c < old.len(),
        forall|i: int, a: int, j: int|
            0 <= i < nb.len() && 0 <= a < old.len() && a != c && 0 <= j < old[a].len() ==> disjoint(
                #[trigger] nb[i],
                #[trigger] old[a][j],
            ),
    ensures
        buckets_disjoint(old.update(c, nb)),
{
    let nv = old.update(c, nb);
    assert forall|a: int, b: int, i: int, j: int|
        0 <= a < nv.len() && 0 <= b < nv.len() && a != b && 0 <= i < nv[a].len() && 0 <= j
            < nv[b].len() implies disjoint(#[trigger] nv[a][i], #[trigger] nv[b][j]) by {
        if a == c {
            assert(disjoint(nb[i], old[b][j]));
        } else if b == c {
            assert(disjoint(nb[j], old[a][i]));
        } else {
            assert(disjoint(old[a][i], old[b][j]));
        }
    }
}

/// Freeing a block keeps the buckets apart.
proof fn lemma_dealloc_disjoint(old: Seq<Seq<RegionView>>, c: int, ri: int, bi: int)
    requires
        buckets_disjoint(old),
        0 <= c < old.len(),
        0 <= ri < old[c].len(),
    ensures
        buckets_disjoint(old.update(c, dealloc_spec(old[c], ri, bi))),
{
    let nb = dealloc_spec(old[c], ri, bi);
    assert forall|i: int, a: int, j: int|
        0 <= i < nb.len() && 0 <= a < old.len() && a != c && 0 <= j < old[a].len() implies disjoint(
        #[trigger] nb[i],
        #[trigger] old[a][j],
    ) by {
        if nb.len() < old[c].len() && i >= ri {
            assert(nb[i] == old[c][i + 1]);
            assert(disjoint(old[c][i + 1], old[a][j]));
        } else {
            assert(nb[i].address == old[c][i].address && nb[i].length == old[c][i].length);
            assert(disjoint(old[c][i], old[a][j]));
        }
    }
    lemma_bucket_change(old, c, nb);
}

/// Holds a bucket for each size class plus the dynamic bucket, and sends
/// every request to the first class that is large enough for it.
pub struct InternalAllocator {
    /// Size of each class, in bytes.
    pub sizes: Vec<usize>,
    /// One bucket for each class.
    pub buckets: Vec<Bucket>,
    /// Serves every request larger than the largest class.
    pub dyn_bucket: Bucket,
}

impl View for InternalAllocator {
    /// The regions of each bucket, the dynamic bucket last.
    type V = Seq<Seq<RegionView>>;

    open spec fn view(&self) -> Seq<Seq<RegionView>> {
        self.buckets@.map_values(|b: Bucket| b@).push(self.dyn_bucket@)
    }
}

/// The class found from `k` on lies between `k` and `sizes.len()`.
proof fn lemma_class_in_range(sizes: Seq<usize>, size: int, k: int)
    requires
        0 <= k <= sizes.len(),
    ensures
        k <= class_from(sizes, size, k) <= sizes.len(),
    decreases sizes.len() - k,
{
    if k < sizes.len() && size > sizes[k] {
        lemma_class_in_range(sizes, size, k + 1);
    }
}

impl InternalAllocator {
    /// Valid size classes, one well-formed bucket per class plus the dynamic
    /// one, and no region shared between buckets.
    pub open spec fn wf(&self) -> bool {
        &&& sizes_ok(self.sizes@)
        &&& self.buckets@.len() == self.sizes@.len()
        &&& forall|i: int| 0 <= i < self.buckets@.len() ==> (#[trigger] self.buckets@[i]).wf()
        &&& self.dyn_bucket.wf()
        &&& buckets_disjoint(self@)
    }

    /// An allocator with the given size classes and no region yet.
    pub fn with_bucket_sizes(sizes: Vec<usize>) -> (r: Self)
        requires
            sizes_ok(sizes@),
        ensures
            r.wf(),
            r.sizes@ == sizes@,
            r@.len() == sizes@.len() + 1,
            forall|i: int| 0 <= i < r@.len() ==> #[trigger] r@[i] == Seq::<RegionView>::empty(),
    {
        let mut buckets: Vec<Bucket> = Vec::new();
        let mut k: usize = 0;
        while k < sizes.len()
            invariant
                k <= sizes.len(),
                buckets@.len() == k,
                forall|i: int| 0 <= i < k ==> (#[trigger] buckets@[i]).wf() && buckets@[i]@ == Seq::<RegionView>::empty(),
            decreases sizes.len() - k,
        {
            buckets.push(Bucket::new());
            k += 1;
        }
        let r = InternalAllocator { sizes, buckets, dyn_bucket: Bucket::new() };
        assert forall|i: int| 0 <= i < r@.len() implies #[trigger] r@[i] == Seq::<RegionView>::empty() by {
            if i < k {
                assert(r@[i] == r.buckets@[i]@);
            }
        }
        r
    }

    /// Index of the bucket that serves `size` bytes: the first class at least
    /// `size`, or the dynamic bucket (index `sizes.len()`) where none is.
    pub fn dispatch(&self, size: usize) -> (r: usize)
        ensures
            r == class_of(self.sizes@, size as int),
    {
        let mut i: usize = 0;
        while i < self.sizes.len()
            invariant
                i <= self.sizes.len(),
                class_from(self.sizes@, size as int, i as int) == class_of(self.sizes@, size as int),
            decreases self.sizes.len() - i,
        {
            if size <= self.sizes[i] {
                return i;
            }
            i += 1;
        }
        i
    }

    /// Number of regions in bucket `i`; the dynamic bucket is `sizes.len()`.
    pub fn region_count(&self, i: usize) -> (r: usize)
        requires
            i < self@.len(),
        ensures
            r == self@[i as int].len(),
    {
        if i < self.buckets.len() {
            self.buckets[i].region_count()
        } else {
            self.dyn_bucket.region_count()
        }
    }

    /// Serves `size` bytes from a free block of the bucket that `dispatch`
    /// picks, or returns `None`, and changes nothing, where that bucket has
    /// no free block with room.
    pub fn allocate(&mut self, size: usize) -> (r: Option<usize>)
        requires
            old(self).wf(),
        ensures
            final(self).wf(),
            final(self).sizes@ == old(self).sizes@,
            r is Some <==> block_size(size as int) <= usize::MAX && has_fit(
                old(self)@[class_of(old(self).sizes@, size as int)],
                block_size(size as int),
            ),
            r is None ==> final(self)@ == old(self)@,
            r matches Some(a) ==> a % ALIGNMENT == 0,
            r matches Some(a) ==> exists|ri: int, bi: int|
                #[trigger] is_first_fit(
                    old(self)@[class_of(old(self).sizes@, size as int)],
                    block_size(size as int),
                    ri,
                    bi,
                ) && a == old(self)@[class_of(old(self).sizes@, size as int)][ri].blocks[bi].content()
                    && final(self)@ == old(self)@.update(
                    class_of(old(self).sizes@, size as int),
                    alloc_spec(
                        old(self)@[class_of(old(self).sizes@, size as int)],
                        ri,
                        bi,
                        block_size(size as int),
                    ),
                ),
    {
        let ghost old_view = self@;
        let c = self.dispatch(size);
        proof {
            lemma_class_in_range(self.sizes@, size as int, 0);
        }
        let r;
        if c < self.buckets.len() {
            let mut b = self.buckets.remove(c);
            assert(b.wf() && b@ == old_view[c as int]);
            r = b.allocate(size);
            self.buckets.insert(c, b);
            assert(self@ =~= old_view.update(c as int, b@));
            assert forall|i: int| 0 <= i < self.buckets@.len() implies (#[trigger] self.buckets@[i]).wf() by {
                if i != c {
                    assert(self.buckets@[i]@ == old_view[i]);
                }
            }
        } else {
            r = self.dyn_bucket.allocate(size);
            assert(self@ =~= old_view.update(c as int, self.dyn_bucket@));
        }
        proof {
            let nb = self@[c as int];
            assert forall|i: int, a: int, j: int|
                0 <= i < nb.len() && 0 <= a < old_view.len() && a != c && 0 <= j < old_view[a].len()
                    implies disjoint(#[trigger] nb[i], #[trigger] old_view[a][j]) by {
                if r is Some {
                    assert(nb[i].address == old_view[c as int][i].address);
                    assert(nb[i].length == old_view[c as int][i].length);
                }
                assert(disjoint(old_view[c as int][i], old_view[a][j]));
            }
            lemma_bucket_change(old_view, c as int, nb);
            assert(self@ == old_view.update(c as int, nb));
        }
        r
    }

    /// Whether the span of `length` bytes at `address` meets a region of any bucket.
    pub fn overlaps(&self, address: usize, length: usize) -> (r: bool)
        requires
            self.wf(),
            address + length <= usize::MAX,
        ensures
            !r <==> fresh_everywhere(self@, address, length),
    {
        let mut k: usize = 0;
        while k < self.buckets.len()
            invariant
                self.wf(),
                k <= self.buckets.len(),
                address + length <= usize::MAX,
                forall|a: int, i: int|
                    0 <= a < k && 0 <= i < self@[a].len() ==> disjoint(
                        #[trigger] self@[a][i],
                        fresh_region(address, length),
                    ),
            decreases self.buckets.len() - k,
        {
            assert(self@[k as int] == self.buckets@[k as int]@);
            if self.buckets[k].overlaps(address, length) {
                return true;
            }
            k += 1;
        }
        assert(self@[k as int] == self.dyn_bucket@);
        if self.dyn_bucket.overlaps(address, length) {
            return true;
        }
        false
    }

    /// Takes a fresh mapping of `length` bytes at `address` as a new region
    /// of the bucket that serves `size` bytes, and serves them from its
    /// start. Refuses, changing nothing, a mapping that is not page aligned,
    /// is too short for the request, or meets a region already held.
    pub fn allocate_in_new_region(&mut self, size: usize, address: usize, length: usize) -> (r: Option<usize>)
        requires
            old(self).wf(),
        ensures
            final(self).wf(),
            final(self).sizes@ == old(self).sizes@,
            r is Some <==> block_size(size as int) <= usize::MAX && can_add(
                old(self)@[class_of(old(self).sizes@, size as int)],
                address,
                length,
                block_size(size as int),
            ) && fresh_everywhere(old(self)@, address, length),
            r is None ==> final(self)@ == old(self)@,
            r matches Some(a) ==> a % ALIGNMENT == 0,
            r matches Some(a) ==> a == address + REGION_HEADER_SIZE + BLOCK_HEADER_SIZE && final(self)@
                == old(self)@.update(
                class_of(old(self).sizes@, size as int),
                alloc_spec(
                    old(self)@[class_of(old(self).sizes@, size as int)].push(fresh_region(address, length)),
                    old(self)@[class_of(old(self).sizes@, size as int)].len() as int,
                    0,
                    block_size(size as int),
                ),
            ),
    {
        let ghost old_view = self@;
        let c = self.dispatch(size);
        proof {
            lemma_class_in_range(self.sizes@, size as int, 0);
        }
        let need = match block_size_for(size) {
            Some(n) => n,
            None => return None,
        };
        if address % PAGE_SIZE != 0 || length % PAGE_SIZE != 0 || address > usize::MAX - length
            || length < REGION_HEADER_SIZE + BLOCK_HEADER_SIZE || length - REGION_HEADER_SIZE
            - BLOCK_HEADER_SIZE < need {
            return None;
        }
        if self.overlaps(address, length) {
            return None;
        }
        assert forall|i: int| 0 <= i < old_view[c as int].len() implies disjoint(
            #[trigger] old_view[c as int][i],
            fresh_region(address, length),
        ) by {}
        let a;
        if c < self.buckets.len() {
            let mut b = self.buckets.remove(c);
            assert(b.wf() && b@ == old_view[c as int]);
            a = b.allocate_in_new_region(size, address, length);
            self.buckets.insert(c, b);
            assert(self@ =~= old_view.update(c as int, b@));
            assert forall|i: int| 0 <= i < self.buckets@.len() implies (#[trigger] self.buckets@[i]).wf() by {
                if i != c {
                    assert(self.buckets@[i]@ == old_view[i]);
                }
            }
        } else {
            a = self.dyn_bucket.allocate_in_new_region(size, address, length);
            assert(self@ =~= old_view.update(c as int, self.dyn_bucket@));
        }
        proof {
            let nb = self@[c as int];
            let ob = old_view[c as int];
            assert forall|i: int, x: int, j: int|
                0 <= i < nb.len() && 0 <= x < old_view.len() && x != c && 0 <= j < old_view[x].len()
                    implies disjoint(#[trigger] nb[i], #[trigger] old_view[x][j]) by {
                if i < ob.len() {
                    assert(nb[i] == ob[i]);
                    assert(disjoint(ob[i], old_view[x][j]));
                } else {
                    assert(disjoint(old_view[x][j], fresh_region(address, length)));
                }
            }
            lemma_bucket_change(old_view, c as int, nb);
            assert(self@ == old_view.update(c as int, nb));
        }
        Some(a)
    }

    /// Frees the block in use at `address` in the bucket that serves `size`
    /// bytes. Returns the region to unmap when nothing in it is left in use.
    /// An address that no block in use of that bucket has changes nothing.
    pub fn deallocate(&mut self, address: usize, size: usize) -> (r: Option<(usize, usize)>)
        requires
            old(self).wf(),
        ensures
            final(self).wf(),
            final(self).sizes@ == old(self).sizes@,
            (forall|ri: int, bi: int|
                !#[trigger] holds_used(
                    old(self)@[class_of(old(self).sizes@, size as int)],
                    ri,
                    bi,
                    address as int,
                )) ==> r is None && final(self)@ == old(self)@,
            forall|ri: int, bi: int|
                #[trigger] holds_used(
                    old(self)@[class_of(old(self).sizes@, size as int)],
                    ri,
                    bi,
                    address as int,
                ) ==> final(self)@ == old(self)@.update(
                    class_of(old(self).sizes@, size as int),
                    dealloc_spec(old(self)@[class_of(old(self).sizes@, size as int)], ri, bi),
                ) && r == released(old(self)@[class_of(old(self).sizes@, size as int)], ri, bi),
    {
        let ghost old_view = self@;
        let c = self.dispatch(size);
        proof {
            lemma_class_in_range(self.sizes@, size as int, 0);
        }
        let r;
        if c < self.buckets.len() {
            let mut b = self.buckets.remove(c);
            assert(b.wf() && b@ == old_view[c as int]);
            r = b.deallocate(address);
            self.buckets.insert(c, b);
            assert(self@ =~= old_view.update(c as int, b@));
            assert forall|i: int| 0 <= i < self.buckets@.len() implies (#[trigger] self.buckets@[i]).wf() by {
                if i != c {
                    assert(self.buckets@[i]@ == old_view[i]);
                }
            }
        } else {
            r = self.dyn_bucket.deallocate(address);
            assert(self@ =~= old_view.update(c as int, self.dyn_bucket@));
        }
        proof {
            let ob = old_view[c as int];
            if exists|ri: int, bi: int| #[trigger] holds_used(ob, ri, bi, address as int) {
                let (ri, bi) = choose|ri: int, bi: int| #[trigger] holds_used(ob, ri, bi, address as int);
                lemma_dealloc_disjoint(old_view, c as int, ri, bi);
            } else {
                assert(self@ =~= old_view);
            }
        }
        r
    }
}





/// An alignment the allocator honours: a power of two no larger than
/// `ALIGNMENT`, which every content address meets.
pub open spec fn align_supported(align: usize) -> bool {
    align == 1 || align == 2 || align == 4 || align == 8 || align == ALIGNMENT
}

/// What a caller does next with a request.
pub enum Step {
    /// The request is served: its content starts at this address.
    Ready(usize),
    /// No free block has room: map a fresh region of this many bytes and
    /// hand it to `allocate_in_new_region`.
    MapRegion(usize),
    /// The alignment is not supported, or the size cannot be served.
    Refused,
}

/// The allocator: size classes routed to buckets, with the page provider's
/// work left to the caller, who maps what `allocate` asks for and unmaps
/// what `deallocate` hands back.
pub struct MmapAllocator {
    allocator: InternalAllocator,
}

impl MmapAllocator {
    /// The engine behind the allocator.
    pub closed spec fn inner(&self) -> InternalAllocator {
        self.allocator
    }

    /// The engine's invariant holds.
    pub open spec fn wf(&self) -> bool {
        self.inner().wf()
    }

    /// The size classes.
    pub open spec fn sizes(&self) -> Seq<usize> {
        self.inner().sizes@
    }

    /// The regions of each bucket, the dynamic bucket last.
    pub open spec fn regions(&self) -> Seq<Seq<RegionView>> {
        self.inner()@
    }

    /// Three size classes: 128, 1024 and 8192 bytes.
    pub fn with_default_config() -> (r: Self)
        ensures
            r.wf(),
            r.sizes() == seq![128usize, 1024, 8192],
            r.regions().len() == 4,
            forall|i: int| 0 <= i < 4 ==> #[trigger] r.regions()[i] == Seq::<RegionView>::empty(),
    {
        let sizes: Vec<usize> = vec![128, 1024, 8192];
        assert(sizes@ =~= seq![128usize, 1024, 8192]);
        Self::with_bucket_sizes(sizes)
    }

    /// An allocator with the given size classes and no region yet.
    pub fn with_bucket_sizes(sizes: Vec<usize>) -> (r: Self)
        requires
            sizes_ok(sizes@),
        ensures
            r.wf(),
            r.sizes() == sizes@,
            r.regions().len() == sizes@.len() + 1,
            forall|i: int| 0 <= i < r.regions().len() ==> #[trigger] r.regions()[i] == Seq::<RegionView>::empty(),
    {
        MmapAllocator { allocator: InternalAllocator::with_bucket_sizes(sizes) }
    }

    /// Number of size classes; the dynamic bucket has this index.
    pub fn class_count(&self) -> (r: usize)
        requires
            self.wf(),
        ensures
            r == self.sizes().len(),
            r + 1 == self.regions().len(),
    {
        self.allocator.sizes.len()
    }

    /// Number of regions in bucket `i`; the dynamic bucket comes last.
    pub fn region_count(&self, i: usize) -> (r: usize)
        requires
            i < self.regions().len(),
        ensures
            r == self.regions()[i as int].len(),
    {
        self.allocator.region_count(i)
    }

    /// Index of the bucket that serves `size` bytes.
    pub fn bucket_for(&self, size: usize) -> (r: usize)
        ensures
            r == class_of(self.sizes(), size as int),
    {
        self.allocator.dispatch(size)
    }

    /// Serves `size` bytes aligned to `align` from a free block, or says
    /// what region to map where none has room. Only `Ready` changes the
    /// allocator.
    pub fn allocate(&mut self, size: usize, align: usize) -> (r: Step)
        requires
            old(self).wf(),
        ensures
            final(self).wf(),
            final(self).sizes() == old(self).sizes(),
            !(r is Ready) ==> final(self).regions() == old(self).regions(),
            r is Refused <==> !align_supported(align) || block_size(size as int) > usize::MAX || (
            !has_fit(
                old(self).regions()[class_of(old(self).sizes(), size as int)],
                block_size(size as int),
            ) && region_length(block_size(size as int)) > usize::MAX),
            r matches Step::MapRegion(len) ==> len == region_length(block_size(size as int)) && !has_fit(
                old(self).regions()[class_of(old(self).sizes(), size as int)],
                block_size(size as int),
            ),
            r matches Step::Ready(a) ==> a % ALIGNMENT == 0,
            r matches Step::Ready(a) ==> exists|ri: int, bi: int|
                #[trigger] is_first_fit(
                    old(self).regions()[class_of(old(self).sizes(), size as int)],
                    block_size(size as int),
                    ri,
                    bi,
                ) && a == old(self).regions()[class_of(old(self).sizes(), size as int)][ri].blocks[bi].content()
                    && final(self).regions() == old(self).regions().update(
                    class_of(old(self).sizes(), size as int),
                    alloc_spec(
                        old(self).regions()[class_of(old(self).sizes(), size as int)],
                        ri,
                        bi,
                        block_size(size as int),
                    ),
                ),
    {
        if !(align == 1 || align == 2 || align == 4 || align == 8 || align == ALIGNMENT) {
            return Step::Refused;
        }
        let need = match block_size_for(size) {
            Some(n) => n,
            None => return Step::Refused,
        };
        let ghost old_regions = self.regions();
        let ghost c = class_of(self.sizes(), size as int);
        match self.allocator.allocate(size) {
            Some(a) => {
                proof {
                    let (ri, bi) = choose|ri: int, bi: int|
                        #[trigger] is_first_fit(old_regions[c], block_size(size as int), ri, bi) && a
                            == old_regions[c][ri].blocks[bi].content() && self.regions()
                            == old_regions.update(c, alloc_spec(old_regions[c], ri, bi, block_size(size as int)));
                    assert(is_first_fit(old_regions[c], block_size(size as int), ri, bi));
                }
                Step::Ready(a)
            },
            None => match region_length_for(need) {
                Some(len) => Step::MapRegion(len),
                None => Step::Refused,
            },
        }
    }

    /// Takes a fresh mapping of `length` bytes at `address` into the bucket
    /// that serves `size` bytes and serves them from its start. Refuses,
    /// changing nothing, an unsupported alignment, or a mapping that is not
    /// page aligned, is too short, or meets a region already held.
    pub fn allocate_in_new_region(&mut self, size: usize, align: usize, address: usize, length: usize) -> (r: Option<usize>)
        requires
            old(self).wf(),
        ensures
            final(self).wf(),
            final(self).sizes() == old(self).sizes(),
            r is Some <==> align_supported(align) && block_size(size as int) <= usize::MAX && can_add(
                old(self).regions()[class_of(old(self).sizes(), size as int)],
                address,
                length,
                block_size(size as int),
            ) && fresh_everywhere(old(self).regions(), address, length),
            r is None ==> final(self).regions() == old(self).regions(),
            r matches Some(a) ==> a % ALIGNMENT == 0,
            r matches Some(a) ==> a == address + REGION_HEADER_SIZE + BLOCK_HEADER_SIZE
                && final(self).regions() == old(self).regions().update(
                class_of(old(self).sizes(), size as int),
                alloc_spec(
                    old(self).regions()[class_of(old(self).sizes(), size as int)].push(
                        fresh_region(address, length),
                    ),
                    old(self).regions()[class_of(old(self).sizes(), size as int)].len() as int,
                    0,
                    block_size(size as int),
                ),
            ),
    {
        if !(align == 1 || align == 2 || align == 4 || align == 8 || align == ALIGNMENT) {
            return None;
        }
        self.allocator.allocate_in_new_region(size, address, length)
    }

    /// Frees the block in use at `address` that was handed out for `size`
    /// bytes. Returns the region to unmap when nothing in it is left in use.
    /// An address that no block in use of that size class has changes
    /// nothing.
    pub fn deallocate(&mut self, address: usize, size: usize) -> (r: Option<(usize, usize)>)
        requires
            old(self).wf(),
        ensures
            final(self).wf(),
            final(self).sizes() == old(self).sizes(),
            (forall|ri: int, bi: int|
                !#[trigger] holds_used(
                    old(self).regions()[class_of(old(self).sizes(), size as int)],
                    ri,
                    bi,
                    address as int,
                )) ==> r is None && final(self).regions() == old(self).regions(),
            forall|ri: int, bi: int|
                #[trigger] holds_used(
                    old(self).regions()[class_of(old(self).sizes(), size as int)],
                    ri,
                    bi,
                    address as int,
                ) ==> final(self).regions() == old(self).regions().update(
                    class_of(old(self).sizes(), size as int),
                    dealloc_spec(old(self).regions()[class_of(old(self).sizes(), size as int)], ri, bi),
                ) && r == released(old(self).regions()[class_of(old(self).sizes(), size as int)], ri, bi),
    {
        self.allocator.deallocate(address, size)
    }
}

/// Two different blocks in use, of any buckets, never share a byte: the
/// content of one ends before the other's begins.
pub proof fn lemma_no_overlap(m: MmapAllocator, a: int, ri: int, bi: int, b: int, rj: int, bj: int)
    requires
        m.wf(),
        0 <= a < m.regions().len(),
        0 <= b < m.regions().len(),
        valid_index(m.regions()[a], ri, bi),
        valid_index(m.regions()[b], rj, bj),
        !m.regions()[a][ri].blocks[bi].free,
        !m.regions()[b][rj].blocks[bj].free,
        (a, ri, bi) != (b, rj, bj),
    ensures
        m.regions()[a][ri].blocks[bi].end() <= m.regions()[b][rj].blocks[bj].content()
            || m.regions()[b][rj].blocks[bj].end() <= m.regions()[a][ri].blocks[bi].content(),
{
    let v = m.regions();
    let inner = m.inner();
    assert forall|k: int| 0 <= k < v.len() implies regions_wf(#[trigger] v[k]) by {
        if k < inner.buckets@.len() {
            assert(v[k] == inner.buckets@[k]@);
            assert(inner.buckets@[k].wf());
        } else {
            assert(v[k] == inner.dyn_bucket@);
        }
    }
    let x = v[a][ri];
    let y = v[b][rj];
    assert(regions_wf(v[a]) && regions_wf(v[b]));
    assert(x.wf() && y.wf());
    lemma_blocks_ordered(x.blocks, x.start(), x.end());
    lemma_blocks_ordered(y.blocks, y.start(), y.end());
    if a != b {
        assert(disjoint(v[a][ri], v[b][rj]));
    } else if ri != rj {
        assert(disjoint(v[a][ri], v[a][rj]));
    }
}

impl Default for MmapAllocator {
    /// The default configuration, as `with_default_config`.
    fn default() -> (r: Self)
        ensures
            r.wf(),
            r.sizes() == seq![128usize, 1024, 8192],
            r.regions().len() == 4,
            forall|i: int| 0 <= i < 4 ==> #[trigger] r.regions()[i] == Seq::<RegionView>::empty(),
    {
        MmapAllocator::with_default_config()
    }
}

/// Serving a request from a free block and then freeing the address handed
/// out, with the same size, gives back every bucket as it was.
pub proof fn lemma_allocate_deallocate_restores(
    v: Seq<Seq<RegionView>>,
    c: int,
    ri: int,
    bi: int,
    need: int,
)
    requires
        0 <= c < v.len(),
        regions_wf(v[c]),
        valid_index(v[c], ri, bi),
        fits(v[c][ri].blocks[bi], need),
        need >= 0,
    ensures
        ({
            let w = v.update(c, alloc_spec(v[c], ri, bi, need));
            &&& holds_used(w[c], ri, bi, v[c][ri].blocks[bi].content())
            &&& released(w[c], ri, bi) is None
            &&& w.update(c, dealloc_spec(w[c], ri, bi)) == v
        }),
{
    lemma_allocate_deallocate(v[c], ri, bi, need);
    let w = v.update(c, alloc_spec(v[c], ri, bi, need));
    assert(w.update(c, dealloc_spec(w[c], ri, bi)) =~= v);
}

/// Serving a request from a freshly mapped region and then freeing the
/// address handed out, with the same size, releases that region and gives
/// back every bucket as it was.
pub proof fn lemma_new_region_deallocate_restores(
    v: Seq<Seq<RegionView>>,
    c: int,
    address: usize,
    length: usize,
    need: int,
)
    requires
        0 <= c < v.len(),
        regions_wf(v[c]),
        can_add(v[c], address, length, need),
        need >= 0,
    ensures
        ({
            let n = v[c].len() as int;
            let w = v.update(c, alloc_spec(v[c].push(fresh_region(address, length)), n, 0, need));
            &&& holds_used(w[c], n, 0, address + REGION_HEADER_SIZE + BLOCK_HEADER_SIZE)
            &&& released(w[c], n, 0) == Some((address, length))
            &&& w.update(c, dealloc_spec(w[c], n, 0)) == v
        }),
{
    lemma_new_region_deallocate(v[c], address, length, need);
    let n = v[c].len() as int;
    let w = v.update(c, alloc_spec(v[c].push(fresh_region(address, length)), n, 0, need));
    assert(w.update(c, dealloc_spec(w[c], n, 0)) =~= v);
}

} // verus!
