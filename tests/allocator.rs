use std::collections::HashMap;

use memalloc::allocator::MmapAllocator;
use memalloc::layout::PAGE_SIZE;
use memalloc::{InternalAllocator, Step};

/// A stand-in for the page provider: hands out page-aligned spans of a
/// simulated address space and keeps the bytes written into them.
struct Pages {
    next: usize,
    mapped: Vec<(usize, usize)>,
    bytes: HashMap<usize, u8>,
}

impl Pages {
    fn new() -> Pages {
        Pages { next: 1 << 20, mapped: Vec::new(), bytes: HashMap::new() }
    }

    fn map(&mut self, length: usize) -> usize {
        let address = self.next;
        self.next += length + PAGE_SIZE;
        self.mapped.push((address, length));
        address
    }

    fn unmap(&mut self, address: usize, length: usize) {
        let i = self.mapped.iter().position(|m| *m == (address, length)).expect("unmapping an unknown span");
        self.mapped.remove(i);
        for a in address..address + length {
            self.bytes.remove(&a);
        }
    }

    fn is_mapped(&self, address: usize, len: usize) -> bool {
        self.mapped.iter().any(|&(a, l)| a <= address && address + len <= a + l)
    }

    fn fill(&mut self, address: usize, len: usize, value: u8) {
        assert!(self.is_mapped(address, len));
        for a in address..address + len {
            self.bytes.insert(a, value);
        }
    }

    fn holds(&self, address: usize, len: usize, value: u8) -> bool {
        (address..address + len).all(|a| self.bytes.get(&a) == Some(&value))
    }
}

fn serve(m: &mut MmapAllocator, pages: &mut Pages, size: usize) -> usize {
    match m.allocate(size, 8) {
        Step::Ready(a) => a,
        Step::MapRegion(len) => {
            let address = pages.map(len);
            m.allocate_in_new_region(size, 8, address, len).expect("a fresh mapping is taken")
        }
        Step::Refused => panic!("request refused"),
    }
}

fn release(m: &mut MmapAllocator, pages: &mut Pages, address: usize, size: usize) {
    if let Some((a, l)) = m.deallocate(address, size) {
        pages.unmap(a, l);
    }
}

fn inner_serve(m: &mut InternalAllocator, pages: &mut Pages, size: usize) -> usize {
    match m.allocate(size) {
        Some(a) => a,
        None => {
            let need = memalloc::layout::block_size_for(size).unwrap();
            let len = memalloc::layout::region_length_for(need).unwrap();
            let address = pages.map(len);
            m.allocate_in_new_region(size, address, len).expect("a fresh mapping is taken")
        }
    }
}

fn inner_release(m: &mut InternalAllocator, pages: &mut Pages, address: usize, size: usize) {
    if let Some((a, l)) = m.deallocate(address, size) {
        pages.unmap(a, l);
    }
}

fn all_regions(m: &MmapAllocator) -> Vec<usize> {
    (0..=m.class_count()).map(|i| m.region_count(i)).collect()
}

#[test]
fn internal_allocator_wrapper() {
    let mut allocator = MmapAllocator::with_default_config();
    let mut pages = Pages::new();

    let addr1 = serve(&mut allocator, &mut pages, 8);
    pages.fill(addr1, 8, 69);

    let addr2 = serve(&mut allocator, &mut pages, PAGE_SIZE * 2);
    pages.fill(addr2, PAGE_SIZE * 2, 69);

    assert!(pages.holds(addr1, 8, 69));
    release(&mut allocator, &mut pages, addr1, 8);

    assert!(pages.holds(addr2, PAGE_SIZE * 2, 69));
    release(&mut allocator, &mut pages, addr2, PAGE_SIZE * 2);
    assert!(pages.mapped.is_empty());
}

#[test]
fn buckets() {
    let sizes = [8usize, 16, 24];
    let mut allocator = InternalAllocator::with_bucket_sizes(sizes.to_vec());
    let mut pages = Pages::new();

    let counts = |a: &InternalAllocator| -> Vec<usize> { (0..sizes.len()).map(|i| a.region_count(i)).collect() };

    let addr1 = inner_serve(&mut allocator, &mut pages, sizes[0]);
    assert_eq!(counts(&allocator), vec![1, 0, 0]);

    let addr2 = inner_serve(&mut allocator, &mut pages, sizes[1]);
    assert_eq!(counts(&allocator), vec![1, 1, 0]);

    let addr3 = inner_serve(&mut allocator, &mut pages, sizes[2]);
    assert_eq!(counts(&allocator), vec![1, 1, 1]);

    inner_release(&mut allocator, &mut pages, addr1, sizes[0]);
    assert_eq!(counts(&allocator), vec![0, 1, 1]);

    inner_release(&mut allocator, &mut pages, addr2, sizes[1]);
    assert_eq!(counts(&allocator), vec![0, 0, 1]);

    inner_release(&mut allocator, &mut pages, addr3, sizes[2]);
    assert_eq!(counts(&allocator), vec![0, 0, 0]);

    let addr4 = inner_serve(&mut allocator, &mut pages, sizes[2] + 128);
    assert_eq!(counts(&allocator), vec![0, 0, 0]);
    assert_eq!(allocator.region_count(sizes.len()), 1);

    inner_release(&mut allocator, &mut pages, addr4, sizes[2] + 128);
    assert_eq!(allocator.region_count(sizes.len()), 0);
}

#[test]
fn synchronized_allocs_then_deallocs_keep_data_and_empty_buckets() {
    let mut allocator = MmapAllocator::with_default_config();
    let mut pages = Pages::new();
    let size = 1024 * 8;
    let addrs: Vec<usize> = (0..8).map(|_| serve(&mut allocator, &mut pages, size)).collect();
    for (t, &a) in addrs.iter().enumerate() {
        pages.fill(a, size, t as u8 + 1);
    }
    for (t, &a) in addrs.iter().enumerate() {
        assert!(pages.holds(a, size, t as u8 + 1));
    }
    for &a in &addrs {
        release(&mut allocator, &mut pages, a, size);
    }
    assert_eq!(all_regions(&allocator), vec![0, 0, 0, 0]);
    assert!(pages.mapped.is_empty());
}

#[test]
fn interleaved_allocs_and_deallocs_empty_buckets() {
    let mut allocator = MmapAllocator::with_default_config();
    let mut pages = Pages::new();
    for size in [16usize, 256, 1024, 2048, 4096, 8192] {
        for round in 0..20 {
            let a = serve(&mut allocator, &mut pages, size);
            pages.fill(a, size, round as u8);
            assert!(pages.holds(a, size, round as u8));
            release(&mut allocator, &mut pages, a, size);
        }
    }
    assert_eq!(all_regions(&allocator), vec![0, 0, 0, 0]);
}

#[test]
fn live_allocations_never_overlap() {
    let mut allocator = MmapAllocator::with_default_config();
    let mut pages = Pages::new();
    let sizes = [1usize, 16, 100, 128, 129, 1000, 1024, 5000, 8192, 9000, 20000, 3];
    let mut live: Vec<(usize, usize)> = Vec::new();
    for round in 0..3 {
        for &s in &sizes {
            let a = serve(&mut allocator, &mut pages, s + round);
            live.push((a, s + round));
        }
    }
    for (i, &(a, s)) in live.iter().enumerate() {
        assert_eq!(a % 16, 0);
        for &(b, t) in &live[i + 1..] {
            assert!(a + s <= b || b + t <= a, "{a}+{s} meets {b}+{t}");
        }
    }
    for (i, &(a, s)) in live.iter().enumerate() {
        pages.fill(a, s, i as u8);
    }
    for (i, &(a, s)) in live.iter().enumerate() {
        assert!(pages.holds(a, s, i as u8));
    }
    for &(a, s) in &live {
        release(&mut allocator, &mut pages, a, s);
    }
    assert_eq!(all_regions(&allocator), vec![0, 0, 0, 0]);
}

#[test]
fn size_class_routing() {
    let allocator = MmapAllocator::with_default_config();
    assert_eq!(allocator.bucket_for(1), 0);
    assert_eq!(allocator.bucket_for(128), 0);
    assert_eq!(allocator.bucket_for(129), 1);
    assert_eq!(allocator.bucket_for(1024), 1);
    assert_eq!(allocator.bucket_for(1025), 2);
    assert_eq!(allocator.bucket_for(8192), 2);
    assert_eq!(allocator.bucket_for(8193), 3);
    assert_eq!(allocator.bucket_for(usize::MAX), 3);
}

#[test]
fn region_reclaimed_after_single_object() {
    let mut allocator = MmapAllocator::with_default_config();
    let mut pages = Pages::new();
    let a = serve(&mut allocator, &mut pages, 500);
    assert_eq!(all_regions(&allocator), vec![0, 1, 0, 0]);
    release(&mut allocator, &mut pages, a, 500);
    assert_eq!(all_regions(&allocator), vec![0, 0, 0, 0]);
    assert!(pages.mapped.is_empty());
}

#[test]
fn three_blocks_freed_in_any_order_release_the_region() {
    let orders = [[0, 1, 2], [0, 2, 1], [1, 0, 2], [1, 2, 0], [2, 0, 1], [2, 1, 0]];
    for order in orders {
        let mut allocator = MmapAllocator::with_default_config();
        let mut pages = Pages::new();
        let addrs: Vec<usize> = (0..3).map(|_| serve(&mut allocator, &mut pages, 64)).collect();
        assert_eq!(all_regions(&allocator), vec![1, 0, 0, 0]);
        for (k, &i) in order.iter().enumerate() {
            release(&mut allocator, &mut pages, addrs[i], 64);
            let expected = if k < 2 { 1 } else { 0 };
            assert_eq!(allocator.region_count(0), expected);
        }
        assert!(pages.mapped.is_empty());
    }
}

#[test]
fn allocate_then_free_restores_state() {
    let mut allocator = MmapAllocator::with_default_config();
    let mut pages = Pages::new();
    let keep = serve(&mut allocator, &mut pages, 100);
    let before = all_regions(&allocator);
    let a = serve(&mut allocator, &mut pages, 40);
    release(&mut allocator, &mut pages, a, 40);
    assert_eq!(all_regions(&allocator), before);
    // The same block is found again: the free space was merged back.
    let b = serve(&mut allocator, &mut pages, 40);
    assert_eq!(a, b);
    release(&mut allocator, &mut pages, b, 40);
    release(&mut allocator, &mut pages, keep, 100);
    assert_eq!(all_regions(&allocator), vec![0, 0, 0, 0]);
}

#[test]
fn first_fit_reuses_freed_block_and_splits() {
    let mut allocator = MmapAllocator::with_default_config();
    let mut pages = Pages::new();
    let a = serve(&mut allocator, &mut pages, 100);
    let b = serve(&mut allocator, &mut pages, 100);
    // 100 bytes round up to 112, after a header of 48.
    assert_eq!(b, a + 112 + 48);
    let region = a - 48 - 48;
    assert_eq!(region % PAGE_SIZE, 0);
    release(&mut allocator, &mut pages, a, 100);
    let c = serve(&mut allocator, &mut pages, 16);
    assert_eq!(c, a);
    assert_eq!(allocator.region_count(0), 1);
}

#[test]
fn unsupported_requests_are_refused() {
    let mut allocator = MmapAllocator::with_default_config();
    assert!(matches!(allocator.allocate(64, 32), Step::Refused));
    assert!(matches!(allocator.allocate(64, 3), Step::Refused));
    assert!(matches!(allocator.allocate(usize::MAX, 8), Step::Refused));
    assert!(matches!(allocator.allocate(usize::MAX - 100, 8), Step::Refused));
    assert!(matches!(allocator.allocate(64, 16), Step::MapRegion(4096)));
    assert!(matches!(allocator.allocate(8192, 1), Step::MapRegion(12288)));
}

#[test]
fn bad_mappings_are_refused() {
    let mut allocator = MmapAllocator::with_default_config();
    assert_eq!(allocator.allocate_in_new_region(64, 8, 4096 + 8, 4096), None);
    assert_eq!(allocator.allocate_in_new_region(64, 8, 4096, 4000), None);
    assert_eq!(allocator.allocate_in_new_region(8000, 8, 4096, 4096), None);
    assert_eq!(allocator.allocate_in_new_region(64, 32, 4096, 4096), None);
    assert_eq!(allocator.allocate_in_new_region(64, 8, 4096, 4096), Some(4096 + 96));
    // Overlapping a region held by another bucket.
    assert_eq!(allocator.allocate_in_new_region(2000, 8, 4096, 8192), None);
    assert_eq!(allocator.allocate_in_new_region(2000, 8, 8192, 8192), Some(8192 + 96));
}

#[test]
fn unknown_address_changes_nothing() {
    let mut allocator = MmapAllocator::with_default_config();
    let mut pages = Pages::new();
    let a = serve(&mut allocator, &mut pages, 64);
    assert_eq!(allocator.deallocate(a + 16, 64), None);
    assert_eq!(allocator.deallocate(3, 64), None);
    // Wrong size class: looked up in another bucket.
    assert_eq!(allocator.deallocate(a, 5000), None);
    assert_eq!(all_regions(&allocator), vec![1, 0, 0, 0]);
    release(&mut allocator, &mut pages, a, 64);
    // A second free of the same address finds nothing.
    assert_eq!(allocator.deallocate(a, 64), None);
}

#[test]
fn custom_bucket_sizes() {
    let allocator = MmapAllocator::with_bucket_sizes(vec![32, 64]);
    assert_eq!(allocator.class_count(), 2);
    assert_eq!(allocator.bucket_for(33), 1);
    assert_eq!(allocator.bucket_for(65), 2);
}

#[test]
fn default_matches_default_config() {
    let allocator = MmapAllocator::default();
    assert_eq!(allocator.class_count(), 3);
    assert_eq!(allocator.bucket_for(1024), 1);
    assert_eq!(all_regions(&allocator), vec![0, 0, 0, 0]);
}
