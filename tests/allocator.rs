use oxiv6_kernel::kalloc::{KernelAllocator, KernelPageAllocator, TinyHeader, HEADER_SIZE};
use oxiv6_kernel::layout::{pgrounddown, pgroundup, PAGE_SIZE};

const END: usize = 0x8040_0000;
const PHYSTOP: usize = 0x8080_0000;

fn brought_up() -> KernelAllocator {
    let mut a = KernelAllocator::new(END, PHYSTOP);
    a.init();
    a
}

fn free_bytes(a: &KernelAllocator) -> usize {
    a.page_allocator().pfree_count()
}

#[test]
fn bringup_free_count() {
    let a = brought_up();
    let page_count = (0x8080_0000 - 0x8040_0000) / 4096;
    assert_eq!(page_count, 1024);
    assert_eq!(free_bytes(&a), 0x8080_0000 - pgroundup(0x8040_0000 + page_count));
    assert_eq!(free_bytes(&a), 1023 * 4096);
    assert_eq!(a.memfree_count(), 1023 * 4096);
}

#[test]
fn page_allocator_init_directly() {
    let mut p = KernelPageAllocator::new(END, PHYSTOP);
    assert_eq!(p.pfree_count(), 0);
    p.init(1024);
    assert_eq!(p.pfree_count(), 1023 * 4096);
    // The frame under the refcount table keeps its reference.
    assert!(p.exactly_one_reference(END));
    assert!(!p.exactly_one_reference(END + 4096));
}

#[test]
fn alloc_dealloc_cycle_lifo() {
    let mut a = brought_up();
    let mut got = Vec::new();
    for _ in 0..4 {
        let p = a.allocate(PAGE_SIZE, PAGE_SIZE).unwrap();
        assert_eq!(p % PAGE_SIZE, 0);
        assert!(!got.contains(&p));
        got.push(p);
    }
    for p in got.iter().rev() {
        a.dealloc(*p, PAGE_SIZE, PAGE_SIZE);
    }
    for p in got.iter() {
        assert_eq!(a.allocate(PAGE_SIZE, PAGE_SIZE), Some(*p));
    }
}

#[test]
fn tiny_split() {
    let mut a = brought_up();
    assert!(a.free_blocks().is_empty());
    let before = free_bytes(&a);
    let r = a.allocate(24, 8).unwrap();
    assert_eq!(free_bytes(&a), before - PAGE_SIZE);
    let page = pgrounddown(r);
    assert_eq!(page, 0x807F_F000);
    assert_eq!(r, page + HEADER_SIZE);
    let free = a.free_blocks();
    assert_eq!(free.len(), 1);
    assert_eq!(
        free[0],
        TinyHeader { addr: page + HEADER_SIZE + 32, size: 4096 - 32 - 2 * HEADER_SIZE }
    );
    assert_eq!(a.live_blocks()[0], TinyHeader { addr: page, size: 32 });
    assert_eq!(a.memfree_count(), before - PAGE_SIZE + 4096 - 32 - 2 * HEADER_SIZE);
}

#[test]
fn tiny_second_request_splits_tail() {
    let mut a = brought_up();
    let r1 = a.allocate(24, 8).unwrap();
    let page = r1 - HEADER_SIZE;
    let r2 = a.allocate(100, 16).unwrap();
    // 100 rounds to 112; the tail of the 4032-byte free block is handed out.
    assert_eq!(r2, page + 48 + 4032 - 112 + HEADER_SIZE);
    assert_eq!(a.free_blocks()[0], TinyHeader { addr: page + 48, size: 4032 - 128 });
    assert_eq!(a.live_blocks()[1], TinyHeader { addr: r2 - HEADER_SIZE, size: 112 });
}

#[test]
fn tiny_exact_fit_unlinks_block() {
    let mut a = brought_up();
    let r1 = a.allocate(32, 16).unwrap();
    a.dealloc(r1, 32, 16);
    // The freed block is the head, of size 32, and is taken whole.
    assert_eq!(a.free_blocks()[0], TinyHeader { addr: r1 - HEADER_SIZE, size: 32 });
    let r2 = a.allocate(20, 4).unwrap();
    assert_eq!(r2, r1);
    assert_eq!(a.free_blocks().len(), 1);
}

#[test]
fn tiny_size_honoring() {
    let mut a = brought_up();
    for s in [0usize, 1, 15, 16, 17, 24, 100, 1000, 4063] {
        let r = a.allocate(s, 8).unwrap();
        assert_eq!(r % 16, 0);
        let header = a.live_blocks().iter().find(|h| h.addr + HEADER_SIZE == r).unwrap();
        assert!(header.size >= (s + 15) / 16 * 16);
    }
}

#[test]
fn tiny_alignment_over_sixteen_refused() {
    let mut a = brought_up();
    assert_eq!(a.allocate(24, 32), None);
    assert!(a.free_blocks().is_empty());
}

#[test]
fn large_requests_use_whole_frames() {
    let mut a = brought_up();
    let p = a.allocate(4064, 8).unwrap();
    assert_eq!(p % PAGE_SIZE, 0);
    let q = a.allocate(8, PAGE_SIZE).unwrap();
    assert_eq!(q % PAGE_SIZE, 0);
    assert_eq!(a.allocate(PAGE_SIZE + 1, 8), None);
    assert_eq!(a.allocate(8, 2 * PAGE_SIZE), None);
    assert!(a.free_blocks().is_empty());
}

#[test]
fn conservation() {
    let mut a = brought_up();
    let initial = free_bytes(&a);
    let p1 = a.allocate(PAGE_SIZE, PAGE_SIZE).unwrap();
    let p2 = a.allocate(PAGE_SIZE, PAGE_SIZE).unwrap();
    let p3 = a.allocate(PAGE_SIZE, PAGE_SIZE).unwrap();
    a.dealloc(p2, PAGE_SIZE, PAGE_SIZE);
    let p4 = a.allocate(PAGE_SIZE, PAGE_SIZE).unwrap();
    a.dealloc(p1, PAGE_SIZE, PAGE_SIZE);
    // 4 allocations, 2 releases.
    assert_eq!(free_bytes(&a), initial - (4 - 2) * PAGE_SIZE);
    a.dealloc(p3, PAGE_SIZE, PAGE_SIZE);
    a.dealloc(p4, PAGE_SIZE, PAGE_SIZE);
    assert_eq!(free_bytes(&a), initial);
}

#[test]
fn uniqueness_and_bounds() {
    let mut a = brought_up();
    let mut live = Vec::new();
    for k in 0..50 {
        let p = a.allocate(PAGE_SIZE, PAGE_SIZE).unwrap();
        assert!(pgroundup(END) <= p && p < PHYSTOP);
        assert_eq!(p % PAGE_SIZE, 0);
        assert!(!live.contains(&p));
        live.push(p);
        if k % 3 == 0 {
            let q = live.remove(0);
            a.dealloc(q, PAGE_SIZE, PAGE_SIZE);
        }
    }
}

#[test]
fn exhaustion_gives_none() {
    let mut a = brought_up();
    for _ in 0..1023 {
        assert!(a.allocate(PAGE_SIZE, PAGE_SIZE).is_some());
    }
    assert_eq!(a.allocate(PAGE_SIZE, PAGE_SIZE), None);
    assert_eq!(a.allocate(24, 8), None);
    assert_eq!(free_bytes(&a), 0);
}

#[test]
fn poisoning() {
    let mut a = brought_up();
    let p = a.allocate(PAGE_SIZE, PAGE_SIZE).unwrap();
    for j in 0..PAGE_SIZE {
        assert_eq!(a.page_allocator().read_byte(p + j), 0x05);
    }
    a.dealloc(p, PAGE_SIZE, PAGE_SIZE);
    for j in 0..PAGE_SIZE {
        assert_eq!(a.page_allocator().read_byte(p + j), 0x01);
    }
}

#[test]
fn zeroed_allocation() {
    let mut a = brought_up();
    let p = a.alloc_zeroed(PAGE_SIZE, PAGE_SIZE).unwrap();
    for j in 0..PAGE_SIZE {
        assert_eq!(a.page_allocator().read_byte(p + j), 0);
    }
}

#[test]
fn refcount_law() {
    let mut a = brought_up();
    let before = free_bytes(&a);
    let p = a.allocate(PAGE_SIZE, PAGE_SIZE).unwrap();
    for _ in 0..3 {
        assert!(a.in_place_copy(p));
    }
    for _ in 0..3 {
        a.dealloc(p, PAGE_SIZE, PAGE_SIZE);
        assert_eq!(free_bytes(&a), before - PAGE_SIZE);
    }
    a.dealloc(p, PAGE_SIZE, PAGE_SIZE);
    assert_eq!(free_bytes(&a), before);
    assert_eq!(a.allocate(PAGE_SIZE, PAGE_SIZE), Some(p));
}

#[test]
fn cow_precursor() {
    let mut a = brought_up();
    let before = free_bytes(&a);
    let p = a.allocate(PAGE_SIZE, PAGE_SIZE).unwrap();
    assert!(a.exactly_one_reference(p));
    assert!(a.in_place_copy(p));
    assert!(!a.exactly_one_reference(p));
    a.dealloc(p, PAGE_SIZE, PAGE_SIZE);
    assert!(a.exactly_one_reference(p));
    a.dealloc(p, PAGE_SIZE, PAGE_SIZE);
    assert_eq!(free_bytes(&a), before);
    assert!(!a.exactly_one_reference(p));
}

#[test]
fn in_place_copy_refusals() {
    let mut a = brought_up();
    let p = a.allocate(PAGE_SIZE, PAGE_SIZE).unwrap();
    // Not the start of a page.
    assert!(!a.in_place_copy(p + 8));
    assert!(!a.exactly_one_reference(p + 8));
    // At the ceiling of a byte.
    for _ in 0..254 {
        assert!(a.in_place_copy(p));
    }
    assert!(!a.in_place_copy(p));
    // A free frame is not shared.
    let mut b = brought_up();
    assert!(!b.in_place_copy(0x8080_0000 - PAGE_SIZE));
}

#[test]
fn realloc_tiny_in_place_and_moved() {
    let mut a = brought_up();
    let r = a.allocate(20, 8).unwrap();
    // The header records 32 bytes: growing to 30 stays in place.
    assert_eq!(a.realloc(r, 20, 8, 30), Some(r));
    let moved = a.realloc(r, 20, 8, 200).unwrap();
    assert_ne!(moved, r);
    assert_eq!(moved % 16, 0);
    // The old block is the head of the free list again.
    assert_eq!(a.free_blocks()[0], TinyHeader { addr: r - HEADER_SIZE, size: 32 });
}

#[test]
fn realloc_copies_contents() {
    let mut a = brought_up();
    let p = a.allocate(PAGE_SIZE, PAGE_SIZE).unwrap();
    let q = a.realloc(p, PAGE_SIZE, PAGE_SIZE, 100).unwrap();
    assert_ne!(p, q);
    // The moved bytes are the poison of the old frame, which is free again.
    assert_eq!(a.page_allocator().read_byte(q), 0x05);
    assert_eq!(a.page_allocator().read_byte(p), 0x01);
}

#[test]
fn realloc_large_shrinks_in_place() {
    let mut a = brought_up();
    let p = a.allocate(4070, 8).unwrap();
    assert_eq!(a.realloc(p, 4070, 8, 4065), Some(p));
    assert_eq!(a.realloc(p, 4070, 8, 5000), None);
}

#[test]
fn page_rounding() {
    assert_eq!(pgroundup(0x8040_0400), 0x8040_1000);
    assert_eq!(pgroundup(0x8040_0000), 0x8040_0000);
    assert_eq!(pgrounddown(0x8040_0fff), 0x8040_0000);
}
