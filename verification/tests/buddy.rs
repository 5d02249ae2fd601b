use kcore::kmem::{BuddyMeta, Kmem, KmemAllocator};
use kcore::page::{Pmem, PAGE_SIZE};

fn fresh_kmem() -> (Pmem, Kmem) {
    let mut pm = Pmem::init(0x8000_0000, 200 * PAGE_SIZE);
    let km = Kmem::init(&mut pm);
    (pm, km)
}

#[test]
fn kmem_init_layout() {
    let (_pm, km) = fresh_kmem();
    // Metadata page at the start of the heap allocation, arena one page
    // later, 65 pages in total, root table page right behind them.
    assert_eq!(km.get_head(), 0x8000_1000);
    assert_eq!(km.data_start(), 0x8000_2000);
    assert_eq!(km.get_allocations(), 65);
    // The tree starts as a single free leaf of level 0.
    assert!(km.meta().access(0).leaf());
    assert_eq!(km.meta().access(0).get_level(), 0);
}

#[test]
fn buddy_scenario_two_small_blocks() {
    // kmalloc(7) returns the arena base; a second kmalloc(7) returns the
    // buddy 128 bytes later; freeing both coalesces the tree completely.
    let (_pm, mut km) = fresh_kmem();
    let data_start = km.data_start();
    let a = km.kmalloc(7);
    assert_eq!(a, data_start);
    let b = km.kmalloc(7);
    assert_eq!(b, data_start + 128);
    km.kfree(a);
    km.kfree(b);
    assert!(km.meta().access(0).leaf());
    assert_eq!(km.meta().access(0).get_level(), 0);
}

#[test]
fn buddy_address_index_round_trip() {
    // For every block kmalloc has handed out, converting the address to
    // its node index and back is the identity.
    let (_pm, mut km) = fresh_kmem();
    let data_start = km.data_start();
    let mut addrs: Vec<u64> = Vec::new();
    for pow in [7usize, 7, 8, 10, 12, 7] {
        addrs.push(km.kmalloc(pow));
    }
    for &addr in &addrs {
        let idx = km.meta().addr_to_index(data_start, addr);
        assert_eq!(km.meta().index_to_addr(data_start, idx), addr);
    }
}

#[test]
fn buddy_summary_invariant_holds_after_every_call() {
    // After every kmalloc and kfree, each interior node carries the
    // parent tag and the minimum of its children's levels.
    let (_pm, mut km) = fresh_kmem();
    let mut addrs: Vec<u64> = Vec::new();
    for pow in [7usize, 9, 8, 7, 11] {
        addrs.push(km.kmalloc(pow));
        check_summaries(&km);
    }
    for &a in &addrs {
        km.kfree(a);
        check_summaries(&km);
    }
}

fn check_summaries(km: &Kmem) {
    let meta = km.meta();
    for i in 0..4095usize {
        let node = meta.access(i);
        if node.parent() {
            let l = meta.access(2 * i + 1).get_level();
            let r = meta.access(2 * i + 2).get_level();
            let min = if l <= r { l } else { r };
            assert_eq!(node.get_level(), min);
        }
    }
}

#[test]
fn buddy_full_cycle_coalesces_to_initial_state() {
    // Allocating every smallest leaf and freeing them all leaves the
    // tree in its initial state: a free root leaf of level 0.
    let (_pm, mut km) = fresh_kmem();
    let mut addrs: Vec<u64> = Vec::new();
    for _ in 0..2048 {
        addrs.push(km.kmalloc(7));
    }
    for &a in &addrs {
        km.kfree(a);
    }
    assert!(km.meta().access(0).leaf());
    assert_eq!(km.meta().access(0).get_level(), 0);
}

#[test]
fn buddy_index_arithmetic() {
    assert_eq!(BuddyMeta::largest(), 262144);
    assert_eq!(BuddyMeta::get_parent(5), 2);
    assert_eq!(BuddyMeta::get_left(2), 5);
    assert_eq!(BuddyMeta::get_right(2), 6);
    assert_eq!(BuddyMeta::get_buddy(5), 6);
    assert_eq!(BuddyMeta::get_buddy(6), 5);
    assert_eq!(BuddyMeta::get_level(0), 0);
    assert_eq!(BuddyMeta::get_level(1), 1);
    assert_eq!(BuddyMeta::get_level(2), 1);
    assert_eq!(BuddyMeta::get_level(3), 2);
    assert_eq!(BuddyMeta::get_level(4094), 11);
}

#[test]
fn buddy_blocks_are_aligned_and_disjoint() {
    let (_pm, mut km) = fresh_kmem();
    let data_start = km.data_start();
    let a = km.kmalloc(10);
    let b = km.kmalloc(10);
    let c = km.kmalloc(12);
    assert_eq!((a - data_start) % 1024, 0);
    assert_eq!((b - data_start) % 1024, 0);
    assert_eq!((c - data_start) % 4096, 0);
    // Disjoint ranges.
    assert!(a + 1024 <= b || b + 1024 <= a);
    assert!(a + 1024 <= c || c + 4096 <= a);
    assert!(b + 1024 <= c || c + 4096 <= b);
}

#[test]
fn allocator_surface_rounds_sizes_up() {
    let mut ga = KmemAllocator::new();
    // Before a heap is installed, allocation yields null.
    assert_eq!(ga.allocate(64), 0);
    let (_pm, km) = fresh_kmem();
    let data_start = km.data_start();
    ga.install(km);
    // A one-byte request takes the smallest block; a 200-byte request
    // rounds up to 256.
    let a = ga.allocate(1);
    assert_eq!(a, data_start);
    let b = ga.allocate(200);
    assert_eq!((b - data_start) % 256, 0);
    let c = ga.allocate(4096);
    assert_eq!((c - data_start) % 4096, 0);
    ga.deallocate(b);
    let b2 = ga.allocate(129);
    assert_eq!(b2, b);
}
