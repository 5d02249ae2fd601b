use kcore::page::{PageBits, Pmem, PAGE_SIZE};

fn fresh_pmem(pages: u64) -> Pmem {
    Pmem::init(0x8000_0000, pages * PAGE_SIZE)
}

fn count_allocated(pm: &Pmem) -> usize {
    pm.descriptors().iter().filter(|p| p.flags != PageBits::Empty).count()
}

#[test]
fn pmem_init_all_empty() {
    let pm = fresh_pmem(200);
    assert_eq!(pm.descriptors().len(), 200);
    for p in pm.descriptors() {
        assert_eq!(p.flags, PageBits::Empty);
    }
}

#[test]
fn pmem_scenario_alloc_dealloc_realloc() {
    // Heap of N pages: alloc(2) takes frames [0, 1] at alloc_start,
    // alloc(64) takes [2..65], alloc(3) takes [66, 67, 68]; freeing the
    // third leaves 66..68 empty and a fourth alloc(3) reuses them.
    let mut pm = fresh_pmem(200);
    let alloc_start = {
        // Descriptor table of 200 bytes starting at 0x8000_0000 rounds
        // up to the next page boundary.
        0x8000_1000u64
    };
    let a = pm.allocate(2);
    assert!(a.available());
    assert_eq!(a.physical(), alloc_start);
    assert_eq!(pm.descriptors()[0].flags, PageBits::Taken);
    assert_eq!(pm.descriptors()[1].flags, PageBits::Last);

    let b = pm.allocate(64);
    assert!(b.available());
    assert_eq!(b.physical(), alloc_start + 2 * PAGE_SIZE);
    assert_eq!(pm.descriptors()[2].flags, PageBits::Taken);
    assert_eq!(pm.descriptors()[65].flags, PageBits::Last);

    let c = pm.allocate(3);
    assert!(c.available());
    assert_eq!(c.physical(), alloc_start + 66 * PAGE_SIZE);
    assert_eq!(pm.descriptors()[66].flags, PageBits::Taken);
    assert_eq!(pm.descriptors()[67].flags, PageBits::Taken);
    assert_eq!(pm.descriptors()[68].flags, PageBits::Last);

    pm.dealloc(c);
    for i in 66..=68 {
        assert_eq!(pm.descriptors()[i].flags, PageBits::Empty);
    }

    let d = pm.allocate(3);
    assert!(d.available());
    assert_eq!(d.physical(), alloc_start + 66 * PAGE_SIZE);
}

#[test]
fn pmem_round_trip_restores_empty_heap() {
    // Allocating any run and freeing it returns the heap to all-empty.
    for n in [1usize, 2, 7, 50] {
        let mut pm = fresh_pmem(128);
        let a = pm.allocate(n);
        assert!(a.available());
        assert_eq!(a.physical() % PAGE_SIZE, 0);
        assert!(a.physical() >= 0x8000_1000);
        assert!(a.physical() < 0x8000_1000 + 128 * PAGE_SIZE);
        assert_eq!(count_allocated(&pm), n);
        pm.dealloc(a);
        assert_eq!(count_allocated(&pm), 0);
    }
}

#[test]
fn pmem_packing_no_overlap() {
    // A run of allocations without frees claims exactly the sum of the
    // requested frames, without overlap.
    let mut pm = fresh_pmem(100);
    let sizes = [3usize, 1, 5, 2];
    let mut claimed = 0;
    let mut starts: Vec<u64> = Vec::new();
    for &n in &sizes {
        let a = pm.allocate(n);
        assert!(a.available());
        starts.push(a.physical());
        claimed += n;
        assert_eq!(count_allocated(&pm), claimed);
    }
    // Runs are consecutive and disjoint.
    for w in starts.windows(2) {
        assert!(w[0] < w[1]);
    }
}

#[test]
fn pmem_out_of_memory_returns_sentinel() {
    // A second 10-page request does not fit in the 6 frames a 16-page
    // heap has left: the sentinel comes back and nothing changes.
    let mut pm = fresh_pmem(16);
    let a = pm.allocate(10);
    assert!(a.available());
    let b = pm.allocate(10);
    assert!(!b.available());
    assert_eq!(count_allocated(&pm), 10);
}

#[test]
fn pmem_whole_heap_fits() {
    // A run may end on the very last frame: a single allocation can
    // take every page of the heap, and freeing it empties the heap.
    let mut pm = fresh_pmem(16);
    let a = pm.allocate(16);
    assert!(a.available());
    assert_eq!(count_allocated(&pm), 16);
    pm.dealloc(a);
    assert_eq!(count_allocated(&pm), 0);
}

#[test]
fn pmem_scenario_on_a_minimal_heap() {
    // The allocation battery fits a 69-page heap exactly: the final
    // three-page run ends on the heap's last frame.
    let mut pm = fresh_pmem(69);
    let a = pm.allocate(2);
    assert!(a.available());
    let b = pm.allocate(64);
    assert!(b.available());
    let c = pm.allocate(3);
    assert!(c.available());
    assert_eq!(c.physical(), 0x8000_1000 + 66 * PAGE_SIZE);
    assert_eq!(count_allocated(&pm), 69);
    pm.dealloc(c);
    let d = pm.allocate(3);
    assert!(d.available());
    assert_eq!(d.physical(), 0x8000_1000 + 66 * PAGE_SIZE);
}

#[test]
fn pmem_dealloc_phys_by_address() {
    let mut pm = fresh_pmem(64);
    let a = pm.allocate(4);
    assert!(a.available());
    let addr = a.physical();
    pm.dealloc_phys(addr);
    assert_eq!(count_allocated(&pm), 0);
}
