use kcore::kmem::{Kmem, KernelLayout};
use kcore::page::{PageBits, Pmem, Table, PAGE_SIZE};
use kcore::sv39::READ_WRITE;
use kcore::process::Process;

#[test]
fn mmu_scenario_map_then_walk() {
    // map(root, pmem, 0x8000_5000, 0x8000_5000, R|W, 0) makes
    // virt_to_phys(root, 0x8000_5abc) yield 0x8000_5abc.
    let mut pm = Pmem::init(0x8000_0000, 64 * PAGE_SIZE);
    let mut root = Table::new();
    Table::map(&mut root, &mut pm, 0x8000_5000, 0x8000_5000, READ_WRITE, 0);
    assert_eq!(Table::virt_to_phys(&root, 0x8000_5abc), Some(0x8000_5abc));
}

#[test]
fn mmu_round_trip_and_offsets() {
    // A page-aligned mapping answers for every offset within the page,
    // and an unmapped address stays None.
    let mut pm = Pmem::init(0x8000_0000, 64 * PAGE_SIZE);
    let mut root = Table::new();
    assert_eq!(Table::virt_to_phys(&root, 0x4000_0000), None);
    Table::map(&mut root, &mut pm, 0x4000_0000, 0x8040_0000, READ_WRITE, 0);
    for off in [0u64, 1, 0x7ff, 0xfff] {
        assert_eq!(
            Table::virt_to_phys(&root, 0x4000_0000 + off),
            Some(0x8040_0000 + off)
        );
    }
    // Another page of the same table stays unmapped.
    assert_eq!(Table::virt_to_phys(&root, 0x4000_1000), None);
    // A later mapping does not disturb the first one.
    Table::map(&mut root, &mut pm, 0x4000_1000, 0x8041_0000, READ_WRITE, 0);
    assert_eq!(Table::virt_to_phys(&root, 0x4000_0abc), Some(0x8040_0abc));
    assert_eq!(Table::virt_to_phys(&root, 0x4000_1abc), Some(0x8041_0abc));
}

fn test_layout() -> KernelLayout {
    KernelLayout {
        heap_desc_start: 0x8000_0000,
        heap_desc_end: 0x8000_0190,
        text_start: 0x8020_0000,
        text_end: 0x8020_4000,
        rodata_start: 0x8020_4000,
        rodata_end: 0x8020_6000,
        data_start: 0x8020_6000,
        data_end: 0x8020_8000,
        bss_start: 0x8020_8000,
        bss_end: 0x8020_a000,
        stack_start: 0x8020_a000,
        stack_end: 0x8020_e000,
        trap_stack_start: 0x8020_e000,
        trap_stack_end: 0x8020_f000,
        trap_frame_start: 0x8020_f000,
        trap_frame_end: 0x8020_f220,
    }
}

#[test]
fn identity_map_scenario_uart_byte() {
    // After id_map_kernel the UART window is identity mapped:
    // virt_to_phys(root, 0x1000_0005) yields 0x1000_0005.
    let mut pm = Pmem::init(0x8000_0000, 400 * PAGE_SIZE);
    let mut km = Kmem::init(&mut pm);
    let layout = test_layout();
    km.id_map_kernel(&mut pm, &layout);
    assert_eq!(
        Table::virt_to_phys(km.get_root(), 0x1000_0005),
        Some(0x1000_0005)
    );
}

#[test]
fn identity_map_covers_kernel_regions() {
    // Every byte of the image regions, the heap, the descriptor table
    // and the PLIC windows translates to itself.
    let mut pm = Pmem::init(0x8000_0000, 400 * PAGE_SIZE);
    let mut km = Kmem::init(&mut pm);
    let layout = test_layout();
    km.id_map_kernel(&mut pm, &layout);
    let heap_start = km.get_head();
    let probes = [
        heap_start,
        heap_start + 65 * PAGE_SIZE - 1,
        layout.heap_desc_start,
        layout.text_start,
        layout.text_end - 1,
        layout.rodata_start + 5,
        layout.data_start + 0x100,
        layout.bss_end - 1,
        layout.stack_start,
        layout.trap_stack_start + 8,
        layout.trap_frame_start + 16,
        0x1000_0000,
        0x1000_000f,
        0xc00_0000,
        0xc00_2000,
        0xc20_0000,
        0xc20_0004,
    ];
    let root = km.get_root();
    for &a in &probes {
        assert_eq!(Table::virt_to_phys(root, a), Some(a));
    }
}

#[test]
fn process_maps_entry_and_stack() {
    let mut pm = Pmem::init(0x8000_0000, 64 * PAGE_SIZE);
    let func = 0x8020_0a54u64;
    let mut p = Process::new(&mut pm, func, 3);
    assert_eq!(p.get_pid(), 3);
    assert_eq!(p.get_pc(), 0x2000_0000 | 0xa54);
    assert_eq!(p.get_sleep_until(), 0);
    // The stack pointer starts at the top of the two stack pages.
    assert_eq!(p.get_frame().regs[2], 0xf_0000_0000 + 2 * PAGE_SIZE);
    let table = p.get_table();
    // The entry pages map read-execute-user onto the function's pages.
    assert_eq!(
        Table::virt_to_phys(table, 0x2000_0a54),
        Some(0x8020_0a54)
    );
    assert_eq!(
        Table::virt_to_phys(table, 0x2000_1000),
        Some(0x8020_1000)
    );
    // The stack maps to two consecutive physical pages.
    let s0 = Table::virt_to_phys(table, 0xf_0000_0000).unwrap();
    let s1 = Table::virt_to_phys(table, 0xf_0000_1000).unwrap();
    assert_eq!(s0 % PAGE_SIZE, 0);
    assert_eq!(s1, s0 + PAGE_SIZE);
    // Offsets pass through.
    assert_eq!(
        Table::virt_to_phys(table, 0xf_0000_0123),
        Some(s0 + 0x123)
    );
}

#[test]
fn unmap_returns_every_table_page() {
    // Build a few single-page mappings onto allocator-owned frames, then
    // tear the table down: every frame the tree touched comes back and
    // nothing stays mapped.
    let mut pm = Pmem::init(0x8000_0000, 64 * PAGE_SIZE);
    let mut root = Table::new();
    let target1 = pm.zalloc(1);
    let target2 = pm.zalloc(1);
    Table::map(&mut root, &mut pm, 0x4000_0000, target1.physical(), READ_WRITE, 0);
    Table::map(&mut root, &mut pm, 0x5000_0000, target2.physical(), READ_WRITE, 0);
    assert!(Table::virt_to_phys(&root, 0x4000_0000).is_some());
    root.unmap(&mut pm);
    assert_eq!(Table::virt_to_phys(&root, 0x4000_0000), None);
    assert_eq!(Table::virt_to_phys(&root, 0x5000_0000), None);
    // Intermediate tables and the two target pages are all free again.
    for p in pm.descriptors() {
        assert_eq!(p.flags, PageBits::Empty);
    }
}
