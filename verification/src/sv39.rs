//! Sv39 page-table entry bit layout.
//!
//! An entry is a 64-bit word: bit 0 valid, bits 1..3 the read, write and
//! execute permissions (any of them set makes the entry a leaf), bits
//! 4..7 user, global, accessed and dirty, and the physical page number in
//! bits 10..53. The top 27 bits of a virtual address split into three
//! 9-bit virtual page numbers, one slot index per table level.

use vstd::prelude::*;

verus! {

/// Entry bit: the entry is present.
pub const VALID: u64 = 1;

/// Entry bit: readable leaf.
pub const READ: u64 = 2;

/// Entry bit: writable leaf.
pub const WRITE: u64 = 4;

/// Entry bit: executable leaf.
pub const EXECUTE: u64 = 8;

/// Entry bit: accessible from user mode.
pub const USER: u64 = 16;

/// Entry bit: global mapping.
pub const GLOBAL: u64 = 32;

/// Entry bit: accessed.
pub const ACCESS: u64 = 64;

/// Entry bit: dirty.
pub const DIRTY: u64 = 128;

/// Read and write permission.
pub const READ_WRITE: u64 = 6;

/// Read and execute permission.
pub const READ_EXECUTE: u64 = 10;

/// All three leaf permissions (read, write and execute combined).
pub const RWE: u64 = 14;

/// The entry is present.
pub open spec fn e_valid(e: u64) -> bool {
    e & VALID != 0
}

/// The entry is a leaf: at least one of read, write, execute is set.
/// An entry that is valid and not a leaf points to the next-level table.
pub open spec fn e_leaf(e: u64) -> bool {
    e & RWE != 0
}

/// Physical address packed into the entry: the PPN sits in bits 10..53,
/// so the address is the entry with its ten flag bits cleared, shifted
/// left by two.
pub open spec fn e_phys(e: u64) -> u64 {
    (e & !0x3ff) << 2
}

/// The 9-bit virtual page number that selects the slot at table level
/// `lvl` (level 2 is the root).
pub open spec fn spec_vpn(va: u64, lvl: int) -> u64 {
    (va >> ((12 + 9 * lvl) as u64)) & 0x1ff
}

/// A virtual page number always selects one of the 512 slots.
pub broadcast proof fn lemma_vpn_bound(va: u64, lvl: int)
    ensures
        #[trigger] spec_vpn(va, lvl) < 512,
{
    let sh = (12 + 9 * lvl) as u64;
    assert((va >> sh) & 0x1ff < 512) by (bit_vector);
}

/// Offset mask of a leaf at level `lvl`: the low `12 + 9 * lvl` bits of
/// the virtual address pass through to the physical address.
pub open spec fn lvl_mask(lvl: int) -> u64 {
    ((1u64 << ((12 + 9 * lvl) as u64)) - 1) as u64
}

/// `va` and `va2` select the same table slots from level `lvl` down to
/// level `level`: mapping one therefore maps the other up to the offset
/// mask.
pub open spec fn same_path(va2: u64, va: u64, level: int, lvl: int) -> bool {
    forall|l: int| level <= l <= lvl ==> spec_vpn(va2, l) == spec_vpn(va, l)
}

/// The three virtual page numbers of two addresses in the same page
/// agree, and the page offset passes through. Spelled out for the
/// bit-vector solver.
pub open spec fn same_path_off(va2: u64, va: u64) -> bool {
    &&& (va2 >> 12) & 0x1ff == (va >> 12) & 0x1ff
    &&& (va2 >> 21) & 0x1ff == (va >> 21) & 0x1ff
    &&& (va2 >> 30) & 0x1ff == (va >> 30) & 0x1ff
}

/// The leaf entry `map` writes: valid, a leaf exactly because `bits`
/// holds a permission, and carrying `paddr` in its PPN field.
pub proof fn lemma_leaf_entry_bits(paddr: u64, bits: u64, e: u64)
    requires
        paddr % crate::page::PAGE_SIZE == 0,
        bits & RWE != 0,
        bits < 1024,
        e == (paddr >> 2) | bits | VALID,
    ensures
        e_valid(e),
        e_leaf(e),
        e_phys(e) == paddr,
{
    assert(e & 1 != 0 && e & 0xe != 0 && ((e & !0x3ff) << 2) == paddr) by (bit_vector)
        requires
            e == (paddr >> 2) | bits | 1,
            paddr % 4096 == 0,
            bits & 0xe != 0,
            bits < 1024,
    ;
}

/// A fresh interior entry is valid and not a leaf.
pub proof fn lemma_interior_entry_bits(phys: u64, e: u64)
    requires
        e == (phys >> 2) | VALID,
        phys % crate::page::PAGE_SIZE == 0,
    ensures
        e_valid(e),
        !e_leaf(e),
        e_phys(e) == phys,
    {
    assert(e & 1 != 0 && e & 0xe == 0 && ((e & !0x3ff) << 2) == phys) by (bit_vector)
        requires
            e == (phys >> 2) | 1,
            phys % 4096 == 0,
    ;
}


/// Two addresses below the Sv39 limit that agree on all three virtual
/// page numbers lie in the same 4 KiB page.
pub proof fn lemma_not_same_path(va2: u64, va: u64)
    requires
        va2 < (1u64 << 39),
        va < (1u64 << 39),
        va % 4096 == 0,
        va2 & !0xfff != va,
    ensures
        !same_path(va2, va, 0, 2),
{
    assert(!((va2 >> 12) & 0x1ff == (va >> 12) & 0x1ff && (va2 >> 21) & 0x1ff == (va >> 21) & 0x1ff
        && (va2 >> 30) & 0x1ff == (va >> 30) & 0x1ff)) by (bit_vector)
        requires
            va2 < (1u64 << 39),
            va < (1u64 << 39),
            va % 4096 == 0,
            va2 & !0xfff != va,
    ;
    if same_path(va2, va, 0, 2) {
        assert(spec_vpn(va2, 0) == spec_vpn(va, 0));
        assert(spec_vpn(va2, 1) == spec_vpn(va, 1));
        assert(spec_vpn(va2, 2) == spec_vpn(va, 2));
    }
}


/// The Sv39 virtual address limit as a shift.
pub proof fn lemma_sv39_limit()
    ensures
        1u64 << 39 == 0x80_0000_0000,
{
    assert(1u64 << 39 == 0x80_0000_0000) by (bit_vector);
}

/// Page-floor facts: clearing the offset bits never grows an address,
/// lands on a page boundary, and discards less than one page.
pub proof fn lemma_floor_facts(a: u64)
    ensures
        a & !0xfffu64 <= a,
        (a & !0xfffu64) % 4096 == 0,
        a - (a & !0xfffu64) < 4096,
{
    assert(a & !0xfffu64 <= a && (a & !0xfffu64) % 4096 == 0 && a - (a & !0xfffu64) < 4096)
        by (bit_vector);
}

/// The page of an offset address: within the first page the floor is the
/// base itself, within the second it is the next page boundary.
pub proof fn lemma_page_floor(base: u64, off: u64)
    requires
        base % 4096 == 0,
        off < 8192,
        base <= u64::MAX - 4096,
    ensures
        off < 4096 ==> (base + off) as u64 & !0xfffu64 == base,
        4096 <= off ==> (base + off) as u64 & !0xfffu64 == (base + 4096) as u64,
        base + off <= u64::MAX,
{
    assert((off < 4096 ==> (base + off) as u64 & !0xfffu64 == base) && (4096 <= off ==> (base
        + off) as u64 & !0xfffu64 == (base + 4096) as u64) && base + off <= u64::MAX)
        by (bit_vector)
        requires
            base % 4096 == 0,
            off < 8192,
            base <= u64::MAX - 4096,
    ;
}

} // verus!
