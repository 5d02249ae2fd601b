//! Per-hart trap-frame model and `satp` encoding.
//!
//! The trap frame is the save area that the trap entry code fills with the
//! 32 general-purpose and 32 floating-point register slots, the active
//! `satp`, a kernel stack pointer and the hart id. Registers and physical
//! addresses are modelled as plain 64-bit words.

use vstd::prelude::*;

verus! {

/// Register save area for one hart. `mscratch` points at this structure
/// while the kernel runs; the trap entry code spills registers into it.
pub struct TrapFrame {
    /// The 32 general-purpose register slots (x0..x31).
    pub regs: Vec<u64>,
    /// The 32 floating-point register slots, held as raw bit patterns.
    pub fregs: Vec<u64>,
    /// The `satp` value to restore for this hart.
    pub satp: u64,
    /// Top of the kernel stack used while handling a trap.
    pub stack: u64,
    /// Hart id.
    pub hartid: u64,
}

impl TrapFrame {
    /// A trap frame is well formed when both register files have their
    /// full 32 slots.
    pub open spec fn wf(&self) -> bool {
        &&& self.regs@.len() == 32
        &&& self.fregs@.len() == 32
    }

    /// A fresh, all-zero trap frame.
    pub fn zero() -> (r: TrapFrame)
        ensures
            r.wf(),
            forall|i: int| 0 <= i < 32 ==> r.regs@[i] == 0,
            forall|i: int| 0 <= i < 32 ==> r.fregs@[i] == 0,
            r.satp == 0,
            r.stack == 0,
            r.hartid == 0,
    {
        let mut regs: Vec<u64> = Vec::new();
        let mut fregs: Vec<u64> = Vec::new();
        let mut i: usize = 0;
        while i < 32
            invariant
                i <= 32,
                regs@.len() == i,
                fregs@.len() == i,
                forall|j: int| 0 <= j < i ==> regs@[j] == 0,
                forall|j: int| 0 <= j < i ==> fregs@[j] == 0,
            decreases 32 - i,
        {
            regs.push(0);
            fregs.push(0);
            i = i + 1;
        }
        TrapFrame { regs, fregs, satp: 0, stack: 0, hartid: 0 }
    }
}

/// Paging mode selector stored in the top four bits of `satp`.
pub enum SatpMode {
    Off,
    Sv39,
    Sv48,
}

impl SatpMode {
    /// The numeric encoding of the mode field.
    pub open spec fn spec_value(&self) -> u64 {
        match self {
            SatpMode::Off => 0,
            SatpMode::Sv39 => 8,
            SatpMode::Sv48 => 9,
        }
    }

    /// Numeric value of the mode field as the hardware encodes it.
    #[verifier::when_used_as_spec(spec_value)]
    pub fn value(&self) -> (r: u64)
        ensures
            r == self.spec_value(),
    {
        match self {
            SatpMode::Off => 0,
            SatpMode::Sv39 => 8,
            SatpMode::Sv48 => 9,
        }
    }
}

/// The `satp` encoding: mode in bits 63..60, ASID in bits 59..44, and the
/// root-table physical page number (the address shifted right by 12) in
/// the low 44 bits.
pub open spec fn spec_build_satp(mode_val: u64, asid: u16, addr: u64) -> u64 {
    mode_val << 60 | (asid as u64) << 44 | (addr >> 12) & 0xff_ffff_ffff
}

/// Build a `satp` value from a paging mode, an address-space id and the
/// physical address of the root page table. The ensures also spell out
/// that the three fields can be read back from the packed word.
pub fn build_satp(mode: SatpMode, asid: u16, addr: u64) -> (r: u64)
    ensures
        r == spec_build_satp(mode.spec_value(), asid, addr),
        r >> 60 == mode.spec_value(),
        r >> 44 & 0xffff == asid,
        r & 0xfff_ffff_ffff == (addr >> 12) & 0xff_ffff_ffff,
{
    let m = mode.value();
    let r = m << 60 | (asid as u64) << 44 | (addr >> 12) & 0xff_ffff_ffff;
    proof {
        assert((m == 0 || m == 8 || m == 9)
            ==> ((m << 60 | (asid as u64) << 44 | (addr >> 12) & 0xff_ffff_ffff) >> 60 == m
                && (m << 60 | (asid as u64) << 44 | (addr >> 12) & 0xff_ffff_ffff) >> 44 & 0xffff
                    == asid
                && (m << 60 | (asid as u64) << 44 | (addr >> 12) & 0xff_ffff_ffff)
                    & 0xfff_ffff_ffff == (addr >> 12) & 0xff_ffff_ffff)) by (bit_vector);
    }
    r
}

} // verus!
