//! User-mode tasks.
//!
//! A process owns a root Sv39 page table, a two-page physical stack, a
//! trap frame, a program counter and a lifecycle state. Its address
//! space maps the entry function's two code pages read-execute-user at
//! `START_ADDR` and the stack read-write-user at `STACK_ADDR`.

use vstd::prelude::*;

use crate::cpu::TrapFrame;
use crate::page::{
    leaf_entry, lemma_no_superpages_path_clear, lemma_tail_after_alloc, translate, IPage, Pmem,
    Table, PAGE_SIZE,
};
use crate::sv39::{e_valid, lemma_leaf_entry_bits, lemma_not_same_path, READ_EXECUTE, READ_WRITE, USER, VALID};

verus! {

/// Pages in a user stack.
pub const STACK_PAGES: u64 = 2;

/// Virtual address a process starts executing at.
pub const START_ADDR: u64 = 0x2000_0000;

/// Virtual address of the bottom of a user stack.
pub const STACK_ADDR: u64 = 0xf_0000_0000;

/// Lifecycle state of a process.
#[derive(Clone, Copy, PartialEq, Eq, Structural, Debug)]
pub enum ProcessState {
    /// Runnable; the scheduler may select it.
    Running,
    /// Asleep until its wake-up time.
    Sleeping,
    /// Waiting on an event.
    Waiting,
    /// Finished; to be reaped.
    Dead,
}

/// A user-mode task.
pub struct Process {
    frame: TrapFrame,
    stack: IPage,
    pc: u64,
    pid: u16,
    root: Table,
    root_phys: u64,
    state: ProcessState,
    sleep_until: u64,
}

impl Process {
    /// The process's saved registers.
    pub closed spec fn spec_frame(&self) -> TrapFrame {
        self.frame
    }

    /// The process's program counter.
    pub closed spec fn spec_pc(&self) -> u64 {
        self.pc
    }

    /// The process's id.
    pub closed spec fn spec_pid(&self) -> u16 {
        self.pid
    }

    /// The process's lifecycle state.
    pub closed spec fn spec_state(&self) -> ProcessState {
        self.state
    }

    /// Cycle count the process sleeps until.
    pub closed spec fn spec_sleep_until(&self) -> u64 {
        self.sleep_until
    }

    /// The process's root page table.
    pub closed spec fn spec_table(&self) -> Table {
        self.root
    }

    /// Physical address of the root page table's page.
    pub closed spec fn spec_root_phys(&self) -> u64 {
        self.root_phys
    }

    /// Physical address of the process stack.
    pub closed spec fn spec_stack_phys(&self) -> u64 {
        self.stack.spec_phys()
    }

    /// A process carries a full trap frame and a well formed root table.
    pub open spec fn wf(&self) -> bool {
        &&& self.spec_frame().wf()
        &&& self.spec_table().wf(2)
        &&& self.spec_table().no_superpages(2)
    }

    /// Build a process around the entry function at physical address
    /// `func`: allocate a two-page stack and a root table from `pmem`,
    /// map the stack read-write-user at `STACK_ADDR`, map the function's
    /// page and the next read-execute-user at `START_ADDR`, point the
    /// program counter at the function's offset within its page, and
    /// start the stack pointer register at the top of the stack.
    pub fn new(pmem: &mut Pmem, func: u64, pid: u16) -> (r: Process)
        requires
            old(pmem).wf(),
            old(pmem).has_tail(12),
            func <= u64::MAX - PAGE_SIZE,
        ensures
            r.wf(),
            final(pmem).wf(),
            final(pmem).start() == old(pmem).start(),
            final(pmem).num_pages() == old(pmem).num_pages(),
            forall|s: int|
                0 <= s && old(pmem).tail_free(s) ==> final(pmem).tail_free(s + 11),
            r.spec_pid() == pid,
            r.spec_state() is Running,
            r.spec_sleep_until() == 0,
            r.spec_pc() == START_ADDR | (func & 0xfff),
            r.spec_frame().regs@[2] == STACK_ADDR + STACK_PAGES * PAGE_SIZE,
            forall|off: u64|
                off < STACK_PAGES * PAGE_SIZE ==> #[trigger] translate(
                    r.spec_table(),
                    (STACK_ADDR + off) as u64,
                ) == Some((r.spec_stack_phys() + off) as u64),
            forall|off: u64|
                off < 2 * PAGE_SIZE ==> #[trigger] translate(
                    r.spec_table(),
                    (START_ADDR + off) as u64,
                ) == Some(((func & !0xfff) + off) as u64),
            forall|off: u64|
                off < STACK_PAGES * PAGE_SIZE ==> #[trigger] leaf_entry(
                    r.spec_table(),
                    (STACK_ADDR + off) as u64,
                ) == (((r.spec_stack_phys() + off) as u64 & !0xfff) >> 2) | (READ_WRITE | USER)
                    | VALID,
            forall|off: u64|
                off < 2 * PAGE_SIZE ==> #[trigger] leaf_entry(
                    r.spec_table(),
                    (START_ADDR + off) as u64,
                ) == ((((func & !0xfff) + off) as u64 & !0xfff) >> 2) | (USER | READ_EXECUTE)
                    | VALID,
    {
        let mut frame = TrapFrame::zero();
        let ghost f0 = pmem.flags();
        let ghost s0 = choose|s: int|
            0 <= s && s + 12 <= old(pmem).num_pages() && old(pmem).tail_free(s);
        let stack = pmem.allocate(2);
        proof {
            if stack.spec_index() == usize::MAX {
                assert(crate::page::fit_at(f0, s0, 2));
                assert(false);
            }
            lemma_tail_after_alloc(f0, stack.spec_index() as int, 2);
            assert(pmem.tail_free(s0 + 2));
        }
        let mut root = Table::new();
        let ghost f1 = pmem.flags();
        let root_page = pmem.zalloc(1);
        proof {
            if root_page.spec_index() == usize::MAX {
                assert(crate::page::fit_at(f1, s0 + 2, 1));
                assert(false);
            }
            lemma_tail_after_alloc(f1, root_page.spec_index() as int, 1);
            assert(pmem.tail_free(s0 + 3));
        }
        frame.regs.set(2, STACK_ADDR + STACK_PAGES * PAGE_SIZE);
        let stack_top = stack.physical();
        proof {
            assert(stack_top % PAGE_SIZE == 0);
            assert(stack_top <= u64::MAX - 2 * PAGE_SIZE) by {
                let si = stack.spec_index() as int;
                let np = old(pmem).num_pages();
                let st = old(pmem).start();
                assert(si + 2 <= np);
                assert(st + si * (PAGE_SIZE as int) + 2 * PAGE_SIZE <= st + np * (
                PAGE_SIZE as int)) by (nonlinear_arith)
                    requires
                        si + 2 <= np,
                        PAGE_SIZE == 4096,
                ;
            }
            assert(0xf_0000_0000u64 % 4096 == 0 && 0x2000_0000u64 % 4096 == 0 && (
            0xf_0000_0000u64 + 4096) as u64 % 4096 == 0 && (0x2000_0000u64 + 4096) as u64 % 4096
                == 0 && (READ_WRITE | USER) == 22u64 && 22u64 & 14 != 0 && (USER | READ_EXECUTE)
                == 26u64 && 26u64 & 14 != 0 && (stack_top + 4096) as u64 % 4096 == 0 && (
            func & !0xfffu64) % 4096 == 0 && ((func & !0xfffu64) + 4096) as u64 % 4096 == 0 && func
                & !0xfffu64 <= func) by (bit_vector)
                requires
                    stack_top % 4096 == 0,
                    stack_top <= u64::MAX - 2 * 4096,
                    func <= u64::MAX - 4096,
            ;
            lemma_no_superpages_path_clear(root, STACK_ADDR, 0, 2);
        }
        let ghost pm0 = *pmem;
        Table::map(&mut root, pmem, STACK_ADDR, stack_top, READ_WRITE | USER, 0);
        let ghost t1 = root;
        let ghost pm1 = *pmem;
        proof {
            assert(pmem.tail_free(s0 + 5));
            lemma_no_superpages_path_clear(root, (STACK_ADDR + PAGE_SIZE) as u64, 0, 2);
            assert(pmem.has_tail(3)) by {
                assert(pmem.tail_free(s0 + 5) && s0 + 5 + 3 <= pmem.num_pages());
            }
        }
        Table::map(
            &mut root,
            pmem,
            STACK_ADDR + PAGE_SIZE,
            stack_top + PAGE_SIZE,
            READ_WRITE | USER,
            0,
        );
        let ghost t2 = root;
        let ghost pm2 = *pmem;
        let func_base = func & !0xfff;
        proof {
            assert(pmem.tail_free(s0 + 7));
            lemma_no_superpages_path_clear(root, START_ADDR, 0, 2);
            assert(pmem.has_tail(3)) by {
                assert(pmem.tail_free(s0 + 7) && s0 + 7 + 3 <= pmem.num_pages());
            }
        }
        Table::map(&mut root, pmem, START_ADDR, func_base, USER | READ_EXECUTE, 0);
        let ghost t3 = root;
        let ghost pm3 = *pmem;
        proof {
            assert(pmem.tail_free(s0 + 9));
            lemma_no_superpages_path_clear(root, (START_ADDR + PAGE_SIZE) as u64, 0, 2);
            assert(pmem.has_tail(3)) by {
                assert(pmem.tail_free(s0 + 9) && s0 + 9 + 3 <= pmem.num_pages());
            }
        }
        Table::map(
            &mut root,
            pmem,
            START_ADDR + PAGE_SIZE,
            func_base + PAGE_SIZE,
            USER | READ_EXECUTE,
            0,
        );
        let ghost t4 = root;
        proof {
            assert forall|s: int| 0 <= s && old(pmem).tail_free(s) implies pmem.tail_free(
                s + 11,
            ) by {
                assert(pm0.tail_free(s + 3));
                assert(pm1.tail_free(s + 5));
                assert(pm2.tail_free(s + 7));
                assert(pm3.tail_free(s + 9));
            }
            // Each later map touches a different page, so the earlier
            // mappings survive.
            assert(1u64 << 39 == 0x80_0000_0000) by (bit_vector);
            assert forall|off: u64| off < STACK_PAGES * PAGE_SIZE implies #[trigger] translate(
                t4,
                (STACK_ADDR + off) as u64,
            ) == Some((stack_top + off) as u64) by {
                let va = (STACK_ADDR + off) as u64;
                crate::sv39::lemma_page_floor(STACK_ADDR, off);
                crate::sv39::lemma_sv39_limit();
                assert(va < 1u64 << 39);
                if off < PAGE_SIZE {
                    assert(translate(t1, va) == Some((stack_top + off) as u64));
                    lemma_not_same_path(va, (STACK_ADDR + PAGE_SIZE) as u64);
                    lemma_not_same_path(va, START_ADDR);
                    lemma_not_same_path(va, (START_ADDR + PAGE_SIZE) as u64);
                } else {
                    let off2 = (off - PAGE_SIZE) as u64;
                    assert(va == ((STACK_ADDR + PAGE_SIZE) + off2) as u64);
                    assert(translate(t2, va) == Some(((stack_top + PAGE_SIZE) + off2) as u64));
                    lemma_not_same_path(va, START_ADDR);
                    lemma_not_same_path(va, (START_ADDR + PAGE_SIZE) as u64);
                }
            }
            assert forall|off: u64| off < STACK_PAGES * PAGE_SIZE implies #[trigger] leaf_entry(
                t4,
                (STACK_ADDR + off) as u64,
            ) == (((stack_top + off) as u64 & !0xfff) >> 2) | (READ_WRITE | USER) | VALID by {
                let va = (STACK_ADDR + off) as u64;
                crate::sv39::lemma_page_floor(STACK_ADDR, off);
                crate::sv39::lemma_sv39_limit();
                assert(va < 1u64 << 39);
                if off < PAGE_SIZE {
                    lemma_not_same_path(va, (STACK_ADDR + PAGE_SIZE) as u64);
                    lemma_not_same_path(va, START_ADDR);
                    lemma_not_same_path(va, (START_ADDR + PAGE_SIZE) as u64);
                    assert(leaf_entry(t1, va) == (stack_top >> 2) | (READ_WRITE | USER) | VALID);
                    lemma_leaf_entry_bits(
                        stack_top,
                        READ_WRITE | USER,
                        (stack_top >> 2) | (READ_WRITE | USER) | VALID,
                    );
                    assert(e_valid(leaf_entry(t1, va)));
                    assert(leaf_entry(t2, va) == leaf_entry(t1, va));
                    assert(leaf_entry(t3, va) == leaf_entry(t2, va));
                    assert(leaf_entry(t4, va) == leaf_entry(t3, va));
                    crate::sv39::lemma_page_floor(stack_top, off);
                } else {
                    assert(va == ((STACK_ADDR + PAGE_SIZE) + (off - PAGE_SIZE) as u64) as u64);
                    lemma_not_same_path(va, START_ADDR);
                    lemma_not_same_path(va, (START_ADDR + PAGE_SIZE) as u64);
                    assert(leaf_entry(t2, va) == ((stack_top + PAGE_SIZE) as u64 >> 2) | (
                    READ_WRITE | USER) | VALID);
                    lemma_leaf_entry_bits(
                        (stack_top + PAGE_SIZE) as u64,
                        READ_WRITE | USER,
                        ((stack_top + PAGE_SIZE) as u64 >> 2) | (READ_WRITE | USER) | VALID,
                    );
                    assert(e_valid(leaf_entry(t2, va)));
                    assert(leaf_entry(t3, va) == leaf_entry(t2, va));
                    assert(leaf_entry(t4, va) == leaf_entry(t3, va));
                    crate::sv39::lemma_page_floor(stack_top, off);
                }
            }
            assert forall|off: u64| off < 2 * PAGE_SIZE implies #[trigger] translate(
                t4,
                (START_ADDR + off) as u64,
            ) == Some((func_base + off) as u64) by {
                let va = (START_ADDR + off) as u64;
                crate::sv39::lemma_page_floor(START_ADDR, off);
                crate::sv39::lemma_sv39_limit();
                assert(va < 1u64 << 39);
                if off < PAGE_SIZE {
                    assert(translate(t3, va) == Some((func_base + off) as u64));
                    lemma_not_same_path(va, (START_ADDR + PAGE_SIZE) as u64);
                } else {
                    let off2 = (off - PAGE_SIZE) as u64;
                    assert(va == ((START_ADDR + PAGE_SIZE) + off2) as u64);
                    assert(translate(t4, va) == Some(((func_base + PAGE_SIZE) + off2) as u64));
                }
            }
            assert forall|off: u64| off < 2 * PAGE_SIZE implies #[trigger] leaf_entry(
                t4,
                (START_ADDR + off) as u64,
            ) == (((func_base + off) as u64 & !0xfff) >> 2) | (USER | READ_EXECUTE) | VALID by {
                let va = (START_ADDR + off) as u64;
                crate::sv39::lemma_page_floor(START_ADDR, off);
                crate::sv39::lemma_sv39_limit();
                assert(va < 1u64 << 39);
                if off < PAGE_SIZE {
                    lemma_not_same_path(va, (START_ADDR + PAGE_SIZE) as u64);
                    assert(leaf_entry(t3, va) == (func_base >> 2) | (USER | READ_EXECUTE) | VALID);
                    lemma_leaf_entry_bits(
                        func_base,
                        USER | READ_EXECUTE,
                        (func_base >> 2) | (USER | READ_EXECUTE) | VALID,
                    );
                    assert(e_valid(leaf_entry(t3, va)));
                    assert(leaf_entry(t4, va) == leaf_entry(t3, va));
                    crate::sv39::lemma_page_floor(func_base, off);
                } else {
                    assert(va == ((START_ADDR + PAGE_SIZE) + (off - PAGE_SIZE) as u64) as u64);
                    assert(leaf_entry(t4, va) == ((func_base + PAGE_SIZE) as u64 >> 2) | (USER
                        | READ_EXECUTE) | VALID);
                    crate::sv39::lemma_page_floor(func_base, off);
                }
            }
        }
        Process {
            frame,
            stack,
            pc: START_ADDR | (func & 0xfff),
            pid,
            root,
            root_phys: root_page.physical(),
            state: ProcessState::Running,
            sleep_until: 0,
        }
    }

    /// Borrow the saved registers for the trap path to fill or drain.
    pub fn get_frame(&mut self) -> (r: &mut TrapFrame)
        ensures
            *r == old(self).spec_frame(),
            final(self).spec_frame() == *final(r),
            final(self).spec_pc() == old(self).spec_pc(),
            final(self).spec_pid() == old(self).spec_pid(),
            final(self).spec_state() == old(self).spec_state(),
            final(self).spec_sleep_until() == old(self).spec_sleep_until(),
            final(self).spec_table() == old(self).spec_table(),
            final(self).spec_root_phys() == old(self).spec_root_phys(),
            final(self).spec_stack_phys() == old(self).spec_stack_phys(),
    {
        &mut self.frame
    }

    /// The program counter to resume at.
    pub fn get_pc(&self) -> (r: u64)
        ensures
            r == self.spec_pc(),
    {
        self.pc
    }

    /// Borrow the root page table.
    pub fn get_table(&mut self) -> (r: &mut Table)
        ensures
            *r == old(self).spec_table(),
            final(self).spec_table() == *final(r),
            final(self).spec_frame() == old(self).spec_frame(),
            final(self).spec_pc() == old(self).spec_pc(),
            final(self).spec_pid() == old(self).spec_pid(),
            final(self).spec_state() == old(self).spec_state(),
            final(self).spec_sleep_until() == old(self).spec_sleep_until(),
            final(self).spec_root_phys() == old(self).spec_root_phys(),
            final(self).spec_stack_phys() == old(self).spec_stack_phys(),
    {
        &mut self.root
    }

    /// The lifecycle state.
    pub fn get_state(&self) -> (r: ProcessState)
        ensures
            r == self.spec_state(),
    {
        self.state
    }

    /// The process id.
    pub fn get_pid(&self) -> (r: u16)
        ensures
            r == self.spec_pid(),
    {
        self.pid
    }

    /// The cycle count the process sleeps until.
    pub fn get_sleep_until(&self) -> (r: u64)
        ensures
            r == self.spec_sleep_until(),
    {
        self.sleep_until
    }

    /// Physical address of the root page table, as the trap-return path
    /// packs it into `satp`.
    pub fn root_address(&self) -> (r: u64)
        ensures
            r == self.spec_root_phys(),
    {
        self.root_phys
    }
}

} // verus!
