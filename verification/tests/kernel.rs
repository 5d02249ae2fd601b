use kcore::cpu::{build_satp, SatpMode, TrapFrame};
use kcore::page::{Pmem, PAGE_SIZE};
use kcore::sched::Scheduler;
use kcore::syscall::{do_syscall, syscall_of, Syscall};
use kcore::trap::{
    classify_trap, console_input, enable_mask, get_addresses, m_trap, threshold_value,
    timer_deadline, ConsoleInput, TrapAction,
};

#[test]
fn trap_frame_starts_zeroed() {
    let f = TrapFrame::zero();
    assert_eq!(f.regs.len(), 32);
    assert_eq!(f.fregs.len(), 32);
    assert!(f.regs.iter().all(|&r| r == 0));
    assert_eq!(f.satp, 0);
    assert_eq!(f.stack, 0);
    assert_eq!(f.hartid, 0);
}

#[test]
fn satp_packs_mode_asid_and_ppn() {
    let satp = build_satp(SatpMode::Sv39, 7, 0x8000_1000);
    assert_eq!(satp >> 60, 8);
    assert_eq!((satp >> 44) & 0xffff, 7);
    assert_eq!(satp & 0xfff_ffff_ffff, 0x8000_1);
    assert_eq!(build_satp(SatpMode::Off, 0, 0), 0);
}

#[test]
fn trap_scenario_timer_tick() {
    // cause = (1 << 63) | 7 selects the timer path, which reprograms
    // mtimecmp to mtime + 10_000_000 and calls schedule().
    let cause = (1u64 << 63) | 7;
    assert_eq!(classify_trap(cause), TrapAction::Timer);
    assert_eq!(timer_deadline(500), 10_000_500);
    let mut pm = Pmem::init(0x8000_0000, 64 * PAGE_SIZE);
    let mut sched = Scheduler::init(&mut pm, 0x8020_0000);
    let (go, pc, satp) = sched.schedule();
    assert!(go);
    assert_eq!(pc, 0x2000_0000);
    assert_eq!(satp >> 60, 8);
}

#[test]
fn trap_scenario_user_ecall() {
    // A user process with 0 in a0 raises cause 8; the dispatcher runs
    // the system call and execution resumes one instruction later.
    let mut frame = TrapFrame::zero();
    frame.regs[10] = 0;
    let epc = 0x2000_0040u64;
    let (new_epc, action) = m_trap(epc, 0, 8, 0, 0, &mut frame);
    assert_eq!(action, TrapAction::EcallUser);
    assert_eq!(new_epc, epc + 4);
    assert_eq!(syscall_of(0), Syscall::Exit);
    assert_eq!(syscall_of(17), Syscall::Unknown);
    assert_eq!(do_syscall(epc, &mut frame), epc + 4);
}

#[test]
fn trap_classification_table() {
    let async_bit = 1u64 << 63;
    assert_eq!(classify_trap(async_bit | 3), TrapAction::SoftwareInterrupt);
    assert_eq!(classify_trap(async_bit | 11), TrapAction::External);
    assert_eq!(classify_trap(async_bit | 5), TrapAction::UnknownAsync);
    assert_eq!(classify_trap(2), TrapAction::IllegalInstruction);
    assert_eq!(classify_trap(8), TrapAction::EcallUser);
    assert_eq!(classify_trap(9), TrapAction::EcallSupervisor);
    assert_eq!(classify_trap(11), TrapAction::EcallMachine);
    assert_eq!(classify_trap(12), TrapAction::InstructionPageFault);
    assert_eq!(classify_trap(13), TrapAction::LoadPageFault);
    assert_eq!(classify_trap(15), TrapAction::StorePageFault);
    assert_eq!(classify_trap(14), TrapAction::UnknownSync);
}

#[test]
fn scheduler_round_robin_keeps_selecting_the_runnable_task() {
    // With one runnable process, k ticks select it k times: the k/p
    // fairness bound at p = 1.
    let mut pm = Pmem::init(0x8000_0000, 64 * PAGE_SIZE);
    let mut sched = Scheduler::init(&mut pm, 0x8020_0000);
    let mut selections = 0;
    for _ in 0..12 {
        let (go, pc, _satp) = sched.schedule();
        assert!(go);
        assert_eq!(pc, 0x2000_0000);
        selections += 1;
    }
    assert_eq!(selections, 12);
    // The front process's trap frame is the one the trampoline gets.
    let frame = sched.front_frame();
    assert_eq!(frame.regs[2], 0xf_0000_0000 + 2 * PAGE_SIZE);
}

#[test]
fn console_and_plic_helpers() {
    assert_eq!(console_input(8), ConsoleInput::Backspace);
    assert_eq!(console_input(10), ConsoleInput::Newline);
    assert_eq!(console_input(13), ConsoleInput::Newline);
    assert_eq!(console_input(0x1b), ConsoleInput::Escape);
    assert_eq!(console_input(b'x'), ConsoleInput::Other(b'x'));
    let addrs = get_addresses();
    assert_eq!(addrs, vec![0xc00_2000, 0xc20_0000, 0xc20_0004, 0xc00_0000]);
    assert_eq!(enable_mask(0, 10), 1 << 10);
    assert_eq!(enable_mask(0b100, 0), 0b101);
    assert_eq!(threshold_value(0xff), 7);
}
