//! System-call dispatch.
//!
//! A trap from an `ecall` lands here with the saved registers; the call
//! number sits in a0 (x10). Every call, known or not, resumes one
//! instruction past the `ecall`.

use vstd::prelude::*;

use crate::cpu::TrapFrame;

verus! {

/// The calls a process can make.
#[derive(Clone, Copy, PartialEq, Eq, Structural, Debug)]
pub enum Syscall {
    /// Call 0: the process asks to exit.
    Exit,
    /// Any other number: logged and ignored.
    Unknown,
}

/// Which call a call number names.
pub open spec fn spec_syscall_of(num: u64) -> Syscall {
    if num == 0 {
        Syscall::Exit
    } else {
        Syscall::Unknown
    }
}

/// Classify a call number.
pub fn syscall_of(num: u64) -> (r: Syscall)
    ensures
        r == spec_syscall_of(num),
{
    if num == 0 {
        Syscall::Exit
    } else {
        Syscall::Unknown
    }
}

/// Dispatch on the call number in a0. Both the exit call and an unknown
/// call resume at the next instruction: the returned program counter is
/// always `mepc + 4`, and the registers are untouched.
pub fn do_syscall(mepc: u64, frame: &mut TrapFrame) -> (r: u64)
    requires
        old(frame).wf(),
        mepc + 4 <= u64::MAX,
    ensures
        r == mepc + 4,
        *final(frame) == *old(frame),
{
    let syscall_num = frame.regs[10];
    match syscall_of(syscall_num) {
        Syscall::Exit => mepc + 4,
        Syscall::Unknown => mepc + 4,
    }
}

} // verus!
