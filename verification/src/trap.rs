//! Machine-mode trap classification and the PLIC's register map.
//!
//! The dispatcher splits the cause register into asynchronous (top bit
//! set) and synchronous causes, with the low twelve bits selecting the
//! subcause. The decisions are computed here; the register writes,
//! console echo and panics they call for happen at the machine boundary.

use vstd::prelude::*;

use crate::cpu::TrapFrame;
use crate::syscall::do_syscall;

verus! {

/// What a trap cause asks the kernel to do.
#[derive(Clone, Copy, PartialEq, Eq, Structural, Debug)]
pub enum TrapAction {
    /// Machine software interrupt (async 3): log and return.
    SoftwareInterrupt,
    /// Machine timer interrupt (async 7): reprogram the timer, schedule,
    /// and switch to the chosen process.
    Timer,
    /// Machine external interrupt (async 11): claim from the PLIC and
    /// service the device.
    External,
    /// Any other asynchronous cause: fatal.
    UnknownAsync,
    /// Illegal instruction (sync 2): fatal.
    IllegalInstruction,
    /// Environment call from user mode (sync 8): run the system call.
    EcallUser,
    /// Environment call from supervisor mode (sync 9): run the system
    /// call.
    EcallSupervisor,
    /// Environment call from machine mode (sync 11): fatal.
    EcallMachine,
    /// Instruction page fault (sync 12): fatal.
    InstructionPageFault,
    /// Load page fault (sync 13): fatal.
    LoadPageFault,
    /// Store page fault (sync 15): fatal.
    StorePageFault,
    /// Any other synchronous cause: fatal.
    UnknownSync,
}

/// The action a raw cause value selects.
pub open spec fn spec_classify(cause: u64) -> TrapAction {
    let num = cause & 0xfff;
    if cause & 0x8000_0000_0000_0000 != 0 {
        if num == 3 {
            TrapAction::SoftwareInterrupt
        } else if num == 7 {
            TrapAction::Timer
        } else if num == 11 {
            TrapAction::External
        } else {
            TrapAction::UnknownAsync
        }
    } else {
        if num == 2 {
            TrapAction::IllegalInstruction
        } else if num == 8 {
            TrapAction::EcallUser
        } else if num == 9 {
            TrapAction::EcallSupervisor
        } else if num == 11 {
            TrapAction::EcallMachine
        } else if num == 12 {
            TrapAction::InstructionPageFault
        } else if num == 13 {
            TrapAction::LoadPageFault
        } else if num == 15 {
            TrapAction::StorePageFault
        } else {
            TrapAction::UnknownSync
        }
    }
}

/// Classify a raw trap cause.
pub fn classify_trap(cause: u64) -> (r: TrapAction)
    ensures
        r == spec_classify(cause),
{
    let is_async = cause & 0x8000_0000_0000_0000 != 0;
    let num = cause & 0xfff;
    if is_async {
        if num == 3 {
            TrapAction::SoftwareInterrupt
        } else if num == 7 {
            TrapAction::Timer
        } else if num == 11 {
            TrapAction::External
        } else {
            TrapAction::UnknownAsync
        }
    } else {
        if num == 2 {
            TrapAction::IllegalInstruction
        } else if num == 8 {
            TrapAction::EcallUser
        } else if num == 9 {
            TrapAction::EcallSupervisor
        } else if num == 11 {
            TrapAction::EcallMachine
        } else if num == 12 {
            TrapAction::InstructionPageFault
        } else if num == 13 {
            TrapAction::LoadPageFault
        } else if num == 15 {
            TrapAction::StorePageFault
        } else {
            TrapAction::UnknownSync
        }
    }
}

/// The decision core of the machine-mode trap entry: classify the cause
/// and compute the program counter to return to. An environment call
/// resumes one instruction later; every other cause resumes in place
/// (or never, for the fatal ones, which the caller turns into a panic).
/// The register file is read, never changed.
pub fn m_trap(
    epc: u64,
    tval: u64,
    cause: u64,
    hart: u64,
    status: u64,
    frame: &mut TrapFrame,
) -> (r: (u64, TrapAction))
    requires
        old(frame).wf(),
        epc + 4 <= u64::MAX,
    ensures
        r.1 == spec_classify(cause),
        *final(frame) == *old(frame),
        r.0 == if spec_classify(cause) is EcallUser || spec_classify(cause) is EcallSupervisor {
            (epc + 4) as u64
        } else {
            epc
        },
{
    let action = classify_trap(cause);
    let new_epc = match action {
        TrapAction::EcallUser => do_syscall(epc, frame),
        TrapAction::EcallSupervisor => do_syscall(epc, frame),
        _ => epc,
    };
    (new_epc, action)
}

/// Timer reprogramming: the next deadline is the current cycle count
/// plus one tick of ten million cycles.
pub fn timer_deadline(mtime: u64) -> (r: u64)
    requires
        mtime + 10_000_000 <= u64::MAX,
    ensures
        r == mtime + 10_000_000,
{
    mtime + 10_000_000
}

/// What one received console byte asks for.
#[derive(Clone, Copy, PartialEq, Eq, Structural, Debug)]
pub enum ConsoleInput {
    /// Backspace (8): erase one character.
    Backspace,
    /// Carriage return or newline (10, 13): start a new line.
    Newline,
    /// Escape (0x1b): an escape sequence follows.
    Escape,
    /// Anything else: echo the byte.
    Other(u8),
}

/// The action a console byte selects.
pub open spec fn spec_console_input(c: u8) -> ConsoleInput {
    if c == 8 {
        ConsoleInput::Backspace
    } else if c == 10 || c == 13 {
        ConsoleInput::Newline
    } else if c == 0x1b {
        ConsoleInput::Escape
    } else {
        ConsoleInput::Other(c)
    }
}

/// Classify one byte read from the UART.
pub fn console_input(c: u8) -> (r: ConsoleInput)
    ensures
        r == spec_console_input(c),
{
    if c == 8 {
        ConsoleInput::Backspace
    } else if c == 10 || c == 13 {
        ConsoleInput::Newline
    } else if c == 0x1b {
        ConsoleInput::Escape
    } else {
        ConsoleInput::Other(c)
    }
}

/// Arrow keys encoded as the final byte of a `0x1b [` escape sequence.
#[derive(Clone, Copy, PartialEq, Eq, Structural, Debug)]
pub enum ArrowKey {
    /// Final byte `A`.
    Up,
    /// Final byte `B`.
    Down,
    /// Final byte `C`.
    Right,
    /// Final byte `D`.
    Left,
    /// Any other final byte.
    Other,
}

/// Decode the final byte of an arrow escape sequence.
pub fn arrow_key(b: u8) -> (r: ArrowKey)
    ensures
        b == 65 ==> r is Up,
        b == 66 ==> r is Down,
        b == 67 ==> r is Right,
        b == 68 ==> r is Left,
        !(65 <= b <= 68) ==> r is Other,
{
    if b == 65 {
        ArrowKey::Up
    } else if b == 66 {
        ArrowKey::Down
    } else if b == 67 {
        ArrowKey::Right
    } else if b == 68 {
        ArrowKey::Left
    } else {
        ArrowKey::Other
    }
}

/// Base address of the PLIC register window.
pub const PLIC_BASE: u64 = 0xc00_0000;

/// Offset of the enable bitmap for interrupt ids 0..31.
pub const ENABLE_0_31: u64 = 0x2000;

/// Offset of the hart-0 machine-mode priority threshold.
pub const HART_0_M_THRESH: u64 = 0x20_0000;

/// Offset of the hart-0 machine-mode claim/complete register.
pub const PLIC_CLAIM: u64 = 0x20_0004;

/// The PLIC register addresses the kernel touches, for the identity map:
/// the enable bitmap, the threshold, claim/complete, and the priority
/// table base.
pub fn get_addresses() -> (r: Vec<u64>)
    ensures
        r@ =~= seq![
            (PLIC_BASE + ENABLE_0_31) as u64,
            (PLIC_BASE + HART_0_M_THRESH) as u64,
            (PLIC_BASE + PLIC_CLAIM) as u64,
            PLIC_BASE,
        ],
{
    let mut v: Vec<u64> = Vec::new();
    v.push(PLIC_BASE + ENABLE_0_31);
    v.push(PLIC_BASE + HART_0_M_THRESH);
    v.push(PLIC_BASE + PLIC_CLAIM);
    v.push(PLIC_BASE);
    v
}

/// New value of the PLIC enable bitmap once interrupt `id` is switched
/// on: the old bitmap with bit `id` set. The register write itself
/// happens at the machine boundary.
pub fn enable_mask(prev: u32, id: usize) -> (r: u32)
    requires
        id <= 31,
    ensures
        r == prev | (1u32 << (id as u32)),
{
    prev | (1u32 << (id as u32))
}

/// The priority threshold value actually written: the low three bits of
/// the requested threshold.
pub fn threshold_value(tsh: u8) -> (r: u8)
    ensures
        r == tsh & 7,
{
    tsh & 7
}

} // verus!
