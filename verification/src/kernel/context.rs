//! The registers that must survive a thread switch: the callee-saved set, the frame pointer,
//! the link register and the stack pointer. The switch itself is the caller's; this module
//! builds the context a new thread starts from.

use vstd::prelude::*;

verus! {

/// A suspended thread, as seen by the switcher.
#[derive(Debug, Clone, Copy, PartialEq, Eq, Structural)]
pub struct Context {
    pub x19: u64,
    pub x20: u64,
    pub x21: u64,
    pub x22: u64,
    pub x23: u64,
    pub x24: u64,
    pub x25: u64,
    pub x26: u64,
    pub x27: u64,
    pub x28: u64,
    /// Frame pointer.
    pub x29: u64,
    /// Link register: where the switch returns to, and so where the thread resumes.
    pub x30: u64,
    pub sp: u64,
}

/// The all-zero context a thread's registers are recorded into the first time it is switched
/// away from.
pub open spec fn zero_context() -> Context {
    Context {
        x19: 0,
        x20: 0,
        x21: 0,
        x22: 0,
        x23: 0,
        x24: 0,
        x25: 0,
        x26: 0,
        x27: 0,
        x28: 0,
        x29: 0,
        x30: 0,
        sp: 0,
    }
}

/// The context of a thread that has not started yet: `entry` and `arg` parked in x19 and x20,
/// `trampoline` as the return address, and `stack_top` rounded down to 16 bytes as the stack
/// pointer.
pub open spec fn new_thread_context(entry: u64, arg: u64, stack_top: u64, trampoline: u64) -> Context {
    Context { x19: entry, x20: arg, x30: trampoline, sp: stack_top & !0xFu64, ..zero_context() }
}

impl Context {
    /// The all-zero context.
    pub fn zeroed() -> (c: Context)
        ensures
            c == zero_context(),
    {
        Context {
            x19: 0,
            x20: 0,
            x21: 0,
            x22: 0,
            x23: 0,
            x24: 0,
            x25: 0,
            x26: 0,
            x27: 0,
            x28: 0,
            x29: 0,
            x30: 0,
            sp: 0,
        }
    }

    /// The context of a thread that has not started yet: the first switch to it "returns" into
    /// `trampoline`, which calls `entry` (parked in x19) with `arg` (parked in x20). The stack
    /// pointer is `stack_top` rounded down to 16 bytes, the alignment AArch64 requires of it.
    pub fn for_new_thread(entry: u64, arg: u64, stack_top: u64, trampoline: u64) -> (c: Context)
        ensures
            c == new_thread_context(entry, arg, stack_top, trampoline),
            c.sp % 16 == 0,
            c.sp <= stack_top,
            stack_top - c.sp < 16,
    {
        let sp = stack_top & !0xFu64;
        assert(sp % 16 == 0 && sp <= stack_top && stack_top - sp < 16) by (bit_vector)
            requires
                sp == stack_top & !0xFu64,
        ;
        Context { x19: entry, x20: arg, x30: trampoline, sp, ..Context::zeroed() }
    }
}

} // verus!
