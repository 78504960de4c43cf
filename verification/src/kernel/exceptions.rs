//! What an exception syndrome says: which class of exception it was, whether an abort was a
//! permission fault on a write, and which kind of abort it was. The vector table and the trap
//! frames are the caller's; these are the decisions taken on the syndrome they deliver.

use vstd::prelude::*;

verus! {

/// Exception class for an `SVC` executed in AArch64 state.
pub const EC_SVC64: u64 = 0x15;

/// The exception class: the top six bits of ESR.
pub open spec fn exception_class(esr: u64) -> u64 {
    esr >> 26u64
}

/// Whether a syndrome is an abort: instruction (0b100000, 0b100001) or data (0b100100,
/// 0b100101), from a lower or the current level.
pub open spec fn is_abort_class(ec: u64) -> bool {
    ec == 0x20 || ec == 0x21 || ec == 0x24 || ec == 0x25
}

/// Whether an ESR describes a permission fault on a write: a data abort (class 0b100100 or
/// 0b100101) whose fault status is 0b0011LL and whose write-not-read bit (ISS bit 6) is set.
pub open spec fn permission_write_fault(esr: u64) -> bool {
    let ec = esr >> 26u64;
    let iss = esr & 0x1FF_FFFF;
    &&& (ec == 0x24 || ec == 0x25)
    &&& 0x0C <= (iss & 0x3F) <= 0x0F
    &&& (iss >> 6u64) & 1 == 1
}

/// Whether an ESR describes a *permission* fault on a write, as opposed to a translation fault
/// (nothing mapped) or an alignment fault.
pub fn is_permission_write_fault(esr: u64) -> (b: bool)
    ensures
        b == permission_write_fault(esr),
{
    let ec = esr >> 26u64;
    let iss = esr & 0x1FF_FFFF;
    let status = iss & 0x3F;
    let permission_fault = status >= 0x0C && status <= 0x0F;
    let write = (iss >> 6u64) & 1 == 1;
    (ec == 0x24 || ec == 0x25) && permission_fault && write
}

/// The name of an exception class.
pub open spec fn class_name(ec: u64) -> &'static str {
    if ec == 0 {
        "unknown"
    } else if ec == 0x07 {
        "SIMD/FP access trapped"
    } else if ec == 0x15 {
        "SVC (system call)"
    } else if ec == 0x20 || ec == 0x21 {
        "instruction abort"
    } else if ec == 0x22 {
        "PC alignment fault"
    } else if ec == 0x24 || ec == 0x25 {
        "data abort"
    } else if ec == 0x26 {
        "SP alignment fault"
    } else if ec == 0x3C {
        "BRK (breakpoint)"
    } else {
        "unclassified"
    }
}

/// The decoded exception class, for a report.
pub fn describe(esr: u64) -> (s: &'static str)
    ensures
        s == class_name(exception_class(esr)),
{
    let ec = esr >> 26u64;
    if ec == 0 {
        "unknown"
    } else if ec == 0x07 {
        "SIMD/FP access trapped"
    } else if ec == 0x15 {
        "SVC (system call)"
    } else if ec == 0x20 || ec == 0x21 {
        "instruction abort"
    } else if ec == 0x22 {
        "PC alignment fault"
    } else if ec == 0x24 || ec == 0x25 {
        "data abort"
    } else if ec == 0x26 {
        "SP alignment fault"
    } else if ec == 0x3C {
        "BRK (breakpoint)"
    } else {
        "unclassified"
    }
}

/// What kind of abort a syndrome reports, by the top four bits of its fault status code:
/// address size, translation (nothing was mapped), access flag, or permission (the mapping
/// refused it). Empty for anything that is not an abort, or another status.
pub open spec fn abort_kind(esr: u64) -> &'static str {
    if !is_abort_class(esr >> 26u64) {
        ""
    } else {
        let status = esr & 0x3F;
        if status >> 2u64 == 0 {
            " (address size fault)"
        } else if status >> 2u64 == 1 {
            " (translation fault — nothing was mapped)"
        } else if status >> 2u64 == 2 {
            " (access flag fault)"
        } else if status >> 2u64 == 3 {
            " (permission fault — the mapping refused it)"
        } else {
            ""
        }
    }
}

/// Which kind of abort, for the aborts where the distinction is the whole point: a permission
/// fault proves something about privilege, a translation fault does not.
pub fn fault_class(esr: u64) -> (s: &'static str)
    ensures
        s == abort_kind(esr),
{
    let ec = esr >> 26u64;
    if !(ec == 0x20 || ec == 0x21 || ec == 0x24 || ec == 0x25) {
        return "";
    }
    let status = esr & 0x3F;
    let top = status >> 2u64;
    if top == 0 {
        " (address size fault)"
    } else if top == 1 {
        " (translation fault — nothing was mapped)"
    } else if top == 2 {
        " (access flag fault)"
    } else if top == 3 {
        " (permission fault — the mapping refused it)"
    } else {
        ""
    }
}

/// What a synchronous exception from EL0 is.
#[derive(Debug, Clone, Copy, PartialEq, Eq, Structural)]
pub enum LowerTrap {
    /// A system call: dispatch it and resume the thread.
    Syscall,
    /// Anything else: the thread did something the hardware refused, and is retired.
    Fault,
}

/// A synchronous exception from EL0 is a system call exactly when its class is `SVC` in
/// AArch64 state.
pub fn classify_lower(esr: u64) -> (t: LowerTrap)
    ensures
        t == (if exception_class(esr) == EC_SVC64 {
            LowerTrap::Syscall
        } else {
            LowerTrap::Fault
        }),
{
    if esr >> 26u64 == EC_SVC64 {
        LowerTrap::Syscall
    } else {
        LowerTrap::Fault
    }
}

/// A synchronous exception at EL1 is the W^X selftest passing, rather than a fatal kernel
/// fault, exactly when the selftest announced it and it is a permission fault on a write.
pub fn kernel_fault_expected(expecting_write_fault: bool, esr: u64) -> (b: bool)
    ensures
        b == (expecting_write_fault && permission_write_fault(esr)),
{
    expecting_write_fault && is_permission_write_fault(esr)
}

/// The exception level the `CurrentEL` register reports: its bits [3:2].
pub fn exception_level(current_el: u64) -> (el: u64)
    ensures
        el == (current_el >> 2u64) & 3,
        el < 4,
{
    let el = (current_el >> 2) & 0b11;
    assert(el < 4) by (bit_vector)
        requires
            el == (current_el >> 2u64) & 3,
    ;
    el
}

} // verus!
