//! The decisions the kernel makes on top of the portable pieces: the endpoint table and the
//! registry, the system call surface, the scheduler's thread table, the audit and schema
//! front ends, and the arithmetic the AArch64 drivers run on. The machine itself — registers,
//! interrupts, raw user memory — stays with the caller, which performs what these functions
//! decide.

pub mod ipc;
pub mod context;
pub mod sched;
pub mod audit;
pub mod syscall;
pub mod schema;
pub mod user;
pub mod exceptions;
pub mod gic;
pub mod timer;
pub mod uart;
pub mod shell;
pub mod selftest;
pub mod mmu;
pub mod mm;
pub mod query;
