//! Oxygen's portable kernel logic, verified: translation-table encodings, capability spaces,
//! typed IPC, the audit journal, schema descriptions, the physical frame allocator, and the
//! decisions the kernel makes on top of them.

pub mod aarch64;
mod text;
pub mod cap;
pub mod audit;
pub mod ipc;
pub mod mem;
pub mod schema;
pub mod kernel;
