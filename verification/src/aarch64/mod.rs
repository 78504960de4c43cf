//! AArch64 encodings that are pure arithmetic.

pub mod paging;
