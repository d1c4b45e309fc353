use vstd::prelude::*;

verus! {

/// Bytes in one page.
pub const PAGE_SIZE: usize = 4096;

/// Entries in one page-table node.
pub const PTES_PER_FRAME: usize = 512;

/// Physical page numbers are strictly below this bound (44 bits).
pub const PPN_LIMIT: u64 = 0x1000_0000_0000;

/// Virtual page numbers are strictly below this bound (27 bits, three 9-bit indices).
pub const VPN_LIMIT: u64 = 0x800_0000;

/// Virtual addresses are strictly below this bound (39 bits).
pub const VA_LIMIT: u64 = 0x80_0000_0000;

/// The scheduler's stride numerator.
pub const BIG_STRIDE: u64 = 0x10_0000;

/// Number of per-task syscall counters.
pub const MAX_SYSCALL_NUM: usize = 500;

/// satp mode bits selecting three-level paging.
pub const SATP_MODE_SV39: u64 = 0x8000_0000_0000_0000;

} // verus!
