//! Constants of the kernel.
use vstd::prelude::*;

verus! {

/// Size of a page of virtual memory, in bytes.
pub const PAGE_SIZE: usize = 4096;

/// Number of system calls whose invocations are counted per task.
pub const MAX_SYSCALL_NUM: usize = 500;

/// The stride that a task of priority 1 would advance by at each dispatch.
pub const BIG_STRIDE: usize = 0x10_0000;

/// The priority that a task starts with.
pub const DEFAULT_PRIORITY: usize = 16;

/// The lowest priority that a task may ask for.
pub const MIN_PRIORITY: isize = 2;

/// The process that adopts the children of a process that exits.
pub const ROOT_PID: usize = 0;

/// What an acquisition returns when granting it could never succeed.
pub const DEADLOCK: isize = -0xDEAD;

} // verus!
