//! The process, scheduling and synchronisation core of a small kernel.
//!
//! The whole state of the kernel is one value, a [`kernel::Kernel`]: the
//! process table, the ready queue, the task on the processor, the sleeping
//! tasks and the clock. A system call is a function that takes the kernel
//! by exclusive reference, changes it as its contract says and returns the
//! number that the calling task gets back. A call that makes its caller
//! wait returns as well: it leaves the caller on a wait list and another
//! task, or none, on the processor.
//!
//! A task that comes back to the processor may have something to settle
//! before it goes on in its program: a unit that was kept for it while it
//! waited, a mutex to take again after a wait on a condition variable, or
//! a spin mutex to ask for once more. [`syscall::sync::settle_spinners`]
//! has it do so; it is to run whenever another task may have come to the
//! processor, and before the task there makes its next call.
//!
//! - [`task`]: task control blocks, the ready queue with stride
//!   scheduling, and processes.
//! - [`mm`]: the mapping table of an address space.
//! - [`slots`]: tables in which an emptied slot is used again.
//! - [`deadlock`]: the ledger of free and held resources and the safety
//!   algorithm.
//! - [`safe_order`]: safe ledgers are those whose threads can finish one
//!   after another.
//! - [`sync`]: pools of mutexes and semaphores, and condition variables.
//! - [`kernel`]: the kernel state, its invariant and the dispatch of tasks.
//! - [`syscall`]: the system calls.
pub mod config;
pub mod deadlock;
pub mod kernel;
pub mod mm;
pub mod safe_order;
pub mod slots;
pub mod sync;
pub mod syscall;
pub mod task;
