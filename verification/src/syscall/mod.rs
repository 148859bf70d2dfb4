//! The system calls: what a task can ask of the kernel.
pub mod process;
pub mod sync;
pub mod thread;
