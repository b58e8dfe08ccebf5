//! Core of a small x86_64 teaching kernel: the bitmap frame allocator, the
//! bump heap arithmetic, the fixed-capacity ring queue and the FIFO
//! scheduler's state transitions, each with its contract.
pub mod memory;
pub mod qemu;
pub mod sched;
