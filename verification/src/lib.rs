//! Verified core of a small AArch32 round-robin kernel: address arithmetic,
//! process and file tables, virtual memory areas, scheduling queues, pipes,
//! the console line discipline, in-memory file systems, archive, device-tree
//! and network packet codecs.
pub mod arch;
pub mod context;
pub mod drivers;
pub mod fs;
pub mod kernel;
pub mod platform;
pub mod scheduler;
pub mod task;
