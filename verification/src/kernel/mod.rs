pub mod address;
pub mod elf;
pub mod console;
pub mod io_plan;
pub mod ipc;
pub mod loader;
pub mod log;
pub mod memory;
pub mod mmap;
pub mod orphans;
pub mod net;
pub mod process;
pub mod queue;
pub mod sleep;
pub mod slab;
pub mod sync;
pub mod syscall;
pub mod task;
pub mod user;
pub mod vma_lemmas;
pub mod wait;
pub mod scheduler;
