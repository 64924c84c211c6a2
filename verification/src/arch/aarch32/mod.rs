pub mod context;
pub mod cpu;
pub mod exception;
pub mod mmu;
pub mod page_table;
