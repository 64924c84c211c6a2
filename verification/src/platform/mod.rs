pub mod qemu_virt;
pub mod initrd;
pub mod fdt;
