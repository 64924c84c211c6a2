pub mod vfs;
pub mod ramfs;
pub mod archive;
pub mod initrd;
pub mod devfs;
pub mod ext4;
pub mod procfs;
