pub mod device;
pub mod virtio;
pub mod timer;
