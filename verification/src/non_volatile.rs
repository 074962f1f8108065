pub mod object;
pub mod serialize;
pub mod block_device;
