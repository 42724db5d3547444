//! Devices: block devices and character devices.
pub mod block_dev;
pub mod urandom;
