//! User-space task management on top of the kernel's thread mechanism.
pub mod manager;
pub mod types;
