//! Policy logic of the QuackOS user-space servers: memory manager, process
//! manager, task manager, file system, and the Linux personality library.
pub mod bytes;
pub mod kernel;
pub mod linux;
pub mod mm;
pub mod search;
pub mod task;
pub mod text;
pub mod proc;
pub mod fs;
pub mod user;
