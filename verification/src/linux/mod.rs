//! Linux system calls on top of the microkernel: what each call decides, and
//! what it asks the kernel and the file system server to do.
pub mod call_laws;
pub mod console;
pub mod errno;
pub mod fd_table;
pub mod fs;
pub mod futex;
pub mod loader;
pub mod misc;
pub mod mm;
pub mod proc;
pub mod signal;
pub mod start;
pub mod syscall;
pub mod task;
pub mod time;
