//! User-space memory manager: the policy side of the memory subsystem.
//!
//! | Module       | Purpose                                            |
//! |--------------|----------------------------------------------------|
//! | `types`      | VMA entries, permissions, errors, kernel requests  |
//! | `vma`        | Per-process VMA manager (sorted array)             |
//! | `allocator`  | Buddy allocator and page cache for physical pages  |
//! | `page_fault` | Page-fault resolution, prefault                    |
//! | `server`     | The memory manager: processes, mmap, brk, faults   |
pub mod allocator;
pub mod page_fault;
pub mod server;
pub mod types;
pub mod vma;
