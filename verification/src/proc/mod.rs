//! Process manager: the process abstraction on top of kernel threads.
//!
//! | Module        | Purpose                                            |
//! |---------------|----------------------------------------------------|
//! | `types`       | `ProcessId`, `Signal`, `ProcError`, `ProcRequest`  |
//! | `proc_table`  | Process records in a table with generations        |
//! | `server`      | The process manager: spawn, exit, signals, reap    |
//! | `server_laws` | What holds of several requests                     |
//! | `elf_loader`  | What to map for a program file                     |
//! | `load_laws`   | What the plan has to do with the file              |
//! | `program`     | Reading a program file from the file system        |
pub mod elf_loader;
pub mod load_laws;
pub mod proc_table;
pub mod program;
pub mod server;
pub mod server_laws;
pub mod types;
