//! File system: VFS layer, page cache, block devices and ext4.
//!
//! | Module         | Purpose                                           |
//! |----------------|---------------------------------------------------|
//! | `types`        | Modes, open flags, metadata, error numbers        |
//! | `inode`        | What every file system offers to the VFS          |
//! | `dentry`       | Names and their inodes                            |
//! | `path`         | Paths taken apart                                 |
//! | `nodes`        | The cache of entries, by number                   |
//! | `file`         | Open files and descriptors                        |
//! | `tables`       | Descriptor tables, by process                     |
//! | `server`       | The file system server's operations               |
//! | `server_laws`  | What holds of several operations                  |
//! | `protocol`     | Requests and replies as bytes                     |
//! | `dispatch`     | One request carried out                           |
//! | `request_laws` | What requests have to do with their files         |
//! | `page_cache`   | Cached pages of a file                            |
//! | `dev`          | Block devices and the random device               |
//! | `ext4`         | The ext4 file system                              |
pub mod dentry;
pub mod dev;
pub mod dispatch;
pub mod ext4;
pub mod file;
pub mod inode;
pub mod nodes;
pub mod page_cache;
pub mod path;
pub mod protocol;
pub mod request_laws;
pub mod server;
pub mod server_laws;
pub mod tables;
pub mod types;
