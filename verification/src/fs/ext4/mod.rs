//! ext4 file system.
pub mod attr_laws;
pub mod bitmap;
pub mod block_group;
pub mod block_op;
pub mod dentry;
pub mod extent_laws;
pub mod extent_tree;
pub mod free_laws;
pub mod fs;
pub mod fs_laws;
pub mod io;
pub mod inode;
pub mod inode_alloc_laws;
pub mod inode_attrs;
pub mod inode_dir;
pub mod inode_disk;
pub mod inode_extents;
pub mod inode_laws;
pub mod inode_size;
pub mod inode_sync;
pub mod inode_table;
pub mod inode_write;
pub mod op_laws;
pub mod ops;
pub mod run_laws;
pub mod size_laws;
pub mod super_block;
pub mod sync_laws;
pub mod tree_laws;
pub mod write_laws;
pub mod xattr;
