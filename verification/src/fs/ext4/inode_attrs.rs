//! Attributes of an inode in memory.
use vstd::prelude::*;
use crate::fs::dev::block_dev::BlockDevice;
use crate::fs::ext4::block_group;
use crate::fs::ext4::extent_tree::Ext4Extent;
use crate::fs::ext4::fs;
use crate::fs::ext4::fs::Ext4FileSystem;
use crate::fs::ext4::inode::{Ext4Inode, InodeModel};
use crate::fs::ext4::inode_disk;
use crate::fs::ext4::inode_disk::InodeDiskModel;
use crate::fs::ext4::inode_extents;
use crate::fs::ext4::xattr;
use crate::fs::ext4::xattr::SetXattrFlags;
use crate::fs::types::{Errno, SyscallRet, TimeSpec};

verus! {

impl Ext4Inode {
    /// The extent that contains a logical block.
    pub fn lookup_extent<D: BlockDevice>(&self, fs: &Ext4FileSystem<D>, page_index: u32) -> (r: Option<
        Ext4Extent,
    >)
        requires
            inode_extents::whole_tree(self@.disk, fs@.disk, fs@.bs()),
        ensures
            r == inode_extents::root_find(
                self@.disk.block,
                fs@.disk,
                fs@.bs(),
                page_index as int,
            ),
    {
        self.inner.inode_on_disk.lookup_extent(page_index, &fs.block_device, fs.block_size())
    }

    /// Map blocks of the file to blocks of the device.
    pub fn insert_extent<D: BlockDevice>(
        &mut self,
        logical_block_num: u32,
        physical_block_num: u64,
        blocks_count: u32,
        fs: &mut Ext4FileSystem<D>,
    ) -> (r: Result<(), &'static str>)
        requires
            old(fs)@.wf(),
            inode_extents::has_tree(old(self)@.disk),
            inode_extents::root_inserted(
                old(fs)@,
                old(self)@.disk.block,
                logical_block_num as int,
                physical_block_num as int,
                blocks_count as int,
            ) is Some,
        ensures
            final(fs)@.wf(),
            ({
                let t = inode_extents::root_inserted(
                    old(fs)@,
                    old(self)@.disk.block,
                    logical_block_num as int,
                    physical_block_num as int,
                    blocks_count as int,
                )->0;
                &&& final(fs)@ == t.0
                &&& final(self)@ == old(self)@.with_disk(old(self)@.disk.with_block(t.1))
                &&& inode_extents::same_result(r, t.2)
            }),
    {
        self.inner.inode_on_disk.insert_extent(
            logical_block_num,
            physical_block_num,
            blocks_count,
            fs,
        )
    }

    /// Take a block.
    pub fn alloc_one_block<D: BlockDevice>(&self, fs: &mut Ext4FileSystem<D>) -> (r: u64)
        requires
            old(fs)@.wf(),
            fs::block_taken(old(fs)@, 0) is Some,
        ensures
            final(fs)@.wf(),
            fs::block_taken(old(fs)@, 0) == Some((final(fs)@, r as int)),
    {
        fs.alloc_one_block()
    }

    /// Take blocks.
    pub fn alloc_block<D: BlockDevice>(
        &self,
        fs: &mut Ext4FileSystem<D>,
        block_count: usize,
    ) -> (r: Vec<(u64, u32)>)
        requires
            old(fs)@.wf(),
            fs::blocks_taken(old(fs)@, 0, block_count as int) is Some,
        ensures
            final(fs)@.wf(),
            fs::blocks_taken(old(fs)@, 0, block_count as int) == Some(
                (final(fs)@, block_group::runs_of(r@)),
            ),
    {
        fs.alloc_block(block_count)
    }

    /// Set an extended attribute.
    pub fn setxattr(&mut self, key: String, value: Vec<u8>, flags: &SetXattrFlags) -> (r: SyscallRet)
        ensures
            r == xattr::set_answer(old(self)@.xattrs.contains_key(key@), *flags),
            final(self)@ == (if r is Ok {
                InodeModel { xattrs: old(self)@.xattrs.insert(key@, value@), ..old(self)@ }
            } else {
                old(self)@
            }),
    {
        self.xattrs.setxattr(key, value, flags)
    }

    /// The value of an extended attribute.
    pub fn getxattr(&self, key: &str) -> (r: Result<Vec<u8>, Errno>)
        ensures
            match r {
                Ok(v) => self@.xattrs.contains_key(key@) && self@.xattrs[key@] == v@,
                Err(e) => !self@.xattrs.contains_key(key@) && e == Errno::EINVAL,
            },
    {
        self.xattrs.getxattr(key)
    }

    /// The names of all extended attributes, in no particular order.
    pub fn listxattr(&self) -> (r: Result<Vec<String>, Errno>)
        ensures
            r is Ok,
            xattr::texts(r->Ok_0@).no_duplicates(),
            forall|k: Seq<char>|
                xattr::texts(r->Ok_0@).contains(k) <==> #[trigger] self@.xattrs.contains_key(k),
    {
        self.xattrs.listxattr()
    }

    /// Remove an extended attribute.
    pub fn removexattr(&mut self, key: &str) -> (r: SyscallRet)
        ensures
            final(self)@ == (InodeModel { xattrs: old(self)@.xattrs.remove(key@), ..old(self)@ }),
            r == (if old(self)@.xattrs.contains_key(key@) {
                Ok::<usize, Errno>(0)
            } else {
                Err(Errno::EINVAL)
            }),
    {
        self.xattrs.removexattr(key)
    }

    pub fn get_nlinks(&self) -> (r: u16)
        ensures
            r == self@.disk.links_count,
    {
        self.inner.inode_on_disk.get_nlinks()
    }

    pub fn add_nlinks(&mut self)
        requires
            old(self)@.disk.links_count < u16::MAX,
        ensures
            final(self)@ == old(self)@.with_disk(
                InodeDiskModel {
                    links_count: (old(self)@.disk.links_count + 1) as u16,
                    ..old(self)@.disk
                },
            ),
    {
        self.inner.inode_on_disk.add_nlinks();
    }

    pub fn sub_nlinks(&mut self)
        requires
            old(self)@.disk.links_count > 0,
        ensures
            final(self)@ == old(self)@.with_disk(
                InodeDiskModel {
                    links_count: (old(self)@.disk.links_count - 1) as u16,
                    ..old(self)@.disk
                },
            ),
    {
        self.inner.inode_on_disk.sub_nlinks();
    }

    pub fn get_blocks(&self) -> (r: u64)
        ensures
            r == self@.disk.blocks_lo,
    {
        self.inner.inode_on_disk.get_blocks()
    }

    pub fn set_blocks(&mut self, blocks: u64)
        ensures
            final(self)@ == old(self)@.with_disk(
                InodeDiskModel {
                    blocks_lo: (blocks % 0x1_0000_0000) as u32,
                    ..old(self)@.disk
                },
            ),
    {
        self.inner.inode_on_disk.set_blocks(blocks);
    }

    pub fn set_mode(&mut self, mode: u16)
        ensures
            final(self)@ == old(self)@.with_disk(InodeDiskModel { mode, ..old(self)@.disk }),
    {
        self.inner.inode_on_disk.mode = mode;
    }

    pub fn get_flags(&self) -> (r: u32)
        ensures
            r == self@.disk.flags,
    {
        self.inner.inode_on_disk.flags
    }

    pub fn set_flags(&mut self, flags: u32)
        ensures
            final(self)@ == old(self)@.with_disk(old(self)@.disk.with_flags(flags)),
    {
        self.inner.inode_on_disk.flags = flags;
    }

    pub fn get_block_size<D: BlockDevice>(&self, fs: &Ext4FileSystem<D>) -> (r: usize)
        ensures
            r == fs@.bs(),
    {
        fs.block_size()
    }

    pub fn has_inline_data(&self) -> (r: bool)
        ensures
            r == self@.disk.inline_data(),
    {
        self.inner.inode_on_disk.has_inline_data()
    }

    pub fn is_symlink(&self) -> (r: bool)
        ensures
            r == self@.disk.symlink(),
    {
        self.inner.inode_on_disk.is_symlink()
    }

    pub fn is_dir(&self) -> (r: bool)
        ensures
            r == self@.disk.dir(),
    {
        self.inner.inode_on_disk.is_dir()
    }

    pub fn get_seals(&self) -> (r: i32)
        ensures
            r == self@.seals,
    {
        self.seals
    }

    pub fn get_atime(&self) -> (r: TimeSpec)
        ensures
            r == inode_disk::time_of(self@.disk.atime, self@.disk.atime_extra),
    {
        self.inner.inode_on_disk.get_atime()
    }

    pub fn get_mtime(&self) -> (r: TimeSpec)
        ensures
            r == inode_disk::time_of(
                self@.disk.modify_file_time,
                self@.disk.modify_file_time_extra,
            ),
    {
        self.inner.inode_on_disk.get_mtime()
    }

    pub fn get_ctime(&self) -> (r: TimeSpec)
        ensures
            r == inode_disk::time_of(
                self@.disk.change_inode_time,
                self@.disk.change_inode_time_extra,
            ),
    {
        self.inner.inode_on_disk.get_ctime()
    }
}

} // verus!
