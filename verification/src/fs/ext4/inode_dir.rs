//! Directories, symbolic links and the attributes of a file.
use vstd::prelude::*;
use vstd::string::*;
use crate::bytes;
use crate::fs::dev::block_dev::BlockDevice;
use crate::fs::ext4::block_op;
use crate::fs::ext4::block_op::{Ext4DirContentRO, Ext4DirContentWE};
use crate::fs::ext4::dentry::Ext4DirEntry;
use crate::fs::ext4::fs;
use crate::fs::ext4::fs::{Ext4FileSystem, FsModel};
use crate::fs::ext4::inode;
use crate::fs::ext4::inode::{Ext4Inode, InodeModel};
use crate::fs::ext4::inode_disk;
use crate::fs::ext4::inode_disk::{EXT4_MAX_INLINE_DATA, S_ISGID};
use crate::fs::ext4::inode_extents;
use crate::fs::ext4::inode_laws;
use crate::fs::ext4::inode_write;
use crate::fs::page_cache::PAGE_SIZE;
use crate::fs::types::{current_task_uid_gid, Errno, FileType, Kstat};

verus! {

/// What a directory holds from `offset` on: as many bytes as its size says.
pub open spec fn dir_content(fs: FsModel, m: InodeModel, offset: int) -> Seq<u8> {
    let len = m.disk.size() - offset;
    let n = inode::read_count(m, offset, len);
    bytes::splice(bytes::zeros(len), 0, inode::bytes_of(fs, m, offset, n))
}

/// The inode after its content from `offset` on was read.
pub open spec fn dir_read(fs: FsModel, m: InodeModel, offset: int) -> InodeModel {
    inode::after_read(fs, m, offset, inode::read_count(m, offset, m.disk.size() - offset))
}

/// A directory whose content from `offset` on can be read.
pub open spec fn dir_ready(fs: FsModel, m: InodeModel, offset: int) -> bool {
    &&& m.disk.dir()
    &&& m.disk.size() % 4096 == 0
    &&& 0 <= offset <= m.disk.size() <= usize::MAX
    &&& inode::readable(fs, m, offset, m.disk.size() - offset)
}

/// A write of `len` bytes at `offset` can be done.
pub open spec fn writable(fs: FsModel, m: InodeModel, offset: int, len: int) -> bool {
    inode_write::written(fs, m, offset, bytes::zeros(len)) is Some && inode_write::end_ok(
        offset,
        len,
    )
}

/// The bytes of a free entry that takes a page.
pub open spec fn free_page_entry() -> Seq<u8> {
    seq![0u8, 0u8, 0u8, 0u8, 0u8, 0x10u8, 0u8, 0u8]
}

/// A directory with a page more, which is one free entry.
pub open spec fn dir_extended(fs: FsModel, m: InodeModel) -> Option<(FsModel, InodeModel)> {
    let size = m.disk.size();
    match fs::block_taken(fs, 0) {
        None => None,
        Some(t) => if !inode_extents::has_tree(m.disk) || size / 4096 > u32::MAX {
            None
        } else {
            match inode_extents::root_inserted(t.0, m.disk.block, size / 4096, t.1, 1) {
                None => None,
                Some(r) => inode_write::written(
                    r.0,
                    m.with_disk(m.disk.with_block(r.1)).resized(size + 4096),
                    size,
                    free_page_entry(),
                ),
            }
        },
    }
}

/// A directory with an entry added.  Where there is no room, the directory gets
/// a page more; as many bytes as it had are read from there on over what was
/// read before, the entry is added to these, and they are written there.
pub open spec fn entry_added(
    fs: FsModel,
    m: InodeModel,
    name: Seq<u8>,
    inode_num: u32,
    file_type: u8,
) -> Option<(FsModel, InodeModel)> {
    let size = m.disk.size();
    let content = dir_content(fs, m, 0);
    let m1 = dir_read(fs, m, 0);
    match block_op::added(content, 0, name, inode_num, file_type) {
        Ok(b) => inode_write::written(fs, m1, 0, b),
        Err(_) => match dir_extended(fs, m1) {
            None => None,
            Some(t) => {
                let n = inode::read_count(t.1, size, size);
                let again = bytes::splice(content, 0, inode::bytes_of(t.0, t.1, size, n));
                match block_op::added(again, 0, name, inode_num, file_type) {
                    Err(_) => None,
                    Ok(b) => if inode::readable(t.0, t.1, size, size) {
                        inode_write::written(
                            t.0,
                            inode::after_read(t.0, t.1, size, n),
                            size,
                            b,
                        )
                    } else {
                        None
                    },
                }
            },
        },
    }
}

/// A directory whose entry of this name refers to another inode.
pub open spec fn entry_set(
    fs: FsModel,
    m: InodeModel,
    name: Seq<char>,
    inode_num: u32,
    file_type: u8,
) -> Option<(FsModel, InodeModel)> {
    match block_op::redirected(dir_content(fs, m, 0), 0, name, inode_num, file_type) {
        Ok(b) => inode_write::written(fs, dir_read(fs, m, 0), 0, b),
        Err(_) => None,
    }
}

/// A directory without the entry of this name; none when there is no such
/// entry.
pub open spec fn entry_deleted(fs: FsModel, m: InodeModel, name: Seq<char>) -> Option<
    (FsModel, InodeModel),
> {
    match block_op::deleted(dir_content(fs, m, 0), name) {
        Some(b) => inode_write::written(fs, dir_read(fs, m, 0), 0, b),
        None => None,
    }
}

/// The characters of a link target: one for each byte up to the first zero.
pub open spec fn link_chars(b: Seq<u8>) -> Seq<char>
    decreases b.len(),
{
    if b.len() == 0 || b[0] == 0 {
        seq![]
    } else {
        seq![b[0] as char] + link_chars(b.drop_first())
    }
}

/// The bytes of a link target: in the inode when they fit there.
pub open spec fn link_bytes(fs: FsModel, m: InodeModel) -> Seq<u8> {
    if m.disk.size_lo <= 60 {
        m.disk.block.take(m.disk.size_lo as int)
    } else {
        inode::bytes_of(fs, m, 0, m.disk.size_lo as int)
    }
}

/// The inode after its link target was asked for.
pub open spec fn link_read(fs: FsModel, m: InodeModel) -> InodeModel {
    if !m.disk.symlink() || m.link is Some {
        m
    } else {
        let m1 = if m.disk.size_lo <= 60 {
            m
        } else {
            inode::after_read(fs, m, 0, m.disk.size_lo as int)
        };
        InodeModel { link: Some(link_chars(link_bytes(fs, m))), ..m1 }
    }
}

/// The metadata of a file.
pub open spec fn kstat_of(m: InodeModel, bs: int) -> Kstat {
    let a = inode_disk::time_of(m.disk.atime, m.disk.atime_extra);
    let t = inode_disk::time_of(m.disk.modify_file_time, m.disk.modify_file_time_extra);
    let c = inode_disk::time_of(m.disk.change_inode_time, m.disk.change_inode_time_extra);
    Kstat {
        ino: m.num as u64,
        mode: m.disk.mode,
        nlink: m.disk.links_count as u32,
        uid: m.disk.uid as u32,
        gid: m.disk.gid as u32,
        size: m.disk.size() as u64,
        blksize: bs as u32,
        blocks: m.disk.blocks_lo as u64,
        atime_sec: a.sec,
        atime_nsec: a.nsec,
        mtime_sec: t.sec,
        mtime_nsec: t.nsec,
        ctime_sec: c.sec,
        ctime_nsec: c.nsec,
        rdev: 0,
        file_type: FileType::of_mode(m.disk.mode),
    }
}

/// Reading a directory once more gives the same content and changes nothing.
proof fn lemma_dir_read_again(fs: FsModel, m: InodeModel)
    requires
        dir_ready(fs, m, 0),
    ensures
        dir_ready(fs, dir_read(fs, m, 0), 0),
        dir_content(fs, dir_read(fs, m, 0), 0) == dir_content(fs, m, 0),
        dir_read(fs, dir_read(fs, m, 0), 0) == dir_read(fs, m, 0),
{
    let m1 = dir_read(fs, m, 0);
    let n = inode::read_count(m, 0, m.disk.size());
    assert forall|idx: int|
        0 <= idx <= inode::last_page(0, n) && n > 0 implies #[trigger] inode::page_of(fs, m1, idx)
        == inode::page_of(fs, m, idx) by {
        inode_laws::law_read_changes_nothing(fs, m, 0, m.disk.size(), idx);
    }
    if n > 0 {
        assert(inode::bytes_of(fs, m1, 0, n) =~= inode::bytes_of(fs, m, 0, n)) by {
            assert forall|i: int| 0 <= i < n implies inode::bytes_of(fs, m1, 0, n)[i]
                == inode::bytes_of(fs, m, 0, n)[i] by {
                assert(inode::page_of(fs, m1, (0 + i) / 4096) == inode::page_of(
                    fs,
                    m,
                    (0 + i) / 4096,
                ));
            }
        }
        assert(dir_read(fs, m1, 0).pages =~= m1.pages);
        assert(inode::page_of(fs, m, 0) is Some);
    } else {
        assert(inode::bytes_of(fs, m1, 0, n) =~= inode::bytes_of(fs, m, 0, n));
    }
}

impl Ext4Inode {
    /// Read the directory from `offset` on.
    fn read_dir<D: BlockDevice>(&mut self, fs: &Ext4FileSystem<D>, offset: usize) -> (r: Vec<u8>)
        requires
            old(self).wf(),
            fs@.wf(),
            dir_ready(fs@, old(self)@, offset as int),
        ensures
            final(self).wf(),
            r@ == dir_content(fs@, old(self)@, offset as int),
            r@.len() == old(self)@.disk.size() - offset,
            final(self)@ == dir_read(fs@, old(self)@, offset as int),
    {
        let size: usize = self.get_size() as usize;
        let len: usize = size - offset;
        let mut buf: Vec<u8> = vec![0u8;len];
        assert(buf@ =~= bytes::zeros(len as int));
        let _n = self.read(fs, offset, buf.as_mut_slice());
        buf
    }

    /// The first entry of this name.
    pub fn lookup<D: BlockDevice>(&mut self, fs: &Ext4FileSystem<D>, name: &str) -> (r: Option<
        Ext4DirEntry,
    >)
        requires
            old(self).wf(),
            fs@.wf(),
            dir_ready(fs@, old(self)@, 0),
            block_op::walk_ok(dir_content(fs@, old(self)@, 0), 0),
        ensures
            final(self).wf(),
            final(self)@ == dir_read(fs@, old(self)@, 0),
            match r {
                Some(e) => block_op::found(dir_content(fs@, old(self)@, 0), name@) == Some(e@)
                    && e.wf(),
                None => block_op::found(dir_content(fs@, old(self)@, 0), name@) is None,
            },
    {
        let buf = self.read_dir(fs, 0);
        let content = Ext4DirContentRO::new(buf.as_slice());
        content.find(name)
    }

    /// List the entries from `offset` on.
    pub fn getdents<D: BlockDevice>(
        &mut self,
        fs: &Ext4FileSystem<D>,
        buf: &mut [u8],
        offset: usize,
    ) -> (r: Result<(usize, usize), Errno>)
        requires
            old(self).wf(),
            fs@.wf(),
            old(self)@.disk.links_count > 0 ==> {
                &&& dir_ready(fs@, old(self)@, offset as int)
                &&& block_op::list_ok(dir_content(fs@, old(self)@, offset as int), 0)
            },
        ensures
            final(self).wf(),
            if old(self)@.disk.links_count == 0 {
                &&& r == Err::<(usize, usize), Errno>(Errno::ENOENT)
                &&& final(self)@ == old(self)@
                &&& final(buf)@ == old(buf)@
            } else {
                &&& r is Ok
                &&& final(self)@ == dir_read(fs@, old(self)@, offset as int)
                &&& (r->Ok_0.0 as int, r->Ok_0.1 as int, final(buf)@) == block_op::listing(
                    dir_content(fs@, old(self)@, offset as int),
                    0,
                    old(buf)@,
                    0,
                )
            },
    {
        if self.inner.inode_on_disk.links_count == 0 {
            return Err(Errno::ENOENT);
        }
        let data = self.read_dir(fs, offset);
        let content = Ext4DirContentRO::new(data.as_slice());
        content.getdents(buf)
    }

    /// Let the entry of this name refer to another inode.
    pub fn set_entry<D: BlockDevice>(
        &mut self,
        fs: &mut Ext4FileSystem<D>,
        old_name: &str,
        new_inode_num: u32,
        new_file_type: u8,
    )
        requires
            old(self).wf(),
            old(fs)@.wf(),
            dir_ready(old(fs)@, old(self)@, 0),
            block_op::segments_ok(dir_content(old(fs)@, old(self)@, 0), 0),
            inode_write::end_ok(0, old(self)@.disk.size()),
            entry_set(old(fs)@, old(self)@, old_name@, new_inode_num, new_file_type) is Some,
        ensures
            final(self).wf(),
            final(fs)@.wf(),
            entry_set(old(fs)@, old(self)@, old_name@, new_inode_num, new_file_type) == Some(
                (final(fs)@, final(self)@),
            ),
    {
        let buf = self.read_dir(fs, 0);
        let mut content = Ext4DirContentWE::new(buf);
        proof {
            block_op::lemma_redirected_len(
                content@,
                0,
                old_name@,
                new_inode_num,
                new_file_type,
            );
        }
        let _done = content.set_entry(old_name, new_inode_num, new_file_type);
        let data = content.into_content();
        self.write(fs, 0, data.as_slice());
    }

    /// Let the entry of this name refer to another inode, if there is one.
    /// Returns whether there was.
    pub fn set_entry_if_present<D: BlockDevice>(
        &mut self,
        fs: &mut Ext4FileSystem<D>,
        old_name: &str,
        new_inode_num: u32,
        new_file_type: u8,
    ) -> (r: bool)
        requires
            old(self).wf(),
            old(fs)@.wf(),
            dir_ready(old(fs)@, old(self)@, 0),
            block_op::segments_ok(dir_content(old(fs)@, old(self)@, 0), 0),
            writable(
                old(fs)@,
                dir_read(old(fs)@, old(self)@, 0),
                0,
                old(self)@.disk.size(),
            ),
        ensures
            final(self).wf(),
            final(fs)@.wf(),
            r == block_op::redirected(
                dir_content(old(fs)@, old(self)@, 0),
                0,
                old_name@,
                new_inode_num,
                new_file_type,
            ) is Ok,
            r ==> entry_set(old(fs)@, old(self)@, old_name@, new_inode_num, new_file_type)
                == Some((final(fs)@, final(self)@)),
            !r ==> final(fs)@ == old(fs)@ && final(self)@ == dir_read(old(fs)@, old(self)@, 0),
    {
        let ghost m = self@;
        let buf = self.read_dir(fs, 0);
        let ghost before = buf@;
        let mut content = Ext4DirContentWE::new(buf);
        let present: bool = content.set_entry(old_name, new_inode_num, new_file_type).is_ok();
        if present {
            proof {
                lemma_dir_read_again(fs@, m);
                block_op::lemma_redirected_len(before, 0, old_name@, new_inode_num, new_file_type);
                inode_laws::law_writable_by_length(
                    fs@,
                    self@,
                    0,
                    bytes::zeros(before.len() as int),
                    content@,
                );
            }
            self.set_entry(fs, old_name, new_inode_num, new_file_type);
        }
        present
    }

    /// Add an entry to the directory.
    pub fn add_entry<D: BlockDevice>(
        &mut self,
        fs: &mut Ext4FileSystem<D>,
        name: &str,
        inode_num: u32,
        file_type: u8,
    )
        requires
            old(self).wf(),
            old(fs)@.wf(),
            dir_ready(old(fs)@, old(self)@, 0),
            name.spec_bytes().len() <= 255,
            inode_write::end_ok(0, 2 * old(self)@.disk.size() + 4096),
            entry_added(old(fs)@, old(self)@, name.spec_bytes(), inode_num, file_type) is Some,
        ensures
            final(self).wf(),
            final(fs)@.wf(),
            entry_added(old(fs)@, old(self)@, name.spec_bytes(), inode_num, file_type) == Some(
                (final(fs)@, final(self)@),
            ),
    {
        let size: usize = self.get_size() as usize;
        let buf = self.read_dir(fs, 0);
        let mut content = Ext4DirContentWE::new(buf);
        proof {
            block_op::lemma_added_len(content@, 0, name.spec_bytes(), inode_num, file_type);
        }
        match content.add_entry(name, inode_num, file_type) {
            Ok(_) => {
                let data = content.into_content();
                self.write(fs, 0, data.as_slice());
            },
            Err(_) => {
                self.extend_dir(fs, size);
                let mut again = content.into_content();
                let _n = self.read(fs, size, again.as_mut_slice());
                let mut content = Ext4DirContentWE::new(again);
                proof {
                    block_op::lemma_added_len(
                        content@,
                        0,
                        name.spec_bytes(),
                        inode_num,
                        file_type,
                    );
                }
                let _done = content.add_entry(name, inode_num, file_type);
                let data = content.into_content();
                self.write(fs, size, data.as_slice());
            },
        }
    }

    /// Give the directory a page more.
    fn extend_dir<D: BlockDevice>(&mut self, fs: &mut Ext4FileSystem<D>, size: usize)
        requires
            old(self).wf(),
            old(fs)@.wf(),
            size == old(self)@.disk.size(),
            inode_write::end_ok(0, 2 * size + 4096),
            dir_extended(old(fs)@, old(self)@) is Some,
        ensures
            final(self).wf(),
            final(fs)@.wf(),
            dir_extended(old(fs)@, old(self)@) == Some((final(fs)@, final(self)@)),
    {
        let block: u64 = fs.alloc_one_block();
        let _done = self.inner.inode_on_disk.insert_extent(
            (size / PAGE_SIZE) as u32,
            block,
            1,
            fs,
        );
        self.set_size((size + PAGE_SIZE) as u64);
        let free: Vec<u8> = vec![0u8, 0u8, 0u8, 0u8, 0u8, 0x10u8, 0u8, 0u8];
        assert(free@ =~= free_page_entry());
        self.write(fs, size, free.as_slice());
    }

    /// Delete the entry of this name.
    pub fn delete_entry<D: BlockDevice>(
        &mut self,
        fs: &mut Ext4FileSystem<D>,
        name: &str,
        inode_num: u32,
    ) -> (r: Result<(), Errno>)
        requires
            old(self).wf(),
            old(fs)@.wf(),
            dir_ready(old(fs)@, old(self)@, 0),
            block_op::chain_ok(dir_content(old(fs)@, old(self)@, 0), 0),
            block_op::mergeable(dir_content(old(fs)@, old(self)@, 0), 0),
            writable(
                old(fs)@,
                dir_read(old(fs)@, old(self)@, 0),
                0,
                old(self)@.disk.size(),
            ),
        ensures
            final(self).wf(),
            final(fs)@.wf(),
            match block_op::deleted(dir_content(old(fs)@, old(self)@, 0), name@) {
                Some(_) => {
                    &&& r == Ok::<(), Errno>(())
                    &&& entry_deleted(old(fs)@, old(self)@, name@) == Some(
                        (final(fs)@, final(self)@),
                    )
                },
                None => {
                    &&& r == Err::<(), Errno>(Errno::ENOENT)
                    &&& final(fs)@ == old(fs)@
                    &&& final(self)@ == dir_read(old(fs)@, old(self)@, 0)
                },
            },
    {
        let buf = self.read_dir(fs, 0);
        let ghost before = buf@;
        let ghost m = self@;
        let mut content = Ext4DirContentWE::new(buf);
        match content.delete_entry(name, inode_num) {
            Ok(_) => {
                let data = content.into_content();
                proof {
                    block_op::lemma_deleted_len(before, name@);
                    inode_laws::law_writable_by_length(
                        fs@,
                        m,
                        0,
                        bytes::zeros(before.len() as int),
                        data@,
                    );
                }
                self.write(fs, 0, data.as_slice());
                Ok(())
            },
            Err(e) => Err(e),
        }
    }

    /// The metadata of the file.
    pub fn getattr<D: BlockDevice>(&self, fs: &Ext4FileSystem<D>) -> (r: Kstat)
        ensures
            r == kstat_of(self@, fs@.bs()),
    {
        let disk = &self.inner.inode_on_disk;
        let mut kstat = Kstat::default();
        kstat.ino = self.inode_num;
        kstat.rdev = 0;
        kstat.mode = disk.mode;
        kstat.uid = disk.uid as u32;
        kstat.gid = disk.gid as u32;
        kstat.nlink = disk.links_count as u32;
        kstat.size = disk.get_size();
        kstat.blocks = disk.get_blocks();
        let atime = disk.get_atime();
        kstat.atime_sec = atime.sec;
        kstat.atime_nsec = atime.nsec;
        let mtime = disk.get_mtime();
        kstat.mtime_sec = mtime.sec;
        kstat.mtime_nsec = mtime.nsec;
        let ctime = disk.get_ctime();
        kstat.ctime_sec = ctime.sec;
        kstat.ctime_nsec = ctime.nsec;
        kstat.blksize = fs.super_block.block_size;
        kstat.file_type = FileType::from_mode(disk.mode);
        kstat
    }

    /// Whether names can be looked up in the file.
    pub fn can_lookup(&self) -> (r: bool)
        ensures
            r == (self@.disk.dir() && self@.disk.size() > 0),
    {
        self.inner.inode_on_disk.is_dir() && self.get_size() > 0
    }

    /// User and group of a new file in this directory: the caller's, or the
    /// directory's group where it is passed on.
    pub fn child_uid_gid(&self) -> (r: (u32, u32))
        ensures
            r == (0u32, if self@.disk.mode & S_ISGID != 0 {
                self@.disk.gid as u32
            } else {
                0u32
            }),
    {
        let (uid, gid) = current_task_uid_gid();
        if self.inner.inode_on_disk.mode & S_ISGID != 0 {
            (uid, self.inner.inode_on_disk.gid as u32)
        } else {
            (uid, gid)
        }
    }

    /// Read data that the inode holds itself.
    pub fn read_inline_data_dio(&self, offset: usize, buf: &mut [u8]) -> (r: usize)
        requires
            offset <= self@.disk.size_lo <= 60,
        ensures
            r == inode::read_count(self@, offset as int, old(buf)@.len() as int),
            final(buf)@ == bytes::splice(
                old(buf)@,
                0,
                self@.disk.block.subrange(offset as int, offset + r),
            ),
    {
        let size: usize = self.inner.inode_on_disk.size_lo as usize;
        let n: usize = if buf.len() <= size - offset {
            buf.len()
        } else {
            size - offset
        };
        let part = vstd::slice::slice_subrange(
            self.inner.inode_on_disk.block.as_slice(),
            offset,
            offset + n,
        );
        bytes::copy_into(buf, 0, part);
        n
    }

    /// Write data that the inode holds itself.
    pub fn write_inline_data_dio(&mut self, offset: usize, buf: &[u8]) -> (r: usize)
        requires
            offset <= 60,
            old(self)@.disk.size_lo <= 60,
        ensures
            r == (if buf@.len() <= 60 - offset {
                buf@.len() as int
            } else {
                60 - offset
            }),
            ({
                let m = old(self)@.with_disk(
                    old(self)@.disk.with_block(
                        bytes::splice(
                            old(self)@.disk.block,
                            offset as int,
                            buf@.take(r as int),
                        ),
                    ),
                );
                final(self)@ == (if offset + r > m.disk.size_lo {
                    m.with_disk(m.disk.with_size(offset + r))
                } else {
                    m
                })
            }),
    {
        let n: usize = if buf.len() <= EXT4_MAX_INLINE_DATA - offset {
            buf.len()
        } else {
            EXT4_MAX_INLINE_DATA - offset
        };
        let part = vstd::slice::slice_subrange(buf, 0, n);
        assert(part@ =~= buf@.take(n as int));
        bytes::copy_into(&mut self.inner.inode_on_disk.block, offset, part);
        if offset + n > self.inner.inode_on_disk.size_lo as usize {
            self.inner.inode_on_disk.set_size((offset + n) as u64);
        }
        n
    }

    /// The target of a symbolic link.
    pub fn read_link<D: BlockDevice>(&mut self, fs: &Ext4FileSystem<D>) -> (r: Result<
        String,
        Errno,
    >)
        requires
            old(self).wf(),
            fs@.wf(),
            (old(self)@.disk.symlink() && old(self)@.link is None && old(self)@.disk.size_lo > 60)
                ==> inode::readable(fs@, old(self)@, 0, old(self)@.disk.size_lo as int),
        ensures
            final(self).wf(),
            final(self)@ == link_read(fs@, old(self)@),
            match r {
                Ok(s) => old(self)@.disk.symlink() && final(self)@.link == Some(s@),
                Err(e) => !old(self)@.disk.symlink() && e == Errno::EINVAL,
            },
    {
        if !self.inner.inode_on_disk.is_symlink() {
            return Err(Errno::EINVAL);
        }
        match &self.link {
            Some(s) => {
                return Ok(s.clone());
            },
            None => {},
        }
        let size: usize = self.inner.inode_on_disk.size_lo as usize;
        let ghost m = self@;
        let mut buf: Vec<u8> = vec![0u8;size];
        if size <= EXT4_MAX_INLINE_DATA {
            self.read_inline_data_dio(0, buf.as_mut_slice());
        } else {
            let _n = self.read(fs, 0, buf.as_mut_slice());
        }
        assert(buf@ =~= link_bytes(fs@, m));
        let target = text_of(buf.as_slice());
        self.link = Some(target.clone());
        Ok(target)
    }
}

fn text_of(b: &[u8]) -> (r: String)
    ensures
        r@ == link_chars(b@),
{
    let mut s = String::new();
    let n: usize = b.len();
    let mut i: usize = 0;
    assert(b@.skip(0) =~= b@);
    assert(s@ + link_chars(b@) =~= link_chars(b@));
    while i < n && b[i] != 0
        invariant
            i <= n == b@.len(),
            link_chars(b@) == s@ + link_chars(b@.skip(i as int)),
        decreases n - i,
    {
        let ghost before = s@;
        let c: char = b[i] as char;
        s.push(c);
        proof {
            let rest = b@.skip(i as int);
            assert(rest[0] == b@[i as int]);
            assert(rest.drop_first() =~= b@.skip(i + 1));
            assert(before + (seq![c] + link_chars(b@.skip(i + 1))) =~= s@ + link_chars(
                b@.skip(i + 1),
            ));
        }
        i += 1;
    }
    assert(link_chars(b@.skip(i as int)) =~= seq![]);
    assert(s@ + Seq::<char>::empty() =~= s@);
    s
}

} // verus!
