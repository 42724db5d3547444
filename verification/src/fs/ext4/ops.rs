//! Operations on the names of a directory: what the VFS asks of ext4.
use vstd::prelude::*;
use vstd::string::*;
use crate::bytes;
use crate::fs::dentry;
use crate::fs::dentry::{Dentry, DentryFlags, DentryModel};
use crate::fs::dev::block_dev::BlockDevice;
use crate::fs::ext4::block_op;
use crate::fs::ext4::dentry::{Ext4DirEntry, EXT4_DT_DIR, EXT4_DT_LNK, EXT4_DT_REG};
use crate::fs::ext4::fs;
use crate::fs::ext4::fs::{Ext4FileSystem, FsModel};
use crate::fs::ext4::inode;
use crate::fs::ext4::inode::{Ext4Inode, InodeModel};
use crate::fs::ext4::inode_dir;
use crate::fs::ext4::inode_disk;
use crate::fs::ext4::inode_disk::{
    Ext4InodeDisk, InodeDiskModel, EXT4_INLINE_DATA_FL, S_IALLUGO, S_IFBLK, S_IFCHR, S_IFDIR,
    S_IFLNK, S_IFMT, S_IFREG,
};
use crate::fs::ext4::inode_laws;
use crate::fs::ext4::inode_table;
use crate::fs::ext4::inode_table::{load_inode, write_inode};
use crate::fs::ext4::inode_write;
use crate::fs::types::{current_task_uid_gid, Errno, SyscallRet};

verus! {

/// The flags of an entry for a file with this mode.
pub open spec fn type_flags(mode: u16) -> DentryFlags {
    let t = mode & S_IFMT;
    if t == S_IFREG {
        DentryFlags::REGULAR()
    } else if t == S_IFDIR {
        DentryFlags::DIRECTORY()
    } else if t == S_IFCHR || t == S_IFBLK {
        DentryFlags::SPECIAL()
    } else if t == S_IFLNK {
        DentryFlags::SYMLINK()
    } else {
        DentryFlags::MISS()
    }
}

fn flags_of_mode(mode: u16) -> (r: DentryFlags)
    ensures
        r == type_flags(mode),
{
    let t: u16 = mode & S_IFMT;
    if t == S_IFREG {
        DentryFlags::REGULAR()
    } else if t == S_IFDIR {
        DentryFlags::DIRECTORY()
    } else if t == S_IFCHR || t == S_IFBLK {
        DentryFlags::SPECIAL()
    } else if t == S_IFLNK {
        DentryFlags::SYMLINK()
    } else {
        DentryFlags::MISS()
    }
}

fn join_path(parent: &str, name: &str) -> (r: String)
    ensures
        r@ == dentry::child_path(parent@, name@),
{
    let mut path = parent.to_owned();
    path.push('/');
    path.append(name);
    path
}

/// The inode number that a directory entry refers to has a place on the device.
pub fn is_loadable<D: BlockDevice>(fs: &Ext4FileSystem<D>, inode_num: u32) -> (r: bool)
    requires
        fs@.wf(),
    ensures
        r == inode_table::inode_place(fs@, inode_num as int) is Some,
{
    if inode_num < 1 {
        return false;
    }
    let per: u64 = fs.super_block.inodes_per_group as u64;
    let gi: u64 = (inode_num - 1) as u64 / per;
    if gi >= fs.block_groups.len() as u64 {
        return false;
    }
    let index: u64 = (inode_num - 1) as u64 % per;
    let size: u64 = fs.super_block.inode_size as u64;
    let bs: u64 = fs.super_block.block_size as u64;
    let limit: usize = fs.block_device.size();
    assert(0 <= index * size <= 0xFFFF_FFFF * 0xFFFF) by (nonlinear_arith)
        requires
            index <= 0xFFFF_FFFF,
            size <= 0xFFFF,
    ;
    let table: u64 = fs.block_groups[gi as usize].inode_table();
    let block: u128 = table as u128 + (index * size / bs) as u128;
    assert(0 <= block * bs <= 0x2_0000_0000_0000_0000 * 4096) by (nonlinear_arith)
        requires
            block <= 0x2_0000_0000_0000_0000,
            bs <= 4096,
    ;
    let end: u128 = block * bs as u128 + bs as u128;
    end <= limit as u128 && index * size % bs + 160 <= bs
}

/// The entry of the cache for what a directory says of a name: the file that it
/// refers to, or that there is none.
pub fn dentry_for<D: BlockDevice>(
    fs: &Ext4FileSystem<D>,
    entry: Option<Ext4DirEntry>,
    name: &str,
    parent: usize,
    parent_path: &str,
) -> (r: Dentry<Ext4Inode>)
    requires
        fs@.wf(),
        entry is Some ==> inode_table::inode_place(fs@, entry->0.inode_num as int) is Some,
    ensures
        r.wf(),
        r@.path == dentry::child_path(parent_path@, name@),
        r@.parent == Some(parent),
        r@.children == Map::<Seq<char>, usize>::empty(),
        match entry {
            None => r@.flags == DentryFlags::NEGATIVE() && r@.inode is None,
            Some(e) => {
                &&& r@.inode is Some
                &&& r@.inode->0.wf()
                &&& r@.inode->0@ == inode_table::fresh(
                    e.inode_num as int,
                    inode_table::stored_inode(fs@, e.inode_num as int),
                    crate::fs::ext4::inode::F_SEAL_SEAL,
                )
                &&& r@.flags == type_flags(r@.inode->0@.disk.mode)
            },
        },
{
    let path = join_path(parent_path, name);
    match entry {
        None => Dentry::negative(path, Some(parent)),
        Some(e) => {
            let inode = load_inode(e.inode_num as u64, fs);
            let flags = flags_of_mode(inode.inner.inode_on_disk.get_mode());
            Dentry::new(path, Some(parent), flags, Some(inode))
        },
    }
}

/// Look a name up in a directory.  Returns the entry of the cache for it, which
/// is negative when there is no such file; none when the directory refers to an
/// inode that has no place on the device.
pub fn lookup<D: BlockDevice>(
    dir: &mut Ext4Inode,
    fs: &Ext4FileSystem<D>,
    name: &str,
    parent: usize,
    parent_path: &str,
) -> (r: Option<Dentry<Ext4Inode>>)
    requires
        old(dir).wf(),
        fs@.wf(),
        inode_dir::dir_ready(fs@, old(dir)@, 0),
        block_op::walk_ok(inode_dir::dir_content(fs@, old(dir)@, 0), 0),
    ensures
        final(dir).wf(),
        final(dir)@ == inode_dir::dir_read(fs@, old(dir)@, 0),
        ({
            let found = block_op::found(inode_dir::dir_content(fs@, old(dir)@, 0), name@);
            match r {
                None => found is Some && inode_table::inode_place(
                    fs@,
                    found->0.inode_num as int,
                ) is None,
                Some(d) => {
                    &&& d.wf()
                    &&& d@.path == dentry::child_path(parent_path@, name@)
                    &&& d@.parent == Some(parent)
                    &&& d@.children == Map::<Seq<char>, usize>::empty()
                    &&& match found {
                        None => d@.flags == DentryFlags::NEGATIVE() && d@.inode is None,
                        Some(e) => {
                            &&& inode_table::inode_place(fs@, e.inode_num as int) is Some
                            &&& d@.inode is Some
                            &&& d@.inode->0.wf()
                            &&& d@.inode->0@ == inode_table::fresh(
                                e.inode_num as int,
                                inode_table::stored_inode(fs@, e.inode_num as int),
                                crate::fs::ext4::inode::F_SEAL_SEAL,
                            )
                            &&& d@.flags == type_flags(d@.inode->0@.disk.mode)
                        },
                    }
                },
            }
        }),
{
    let entry = dir.lookup(fs, name);
    if entry.is_some() {
        let e = entry.unwrap();
        if !is_loadable(fs, e.inode_num) {
            return None;
        }
        return Some(dentry_for(fs, Some(e), name, parent, parent_path));
    }
    Some(dentry_for(fs, None, name, parent, parent_path))
}

/// A file made under a name: an inode number was taken, `make` says what the
/// new inode is, it was stored, and the directory has an entry for it.  The
/// file system, the directory and the new inode.
pub open spec fn file_made(
    fs: FsModel,
    dir: InodeModel,
    name: Seq<u8>,
    num: int,
    new: InodeModel,
    file_type: u8,
) -> Option<(FsModel, InodeModel)> {
    if inode_table::inode_place(fs, num) is None || !inode_dir::dir_ready(
        inode_table::with_stored(fs, num, new.disk),
        dir,
        0,
    ) {
        None
    } else {
        inode_dir::entry_added(
            inode_table::with_stored(fs, num, new.disk),
            dir,
            name,
            (num % 0x1_0000_0000) as u32,
            file_type,
        )
    }
}

/// A new regular file or directory: the file system, the directory and the new
/// inode afterwards.
pub open spec fn created(
    fs: FsModel,
    dir: InodeModel,
    name: Seq<u8>,
    mode: u16,
    flags: u32,
    is_dir: bool,
    file_type: u8,
) -> Option<(FsModel, InodeModel, InodeModel)> {
    match fs::inode_taken(fs, 0, is_dir) {
        None => None,
        Some(t) => {
            let new = inode_table::new_inode(mode, flags, t.1, 0, 0, 0);
            match file_made(t.0, dir, name, t.1, new, file_type) {
                None => None,
                Some(r) => Some((r.0, r.1, new)),
            }
        },
    }
}

/// What a new symbolic link is: a short target is stored in the inode, a long
/// one is written as the data of the file.
pub open spec fn link_made(fs: FsModel, num: int, target: Seq<u8>) -> Option<
    (FsModel, InodeModel),
> {
    let new = inode_table::new_inode(0o777 | S_IFLNK, EXT4_INLINE_DATA_FL, num, 0, 0, 0);
    if target.len() < 60 {
        Some(
            (
                fs,
                new.with_disk(
                    new.disk.with_block(bytes::splice(new.disk.block, 0, target)).with_size(
                        target.len() as int,
                    ),
                ),
            ),
        )
    } else {
        inode_write::written(fs, new, 0, target)
    }
}

/// A new symbolic link.
pub open spec fn linked(fs: FsModel, dir: InodeModel, name: Seq<u8>, target: Seq<u8>) -> Option<
    (FsModel, InodeModel, InodeModel),
> {
    match fs::inode_taken(fs, 0, false) {
        None => None,
        Some(t) => match link_made(t.0, t.1, target) {
            None => None,
            Some(l) => match file_made(l.0, dir, name, t.1, l.1, EXT4_DT_LNK) {
                None => None,
                Some(r) => Some((r.0, r.1, l.1)),
            },
        },
    }
}

/// The inode of a new device file; its numbers are the halves of `rdev`.
pub open spec fn node_inode(mode: u16, rdev: u64) -> InodeDiskModel {
    let kind = if mode & S_IFBLK == S_IFBLK {
        S_IFBLK
    } else {
        S_IFCHR
    };
    inode_disk::device_inode(
        mode | kind,
        (rdev as int / 0x1_0000_0000) as u32,
        (rdev as int % 0x1_0000_0000) as u32,
    )
}

/// A new device file.
pub open spec fn node_made(fs: FsModel, dir: InodeModel, name: Seq<u8>, mode: u16, rdev: u64) -> Option<
    (FsModel, InodeModel, InodeModel),
> {
    match fs::inode_taken(fs, 0, false) {
        None => None,
        Some(t) => {
            let new = inode_table::fresh(t.1, node_inode(mode, rdev), 0);
            match file_made(t.0, dir, name, t.1, new, EXT4_DT_REG) {
                None => None,
                Some(r) => Some((r.0, r.1, new)),
            }
        },
    }
}

/// Limits of a directory to which an entry is added.
pub open spec fn dir_limits(dir: InodeModel, path: Seq<char>) -> bool {
    &&& inode_write::end_ok(0, 2 * dir.disk.size() + 4096)
    &&& vstd::utf8::encode_utf8(dentry::last_name(path)).len() <= 255
}

/// The name, as bytes, that an entry of the cache has in its directory.
pub open spec fn name_bytes(path: Seq<char>) -> Seq<u8> {
    vstd::utf8::encode_utf8(dentry::last_name(path))
}

/// An entry of the cache after its file was made.
pub open spec fn filled<I>(
    before: DentryModel<I>,
    after: DentryModel<I>,
    ty: DentryFlags,
) -> bool {
    &&& after.inode is Some
    &&& after == (DentryModel {
        flags: before.flags.without(DentryFlags::NEGATIVE()).with(ty),
        inode: after.inode,
        ..before
    })
}

fn store_and_enter<D: BlockDevice>(
    dir: &mut Ext4Inode,
    fs: &mut Ext4FileSystem<D>,
    name: &str,
    num: u64,
    new: &Ext4Inode,
    file_type: u8,
)
    requires
        old(dir).wf(),
        old(fs)@.wf(),
        name.spec_bytes().len() <= 255,
        inode_write::end_ok(0, 2 * old(dir)@.disk.size() + 4096),
        file_made(
            old(fs)@,
            old(dir)@,
            name.spec_bytes(),
            num as int,
            new@,
            file_type,
        ) is Some,
    ensures
        final(dir).wf(),
        final(fs)@.wf(),
        file_made(old(fs)@, old(dir)@, name.spec_bytes(), num as int, new@, file_type) == Some(
            (final(fs)@, final(dir)@),
        ),
{
    write_inode(new, num, fs);
    dir.add_entry(fs, name, (num % 0x1_0000_0000) as u32, file_type);
}

/// Make a regular file in a directory.
pub fn create<D: BlockDevice>(
    dir: &mut Ext4Inode,
    fs: &mut Ext4FileSystem<D>,
    dentry: &mut Dentry<Ext4Inode>,
    mode: u16,
)
    requires
        old(dir).wf(),
        old(fs)@.wf(),
        dir_limits(old(dir)@, old(dentry)@.path),
        created(
            old(fs)@,
            old(dir)@,
            name_bytes(old(dentry)@.path),
            mode & S_IALLUGO | S_IFREG,
            EXT4_INLINE_DATA_FL,
            false,
            EXT4_DT_REG,
        ) is Some,
    ensures
        final(dir).wf(),
        final(fs)@.wf(),
        filled(old(dentry)@, final(dentry)@, DentryFlags::REGULAR()),
        final(dentry)@.inode->0.wf(),
        created(
            old(fs)@,
            old(dir)@,
            name_bytes(old(dentry)@.path),
            mode & S_IALLUGO | S_IFREG,
            EXT4_INLINE_DATA_FL,
            false,
            EXT4_DT_REG,
        ) == Some((final(fs)@, final(dir)@, final(dentry)@.inode->0@)),
{
    let num: u64 = fs.alloc_inode(false);
    let (uid, gid) = current_task_uid_gid();
    let new = Ext4Inode::new(
        mode & S_IALLUGO | S_IFREG,
        EXT4_INLINE_DATA_FL,
        num,
        uid as u16,
        gid as u16,
        0,
    );
    let name = dentry.get_last_name();
    store_and_enter(dir, fs, name.as_str(), num, &new, EXT4_DT_REG);
    dentry.inode = Some(new);
    dentry.flags.update_type_from_negative(DentryFlags::REGULAR());
}

/// Make a directory in a directory.  It has no entries, not even its own.
pub fn mkdir<D: BlockDevice>(
    dir: &mut Ext4Inode,
    fs: &mut Ext4FileSystem<D>,
    dentry: &mut Dentry<Ext4Inode>,
    mode: u16,
)
    requires
        old(dir).wf(),
        old(fs)@.wf(),
        dir_limits(old(dir)@, old(dentry)@.path),
        created(
            old(fs)@,
            old(dir)@,
            name_bytes(old(dentry)@.path),
            mode & S_IALLUGO | S_IFDIR,
            0,
            true,
            EXT4_DT_DIR,
        ) is Some,
    ensures
        final(dir).wf(),
        final(fs)@.wf(),
        filled(old(dentry)@, final(dentry)@, DentryFlags::DIRECTORY()),
        final(dentry)@.inode->0.wf(),
        created(
            old(fs)@,
            old(dir)@,
            name_bytes(old(dentry)@.path),
            mode & S_IALLUGO | S_IFDIR,
            0,
            true,
            EXT4_DT_DIR,
        ) == Some((final(fs)@, final(dir)@, final(dentry)@.inode->0@)),
{
    let num: u64 = fs.alloc_inode(true);
    let (uid, gid) = current_task_uid_gid();
    let new = Ext4Inode::new(mode & S_IALLUGO | S_IFDIR, 0, num, uid as u16, gid as u16, 0);
    let name = dentry.get_last_name();
    store_and_enter(dir, fs, name.as_str(), num, &new, EXT4_DT_DIR);
    dentry.inode = Some(new);
    dentry.flags.update_type_from_negative(DentryFlags::DIRECTORY());
}

/// Make a symbolic link in a directory.
pub fn symlink<D: BlockDevice>(
    dir: &mut Ext4Inode,
    fs: &mut Ext4FileSystem<D>,
    dentry: &mut Dentry<Ext4Inode>,
    target: &str,
)
    requires
        old(dir).wf(),
        old(fs)@.wf(),
        dir_limits(old(dir)@, old(dentry)@.path),
        inode_write::end_ok(0, target.spec_bytes().len() as int),
        linked(
            old(fs)@,
            old(dir)@,
            name_bytes(old(dentry)@.path),
            target.spec_bytes(),
        ) is Some,
    ensures
        final(dir).wf(),
        final(fs)@.wf(),
        filled(old(dentry)@, final(dentry)@, DentryFlags::SYMLINK()),
        final(dentry)@.inode->0.wf(),
        linked(old(fs)@, old(dir)@, name_bytes(old(dentry)@.path), target.spec_bytes()) == Some(
            (final(fs)@, final(dir)@, final(dentry)@.inode->0@),
        ),
{
    let num: u64 = fs.alloc_inode(false);
    let (uid, gid) = current_task_uid_gid();
    let mut new = Ext4Inode::new(
        0o777 | S_IFLNK,
        EXT4_INLINE_DATA_FL,
        num,
        uid as u16,
        gid as u16,
        0,
    );
    let bytes_of_target = target.as_bytes();
    if bytes_of_target.len() < 60 {
        bytes::copy_into(&mut new.inner.inode_on_disk.block, 0, bytes_of_target);
        new.inner.inode_on_disk.set_size(bytes_of_target.len() as u64);
    } else {
        new.write(fs, 0, bytes_of_target);
    }
    let name = dentry.get_last_name();
    store_and_enter(dir, fs, name.as_str(), num, &new, EXT4_DT_LNK);
    dentry.inode = Some(new);
    dentry.flags.update_type_from_negative(DentryFlags::SYMLINK());
}

/// Make a device file in a directory.
pub fn mknod<D: BlockDevice>(
    dir: &mut Ext4Inode,
    fs: &mut Ext4FileSystem<D>,
    dentry: &mut Dentry<Ext4Inode>,
    mode: u16,
    rdev: u64,
)
    requires
        old(dir).wf(),
        old(fs)@.wf(),
        dir_limits(old(dir)@, old(dentry)@.path),
        node_made(old(fs)@, old(dir)@, name_bytes(old(dentry)@.path), mode, rdev) is Some,
    ensures
        final(dir).wf(),
        final(fs)@.wf(),
        filled(old(dentry)@, final(dentry)@, DentryFlags::SPECIAL()),
        final(dentry)@.inode->0.wf(),
        node_made(old(fs)@, old(dir)@, name_bytes(old(dentry)@.path), mode, rdev) == Some(
            (final(fs)@, final(dir)@, final(dentry)@.inode->0@),
        ),
{
    let num: u64 = fs.alloc_inode(false);
    let major: u32 = (rdev / 0x1_0000_0000) as u32;
    let minor: u32 = (rdev % 0x1_0000_0000) as u32;
    let disk = if mode & S_IFBLK == S_IFBLK {
        Ext4InodeDisk::new_blk(mode, major, minor)
    } else {
        Ext4InodeDisk::new_chr(mode, major, minor)
    };
    let new = Ext4Inode::new_device(disk, num);
    let name = dentry.get_last_name();
    store_and_enter(dir, fs, name.as_str(), num, &new, EXT4_DT_REG);
    dentry.inode = Some(new);
    dentry.flags.update_type_from_negative(DentryFlags::SPECIAL());
}

/// Remove a name from a directory; `inode_num` is the number of the file of
/// that name, if there is one.
pub fn unlink_name<D: BlockDevice>(
    dir: &mut Ext4Inode,
    fs: &mut Ext4FileSystem<D>,
    name: &str,
    inode_num: Option<u64>,
) -> (r: SyscallRet)
    requires
        old(dir).wf(),
        old(fs)@.wf(),
        inode_num is Some ==> deletable(old(fs)@, old(dir)@),
    ensures
        final(dir).wf(),
        final(fs)@.wf(),
        unlinked(
            old(fs)@,
            old(dir)@,
            name@,
            inode_num is Some,
            final(fs)@,
            final(dir)@,
            r,
        ),
{
    match inode_num {
        None => Err(Errno::ENOENT),
        Some(num) => {
            let low: u32 = (num % 0x1_0000_0000) as u32;
            match dir.delete_entry(fs, name, low) {
                Ok(_) => Ok(0),
                Err(e) => Err(e),
            }
        },
    }
}

/// Names can be removed from a directory.
pub open spec fn deletable(fs: FsModel, dir: InodeModel) -> bool {
    &&& inode_dir::dir_ready(fs, dir, 0)
    &&& block_op::chain_ok(inode_dir::dir_content(fs, dir, 0), 0)
    &&& block_op::mergeable(inode_dir::dir_content(fs, dir, 0), 0)
    &&& inode_dir::writable(fs, inode_dir::dir_read(fs, dir, 0), 0, dir.disk.size())
}

/// What removing a name does: an entry of that name leaves the directory; it is
/// an error if there is no file or no such entry.
pub open spec fn unlinked(
    fs: FsModel,
    dir: InodeModel,
    name: Seq<char>,
    exists_file: bool,
    fs2: FsModel,
    dir2: InodeModel,
    r: SyscallRet,
) -> bool {
    if !exists_file {
        &&& r == Err::<usize, Errno>(Errno::ENOENT)
        &&& dir2 == dir
        &&& fs2 == fs
    } else {
        match block_op::deleted(inode_dir::dir_content(fs, dir, 0), name) {
            Some(_) => {
                &&& r == Ok::<usize, Errno>(0)
                &&& inode_dir::entry_deleted(fs, dir, name) == Some((fs2, dir2))
            },
            None => {
                &&& r == Err::<usize, Errno>(Errno::ENOENT)
                &&& fs2 == fs
                &&& dir2 == inode_dir::dir_read(fs, dir, 0)
            },
        }
    }
}

/// Remove the name of a file from a directory.
pub fn unlink<D: BlockDevice>(
    dir: &mut Ext4Inode,
    fs: &mut Ext4FileSystem<D>,
    dentry: &Dentry<Ext4Inode>,
) -> (r: SyscallRet)
    requires
        old(dir).wf(),
        old(fs)@.wf(),
        dentry@.inode is Some ==> deletable(old(fs)@, old(dir)@),
    ensures
        final(dir).wf(),
        final(fs)@.wf(),
        unlinked(
            old(fs)@,
            old(dir)@,
            dentry::last_name(dentry@.path),
            dentry@.inode is Some,
            final(fs)@,
            final(dir)@,
            r,
        ),
{
    let name = dentry.get_last_name();
    let num: Option<u64> = match &dentry.inode {
        None => None,
        Some(inode) => Some(inode.inode_num),
    };
    unlink_name(dir, fs, name.as_str(), num)
}

/// Read bytes of a file from `offset` on.  Returns how many were read.
pub fn read<D: BlockDevice>(
    inode: &mut Ext4Inode,
    fs: &Ext4FileSystem<D>,
    offset: usize,
    buf: &mut [u8],
) -> (n: usize)
    requires
        old(inode).wf(),
        fs@.wf(),
        inode::readable(fs@, old(inode)@, offset as int, old(buf)@.len() as int),
    ensures
        final(inode).wf(),
        n == inode::read_count(old(inode)@, offset as int, old(buf)@.len() as int),
        final(inode)@ == inode::after_read(fs@, old(inode)@, offset as int, n as int),
        final(buf)@ == bytes::splice(
            old(buf)@,
            0,
            inode::bytes_of(fs@, old(inode)@, offset as int, n as int),
        ),
{
    match inode.read(fs, offset, buf) {
        Ok(n) => n,
        Err(_) => 0,
    }
}

/// List a directory from `offset` on.  Returns the bytes written and the
/// offset to go on from; both are 0 for a directory that no name leads to.
pub fn getdents<D: BlockDevice>(
    dir: &mut Ext4Inode,
    fs: &Ext4FileSystem<D>,
    offset: usize,
    buf: &mut [u8],
) -> (r: (usize, usize))
    requires
        old(dir).wf(),
        fs@.wf(),
        old(dir)@.disk.links_count > 0 ==> {
            &&& inode_dir::dir_ready(fs@, old(dir)@, offset as int)
            &&& block_op::list_ok(inode_dir::dir_content(fs@, old(dir)@, offset as int), 0)
        },
    ensures
        final(dir).wf(),
        r.0 <= old(buf)@.len(),
        final(buf)@.len() == old(buf)@.len(),
        if old(dir)@.disk.links_count == 0 {
            &&& r == (0usize, 0usize)
            &&& final(dir)@ == old(dir)@
            &&& final(buf)@ == old(buf)@
        } else {
            &&& final(dir)@ == inode_dir::dir_read(fs@, old(dir)@, offset as int)
            &&& (r.1 - offset, r.0 as int, final(buf)@) == block_op::listing(
                inode_dir::dir_content(fs@, old(dir)@, offset as int),
                0,
                old(buf)@,
                0,
            )
        },
{
    proof {
        block_op::law_listing_stays_inside(
            inode_dir::dir_content(fs@, dir@, offset as int),
            0,
            buf@,
            0,
        );
    }
    match dir.getdents(fs, buf, offset) {
        Ok(r) => (r.1, offset + r.0),
        Err(_) => (0, 0),
    }
}

pub proof fn lemma_made_is_found(
    fs1: FsModel,
    dir: InodeModel,
    name: Seq<char>,
    num: int,
    new: InodeModel,
    file_type: u8,
)
    requires
        vstd::utf8::encode_utf8(name).len() <= 255,
        fs1.wf(),
        inode_table::inode_place(fs1, num) is Some,
        new.disk.wf(),
        entry_fits(inode_table::with_stored(fs1, num, new.disk), dir, name, num, file_type),
    ensures
        match file_made(fs1, dir, vstd::utf8::encode_utf8(name), num, new, file_type) {
            None => false,
            Some(t) => {
                &&& refers_to(t.0, t.1, name, num, file_type)
                &&& inode_table::stored_inode(t.0, num) == new.disk
            },
        },
{
    let fs2 = inode_table::with_stored(fs1, num, new.disk);
    inode_table::law_stored_inode_is_loaded(fs1, num, new.disk);
    inode_laws::law_added_name_is_found(
        fs2,
        dir,
        name,
        (num % 0x1_0000_0000) as u32,
        file_type,
    );
}

/// The directory has room for a name that it does not hold yet.
pub open spec fn entry_fits(
    fs: FsModel,
    dir: InodeModel,
    name: Seq<char>,
    num: int,
    file_type: u8,
) -> bool {
    let content = inode_dir::dir_content(fs, dir, 0);
    &&& inode_laws::plain_dir(fs, dir)
    &&& block_op::place_of(content, 0, name) is None
    &&& block_op::added(
        content,
        0,
        vstd::utf8::encode_utf8(name),
        (num % 0x1_0000_0000) as u32,
        file_type,
    ) is Ok
}

/// Under this name the directory refers to this inode.
pub open spec fn refers_to(
    fs: FsModel,
    dir: InodeModel,
    name: Seq<char>,
    num: int,
    file_type: u8,
) -> bool {
    match block_op::found(inode_dir::dir_content(fs, dir, 0), name) {
        None => false,
        Some(e) => e.inode_num == num % 0x1_0000_0000 && e.file_type == file_type,
    }
}

/// A file that was made is found under its name, and its inode can be loaded as
/// it was made.  `fs1` and `num` are what taking an inode number gives; the
/// directory has room for the name and does not hold it yet.
pub proof fn law_created_file_is_found(
    fs: FsModel,
    dir: InodeModel,
    name: Seq<char>,
    mode: u16,
    flags: u32,
    is_dir: bool,
    file_type: u8,
    fs1: FsModel,
    num: int,
)
    requires
        vstd::utf8::encode_utf8(name).len() <= 255,
        fs::inode_taken(fs, 0, is_dir) == Some((fs1, num)),
        fs1.wf(),
        inode_table::inode_place(fs1, num) is Some,
        entry_fits(
            inode_table::with_stored(
                fs1,
                num,
                inode_table::new_inode(mode, flags, num, 0, 0, 0).disk,
            ),
            dir,
            name,
            num,
            file_type,
        ),
    ensures
        match created(
            fs,
            dir,
            vstd::utf8::encode_utf8(name),
            mode,
            flags,
            is_dir,
            file_type,
        ) {
            None => false,
            Some(t) => {
                &&& refers_to(t.0, t.1, name, num, file_type)
                &&& inode_table::stored_inode(t.0, num) == t.2.disk
                &&& t.2 == inode_table::new_inode(mode, flags, num, 0, 0, 0)
            },
        },
{
    let new = inode_table::new_inode(mode, flags, num, 0, 0, 0);
    inode_table::lemma_new_inode(mode, flags, num, 0, 0, 0);
    lemma_made_is_found(fs1, dir, name, num, new, file_type);
}

} // verus!
