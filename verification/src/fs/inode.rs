//! Inode operations: what every file system offers to the VFS.
use vstd::prelude::*;
use crate::fs::dentry::{Dentry, DentryModel};
use crate::fs::types::{Kstat, SyscallRet};

verus! {

/// Every inode (file, directory, device, pipe, etc.) has these operations.  What
/// an inode answers is up to it; the `.._answer` predicates name its answers.  An
/// inode that says nothing of an answer may give any.
pub trait InodeOp: Sized {
    /// A read may turn `before` into `after` and return `n`.
    open spec fn read_answer(&self, offset: usize, before: Seq<u8>, after: Seq<u8>, n: usize) -> bool {
        true
    }

    /// Read bytes from the file starting at `offset` into `buf`.
    /// Returns the number of bytes read (0 = end of file).
    fn read(&self, offset: usize, buf: &mut [u8]) -> (n: usize)
        ensures
            n <= old(buf)@.len(),
            final(buf)@.len() == old(buf)@.len(),
            self.read_answer(offset, old(buf)@, final(buf)@, n),
    ;

    /// A write may return `n`.
    open spec fn write_answer(&self, offset: usize, data: Seq<u8>, n: usize) -> bool {
        true
    }

    /// Write bytes from `buf` to the file starting at `offset`.
    /// Returns the number of bytes written.
    fn write(&self, offset: usize, buf: &[u8]) -> (n: usize)
        ensures
            n <= buf@.len(),
            self.write_answer(offset, buf@, n),
    ;

    /// A lookup may give the entry `d`.
    open spec fn lookup_answer(
        &self,
        name: Seq<char>,
        parent: usize,
        parent_path: Seq<char>,
        d: DentryModel<Self>,
    ) -> bool {
        true
    }

    /// Look up a directory entry by name.  `parent` is the directory's own entry
    /// in the cache.  Returns an entry (negative if the name is not found).
    fn lookup(&self, name: &str, parent: usize, parent_path: &str) -> (d: Dentry<Self>)
        ensures
            d.wf(),
            d@.children == Map::<Seq<char>, usize>::empty(),
            self.lookup_answer(name@, parent, parent_path@, d@),
    ;

    /// Making a regular file may turn the entry `before` into `after`.
    open spec fn create_answer(
        &self,
        mode: u16,
        before: DentryModel<Self>,
        after: DentryModel<Self>,
    ) -> bool {
        true
    }

    /// Create a new regular file inside this directory; fills the negative
    /// entry `dentry`.
    fn create(&self, dentry: &mut Dentry<Self>, mode: u16)
        requires
            old(dentry).wf(),
        ensures
            final(dentry).wf(),
            same_place(old(dentry)@, final(dentry)@),
            self.create_answer(mode, old(dentry)@, final(dentry)@),
    ;

    /// Making a directory may turn the entry `before` into `after`.
    open spec fn mkdir_answer(
        &self,
        mode: u16,
        before: DentryModel<Self>,
        after: DentryModel<Self>,
    ) -> bool {
        true
    }

    /// Create a new directory inside this directory.
    fn mkdir(&self, dentry: &mut Dentry<Self>, mode: u16)
        requires
            old(dentry).wf(),
        ensures
            final(dentry).wf(),
            same_place(old(dentry)@, final(dentry)@),
            self.mkdir_answer(mode, old(dentry)@, final(dentry)@),
    ;

    /// Making a symbolic link may turn the entry `before` into `after`.
    open spec fn symlink_answer(
        &self,
        target: Seq<char>,
        before: DentryModel<Self>,
        after: DentryModel<Self>,
    ) -> bool {
        true
    }

    /// Create a new symbolic link inside this directory.
    fn symlink(&self, dentry: &mut Dentry<Self>, target: &str)
        requires
            old(dentry).wf(),
        ensures
            final(dentry).wf(),
            same_place(old(dentry)@, final(dentry)@),
            self.symlink_answer(target@, old(dentry)@, final(dentry)@),
    ;

    /// Making a device node may turn the entry `before` into `after`.
    open spec fn mknod_answer(
        &self,
        mode: u16,
        rdev: u64,
        before: DentryModel<Self>,
        after: DentryModel<Self>,
    ) -> bool {
        true
    }

    /// Create a device node (character or block) inside this directory.
    fn mknod(&self, dentry: &mut Dentry<Self>, mode: u16, rdev: u64)
        requires
            old(dentry).wf(),
        ensures
            final(dentry).wf(),
            same_place(old(dentry)@, final(dentry)@),
            self.mknod_answer(mode, rdev, old(dentry)@, final(dentry)@),
    ;

    /// Removing the name of an entry may be answered `r`.
    open spec fn unlink_answer(&self, dentry: DentryModel<Self>, r: SyscallRet) -> bool {
        true
    }

    /// Remove a directory entry from this directory.
    fn unlink(&self, dentry: &Dentry<Self>) -> (r: SyscallRet)
        ensures
            self.unlink_answer(dentry@, r),
    ;

    /// A change of the size may be answered `r`.
    open spec fn truncate_answer(&self, size: usize, r: SyscallRet) -> bool {
        true
    }

    /// Truncate the file to `size` bytes.
    fn truncate(&self, size: usize) -> (r: SyscallRet)
        ensures
            self.truncate_answer(size, r),
    ;

    /// A flush may be answered `r`.
    open spec fn fsync_answer(&self, r: SyscallRet) -> bool {
        true
    }

    /// Flush any pending metadata and data to storage.
    fn fsync(&self) -> (r: SyscallRet)
        ensures
            self.fsync_answer(r),
    ;

    /// The metadata may be `st`.
    open spec fn stat_answer(&self, st: Kstat) -> bool {
        true
    }

    /// Return file metadata.
    fn get_stat(&self) -> (st: Kstat)
        ensures
            self.stat_answer(st),
    ;

    /// The size may be `n`.
    open spec fn size_answer(&self, n: usize) -> bool {
        true
    }

    /// Return the file size in bytes.
    fn get_size(&self) -> (n: usize)
        ensures
            self.size_answer(n),
    ;

    /// A listing may turn `before` into `after` and return `r`.
    open spec fn getdents_answer(
        &self,
        offset: usize,
        before: Seq<u8>,
        after: Seq<u8>,
        r: (usize, usize),
    ) -> bool {
        true
    }

    /// Read directory entries from `offset` on into a buffer.  Returns the
    /// number of bytes written and the file offset to go on from.
    fn getdents(&self, offset: usize, buf: &mut [u8]) -> (r: (usize, usize))
        ensures
            r.0 <= old(buf)@.len(),
            final(buf)@.len() == old(buf)@.len(),
            self.getdents_answer(offset, old(buf)@, final(buf)@, r),
    ;
}

/// An entry keeps its path and its place in the cache.
pub open spec fn same_place<I>(a: DentryModel<I>, b: DentryModel<I>) -> bool {
    a.path == b.path && a.parent == b.parent && a.children == b.children
}

} // verus!
