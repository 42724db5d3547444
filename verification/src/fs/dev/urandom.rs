//! /dev/urandom: non-blocking random number generator (stub).
use vstd::prelude::*;
use crate::fs::dentry;
use crate::fs::dentry::{Dentry, DentryFlags, DentryModel};
use crate::fs::inode::InodeOp;
use crate::fs::types::{default_kstat, Errno, FileType, Kstat, SyscallRet};

verus! {

/// The device file.
pub struct UrandomInode;

/// The metadata of the device file: major number 1, minor number 9.
pub open spec fn urandom_stat() -> Kstat {
    Kstat { file_type: FileType::ChrDev, rdev: 0x0109, ..default_kstat() }
}

impl InodeOp for UrandomInode {
    open spec fn read_answer(&self, offset: usize, before: Seq<u8>, after: Seq<u8>, n: usize) -> bool {
        n == before.len() && after == Seq::new(before.len(), |i: int| 0xAAu8)
    }

    fn read(&self, _offset: usize, buf: &mut [u8]) -> (n: usize) {
        let len: usize = buf.len();
        let mut i: usize = 0;
        while i < len
            invariant
                i <= len == buf@.len(),
                len == old(buf)@.len(),
                forall|k: int| 0 <= k < i ==> buf@[k] == 0xAA,
            decreases len - i,
        {
            buf[i] = 0xAA;
            i += 1;
        }
        assert(buf@ =~= Seq::new(len as nat, |i: int| 0xAAu8));
        len
    }

    open spec fn write_answer(&self, offset: usize, data: Seq<u8>, n: usize) -> bool {
        n == 0
    }

    fn write(&self, _offset: usize, _buf: &[u8]) -> (n: usize) {
        0
    }

    open spec fn lookup_answer(
        &self,
        name: Seq<char>,
        parent: usize,
        parent_path: Seq<char>,
        d: DentryModel<Self>,
    ) -> bool {
        d == dentry::new_dentry::<Self>(seq![], None, DentryFlags::NEGATIVE(), None)
    }

    fn lookup(&self, _name: &str, _parent: usize, _parent_path: &str) -> (d: Dentry<Self>) {
        let path = String::new();
        assert(path@ =~= seq![]);
        Dentry::negative(path, None)
    }

    open spec fn create_answer(
        &self,
        mode: u16,
        before: DentryModel<Self>,
        after: DentryModel<Self>,
    ) -> bool {
        after == before
    }

    fn create(&self, _dentry: &mut Dentry<Self>, _mode: u16) {
    }

    open spec fn mkdir_answer(
        &self,
        mode: u16,
        before: DentryModel<Self>,
        after: DentryModel<Self>,
    ) -> bool {
        after == before
    }

    fn mkdir(&self, _dentry: &mut Dentry<Self>, _mode: u16) {
    }

    open spec fn symlink_answer(
        &self,
        target: Seq<char>,
        before: DentryModel<Self>,
        after: DentryModel<Self>,
    ) -> bool {
        after == before
    }

    fn symlink(&self, _dentry: &mut Dentry<Self>, _target: &str) {
    }

    open spec fn mknod_answer(
        &self,
        mode: u16,
        rdev: u64,
        before: DentryModel<Self>,
        after: DentryModel<Self>,
    ) -> bool {
        after == before
    }

    fn mknod(&self, _dentry: &mut Dentry<Self>, _mode: u16, _rdev: u64) {
    }

    open spec fn unlink_answer(&self, dentry: DentryModel<Self>, r: SyscallRet) -> bool {
        r == Err::<usize, Errno>(Errno::EPERM)
    }

    fn unlink(&self, _dentry: &Dentry<Self>) -> (r: SyscallRet) {
        Err(Errno::EPERM)
    }

    open spec fn truncate_answer(&self, size: usize, r: SyscallRet) -> bool {
        r == Ok::<usize, Errno>(0)
    }

    fn truncate(&self, _size: usize) -> (r: SyscallRet) {
        Ok(0)
    }

    open spec fn fsync_answer(&self, r: SyscallRet) -> bool {
        r == Ok::<usize, Errno>(0)
    }

    fn fsync(&self) -> (r: SyscallRet) {
        Ok(0)
    }

    open spec fn stat_answer(&self, st: Kstat) -> bool {
        st == urandom_stat()
    }

    fn get_stat(&self) -> (st: Kstat) {
        let mut st = Kstat::default();
        st.file_type = FileType::ChrDev;
        st.rdev = 0x0109;
        st
    }

    open spec fn size_answer(&self, n: usize) -> bool {
        n == 0
    }

    fn get_size(&self) -> (n: usize) {
        0
    }

    open spec fn getdents_answer(
        &self,
        offset: usize,
        before: Seq<u8>,
        after: Seq<u8>,
        r: (usize, usize),
    ) -> bool {
        r == (0usize, 0usize) && after == before
    }

    fn getdents(&self, _offset: usize, _buf: &mut [u8]) -> (r: (usize, usize)) {
        (0, 0)
    }
}

} // verus!
