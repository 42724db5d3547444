//! What is told of a file.
use vstd::prelude::*;
use crate::fs::ext4::fs::FsModel;
use crate::fs::ext4::inode;
use crate::fs::ext4::inode::InodeModel;
use crate::fs::ext4::inode_dir::kstat_of;
use crate::fs::ext4::inode_disk;
use crate::fs::ext4::inode_disk::InodeDiskModel;
use crate::fs::ext4::inode_laws;
use crate::fs::ext4::inode_size;
use crate::fs::ext4::inode_write;
use crate::fs::types::{FileType, TimeSpec};

verus! {

/// The size that is told of a file is the number of its bytes: a read of at least
/// as many bytes from the start gives exactly so many, and a read from anywhere
/// gives what is left up to there.  Reads see sizes of 32 bits.
pub proof fn law_told_size_is_what_is_read(m: InodeModel, bs: int, offset: int, len: int)
    requires
        m.disk.size_hi == 0,
        0 <= offset,
        0 <= len,
    ensures
        ({
            let size = kstat_of(m, bs).size;
            &&& len >= size ==> inode::read_count(m, 0, len) == size
            &&& offset + len <= size ==> inode::read_count(m, offset, len) == len
            &&& offset <= size < offset + len ==> inode::read_count(m, offset, len) == size - offset
            &&& offset >= size ==> inode::read_count(m, offset, len) == 0
            &&& size == m.disk.size()
        }),
{
}

/// After a write the file is told to reach to the end of what was written, if it
/// was smaller, and else to be as large as before.
pub proof fn law_told_size_after_a_write(
    fs: FsModel,
    m: InodeModel,
    bs: int,
    offset: int,
    buf: Seq<u8>,
)
    requires
        0 <= offset,
        inode_write::end_ok(offset, buf.len() as int),
        m.disk.block.len() == 60,
        inode::pages_whole(m),
        inode_write::written(fs, m, offset, buf) is Some,
    ensures
        ({
            let before = kstat_of(m, bs);
            let after = kstat_of((inode_write::written(fs, m, offset, buf)->0).1, bs);
            let end = offset + buf.len();
            &&& after.size == (if before.size < end {
                end
            } else {
                before.size as int
            })
            &&& after.mode == before.mode
            &&& after.nlink == before.nlink
            &&& after.uid == before.uid
            &&& after.gid == before.gid
            &&& after.atime_sec == before.atime_sec
        }),
{
    let end = offset + buf.len();
    if end <= 60 {
        inode_laws::lemma_page_got(fs, m);
    } else if m.disk.size() <= 60 {
        inode_laws::lemma_moved_out(fs, m, offset);
        let f = inode_write::moved_out(fs, m, offset)->0;
        inode_laws::lemma_pages_written(f.0, f.1, offset, buf);
    } else {
        inode_laws::lemma_pages_written(fs, m, offset, buf);
    }
}

/// After a change of the size the file is told to have the new size.
pub proof fn law_told_size_after_a_truncation(fs: FsModel, m: InodeModel, bs: int, new: int)
    requires
        0 <= new <= u64::MAX - 511,
        inode_size::truncated(fs, m, new) is Some,
        (inode_size::truncated(fs, m, new)->0).2 is Ok,
    ensures
        kstat_of((inode_size::truncated(fs, m, new)->0).1, bs).size == new,
{
}

/// What is told of a file is its number, its mode, its links, its owner and its
/// times, each in its place; the type is the one that the mode gives.
pub proof fn law_told_attributes(m: InodeModel, bs: int)
    requires
        0 <= m.num <= u64::MAX,
        0 <= bs <= u32::MAX,
    ensures
        ({
            let k = kstat_of(m, bs);
            &&& k.ino == m.num
            &&& k.mode == m.disk.mode
            &&& k.nlink == m.disk.links_count
            &&& k.uid == m.disk.uid
            &&& k.gid == m.disk.gid
            &&& k.blksize == bs
            &&& k.blocks == m.disk.blocks_lo
            &&& k.rdev == 0
            &&& (k.file_type == FileType::Dir) == (m.disk.mode & 0xF000 == 0x4000)
            &&& (k.file_type == FileType::Symlink) == (m.disk.mode & 0xF000 == 0xA000)
            &&& (k.file_type == FileType::ChrDev) == (m.disk.mode & 0xF000 == 0x2000)
            &&& (k.file_type == FileType::BlkDev) == (m.disk.mode & 0xF000 == 0x6000)
            &&& (k.file_type == FileType::Fifo) == (m.disk.mode & 0xF000 == 0x1000)
            &&& (k.file_type == FileType::Socket) == (m.disk.mode & 0xF000 == 0xC000)
        }),
{
}

/// A time that was set is told: its seconds up to 34 bits, and of one file's
/// times only the one that was set changes.
pub proof fn law_told_times(m: InodeModel, bs: int, t: TimeSpec)
    requires
        0 <= t.sec < 0x4_0000_0000,
    ensures
        ({
            let k = kstat_of(m, bs);
            let a = kstat_of(m.with_disk(m.disk.with_atime(t)), bs);
            let d = kstat_of(m.with_disk(m.disk.with_mtime(t)), bs);
            let c = kstat_of(m.with_disk(m.disk.with_ctime(t)), bs);
            &&& a.atime_sec == t.sec && a.mtime_sec == k.mtime_sec && a.ctime_sec == k.ctime_sec
            &&& d.mtime_sec == t.sec && d.atime_sec == k.atime_sec && d.ctime_sec == k.ctime_sec
            &&& c.ctime_sec == t.sec && c.atime_sec == k.atime_sec && c.mtime_sec == k.mtime_sec
        }),
{
    inode_disk::law_seconds_are_read_back(t);
}

/// A mode that was set is told, and changes nothing else but the type.
pub proof fn law_told_mode(m: InodeModel, bs: int, mode: u16)
    ensures
        ({
            let k = kstat_of(m, bs);
            let now = kstat_of(m.with_disk(InodeDiskModel { mode, ..m.disk }), bs);
            &&& now.mode == mode
            &&& now.size == k.size
            &&& now.uid == k.uid
            &&& now.gid == k.gid
            &&& now.nlink == k.nlink
        }),
{
}

/// A file of a new size takes the smallest number of sectors of 512 bytes that
/// hold it.
pub proof fn law_sectors(m: InodeModel, n: int)
    requires
        0 <= n <= 0x100_0000_0000,
    ensures
        m.resized(n).disk.size() == n,
        m.resized(n).disk.blocks_lo * 512 >= n,
        m.resized(n).disk.blocks_lo * 512 < n + 512,
        m.resized(n).pages == m.pages,
{
    inode_disk::law_size_is_read_back(m.disk, n);
}

} // verus!
