//! Inodes as they are stored on the device.
use vstd::prelude::*;
use crate::bytes;
use crate::fs::types::{current_task_uid_gid, TimeSpec};

verus! {

/// Permission bits (low 12 bits).
pub const S_IXOTH: u16 = 0x1;

pub const S_IWOTH: u16 = 0x2;

pub const S_IROTH: u16 = 0x4;

pub const S_IXGRP: u16 = 0x8;

pub const S_IWGRP: u16 = 0x10;

pub const S_IRGRP: u16 = 0x20;

pub const S_IXUSR: u16 = 0x40;

pub const S_IWUSR: u16 = 0x80;

pub const S_IRUSR: u16 = 0x100;

pub const S_ISVTX: u16 = 0x200;

pub const S_ISGID: u16 = 0x400;

pub const S_ISUID: u16 = 0x800;

/// File type (upper 4 bits).
pub const S_IFMT: u16 = 0xF000;

pub const S_IFIFO: u16 = 0x1000;

pub const S_IFCHR: u16 = 0x2000;

pub const S_IFBLK: u16 = 0x6000;

pub const S_IFDIR: u16 = 0x4000;

pub const S_IFREG: u16 = 0x8000;

pub const S_IFLNK: u16 = 0xA000;

pub const S_IFSOCK: u16 = 0xC000;

pub const S_IALLUGO: u16 = 0xFFF;

/// Inode flags.
pub const EXT4_INDEX_FL: u32 = 0x00001000;

pub const EXT4_EXTENTS_FL: u32 = 0x00080000;

pub const EXT4_INLINE_DATA_FL: u32 = 0x10000000;

/// Bytes of an inode that are read and written.
pub const INODE_BYTES: usize = 160;

/// Most bytes of data that an inode holds itself.
pub const EXT4_MAX_INLINE_DATA: usize = 60;

/// An inode as it is stored.
#[derive(Debug, Clone, Copy)]
pub struct Ext4InodeDisk {
    pub mode: u16,
    pub uid: u16,
    pub size_lo: u32,
    pub atime: u32,
    pub change_inode_time: u32,
    pub modify_file_time: u32,
    pub dtime: u32,
    pub gid: u16,
    pub links_count: u16,
    pub blocks_lo: u32,
    pub flags: u32,
    pub osd1: u32,
    pub block: [u8; 60],
    pub generation: u32,
    pub file_acl_lo: u32,
    pub obso_faddr: u32,
    pub size_hi: u32,
    pub osd2: [u32; 3],
    pub extra_isize: u16,
    pub checksum_hi: u16,
    pub change_inode_time_extra: u32,
    pub modify_file_time_extra: u32,
    pub atime_extra: u32,
    pub create_time: u32,
    pub create_time_extra: u32,
    pub version_hi: u32,
    pub project_id: u32,
}

/// Mathematical content of an `Ext4InodeDisk`.
#[verifier::ext_equal]
pub struct InodeDiskModel {
    pub mode: u16,
    pub uid: u16,
    pub size_lo: u32,
    pub atime: u32,
    pub change_inode_time: u32,
    pub modify_file_time: u32,
    pub dtime: u32,
    pub gid: u16,
    pub links_count: u16,
    pub blocks_lo: u32,
    pub flags: u32,
    pub osd1: u32,
    pub block: Seq<u8>,
    pub generation: u32,
    pub file_acl_lo: u32,
    pub obso_faddr: u32,
    pub size_hi: u32,
    pub osd2: Seq<u32>,
    pub extra_isize: u16,
    pub checksum_hi: u16,
    pub change_inode_time_extra: u32,
    pub modify_file_time_extra: u32,
    pub atime_extra: u32,
    pub create_time: u32,
    pub create_time_extra: u32,
    pub version_hi: u32,
    pub project_id: u32,
}

impl View for Ext4InodeDisk {
    type V = InodeDiskModel;

    open spec fn view(&self) -> InodeDiskModel {
        InodeDiskModel {
            mode: self.mode,
            uid: self.uid,
            size_lo: self.size_lo,
            atime: self.atime,
            change_inode_time: self.change_inode_time,
            modify_file_time: self.modify_file_time,
            dtime: self.dtime,
            gid: self.gid,
            links_count: self.links_count,
            blocks_lo: self.blocks_lo,
            flags: self.flags,
            osd1: self.osd1,
            block: self.block@,
            generation: self.generation,
            file_acl_lo: self.file_acl_lo,
            obso_faddr: self.obso_faddr,
            size_hi: self.size_hi,
            osd2: self.osd2@,
            extra_isize: self.extra_isize,
            checksum_hi: self.checksum_hi,
            change_inode_time_extra: self.change_inode_time_extra,
            modify_file_time_extra: self.modify_file_time_extra,
            atime_extra: self.atime_extra,
            create_time: self.create_time,
            create_time_extra: self.create_time_extra,
            version_hi: self.version_hi,
            project_id: self.project_id,
        }
    }
}

/// The inode stored at `at`.
pub open spec fn inode_at(b: Seq<u8>, at: int) -> InodeDiskModel {
    InodeDiskModel {
        mode: bytes::le16(b, at) as u16,
        uid: bytes::le16(b, at + 2) as u16,
        size_lo: bytes::le32(b, at + 4) as u32,
        atime: bytes::le32(b, at + 8) as u32,
        change_inode_time: bytes::le32(b, at + 12) as u32,
        modify_file_time: bytes::le32(b, at + 16) as u32,
        dtime: bytes::le32(b, at + 20) as u32,
        gid: bytes::le16(b, at + 24) as u16,
        links_count: bytes::le16(b, at + 26) as u16,
        blocks_lo: bytes::le32(b, at + 28) as u32,
        flags: bytes::le32(b, at + 32) as u32,
        osd1: bytes::le32(b, at + 36) as u32,
        block: b.subrange(at + 40, at + 100),
        generation: bytes::le32(b, at + 100) as u32,
        file_acl_lo: bytes::le32(b, at + 104) as u32,
        obso_faddr: bytes::le32(b, at + 108) as u32,
        size_hi: bytes::le32(b, at + 112) as u32,
        osd2: seq![
            bytes::le32(b, at + 116) as u32,
            bytes::le32(b, at + 120) as u32,
            bytes::le32(b, at + 124) as u32,
        ],
        extra_isize: bytes::le16(b, at + 128) as u16,
        checksum_hi: bytes::le16(b, at + 130) as u16,
        change_inode_time_extra: bytes::le32(b, at + 132) as u32,
        modify_file_time_extra: bytes::le32(b, at + 136) as u32,
        atime_extra: bytes::le32(b, at + 140) as u32,
        create_time: bytes::le32(b, at + 144) as u32,
        create_time_extra: bytes::le32(b, at + 148) as u32,
        version_hi: bytes::le32(b, at + 152) as u32,
        project_id: bytes::le32(b, at + 156) as u32,
    }
}

/// The bytes of an inode.
#[verifier::opaque]
pub open spec fn enc_inode(m: InodeDiskModel) -> Seq<u8> {
    enc_head(m) + m.block + enc_mid(m) + enc_end(m)
}

/// The bytes of an inode before its block map.
pub open spec fn enc_head(m: InodeDiskModel) -> Seq<u8> {
    bytes::enc16(m.mode as int)
        + bytes::enc16(m.uid as int)
        + bytes::enc32(m.size_lo as int)
        + bytes::enc32(m.atime as int)
        + bytes::enc32(m.change_inode_time as int)
        + bytes::enc32(m.modify_file_time as int)
        + bytes::enc32(m.dtime as int)
        + bytes::enc16(m.gid as int)
        + bytes::enc16(m.links_count as int)
        + bytes::enc32(m.blocks_lo as int)
        + bytes::enc32(m.flags as int)
        + bytes::enc32(m.osd1 as int)
}

/// The bytes of an inode behind its block map, up to its third size word.
pub open spec fn enc_mid(m: InodeDiskModel) -> Seq<u8> {
    bytes::enc32(m.generation as int)
        + bytes::enc32(m.file_acl_lo as int)
        + bytes::enc32(m.obso_faddr as int)
        + bytes::enc32(m.size_hi as int)
        + bytes::enc32(m.osd2[0] as int)
        + bytes::enc32(m.osd2[1] as int)
        + bytes::enc32(m.osd2[2] as int)
}

/// The last bytes of an inode.
pub open spec fn enc_end(m: InodeDiskModel) -> Seq<u8> {
    bytes::enc16(m.extra_isize as int)
        + bytes::enc16(m.checksum_hi as int)
        + bytes::enc32(m.change_inode_time_extra as int)
        + bytes::enc32(m.modify_file_time_extra as int)
        + bytes::enc32(m.atime_extra as int)
        + bytes::enc32(m.create_time as int)
        + bytes::enc32(m.create_time_extra as int)
        + bytes::enc32(m.version_hi as int)
        + bytes::enc32(m.project_id as int)
}

impl Ext4InodeDisk {
    /// Read the inode stored at `at`.
    pub fn read_from(b: &[u8], at: usize) -> (r: Self)
        requires
            at + INODE_BYTES <= b@.len(),
        ensures
            r@ == inode_at(b@, at as int),
    {
        let _len: usize = b.len();
        let mut block: [u8; 60] = [0u8;60];
        let part = vstd::slice::slice_subrange(b, at + 40, at + 100);
        bytes::copy_into(&mut block, 0, part);
        assert(block@ =~= b@.subrange(at + 40, at + 100));
        let r = Ext4InodeDisk {
            mode: bytes::get_u16(b, at),
            uid: bytes::get_u16(b, at + 2),
            size_lo: bytes::get_u32(b, at + 4),
            atime: bytes::get_u32(b, at + 8),
            change_inode_time: bytes::get_u32(b, at + 12),
            modify_file_time: bytes::get_u32(b, at + 16),
            dtime: bytes::get_u32(b, at + 20),
            gid: bytes::get_u16(b, at + 24),
            links_count: bytes::get_u16(b, at + 26),
            blocks_lo: bytes::get_u32(b, at + 28),
            flags: bytes::get_u32(b, at + 32),
            osd1: bytes::get_u32(b, at + 36),
            block,
            generation: bytes::get_u32(b, at + 100),
            file_acl_lo: bytes::get_u32(b, at + 104),
            obso_faddr: bytes::get_u32(b, at + 108),
            size_hi: bytes::get_u32(b, at + 112),
            osd2: [
                bytes::get_u32(b, at + 116),
                bytes::get_u32(b, at + 120),
                bytes::get_u32(b, at + 124),
            ],
            extra_isize: bytes::get_u16(b, at + 128),
            checksum_hi: bytes::get_u16(b, at + 130),
            change_inode_time_extra: bytes::get_u32(b, at + 132),
            modify_file_time_extra: bytes::get_u32(b, at + 136),
            atime_extra: bytes::get_u32(b, at + 140),
            create_time: bytes::get_u32(b, at + 144),
            create_time_extra: bytes::get_u32(b, at + 148),
            version_hi: bytes::get_u32(b, at + 152),
            project_id: bytes::get_u32(b, at + 156),
        };
        assert(r@.osd2 =~= inode_at(b@, at as int).osd2);
        r
    }

    /// Store the inode at `at`.
    pub fn write_to(&self, b: &mut [u8], at: usize)
        requires
            at + INODE_BYTES <= old(b)@.len(),
        ensures
            final(b)@ == bytes::splice(old(b)@, at as int, enc_inode(self@)),
    {
        reveal(enc_inode);
        let _len: usize = b.len();
        self.write_head(b, at);
        bytes::copy_into(b, at + 40, &self.block);
        self.write_mid(b, at + 100);
        self.write_end(b, at + 128);
        proof {
            let s = old(b)@;
            lemma_enc_lens(self@);
            bytes::lemma_splice_join(s, at as int, enc_head(self@), self.block@);
            bytes::lemma_splice_join(
                s,
                at as int,
                enc_head(self@) + self.block@,
                enc_mid(self@),
            );
            bytes::lemma_splice_join(
                s,
                at as int,
                enc_head(self@) + self.block@ + enc_mid(self@),
                enc_end(self@),
            );
        }
    }

    fn write_head(&self, b: &mut [u8], at: usize)
        requires
            at + 40 <= old(b)@.len(),
        ensures
            final(b)@ == bytes::splice(old(b)@, at as int, enc_head(self@)),
    {
        let _len: usize = b.len();
        let ghost s = b@;
        let ghost m = self@;
        bytes::put_u16(b, at, self.mode);
        bytes::put_u16(b, at + 2, self.uid);
        proof {
            bytes::lemma_splice_join(s, at as int, bytes::enc16(m.mode as int), bytes::enc16(m.uid as int));
        }
        bytes::put_u32(b, at + 4, self.size_lo);
        proof {
            bytes::lemma_splice_join(s, at as int, bytes::enc16(m.mode as int) + bytes::enc16(m.uid as int), bytes::enc32(m.size_lo as int));
        }
        bytes::put_u32(b, at + 8, self.atime);
        proof {
            bytes::lemma_splice_join(s, at as int, bytes::enc16(m.mode as int) + bytes::enc16(m.uid as int) + bytes::enc32(m.size_lo as int), bytes::enc32(m.atime as int));
        }
        bytes::put_u32(b, at + 12, self.change_inode_time);
        proof {
            bytes::lemma_splice_join(s, at as int, bytes::enc16(m.mode as int) + bytes::enc16(m.uid as int) + bytes::enc32(m.size_lo as int) + bytes::enc32(m.atime as int), bytes::enc32(m.change_inode_time as int));
        }
        bytes::put_u32(b, at + 16, self.modify_file_time);
        proof {
            bytes::lemma_splice_join(s, at as int, bytes::enc16(m.mode as int) + bytes::enc16(m.uid as int) + bytes::enc32(m.size_lo as int) + bytes::enc32(m.atime as int) + bytes::enc32(m.change_inode_time as int), bytes::enc32(m.modify_file_time as int));
        }
        bytes::put_u32(b, at + 20, self.dtime);
        proof {
            bytes::lemma_splice_join(s, at as int, bytes::enc16(m.mode as int) + bytes::enc16(m.uid as int) + bytes::enc32(m.size_lo as int) + bytes::enc32(m.atime as int) + bytes::enc32(m.change_inode_time as int) + bytes::enc32(m.modify_file_time as int), bytes::enc32(m.dtime as int));
        }
        bytes::put_u16(b, at + 24, self.gid);
        proof {
            bytes::lemma_splice_join(s, at as int, bytes::enc16(m.mode as int) + bytes::enc16(m.uid as int) + bytes::enc32(m.size_lo as int) + bytes::enc32(m.atime as int) + bytes::enc32(m.change_inode_time as int) + bytes::enc32(m.modify_file_time as int) + bytes::enc32(m.dtime as int), bytes::enc16(m.gid as int));
        }
        bytes::put_u16(b, at + 26, self.links_count);
        proof {
            bytes::lemma_splice_join(s, at as int, bytes::enc16(m.mode as int) + bytes::enc16(m.uid as int) + bytes::enc32(m.size_lo as int) + bytes::enc32(m.atime as int) + bytes::enc32(m.change_inode_time as int) + bytes::enc32(m.modify_file_time as int) + bytes::enc32(m.dtime as int) + bytes::enc16(m.gid as int), bytes::enc16(m.links_count as int));
        }
        bytes::put_u32(b, at + 28, self.blocks_lo);
        proof {
            bytes::lemma_splice_join(s, at as int, bytes::enc16(m.mode as int) + bytes::enc16(m.uid as int) + bytes::enc32(m.size_lo as int) + bytes::enc32(m.atime as int) + bytes::enc32(m.change_inode_time as int) + bytes::enc32(m.modify_file_time as int) + bytes::enc32(m.dtime as int) + bytes::enc16(m.gid as int) + bytes::enc16(m.links_count as int), bytes::enc32(m.blocks_lo as int));
        }
        bytes::put_u32(b, at + 32, self.flags);
        proof {
            bytes::lemma_splice_join(s, at as int, bytes::enc16(m.mode as int) + bytes::enc16(m.uid as int) + bytes::enc32(m.size_lo as int) + bytes::enc32(m.atime as int) + bytes::enc32(m.change_inode_time as int) + bytes::enc32(m.modify_file_time as int) + bytes::enc32(m.dtime as int) + bytes::enc16(m.gid as int) + bytes::enc16(m.links_count as int) + bytes::enc32(m.blocks_lo as int), bytes::enc32(m.flags as int));
        }
        bytes::put_u32(b, at + 36, self.osd1);
        proof {
            bytes::lemma_splice_join(s, at as int, bytes::enc16(m.mode as int) + bytes::enc16(m.uid as int) + bytes::enc32(m.size_lo as int) + bytes::enc32(m.atime as int) + bytes::enc32(m.change_inode_time as int) + bytes::enc32(m.modify_file_time as int) + bytes::enc32(m.dtime as int) + bytes::enc16(m.gid as int) + bytes::enc16(m.links_count as int) + bytes::enc32(m.blocks_lo as int) + bytes::enc32(m.flags as int), bytes::enc32(m.osd1 as int));
        }
    }

    fn write_mid(&self, b: &mut [u8], at: usize)
        requires
            at + 28 <= old(b)@.len(),
        ensures
            final(b)@ == bytes::splice(old(b)@, at as int, enc_mid(self@)),
    {
        let _len: usize = b.len();
        let ghost s = b@;
        let ghost m = self@;
        bytes::put_u32(b, at, self.generation);
        bytes::put_u32(b, at + 4, self.file_acl_lo);
        proof {
            bytes::lemma_splice_join(s, at as int, bytes::enc32(m.generation as int), bytes::enc32(m.file_acl_lo as int));
        }
        bytes::put_u32(b, at + 8, self.obso_faddr);
        proof {
            bytes::lemma_splice_join(s, at as int, bytes::enc32(m.generation as int) + bytes::enc32(m.file_acl_lo as int), bytes::enc32(m.obso_faddr as int));
        }
        bytes::put_u32(b, at + 12, self.size_hi);
        proof {
            bytes::lemma_splice_join(s, at as int, bytes::enc32(m.generation as int) + bytes::enc32(m.file_acl_lo as int) + bytes::enc32(m.obso_faddr as int), bytes::enc32(m.size_hi as int));
        }
        bytes::put_u32(b, at + 16, self.osd2[0]);
        proof {
            bytes::lemma_splice_join(s, at as int, bytes::enc32(m.generation as int) + bytes::enc32(m.file_acl_lo as int) + bytes::enc32(m.obso_faddr as int) + bytes::enc32(m.size_hi as int), bytes::enc32(m.osd2[0] as int));
        }
        bytes::put_u32(b, at + 20, self.osd2[1]);
        proof {
            bytes::lemma_splice_join(s, at as int, bytes::enc32(m.generation as int) + bytes::enc32(m.file_acl_lo as int) + bytes::enc32(m.obso_faddr as int) + bytes::enc32(m.size_hi as int) + bytes::enc32(m.osd2[0] as int), bytes::enc32(m.osd2[1] as int));
        }
        bytes::put_u32(b, at + 24, self.osd2[2]);
        proof {
            bytes::lemma_splice_join(s, at as int, bytes::enc32(m.generation as int) + bytes::enc32(m.file_acl_lo as int) + bytes::enc32(m.obso_faddr as int) + bytes::enc32(m.size_hi as int) + bytes::enc32(m.osd2[0] as int) + bytes::enc32(m.osd2[1] as int), bytes::enc32(m.osd2[2] as int));
        }
    }

    fn write_end(&self, b: &mut [u8], at: usize)
        requires
            at + 32 <= old(b)@.len(),
        ensures
            final(b)@ == bytes::splice(old(b)@, at as int, enc_end(self@)),
    {
        let _len: usize = b.len();
        let ghost s = b@;
        let ghost m = self@;
        bytes::put_u16(b, at, self.extra_isize);
        bytes::put_u16(b, at + 2, self.checksum_hi);
        proof {
            bytes::lemma_splice_join(s, at as int, bytes::enc16(m.extra_isize as int), bytes::enc16(m.checksum_hi as int));
        }
        bytes::put_u32(b, at + 4, self.change_inode_time_extra);
        proof {
            bytes::lemma_splice_join(s, at as int, bytes::enc16(m.extra_isize as int) + bytes::enc16(m.checksum_hi as int), bytes::enc32(m.change_inode_time_extra as int));
        }
        bytes::put_u32(b, at + 8, self.modify_file_time_extra);
        proof {
            bytes::lemma_splice_join(s, at as int, bytes::enc16(m.extra_isize as int) + bytes::enc16(m.checksum_hi as int) + bytes::enc32(m.change_inode_time_extra as int), bytes::enc32(m.modify_file_time_extra as int));
        }
        bytes::put_u32(b, at + 12, self.atime_extra);
        proof {
            bytes::lemma_splice_join(s, at as int, bytes::enc16(m.extra_isize as int) + bytes::enc16(m.checksum_hi as int) + bytes::enc32(m.change_inode_time_extra as int) + bytes::enc32(m.modify_file_time_extra as int), bytes::enc32(m.atime_extra as int));
        }
        bytes::put_u32(b, at + 16, self.create_time);
        proof {
            bytes::lemma_splice_join(s, at as int, bytes::enc16(m.extra_isize as int) + bytes::enc16(m.checksum_hi as int) + bytes::enc32(m.change_inode_time_extra as int) + bytes::enc32(m.modify_file_time_extra as int) + bytes::enc32(m.atime_extra as int), bytes::enc32(m.create_time as int));
        }
        bytes::put_u32(b, at + 20, self.create_time_extra);
        proof {
            bytes::lemma_splice_join(s, at as int, bytes::enc16(m.extra_isize as int) + bytes::enc16(m.checksum_hi as int) + bytes::enc32(m.change_inode_time_extra as int) + bytes::enc32(m.modify_file_time_extra as int) + bytes::enc32(m.atime_extra as int) + bytes::enc32(m.create_time as int), bytes::enc32(m.create_time_extra as int));
        }
        bytes::put_u32(b, at + 24, self.version_hi);
        proof {
            bytes::lemma_splice_join(s, at as int, bytes::enc16(m.extra_isize as int) + bytes::enc16(m.checksum_hi as int) + bytes::enc32(m.change_inode_time_extra as int) + bytes::enc32(m.modify_file_time_extra as int) + bytes::enc32(m.atime_extra as int) + bytes::enc32(m.create_time as int) + bytes::enc32(m.create_time_extra as int), bytes::enc32(m.version_hi as int));
        }
        bytes::put_u32(b, at + 28, self.project_id);
        proof {
            bytes::lemma_splice_join(s, at as int, bytes::enc16(m.extra_isize as int) + bytes::enc16(m.checksum_hi as int) + bytes::enc32(m.change_inode_time_extra as int) + bytes::enc32(m.modify_file_time_extra as int) + bytes::enc32(m.atime_extra as int) + bytes::enc32(m.create_time as int) + bytes::enc32(m.create_time_extra as int) + bytes::enc32(m.version_hi as int), bytes::enc32(m.project_id as int));
        }
    }
}

proof fn lemma_enc_lens(m: InodeDiskModel)
    ensures
        enc_head(m).len() == 40,
        enc_mid(m).len() == 28,
        enc_end(m).len() == 32,
{
}

proof fn lemma_head(b: Seq<u8>, at: int, m: InodeDiskModel)
    requires
        bytes::holds_at(b, at, enc_head(m)),
    ensures
        inode_at(b, at).mode == m.mode,
        inode_at(b, at).uid == m.uid,
        inode_at(b, at).size_lo == m.size_lo,
        inode_at(b, at).atime == m.atime,
        inode_at(b, at).change_inode_time == m.change_inode_time,
        inode_at(b, at).modify_file_time == m.modify_file_time,
        inode_at(b, at).dtime == m.dtime,
        inode_at(b, at).gid == m.gid,
        inode_at(b, at).links_count == m.links_count,
        inode_at(b, at).blocks_lo == m.blocks_lo,
        inode_at(b, at).flags == m.flags,
        inode_at(b, at).osd1 == m.osd1,
{
    bytes::lemma_peel32(
        b,
        at,
        36,
        bytes::enc16(m.mode as int) + bytes::enc16(m.uid as int) + bytes::enc32(m.size_lo as int) + bytes::enc32(m.atime as int) + bytes::enc32(m.change_inode_time as int) + bytes::enc32(m.modify_file_time as int) + bytes::enc32(m.dtime as int) + bytes::enc16(m.gid as int) + bytes::enc16(m.links_count as int) + bytes::enc32(m.blocks_lo as int) + bytes::enc32(m.flags as int),
        m.osd1,
    );
    bytes::lemma_peel32(
        b,
        at,
        32,
        bytes::enc16(m.mode as int) + bytes::enc16(m.uid as int) + bytes::enc32(m.size_lo as int) + bytes::enc32(m.atime as int) + bytes::enc32(m.change_inode_time as int) + bytes::enc32(m.modify_file_time as int) + bytes::enc32(m.dtime as int) + bytes::enc16(m.gid as int) + bytes::enc16(m.links_count as int) + bytes::enc32(m.blocks_lo as int),
        m.flags,
    );
    bytes::lemma_peel32(
        b,
        at,
        28,
        bytes::enc16(m.mode as int) + bytes::enc16(m.uid as int) + bytes::enc32(m.size_lo as int) + bytes::enc32(m.atime as int) + bytes::enc32(m.change_inode_time as int) + bytes::enc32(m.modify_file_time as int) + bytes::enc32(m.dtime as int) + bytes::enc16(m.gid as int) + bytes::enc16(m.links_count as int),
        m.blocks_lo,
    );
    bytes::lemma_peel16(
        b,
        at,
        26,
        bytes::enc16(m.mode as int) + bytes::enc16(m.uid as int) + bytes::enc32(m.size_lo as int) + bytes::enc32(m.atime as int) + bytes::enc32(m.change_inode_time as int) + bytes::enc32(m.modify_file_time as int) + bytes::enc32(m.dtime as int) + bytes::enc16(m.gid as int),
        m.links_count,
    );
    bytes::lemma_peel16(
        b,
        at,
        24,
        bytes::enc16(m.mode as int) + bytes::enc16(m.uid as int) + bytes::enc32(m.size_lo as int) + bytes::enc32(m.atime as int) + bytes::enc32(m.change_inode_time as int) + bytes::enc32(m.modify_file_time as int) + bytes::enc32(m.dtime as int),
        m.gid,
    );
    bytes::lemma_peel32(
        b,
        at,
        20,
        bytes::enc16(m.mode as int) + bytes::enc16(m.uid as int) + bytes::enc32(m.size_lo as int) + bytes::enc32(m.atime as int) + bytes::enc32(m.change_inode_time as int) + bytes::enc32(m.modify_file_time as int),
        m.dtime,
    );
    bytes::lemma_peel32(
        b,
        at,
        16,
        bytes::enc16(m.mode as int) + bytes::enc16(m.uid as int) + bytes::enc32(m.size_lo as int) + bytes::enc32(m.atime as int) + bytes::enc32(m.change_inode_time as int),
        m.modify_file_time,
    );
    bytes::lemma_peel32(
        b,
        at,
        12,
        bytes::enc16(m.mode as int) + bytes::enc16(m.uid as int) + bytes::enc32(m.size_lo as int) + bytes::enc32(m.atime as int),
        m.change_inode_time,
    );
    bytes::lemma_peel32(
        b,
        at,
        8,
        bytes::enc16(m.mode as int) + bytes::enc16(m.uid as int) + bytes::enc32(m.size_lo as int),
        m.atime,
    );
    bytes::lemma_peel32(
        b,
        at,
        4,
        bytes::enc16(m.mode as int) + bytes::enc16(m.uid as int),
        m.size_lo,
    );
    bytes::lemma_peel16(
        b,
        at,
        2,
        bytes::enc16(m.mode as int),
        m.uid,
    );
    assert(Seq::<u8>::empty() + bytes::enc16(m.mode as int) =~= bytes::enc16(m.mode as int));
    bytes::lemma_peel16(b, at, 0, Seq::<u8>::empty(), m.mode);
}

proof fn lemma_mid(b: Seq<u8>, at: int, m: InodeDiskModel)
    requires
        bytes::holds_at(b, at, enc_mid(m)),
        m.osd2.len() == 3,
    ensures
        inode_at(b, at - 100).generation == m.generation,
        inode_at(b, at - 100).file_acl_lo == m.file_acl_lo,
        inode_at(b, at - 100).obso_faddr == m.obso_faddr,
        inode_at(b, at - 100).size_hi == m.size_hi,
        inode_at(b, at - 100).osd2 == m.osd2,
{
    bytes::lemma_peel32(b, at, 24, bytes::enc32(m.generation as int) + bytes::enc32(m.file_acl_lo as int) + bytes::enc32(m.obso_faddr as int) + bytes::enc32(m.size_hi as int) + bytes::enc32(m.osd2[0] as int) + bytes::enc32(m.osd2[1] as int), m.osd2[2]);
    bytes::lemma_peel32(b, at, 20, bytes::enc32(m.generation as int) + bytes::enc32(m.file_acl_lo as int) + bytes::enc32(m.obso_faddr as int) + bytes::enc32(m.size_hi as int) + bytes::enc32(m.osd2[0] as int), m.osd2[1]);
    bytes::lemma_peel32(b, at, 16, bytes::enc32(m.generation as int) + bytes::enc32(m.file_acl_lo as int) + bytes::enc32(m.obso_faddr as int) + bytes::enc32(m.size_hi as int), m.osd2[0]);
    bytes::lemma_peel32(b, at, 12, bytes::enc32(m.generation as int) + bytes::enc32(m.file_acl_lo as int) + bytes::enc32(m.obso_faddr as int), m.size_hi);
    bytes::lemma_peel32(b, at, 8, bytes::enc32(m.generation as int) + bytes::enc32(m.file_acl_lo as int), m.obso_faddr);
    bytes::lemma_peel32(b, at, 4, bytes::enc32(m.generation as int), m.file_acl_lo);
    assert(Seq::<u8>::empty() + bytes::enc32(m.generation as int) =~= bytes::enc32(m.generation as int));
    bytes::lemma_peel32(b, at, 0, Seq::<u8>::empty(), m.generation);
    assert(inode_at(b, at - 100).osd2 =~= m.osd2);
}

proof fn lemma_end(b: Seq<u8>, at: int, m: InodeDiskModel)
    requires
        bytes::holds_at(b, at, enc_end(m)),
    ensures
        inode_at(b, at - 128).extra_isize == m.extra_isize,
        inode_at(b, at - 128).checksum_hi == m.checksum_hi,
        inode_at(b, at - 128).change_inode_time_extra == m.change_inode_time_extra,
        inode_at(b, at - 128).modify_file_time_extra == m.modify_file_time_extra,
        inode_at(b, at - 128).atime_extra == m.atime_extra,
        inode_at(b, at - 128).create_time == m.create_time,
        inode_at(b, at - 128).create_time_extra == m.create_time_extra,
        inode_at(b, at - 128).version_hi == m.version_hi,
        inode_at(b, at - 128).project_id == m.project_id,
{
    bytes::lemma_peel32(b, at, 28, bytes::enc16(m.extra_isize as int) + bytes::enc16(m.checksum_hi as int) + bytes::enc32(m.change_inode_time_extra as int) + bytes::enc32(m.modify_file_time_extra as int) + bytes::enc32(m.atime_extra as int) + bytes::enc32(m.create_time as int) + bytes::enc32(m.create_time_extra as int) + bytes::enc32(m.version_hi as int), m.project_id);
    bytes::lemma_peel32(b, at, 24, bytes::enc16(m.extra_isize as int) + bytes::enc16(m.checksum_hi as int) + bytes::enc32(m.change_inode_time_extra as int) + bytes::enc32(m.modify_file_time_extra as int) + bytes::enc32(m.atime_extra as int) + bytes::enc32(m.create_time as int) + bytes::enc32(m.create_time_extra as int), m.version_hi);
    bytes::lemma_peel32(b, at, 20, bytes::enc16(m.extra_isize as int) + bytes::enc16(m.checksum_hi as int) + bytes::enc32(m.change_inode_time_extra as int) + bytes::enc32(m.modify_file_time_extra as int) + bytes::enc32(m.atime_extra as int) + bytes::enc32(m.create_time as int), m.create_time_extra);
    bytes::lemma_peel32(b, at, 16, bytes::enc16(m.extra_isize as int) + bytes::enc16(m.checksum_hi as int) + bytes::enc32(m.change_inode_time_extra as int) + bytes::enc32(m.modify_file_time_extra as int) + bytes::enc32(m.atime_extra as int), m.create_time);
    bytes::lemma_peel32(b, at, 12, bytes::enc16(m.extra_isize as int) + bytes::enc16(m.checksum_hi as int) + bytes::enc32(m.change_inode_time_extra as int) + bytes::enc32(m.modify_file_time_extra as int), m.atime_extra);
    bytes::lemma_peel32(b, at, 8, bytes::enc16(m.extra_isize as int) + bytes::enc16(m.checksum_hi as int) + bytes::enc32(m.change_inode_time_extra as int), m.modify_file_time_extra);
    bytes::lemma_peel32(b, at, 4, bytes::enc16(m.extra_isize as int) + bytes::enc16(m.checksum_hi as int), m.change_inode_time_extra);
    bytes::lemma_peel16(b, at, 2, bytes::enc16(m.extra_isize as int), m.checksum_hi);
    assert(Seq::<u8>::empty() + bytes::enc16(m.extra_isize as int) =~= bytes::enc16(m.extra_isize as int));
    bytes::lemma_peel16(b, at, 0, Seq::<u8>::empty(), m.extra_isize);
}

/// The bytes of an inode are as many as are read.
pub proof fn lemma_enc_len(m: InodeDiskModel)
    requires
        m.block.len() == 60,
    ensures
        enc_inode(m).len() == 160,
{
    reveal(enc_inode);
    lemma_enc_lens(m);
}

/// An inode is read from its own bytes.
pub proof fn lemma_same_inode(a: Seq<u8>, b: Seq<u8>, at: int)
    requires
        0 <= at,
        at + 160 <= b.len(),
        a.len() == b.len(),
        forall|i: int| at <= i < at + 160 ==> #[trigger] b[i] == a[i],
    ensures
        inode_at(a, at) == inode_at(b, at),
{
    assert(a.subrange(at + 40, at + 100) =~= b.subrange(at + 40, at + 100));
    assert(inode_at(a, at).osd2 =~= inode_at(b, at).osd2);
}

/// A stored inode is read back.
pub proof fn law_stored_inode_is_read(b: Seq<u8>, at: int, m: InodeDiskModel)
    requires
        0 <= at,
        at + 160 <= b.len(),
        m.block.len() == 60,
        m.osd2.len() == 3,
    ensures
        inode_at(bytes::splice(b, at, enc_inode(m)), at) == m,
{
    reveal(enc_inode);
    let s = bytes::splice(b, at, enc_inode(m));
    lemma_enc_lens(m);
    bytes::lemma_splice_stands(b, at, enc_inode(m));
    bytes::lemma_stands_parts(s, at, enc_head(m) + m.block + enc_mid(m), enc_end(m));
    bytes::lemma_stands_parts(s, at, enc_head(m) + m.block, enc_mid(m));
    bytes::lemma_stands_parts(s, at, enc_head(m), m.block);
    reveal(bytes::holds_at);
    lemma_head(s, at, m);
    lemma_mid(s, at + 100, m);
    lemma_end(s, at + 128, m);
    assert forall|k: int| 0 <= k < 60 implies s.subrange(at + 40, at + 100)[k]
        == #[trigger] m.block[k] by {
        assert(s[at + 40 + k] == m.block[k]);
    }
    assert(s.subrange(at + 40, at + 100) =~= m.block);
}

// ---------------------------------------------------------------------------
// Fields
// ---------------------------------------------------------------------------

/// The word that stores the seconds of a time: their low 32 bits.
pub open spec fn seconds_word(t: TimeSpec) -> u32 {
    (t.sec % 0x1_0000_0000) as u32
}

/// The word that stores the nanoseconds of a time, above two more bits of its
/// seconds.
pub open spec fn extra_word(t: TimeSpec) -> u32 {
    (t.nsec % 0x4000_0000 * 4 + t.sec % 0x4_0000_0000 / 0x1_0000_0000) as u32
}

/// The time that two words are read as: 34 bits of seconds, and the whole second
/// word for the nanoseconds.
pub open spec fn time_of(word: u32, extra: u32) -> TimeSpec {
    TimeSpec { sec: (word + extra % 4 * 0x1_0000_0000) as i64, nsec: extra as i64 }
}

/// The seconds of a time from the epoch up to 34 bits are read back.
pub proof fn law_seconds_are_read_back(t: TimeSpec)
    requires
        0 <= t.sec < 0x4_0000_0000,
    ensures
        time_of(seconds_word(t), extra_word(t)).sec == t.sec,
{
    let n = t.nsec % 0x4000_0000;
    assert((n * 4 + t.sec / 0x1_0000_0000) % 4 == t.sec / 0x1_0000_0000);
}

fn make_time(word: u32, extra: u32) -> (r: TimeSpec)
    ensures
        r == time_of(word, extra),
{
    TimeSpec { sec: word as i64 + (extra % 4) as i64 * 0x1_0000_0000, nsec: extra as i64 }
}

/// The remainder of `x` by `m`, which is not negative.
fn low_bits(x: i64, m: u64) -> (r: u64)
    requires
        m > 0,
    ensures
        r == x as int % (m as int),
        r < m,
{
    if x >= 0 {
        x as u64 % m
    } else {
        let n: u64 = (-(x + 1)) as u64;
        proof {
            let q = n as int / (m as int);
            let k = n as int % (m as int);
            vstd::arithmetic::div_mod::lemma_fundamental_div_mod(n as int, m as int);
            vstd::arithmetic::div_mod::lemma_mod_bound(n as int, m as int);
            assert(x == (-q - 1) * m + (m - 1 - k)) by (nonlinear_arith)
                requires
                    n == m * q + k,
                    x == -n - 1,
            ;
            vstd::arithmetic::div_mod::lemma_fundamental_div_mod_converse(
                x as int,
                m as int,
                -q - 1,
                m - 1 - k,
            );
        }
        m - 1 - n % m
    }
}

fn extra_bits(t: TimeSpec) -> (r: u32)
    ensures
        r == extra_word(t),
{
    let n: u64 = low_bits(t.nsec, 0x4000_0000);
    let s: u64 = low_bits(t.sec, 0x4_0000_0000);
    (n * 4 + s / 0x1_0000_0000) as u32
}

impl InodeDiskModel {
    /// The block map and the operating system's words have their sizes.
    pub open spec fn wf(self) -> bool {
        self.block.len() == 60 && self.osd2.len() == 3
    }

    pub open spec fn uses_extents(self) -> bool {
        self.flags & EXT4_EXTENTS_FL == EXT4_EXTENTS_FL
    }

    pub open spec fn inline_data(self) -> bool {
        self.flags & EXT4_INLINE_DATA_FL == EXT4_INLINE_DATA_FL
    }

    pub open spec fn dir(self) -> bool {
        self.mode & S_IFDIR == S_IFDIR
    }

    pub open spec fn symlink(self) -> bool {
        self.mode & S_IFLNK == S_IFLNK
    }

    /// Size in bytes.
    pub open spec fn size(self) -> int {
        self.size_hi * 0x1_0000_0000 + self.size_lo
    }

    pub open spec fn with_size(self, n: int) -> InodeDiskModel {
        InodeDiskModel {
            size_lo: (n % 0x1_0000_0000) as u32,
            size_hi: (n / 0x1_0000_0000) as u32,
            ..self
        }
    }

    pub open spec fn with_atime(self, t: TimeSpec) -> InodeDiskModel {
        InodeDiskModel { atime: seconds_word(t), atime_extra: extra_word(t), ..self }
    }

    pub open spec fn with_mtime(self, t: TimeSpec) -> InodeDiskModel {
        InodeDiskModel { modify_file_time: seconds_word(t), modify_file_time_extra: extra_word(t), ..self }
    }

    pub open spec fn with_ctime(self, t: TimeSpec) -> InodeDiskModel {
        InodeDiskModel { change_inode_time: seconds_word(t), change_inode_time_extra: extra_word(t), ..self }
    }

    pub open spec fn with_flags(self, flags: u32) -> InodeDiskModel {
        InodeDiskModel { flags, ..self }
    }

    pub open spec fn with_block(self, block: Seq<u8>) -> InodeDiskModel {
        InodeDiskModel { block, ..self }
    }
}

/// The inode that a new one starts from.
pub open spec fn blank_inode() -> InodeDiskModel {
    InodeDiskModel {
        mode: 0,
        uid: 0,
        size_lo: 0,
        atime: 0,
        change_inode_time: 0,
        modify_file_time: 0,
        dtime: 0,
        gid: 0,
        links_count: 1,
        blocks_lo: 0,
        flags: 0,
        osd1: 0,
        block: bytes::zeros(60),
        generation: 0,
        file_acl_lo: 0,
        obso_faddr: 0,
        size_hi: 0,
        osd2: seq![0u32, 0u32, 0u32],
        extra_isize: 0,
        checksum_hi: 0,
        change_inode_time_extra: 0,
        modify_file_time_extra: 0,
        atime_extra: 0,
        create_time: 0,
        create_time_extra: 0,
        version_hi: 0,
        project_id: 0,
    }
}

impl Default for Ext4InodeDisk {
    fn default() -> (r: Self)
        ensures
            r@ == blank_inode(),
    {
        let r = Ext4InodeDisk {
            mode: 0,
            uid: 0,
            size_lo: 0,
            atime: 0,
            change_inode_time: 0,
            modify_file_time: 0,
            dtime: 0,
            gid: 0,
            links_count: 1,
            blocks_lo: 0,
            flags: 0,
            osd1: 0,
            block: [0u8;60],
            generation: 0,
            file_acl_lo: 0,
            obso_faddr: 0,
            size_hi: 0,
            osd2: [0u32;3],
            extra_isize: 0,
            checksum_hi: 0,
            change_inode_time_extra: 0,
            modify_file_time_extra: 0,
            atime_extra: 0,
            create_time: 0,
            create_time_extra: 0,
            version_hi: 0,
            project_id: 0,
        };
        assert(r@.block =~= bytes::zeros(60));
        assert(r@.osd2 =~= seq![0u32, 0u32, 0u32]);
        r
    }
}

/// The inode of a device file: its numbers are stored in place of a block map.
pub open spec fn device_inode(mode: u16, major: u32, minor: u32) -> InodeDiskModel {
    InodeDiskModel {
        mode,
        block: bytes::splice(
            bytes::splice(bytes::zeros(60), 0, bytes::enc32(major as int)),
            4,
            bytes::enc32(minor as int),
        ),
        ..blank_inode()
    }
}

impl Ext4InodeDisk {
    fn new_device(mode: u16, major: u32, minor: u32) -> (r: Self)
        ensures
            r@ == device_inode(mode, major, minor),
    {
        let mut inode = Ext4InodeDisk::default();
        let now = TimeSpec::new_wall_time();
        inode.mode = mode;
        bytes::put_u32(&mut inode.block, 0, major);
        bytes::put_u32(&mut inode.block, 4, minor);
        inode.set_atime(now);
        inode.set_ctime(now);
        inode.set_mtime(now);
        assert(inode@ =~= device_inode(mode, major, minor));
        inode
    }

    /// A character device inode.
    pub fn new_chr(mode: u16, major: u32, minor: u32) -> (r: Self)
        ensures
            r@ == device_inode(mode | S_IFCHR, major, minor),
    {
        Self::new_device(mode | S_IFCHR, major, minor)
    }

    /// A block device inode.
    pub fn new_blk(mode: u16, major: u32, minor: u32) -> (r: Self)
        ensures
            r@ == device_inode(mode | S_IFBLK, major, minor),
    {
        Self::new_device(mode | S_IFBLK, major, minor)
    }

    pub fn use_extent_tree(&self) -> (r: bool)
        ensures
            r == self@.uses_extents(),
    {
        self.flags & EXT4_EXTENTS_FL == EXT4_EXTENTS_FL
    }

    pub fn set_extent_tree_flag(&mut self)
        ensures
            final(self)@ == old(self)@.with_flags(old(self).flags | EXT4_EXTENTS_FL),
    {
        self.flags = self.flags | EXT4_EXTENTS_FL;
    }

    pub fn has_inline_data(&self) -> (r: bool)
        ensures
            r == self@.inline_data(),
    {
        self.flags & EXT4_INLINE_DATA_FL == EXT4_INLINE_DATA_FL
    }

    pub fn set_inline_data_flag(&mut self)
        ensures
            final(self)@ == old(self)@.with_flags(old(self).flags | EXT4_INLINE_DATA_FL),
    {
        self.flags = self.flags | EXT4_INLINE_DATA_FL;
    }

    pub fn is_dir(&self) -> (r: bool)
        ensures
            r == self@.dir(),
    {
        self.mode & S_IFDIR == S_IFDIR
    }

    pub fn is_symlink(&self) -> (r: bool)
        ensures
            r == self@.symlink(),
    {
        self.mode & S_IFLNK == S_IFLNK
    }

    /// Number of 512-byte sectors.
    pub fn get_blocks(&self) -> (r: u64)
        ensures
            r == self.blocks_lo,
    {
        self.blocks_lo as u64
    }

    pub fn set_blocks(&mut self, blocks: u64)
        ensures
            final(self)@ == (InodeDiskModel {
                blocks_lo: (blocks % 0x1_0000_0000) as u32,
                ..old(self)@
            }),
    {
        self.blocks_lo = (blocks % 0x1_0000_0000) as u32;
    }

    pub fn get_size(&self) -> (r: u64)
        ensures
            r == self@.size(),
    {
        self.size_hi as u64 * 0x1_0000_0000 + self.size_lo as u64
    }

    pub fn set_size(&mut self, size: u64)
        ensures
            final(self)@ == old(self)@.with_size(size as int),
    {
        self.size_lo = (size % 0x1_0000_0000) as u32;
        self.size_hi = (size / 0x1_0000_0000) as u32;
    }

    /// Numbers of a device file.
    pub fn get_devt(&self) -> (r: (u32, u32))
        ensures
            r.0 == bytes::le32(self@.block, 0),
            r.1 == bytes::le32(self@.block, 4),
    {
        (bytes::get_u32(&self.block, 0), bytes::get_u32(&self.block, 4))
    }

    pub fn get_uid(&self) -> (r: u32)
        ensures
            r == self.uid,
    {
        self.uid as u32
    }

    pub fn set_uid(&mut self, uid: u32)
        ensures
            final(self)@ == (InodeDiskModel { uid: (uid % 0x1_0000) as u16, ..old(self)@ }),
    {
        self.uid = (uid % 0x1_0000) as u16;
    }

    pub fn get_gid(&self) -> (r: u32)
        ensures
            r == self.gid,
    {
        self.gid as u32
    }

    pub fn set_gid(&mut self, gid: u32)
        ensures
            final(self)@ == (InodeDiskModel { gid: (gid % 0x1_0000) as u16, ..old(self)@ }),
    {
        self.gid = (gid % 0x1_0000) as u16;
    }

    /// Time of the last access.
    pub fn get_atime(&self) -> (r: TimeSpec)
        ensures
            r == time_of(self.atime, self.atime_extra),
    {
        make_time(self.atime, self.atime_extra)
    }

    /// Set the time of the last access.
    pub fn set_atime(&mut self, atime: TimeSpec)
        ensures
            final(self)@ == old(self)@.with_atime(atime),
    {
        self.atime = low_bits(atime.sec, 0x1_0000_0000) as u32;
        self.atime_extra = extra_bits(atime);
    }

    /// Time of the last modification.
    pub fn get_mtime(&self) -> (r: TimeSpec)
        ensures
            r == time_of(self.modify_file_time, self.modify_file_time_extra),
    {
        make_time(self.modify_file_time, self.modify_file_time_extra)
    }

    /// Set the time of the last modification.
    pub fn set_mtime(&mut self, mtime: TimeSpec)
        ensures
            final(self)@ == old(self)@.with_mtime(mtime),
    {
        self.modify_file_time = low_bits(mtime.sec, 0x1_0000_0000) as u32;
        self.modify_file_time_extra = extra_bits(mtime);
    }

    /// Time of the last change.
    pub fn get_ctime(&self) -> (r: TimeSpec)
        ensures
            r == time_of(self.change_inode_time, self.change_inode_time_extra),
    {
        make_time(self.change_inode_time, self.change_inode_time_extra)
    }

    /// Set the time of the last change.
    pub fn set_ctime(&mut self, ctime: TimeSpec)
        ensures
            final(self)@ == old(self)@.with_ctime(ctime),
    {
        self.change_inode_time = low_bits(ctime.sec, 0x1_0000_0000) as u32;
        self.change_inode_time_extra = extra_bits(ctime);
    }

    pub fn set_mode(&mut self, mode: u16)
        ensures
            final(self)@ == (InodeDiskModel { mode, ..old(self)@ }),
    {
        self.mode = mode;
    }

    /// Set the permission bits.  A caller that is neither root nor of the
    /// file's group cannot set the set-group-id bit; every caller is root.
    pub fn set_perm(&mut self, perm: u16)
        ensures
            final(self)@ == (InodeDiskModel {
                mode: (old(self).mode & !S_IALLUGO) | (perm & S_IALLUGO),
                ..old(self)@
            }),
    {
        let mut bits: u16 = perm;
        if bits & S_ISGID != 0 {
            let (fsuid, fsgid) = current_task_uid_gid();
            if fsuid != 0 && fsgid != self.gid as u32 {
                bits = bits & !S_ISGID;
            }
        }
        self.mode = (self.mode & !S_IALLUGO) | (bits & S_IALLUGO);
    }

    pub fn get_mode(&self) -> (r: u16)
        ensures
            r == self.mode,
    {
        self.mode
    }

    pub fn get_type(&self) -> (r: u16)
        ensures
            r == self.mode & S_IFMT,
    {
        self.mode & S_IFMT
    }

    pub fn get_perm(&self) -> (r: u16)
        ensures
            r == self.mode & S_IALLUGO,
    {
        self.mode & S_IALLUGO
    }

    /// Mark the inode as deleted.  The time is always the same.
    pub fn set_dtime(&mut self, _dtime: u32)
        ensures
            final(self)@ == (InodeDiskModel { dtime: 66666666, ..old(self)@ }),
    {
        self.dtime = 66666666;
    }

    pub fn clear_block(&mut self)
        ensures
            final(self)@ == old(self)@.with_block(bytes::zeros(60)),
    {
        self.block = [0u8;60];
        assert(self.block@ =~= bytes::zeros(60));
    }

    pub fn get_nlinks(&self) -> (r: u16)
        ensures
            r == self.links_count,
    {
        self.links_count
    }

    pub fn add_nlinks(&mut self)
        requires
            old(self).links_count < u16::MAX,
        ensures
            final(self)@ == (InodeDiskModel {
                links_count: (old(self).links_count + 1) as u16,
                ..old(self)@
            }),
    {
        self.links_count = self.links_count + 1;
    }

    pub fn sub_nlinks(&mut self)
        requires
            old(self).links_count > 0,
        ensures
            final(self)@ == (InodeDiskModel {
                links_count: (old(self).links_count - 1) as u16,
                ..old(self)@
            }),
    {
        self.links_count = self.links_count - 1;
    }
}

/// A size that was set is read back.
pub proof fn law_size_is_read_back(m: InodeDiskModel, n: int)
    requires
        0 <= n <= u64::MAX,
    ensures
        m.with_size(n).size() == n,
{
}

} // verus!
