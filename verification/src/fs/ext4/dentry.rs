//! Directory entries as they are stored in the blocks of a directory.
use vstd::prelude::*;
use crate::bytes;

verus! {

/// Entry types.
pub const EXT4_DT_REG: u8 = 1;

pub const EXT4_DT_DIR: u8 = 2;

pub const EXT4_DT_LNK: u8 = 7;

/// A directory entry.
#[derive(Debug)]
pub struct Ext4DirEntry {
    /// 0 marks a free entry.
    pub inode_num: u32,
    /// Distance to the next entry.
    pub rec_len: u16,
    pub name_len: u8,
    pub file_type: u8,
    pub name: Vec<u8>,
}

/// Mathematical content of an `Ext4DirEntry`.
#[verifier::ext_equal]
pub struct DirEntryModel {
    pub inode_num: u32,
    pub rec_len: u16,
    pub name_len: u8,
    pub file_type: u8,
    pub name: Seq<u8>,
}

impl View for Ext4DirEntry {
    type V = DirEntryModel;

    open spec fn view(&self) -> DirEntryModel {
        DirEntryModel {
            inode_num: self.inode_num,
            rec_len: self.rec_len,
            name_len: self.name_len,
            file_type: self.file_type,
            name: self.name@,
        }
    }
}

/// The bytes of an entry.
pub open spec fn enc_entry(e: DirEntryModel) -> Seq<u8> {
    bytes::enc32(e.inode_num as int) + bytes::enc16(e.rec_len as int) + seq![
        e.name_len,
        e.file_type,
    ] + e.name
}

/// The entry that the first bytes of `b` hold; none when `b` is too short for
/// its head or for its name.
pub open spec fn parse_entry(b: Seq<u8>) -> Option<DirEntryModel> {
    if b.len() < 8 || b.len() < 8 + b[6] {
        None
    } else {
        Some(
            DirEntryModel {
                inode_num: bytes::le32(b, 0) as u32,
                rec_len: bytes::le16(b, 4) as u16,
                name_len: b[6],
                file_type: b[7],
                name: b.subrange(8, 8 + b[6]),
            },
        )
    }
}

impl Ext4DirEntry {
    /// The name has the length that the entry says.
    pub open spec fn wf(self) -> bool {
        self.name@.len() == self.name_len
    }

    /// Take an entry apart.
    pub fn try_from(b: &[u8]) -> (r: Result<Self, &'static str>)
        ensures
            match r {
                Ok(e) => parse_entry(b@) == Some(e@) && e.wf(),
                Err(_) => parse_entry(b@) is None,
            },
    {
        if b.len() < 8 {
            return Err("too short for a directory entry");
        }
        let end: usize = 8 + b[6] as usize;
        if b.len() < end {
            return Err("too short for the entry's name");
        }
        Ok(
            Ext4DirEntry {
                inode_num: bytes::get_u32(b, 0),
                rec_len: bytes::get_u16(b, 4),
                name_len: b[6],
                file_type: b[7],
                name: bytes::to_vec(b, 8, end),
            },
        )
    }

    /// Store the entry at the start of `buf`.
    pub fn write_to_mem(&self, buf: &mut [u8], at: usize)
        requires
            self.wf(),
            at + 8 + self.name_len <= old(buf)@.len(),
        ensures
            final(buf)@ == bytes::splice(old(buf)@, at as int, enc_entry(self@)),
    {
        let _len: usize = buf.len();
        bytes::put_u32(buf, at, self.inode_num);
        bytes::put_u16(buf, at + 4, self.rec_len);
        buf[at + 6] = self.name_len;
        buf[at + 7] = self.file_type;
        bytes::copy_into(buf, at + 8, self.name.as_slice());
        proof {
            let e0 = bytes::enc32(self.inode_num as int);
            let e1 = bytes::enc16(self.rec_len as int);
            let e2 = seq![self.name_len, self.file_type];
            assert(buf@ =~= bytes::splice(old(buf)@, at as int, e0 + e1 + e2 + self.name@));
        }
    }
}

/// A stored entry reads as the entry that was stored.
pub proof fn law_stored_entry_is_read(b: Seq<u8>, at: int, len: int, e: DirEntryModel)
    requires
        0 <= at,
        at + len <= b.len(),
        e.name.len() == e.name_len,
        8 + e.name_len <= len,
    ensures
        parse_entry(bytes::splice(b, at, enc_entry(e)).subrange(at, at + len)) == Some(e),
{
    let s = bytes::splice(b, at, enc_entry(e)).subrange(at, at + len);
    let e0 = bytes::enc32(e.inode_num as int);
    let e1 = bytes::enc16(e.rec_len as int);
    let e2 = seq![e.name_len, e.file_type];
    assert(bytes::stands_at(s, 0, enc_entry(e)));
    bytes::lemma_stands_parts(s, 0, e0 + e1 + e2, e.name);
    bytes::lemma_stands_parts(s, 0, e0 + e1, e2);
    bytes::lemma_stands_parts(s, 0, e0, e1);
    bytes::lemma_decode(s, 0, e.inode_num as int);
    bytes::lemma_decode(s, 4, e.rec_len as int);
    assert(s[6int + 0] == e2[0] && s[6int + 1] == e2[1]);
    assert forall|k: int| 0 <= k < e.name.len() implies s.subrange(8, 8 + e.name_len)[k]
        == #[trigger] e.name[k] by {
        assert(s[8 + k] == e.name[k]);
    }
    assert(s.subrange(8, 8 + e.name_len) =~= e.name);
}

} // verus!
