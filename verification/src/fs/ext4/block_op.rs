//! Operations on ext4 blocks: directory entries, bitmaps and extent nodes.
use vstd::prelude::*;
use vstd::string::*;
use crate::bytes;
use crate::fs::ext4::dentry::{parse_entry, enc_entry, DirEntryModel, Ext4DirEntry, EXT4_DT_DIR};
use crate::fs::types::Errno;
use crate::text;

verus! {

pub const EXT4_BLOCK_SIZE: usize = 4096;

// ---------------------------------------------------------------------------
// Directory listings
// ---------------------------------------------------------------------------

/// A directory entry as it is handed to user programs.
#[derive(Debug)]
pub struct LinuxDirent64 {
    pub d_ino: u64,
    pub d_off: u64,
    pub d_reclen: u16,
    pub d_type: u8,
    pub d_name: Vec<u8>,
}

/// Mathematical content of a `LinuxDirent64`.
#[verifier::ext_equal]
pub struct DirentModel {
    pub d_ino: int,
    pub d_off: int,
    pub d_reclen: int,
    pub d_type: u8,
    pub d_name: Seq<u8>,
}

impl View for LinuxDirent64 {
    type V = DirentModel;

    open spec fn view(&self) -> DirentModel {
        DirentModel {
            d_ino: self.d_ino as int,
            d_off: self.d_off as int,
            d_reclen: self.d_reclen as int,
            d_type: self.d_type,
            d_name: self.d_name@,
        }
    }
}

/// The bytes of a dirent up to the end of its name.
pub open spec fn enc_dirent(d: DirentModel) -> Seq<u8> {
    bytes::enc64(d.d_ino) + bytes::enc64(d.d_off) + bytes::enc16(d.d_reclen) + seq![d.d_type]
        + d.d_name
}

/// `room` bytes at `at` of `buf` once they hold dirent `d`: its name is
/// followed by a zero byte where there is room, and padding stays as it was.
pub open spec fn with_dirent(buf: Seq<u8>, at: int, room: int, d: DirentModel) -> Seq<u8> {
    let s = bytes::splice(buf, at, enc_dirent(d));
    if 19 + d.d_name.len() < room {
        s.update(at + 19 + d.d_name.len(), 0)
    } else {
        s
    }
}

impl LinuxDirent64 {
    /// Store the dirent in the `room` bytes of `buf` that begin at `at`.
    pub fn write_to_mem(&self, buf: &mut [u8], at: usize, room: usize)
        requires
            at + room <= old(buf)@.len(),
            19 + self.d_name@.len() <= room,
        ensures
            final(buf)@ == with_dirent(old(buf)@, at as int, room as int, self@),
    {
        let _len: usize = buf.len();
        bytes::put_u64(buf, at, self.d_ino);
        bytes::put_u64(buf, at + 8, self.d_off);
        bytes::put_u16(buf, at + 16, self.d_reclen);
        buf[at + 18] = self.d_type;
        bytes::copy_into(buf, at + 19, self.d_name.as_slice());
        proof {
            let e0 = bytes::enc64(self.d_ino as int);
            let e1 = bytes::enc64(self.d_off as int);
            let e2 = bytes::enc16(self.d_reclen as int);
            let e3 = seq![self.d_type];
            assert(buf@ =~= bytes::splice(
                old(buf)@,
                at as int,
                e0 + e1 + e2 + e3 + self.d_name@,
            ));
        }
        if 19 + self.d_name.len() < room {
            buf[at + 19 + self.d_name.len()] = 0;
        }
    }
}

// ---------------------------------------------------------------------------
// Directory contents
// ---------------------------------------------------------------------------

/// Distance from the entry at `at` to the next one.
pub open spec fn rec_len_at(b: Seq<u8>, at: int) -> int {
    bytes::le16(b, at + 4)
}

/// The entry at `at`.
pub open spec fn entry_at(b: Seq<u8>, at: int) -> Option<DirEntryModel> {
    parse_entry(b.subrange(at, at + rec_len_at(b, at)))
}

/// From `at` on, entry follows entry; the last one may claim more bytes than
/// there are.
pub open spec fn walk_ok(b: Seq<u8>, at: int) -> bool
    decreases b.len() - at,
{
    if at >= b.len() {
        true
    } else {
        &&& at + 6 <= b.len()
        &&& at + rec_len_at(b, at) <= b.len() ==> {
            &&& entry_at(b, at) is Some
            &&& rec_len_at(b, at) > 0
            &&& walk_ok(b, at + rec_len_at(b, at))
        }
    }
}

/// From `at` on, entry follows entry up to the end.
pub open spec fn chain_ok(b: Seq<u8>, at: int) -> bool
    decreases b.len() - at,
{
    if at >= b.len() {
        true
    } else {
        &&& at + 6 <= b.len()
        &&& at + rec_len_at(b, at) <= b.len()
        &&& rec_len_at(b, at) > 0
        &&& entry_at(b, at) is Some
        &&& chain_ok(b, at + rec_len_at(b, at))
    }
}

/// Every entry up to the first that does not fit can be taken apart.
pub open spec fn list_ok(b: Seq<u8>, at: int) -> bool
    decreases b.len() - at,
{
    let rec = rec_len_at(b, at);
    (at + 5 < b.len() && rec != 0 && at + rec <= b.len()) ==> entry_at(b, at) is Some && (rec > 0
        ==> list_ok(b, at + rec))
}

/// Where the first entry named `name` at or after `at` stands.
pub open spec fn place_of(b: Seq<u8>, at: int, name: Seq<char>) -> Option<int>
    decreases b.len() - at,
{
    let rec = rec_len_at(b, at);
    if at >= b.len() || at + rec > b.len() || rec <= 0 || entry_at(b, at) is None {
        None
    } else if text::shown(entry_at(b, at)->0.name) == name {
        Some(at)
    } else {
        place_of(b, at + rec, name)
    }
}

/// The first entry named `name`.
pub open spec fn found(b: Seq<u8>, name: Seq<char>) -> Option<DirEntryModel> {
    match place_of(b, 0, name) {
        Some(at) => entry_at(b, at),
        None => None,
    }
}

/// The size of a dirent with a name of `n` bytes: a multiple of 8.
pub open spec fn dirent_len(n: int) -> int {
    (19 + n + 1 + 7) / 8 * 8
}

/// The dirent for the entry `e`, which ends at `off`.
pub open spec fn dirent_of(e: DirEntryModel, off: int) -> DirentModel {
    DirentModel {
        d_ino: e.inode_num as int,
        d_off: off,
        d_reclen: dirent_len(e.name.len() as int),
        d_type: e.file_type,
        d_name: e.name,
    }
}

/// A listing of the entries from `at` on, put into `buf` from `used` on: how
/// far the directory was read, how much of `buf` is in use, and `buf`.  Free
/// entries are passed over; the listing ends where a dirent does not fit.
pub open spec fn listing(b: Seq<u8>, at: int, buf: Seq<u8>, used: int) -> (int, int, Seq<u8>)
    decreases b.len() - at,
{
    let rec = rec_len_at(b, at);
    if at + 5 >= b.len() || rec <= 0 || at + rec > b.len() || entry_at(b, at) is None {
        (at, used, buf)
    } else {
        let e = entry_at(b, at)->0;
        let room = dirent_len(e.name.len() as int);
        if e.inode_num == 0 {
            listing(b, at + rec, buf, used)
        } else if used + room > buf.len() {
            (at + rec, used, buf)
        } else {
            listing(
                b,
                at + rec,
                with_dirent(buf, used, room, dirent_of(e, at + rec)),
                used + room,
            )
        }
    }
}

/// A listing goes on inside the directory and stays inside the buffer, whose
/// size it keeps.
pub proof fn law_listing_stays_inside(b: Seq<u8>, at: int, buf: Seq<u8>, used: int)
    requires
        0 <= at <= b.len(),
        0 <= used <= buf.len(),
    ensures
        at <= listing(b, at, buf, used).0 <= b.len(),
        used <= listing(b, at, buf, used).1 <= buf.len(),
        listing(b, at, buf, used).2.len() == buf.len(),
    decreases b.len() - at,
{
    let rec = rec_len_at(b, at);
    if !(at + 5 >= b.len() || rec <= 0 || at + rec > b.len() || entry_at(b, at) is None) {
        let e = entry_at(b, at)->0;
        let room = dirent_len(e.name.len() as int);
        if e.inode_num == 0 {
            law_listing_stays_inside(b, at + rec, buf, used);
        } else if used + room <= buf.len() {
            law_listing_stays_inside(
                b,
                at + rec,
                with_dirent(buf, used, room, dirent_of(e, at + rec)),
                used + room,
            );
        }
    }
}

/// The entry at `at`, taken apart.
fn read_entry(b: &[u8], at: usize, rec_len: u16) -> (r: Result<Ext4DirEntry, &'static str>)
    requires
        at + rec_len <= b@.len(),
        rec_len == rec_len_at(b@, at as int),
    ensures
        match r {
            Ok(e) => entry_at(b@, at as int) == Some(e@) && e.wf(),
            Err(_) => entry_at(b@, at as int) is None,
        },
{
    let _len: usize = b.len();
    let part = vstd::slice::slice_subrange(b, at, at + rec_len as usize);
    Ext4DirEntry::try_from(part)
}

/// Directory content that is only read.
pub struct Ext4DirContentRO<'a> {
    content: &'a [u8],
}

impl<'a> View for Ext4DirContentRO<'a> {
    type V = Seq<u8>;

    closed spec fn view(&self) -> Seq<u8> {
        self.content@
    }
}

impl<'a> Ext4DirContentRO<'a> {
    pub fn new(data: &'a [u8]) -> (r: Self)
        ensures
            r@ == data@,
    {
        Ext4DirContentRO { content: data }
    }

    /// List the entries.  Returns how far the directory was read and how many
    /// bytes of `buf` were filled.
    pub fn getdents(&self, buf: &mut [u8]) -> (r: Result<(usize, usize), Errno>)
        requires
            list_ok(self@, 0),
        ensures
            r is Ok,
            (r->Ok_0.0 as int, r->Ok_0.1 as int, final(buf)@) == listing(self@, 0, old(buf)@, 0),
    {
        let mut buf_offset: usize = 0;
        let mut file_offset: usize = 0;
        let buf_len: usize = buf.len();
        let content_len: usize = self.content.len();
        let ghost b0 = buf@;
        while content_len > 5 && file_offset < content_len - 5
            invariant_except_break
                listing(self@, 0, b0, 0) == listing(
                    self@,
                    file_offset as int,
                    buf@,
                    buf_offset as int,
                ),
                list_ok(self@, file_offset as int),
            invariant
                content_len == self@.len(),
                buf_len == buf@.len(),
                file_offset <= content_len,
                buf_offset <= buf_len,
            ensures
                listing(self@, 0, b0, 0) == (file_offset as int, buf_offset as int, buf@),
            decreases content_len - file_offset,
        {
            let rec_len: u16 = bytes::get_u16(self.content, file_offset + 4);
            if rec_len == 0 || rec_len as usize > content_len - file_offset {
                break ;
            }
            let entry = match read_entry(self.content, file_offset, rec_len) {
                Ok(e) => e,
                Err(_) => {
                    break ;
                },
            };
            file_offset += rec_len as usize;
            if entry.inode_num == 0 {
                continue ;
            }
            let room: usize = (19 + entry.name.len() + 1 + 7) / 8 * 8;
            if room > buf_len - buf_offset {
                break ;
            }
            let dirent = LinuxDirent64 {
                d_ino: entry.inode_num as u64,
                d_off: file_offset as u64,
                d_reclen: room as u16,
                d_type: entry.file_type,
                d_name: bytes::to_vec(entry.name.as_slice(), 0, entry.name.len()),
            };
            assert(dirent@ == dirent_of(entry@, file_offset as int)) by {
                assert(dirent.d_name@ =~= entry.name@);
            }
            dirent.write_to_mem(buf, buf_offset, room);
            buf_offset += room;
        }
        Ok((file_offset, buf_offset))
    }

    /// The first entry of this name.
    pub fn find(&self, name: &str) -> (r: Option<Ext4DirEntry>)
        requires
            walk_ok(self@, 0),
        ensures
            match r {
                Some(e) => found(self@, name@) == Some(e@) && e.wf(),
                None => found(self@, name@) is None,
            },
    {
        let mut at: usize = 0;
        let content_len: usize = self.content.len();
        while at < content_len
            invariant
                content_len == self@.len(),
                at <= content_len,
                walk_ok(self@, at as int),
                place_of(self@, 0, name@) == place_of(self@, at as int, name@),
            decreases content_len - at,
        {
            let rec_len: u16 = bytes::get_u16(self.content, at + 4);
            if rec_len as usize > content_len - at {
                return None;
            }
            match read_entry(self.content, at, rec_len) {
                Ok(e) => {
                    if text::shows(e.name.as_slice(), name) {
                        return Some(e);
                    }
                },
                Err(_) => {
                    return None;
                },
            }
            at += rec_len as usize;
        }
        None
    }
}

/// Room that an entry with a name of `n` bytes needs: a multiple of 4.
pub open spec fn entry_room(n: int) -> int {
    (n + 8 + 3) / 4 * 4
}

/// Directory content with an entry added at the first place from `at` on that
/// has room: a free entry, or what an entry does not use of its own space.
pub open spec fn added(
    b: Seq<u8>,
    at: int,
    name: Seq<u8>,
    inode_num: u32,
    file_type: u8,
) -> Result<Seq<u8>, Seq<char>>
    decreases b.len() - at,
{
    let rec = rec_len_at(b, at);
    let needed = entry_room(name.len() as int);
    if at >= b.len() {
        Err("No space left in directory block"@)
    } else if at + 8 > b.len() {
        Err("Invalid directory entry"@)
    } else if rec < 8 || at + rec > b.len() {
        Err("Invalid rec_len"@)
    } else if entry_at(b, at) is None {
        Err("Corrupted directory entry"@)
    } else {
        let e = entry_at(b, at)->0;
        let used = entry_room(e.name_len as int);
        if e.inode_num == 0 && rec >= needed {
            Ok(bytes::splice(b, at, enc_entry(new_entry(inode_num, rec, name, file_type))))
        } else if e.inode_num != 0 && rec >= used + needed {
            Ok(
                bytes::splice(
                    bytes::splice(
                        b,
                        at,
                        enc_entry(DirEntryModel { rec_len: used as u16, ..e }),
                    ),
                    at + used,
                    enc_entry(new_entry(inode_num, rec - used, name, file_type)),
                ),
            )
        } else {
            added(b, at + rec, name, inode_num, file_type)
        }
    }
}

/// A new entry that reaches over `rec` bytes.
pub open spec fn new_entry(inode_num: u32, rec: int, name: Seq<u8>, file_type: u8) -> DirEntryModel {
    DirEntryModel {
        inode_num,
        rec_len: rec as u16,
        name_len: name.len() as u8,
        file_type,
        name,
    }
}

/// Where the entry before the one at `to` stands, looking from `at` on.
pub open spec fn place_before(b: Seq<u8>, at: int, to: int) -> int
    decreases to - at,
{
    let rec = rec_len_at(b, at);
    if rec <= 0 || at + rec >= to {
        at
    } else {
        place_before(b, at + rec, to)
    }
}

/// Any two neighbours from `at` on can be merged into one entry.
pub open spec fn mergeable(b: Seq<u8>, at: int) -> bool
    decreases b.len() - at,
{
    let rec = rec_len_at(b, at);
    (at < b.len() && rec > 0 && at + rec <= b.len()) ==> {
        &&& at + rec < b.len() ==> rec + rec_len_at(b, at + rec) <= u16::MAX
        &&& mergeable(b, at + rec)
    }
}

/// Directory content without the first entry of this name: the entry before it
/// takes over its space; an entry without one before it is marked free.
pub open spec fn deleted(b: Seq<u8>, name: Seq<char>) -> Option<Seq<u8>> {
    match place_of(b, 0, name) {
        None => None,
        Some(at) => {
            let e = entry_at(b, at)->0;
            if at == 0 {
                Some(bytes::splice(b, 0, enc_entry(DirEntryModel { inode_num: 0, ..e })))
            } else {
                let prev = place_before(b, 0, at);
                let p = entry_at(b, prev)->0;
                Some(
                    bytes::splice(
                        b,
                        prev,
                        enc_entry(
                            DirEntryModel {
                                rec_len: (p.rec_len + rec_len_at(b, at)) as u16,
                                ..p
                            },
                        ),
                    ),
                )
            }
        },
    }
}

/// From `at` on, entry follows entry up to the end, or up to one that cannot be
/// taken apart.
pub open spec fn segments_ok(b: Seq<u8>, at: int) -> bool
    decreases b.len() - at,
{
    let rec = rec_len_at(b, at);
    at < b.len() ==> {
        &&& at + 6 <= b.len()
        &&& at + rec <= b.len()
        &&& (rec > 0 && entry_at(b, at) is Some) ==> segments_ok(b, at + rec)
    }
}

/// Directory content whose first entry of this name, from `at` on, refers to
/// another inode.
pub open spec fn redirected(
    b: Seq<u8>,
    at: int,
    name: Seq<char>,
    inode_num: u32,
    file_type: u8,
) -> Result<Seq<u8>, Seq<char>>
    decreases b.len() - at,
{
    let rec = rec_len_at(b, at);
    if at >= b.len() {
        Err("Entry not found"@)
    } else if rec <= 0 || at + rec > b.len() || entry_at(b, at) is None {
        Err("DirEntry::try_from failed"@)
    } else {
        let e = entry_at(b, at)->0;
        if text::shown(e.name) == name {
            Ok(bytes::splice(b, at, enc_entry(DirEntryModel { inode_num, file_type, ..e })))
        } else {
            redirected(b, at + rec, name, inode_num, file_type)
        }
    }
}

/// Directory content that changes.
pub struct Ext4DirContentWE {
    content: Vec<u8>,
}

impl View for Ext4DirContentWE {
    type V = Seq<u8>;

    closed spec fn view(&self) -> Seq<u8> {
        self.content@
    }
}

impl Ext4DirContentWE {
    pub fn new(data: Vec<u8>) -> (r: Self)
        ensures
            r@ == data@,
    {
        Ext4DirContentWE { content: data }
    }

    /// The content.
    pub fn into_content(self) -> (r: Vec<u8>)
        ensures
            r@ == self@,
    {
        self.content
    }

    /// Add an entry at the first place that has room.
    pub fn add_entry(&mut self, name: &str, inode_num: u32, file_type: u8) -> (r: Result<
        (),
        &'static str,
    >)
        requires
            name.spec_bytes().len() <= 255,
        ensures
            match added(old(self)@, 0, name.spec_bytes(), inode_num, file_type) {
                Ok(b) => r is Ok && final(self)@ == b,
                Err(e) => r is Err && r->Err_0@ == e && final(self)@ == old(self)@,
            },
    {
        let name_bytes = name.as_bytes();
        let name_len: usize = name_bytes.len();
        let needed: usize = (name_len + 8 + 3) / 4 * 4;
        let content_len: usize = self.content.len();
        let mut at: usize = 0;
        while at < content_len
            invariant
                *self == *old(self),
                content_len == self@.len(),
                at <= content_len,
                name_bytes@ == name.spec_bytes(),
                name_len == name_bytes@.len() <= 255,
                needed == entry_room(name_len as int),
                added(self@, 0, name_bytes@, inode_num, file_type) == added(
                    self@,
                    at as int,
                    name_bytes@,
                    inode_num,
                    file_type,
                ),
            decreases content_len - at,
        {
            if content_len - at < 8 {
                return Err("Invalid directory entry");
            }
            let rec_len: u16 = bytes::get_u16(self.content.as_slice(), at + 4);
            if rec_len < 8 || rec_len as usize > content_len - at {
                return Err("Invalid rec_len");
            }
            let entry = match read_entry(self.content.as_slice(), at, rec_len) {
                Ok(e) => e,
                Err(_) => {
                    return Err("Corrupted directory entry");
                },
            };
            let ghost e0 = entry@;
            let used: usize = (entry.name_len as usize + 8 + 3) / 4 * 4;
            if entry.inode_num == 0 {
                if rec_len as usize >= needed {
                    let new = make_entry(inode_num, rec_len, name_bytes, file_type);
                    new.write_to_mem(self.content.as_mut_slice(), at);
                    return Ok(());
                }
            } else if rec_len as usize >= used + needed {
                let mut shortened = entry;
                shortened.rec_len = used as u16;
                assert(shortened@ == DirEntryModel { rec_len: used as u16, ..e0 });
                shortened.write_to_mem(self.content.as_mut_slice(), at);
                let new = make_entry(inode_num, rec_len - used as u16, name_bytes, file_type);
                new.write_to_mem(self.content.as_mut_slice(), at + used);
                return Ok(());
            }
            at += rec_len as usize;
        }
        Err("No space left in directory block")
    }

    /// Delete the first entry of this name.
    pub fn delete_entry(&mut self, name: &str, _inode_num: u32) -> (r: Result<(), Errno>)
        requires
            chain_ok(old(self)@, 0),
            mergeable(old(self)@, 0),
        ensures
            match deleted(old(self)@, name@) {
                Some(b) => r == Ok::<(), Errno>(()) && final(self)@ == b,
                None => r == Err::<(), Errno>(Errno::ENOENT) && final(self)@ == old(self)@,
            },
    {
        let content_len: usize = self.content.len();
        let mut at: usize = 0;
        let mut prev: usize = 0;
        while at < content_len
            invariant
                *self == *old(self),
                content_len == self@.len(),
                at <= content_len,
                prev <= at,
                at > 0 ==> {
                    &&& prev < at
                    &&& at - prev == rec_len_at(self@, prev as int)
                    &&& entry_at(self@, prev as int) is Some
                    &&& at < content_len ==> at - prev + rec_len_at(self@, at as int) <= u16::MAX
                },
                forall|to: int| #![trigger place_before(self@, 0, to)]
                    at > 0 && to >= at ==> place_before(self@, 0, to) == place_before(
                        self@,
                        prev as int,
                        to,
                    ),
                chain_ok(self@, at as int),
                mergeable(self@, at as int),
                place_of(self@, 0, name@) == place_of(self@, at as int, name@),
            decreases content_len - at,
        {
            let rec_len: u16 = bytes::get_u16(self.content.as_slice(), at + 4);
            match read_entry(self.content.as_slice(), at, rec_len) {
                Ok(e) => {
                    if text::shows(e.name.as_slice(), name) {
                        if at == 0 {
                            let mut freed = e;
                            freed.inode_num = 0;
                            freed.write_to_mem(self.content.as_mut_slice(), 0);
                            return Ok(());
                        }
                        match read_entry(self.content.as_slice(), prev, (at - prev) as u16) {
                            Ok(p) => {
                                let mut merged = p;
                                assert(merged.rec_len == at - prev) by {
                                    let sub = self@.subrange(prev as int, at as int);
                                    bytes::lemma_same_int(sub, self@, 4, prev + 4, 2);
                                }
                                assert(place_before(self@, 0, at as int) == prev);
                                merged.rec_len = merged.rec_len + rec_len;
                                merged.write_to_mem(self.content.as_mut_slice(), prev);
                            },
                            Err(_) => {},
                        }
                        return Ok(());
                    }
                },
                Err(_) => {},
            }
            prev = at;
            at += rec_len as usize;
        }
        Err(Errno::ENOENT)
    }

    /// Let the first entry of this name refer to another inode.
    pub fn set_entry(&mut self, old_name: &str, new_inode_num: u32, new_file_type: u8) -> (r: Result<
        (),
        &'static str,
    >)
        requires
            segments_ok(old(self)@, 0),
        ensures
            match redirected(old(self)@, 0, old_name@, new_inode_num, new_file_type) {
                Ok(b) => r is Ok && final(self)@ == b,
                Err(e) => r is Err && r->Err_0@ == e && final(self)@ == old(self)@,
            },
    {
        let content_len: usize = self.content.len();
        let mut at: usize = 0;
        while at < content_len
            invariant
                *self == *old(self),
                content_len == self@.len(),
                at <= content_len,
                segments_ok(self@, at as int),
                redirected(self@, 0, old_name@, new_inode_num, new_file_type) == redirected(
                    self@,
                    at as int,
                    old_name@,
                    new_inode_num,
                    new_file_type,
                ),
            decreases content_len - at,
        {
            let rec_len: u16 = bytes::get_u16(self.content.as_slice(), at + 4);
            match read_entry(self.content.as_slice(), at, rec_len) {
                Ok(e) => {
                    if text::shows(e.name.as_slice(), old_name) {
                        let mut changed = e;
                        changed.inode_num = new_inode_num;
                        changed.file_type = new_file_type;
                        changed.write_to_mem(self.content.as_mut_slice(), at);
                        return Ok(());
                    }
                },
                Err(_) => {
                    return Err("DirEntry::try_from failed");
                },
            }
            at += rec_len as usize;
        }
        Err("Entry not found")
    }

    /// Fill in the first two entries of a new directory.
    pub fn init_dot_dotdot(
        &mut self,
        parent_inode_num: u32,
        self_inode_num: u32,
        ext4_block_size: usize,
    )
        requires
            old(self)@.len() >= 22,
            12 <= ext4_block_size <= u16::MAX,
        ensures
            final(self)@ == dotted(
                old(self)@,
                parent_inode_num,
                self_inode_num,
                ext4_block_size as int,
            ),
    {
        let dot = Ext4DirEntry {
            inode_num: self_inode_num,
            rec_len: 12,
            name_len: 1,
            file_type: EXT4_DT_DIR,
            name: vec![46u8],
        };
        assert(dot@.name =~= seq![46u8]);
        dot.write_to_mem(self.content.as_mut_slice(), 0);
        let dotdot = Ext4DirEntry {
            inode_num: parent_inode_num,
            rec_len: ext4_block_size as u16 - 12,
            name_len: 2,
            file_type: EXT4_DT_DIR,
            name: vec![46u8, 46u8],
        };
        assert(dotdot@.name =~= seq![46u8, 46u8]);
        dotdot.write_to_mem(self.content.as_mut_slice(), 12);
    }
}

/// Directory content that begins with the entries `.` and `..`, the second of
/// which reaches to the end of the block.
pub open spec fn dotted(b: Seq<u8>, parent: u32, own: u32, block_size: int) -> Seq<u8> {
    let dot = new_entry(own, 12, seq![46u8], EXT4_DT_DIR);
    let dotdot = new_entry(parent, block_size - 12, seq![46u8, 46u8], EXT4_DT_DIR);
    bytes::splice(bytes::splice(b, 0, enc_entry(dot)), 12, enc_entry(dotdot))
}

fn make_entry(inode_num: u32, rec_len: u16, name: &[u8], file_type: u8) -> (r: Ext4DirEntry)
    requires
        name@.len() <= 255,
    ensures
        r.wf(),
        r@ == new_entry(inode_num, rec_len as int, name@, file_type),
{
    let r = Ext4DirEntry {
        inode_num,
        rec_len,
        name_len: name.len() as u8,
        file_type,
        name: bytes::to_vec(name, 0, name.len()),
    };
    assert(r.name@ =~= name@);
    r
}

// ---------------------------------------------------------------------------
// Laws of directory contents
// ---------------------------------------------------------------------------

/// Adding an entry at `at` or later leaves what stands before `at`.
proof fn lemma_added_prefix(b: Seq<u8>, at: int, name: Seq<u8>, inode_num: u32, file_type: u8)
    requires
        0 <= at,
        name.len() <= 255,
        added(b, at, name, inode_num, file_type) is Ok,
    ensures
        added(b, at, name, inode_num, file_type)->Ok_0.len() == b.len(),
        forall|i: int|
            0 <= i < at && i < b.len() ==> #[trigger] added(
                b,
                at,
                name,
                inode_num,
                file_type,
            )->Ok_0[i] == b[i],
    decreases b.len() - at,
{
    let rec = rec_len_at(b, at);
    let e = entry_at(b, at)->0;
    let needed = entry_room(name.len() as int);
    let used = entry_room(e.name_len as int);
    if !(e.inode_num == 0 && rec >= needed) && !(e.inode_num != 0 && rec >= used + needed) {
        lemma_added_prefix(b, at + rec, name, inode_num, file_type);
    }
}

/// Entries are read from their own bytes.
proof fn lemma_same_entry(a: Seq<u8>, b: Seq<u8>, at: int)
    requires
        0 <= at,
        at + 6 <= b.len(),
        at + rec_len_at(b, at) <= b.len(),
        6 <= rec_len_at(b, at),
        a.len() == b.len(),
        forall|i: int| at <= i < at + rec_len_at(b, at) ==> #[trigger] a[i] == b[i],
    ensures
        rec_len_at(a, at) == rec_len_at(b, at),
        entry_at(a, at) == entry_at(b, at),
{
    let rec = rec_len_at(b, at);
    assert forall|k: int| 0 <= k < 2 implies a[at + 4 + k] == #[trigger] b[at + 4 + k] by {}
    bytes::lemma_same_int(a, b, at + 4, at + 4, 2);
    assert(a.subrange(at, at + rec) =~= b.subrange(at, at + rec));
}

/// A stored entry is read back as an entry of the directory.
proof fn lemma_entry_stored(b: Seq<u8>, at: int, e: DirEntryModel)
    requires
        0 <= at,
        e.name.len() == e.name_len,
        8 + e.name_len <= e.rec_len,
        at + e.rec_len <= b.len(),
    ensures
        rec_len_at(bytes::splice(b, at, enc_entry(e)), at) == e.rec_len,
        entry_at(bytes::splice(b, at, enc_entry(e)), at) == Some(e),
{
    let s = bytes::splice(b, at, enc_entry(e));
    let e0 = bytes::enc32(e.inode_num as int);
    let e1 = bytes::enc16(e.rec_len as int);
    let e2 = seq![e.name_len, e.file_type];
    bytes::lemma_splice_stands(b, at, enc_entry(e));
    bytes::lemma_stands_parts(s, at, e0 + e1 + e2, e.name);
    bytes::lemma_stands_parts(s, at, e0 + e1, e2);
    bytes::lemma_stands_parts(s, at, e0, e1);
    bytes::lemma_decode(s, at + 4, e.rec_len as int);
    crate::fs::ext4::dentry::law_stored_entry_is_read(b, at, e.rec_len as int, e);
}

/// An entry that was added under a new name is the one that is found by it.
pub proof fn law_added_entry_is_found(
    b: Seq<u8>,
    at: int,
    name: Seq<char>,
    inode_num: u32,
    file_type: u8,
)
    requires
        0 <= at,
        vstd::utf8::encode_utf8(name).len() <= 255,
        place_of(b, at, name) is None,
        added(b, at, vstd::utf8::encode_utf8(name), inode_num, file_type) is Ok,
    ensures
        ({
            let b2 = added(b, at, vstd::utf8::encode_utf8(name), inode_num, file_type)->Ok_0;
            match place_of(b2, at, name) {
                Some(p) => {
                    &&& entry_at(b2, p) is Some
                    &&& entry_at(b2, p)->0.inode_num == inode_num
                    &&& entry_at(b2, p)->0.file_type == file_type
                    &&& entry_at(b2, p)->0.name == vstd::utf8::encode_utf8(name)
                },
                None => false,
            }
        }),
    decreases b.len() - at,
{
    let nb = vstd::utf8::encode_utf8(name);
    let b2 = added(b, at, nb, inode_num, file_type)->Ok_0;
    let rec = rec_len_at(b, at);
    let e = entry_at(b, at)->0;
    let needed = entry_room(nb.len() as int);
    let used = entry_room(e.name_len as int);
    text::lemma_shown(name);
    if e.inode_num == 0 && rec >= needed {
        lemma_entry_stored(b, at, new_entry(inode_num, rec, nb, file_type));
    } else if e.inode_num != 0 && rec >= used + needed {
        let short = DirEntryModel { rec_len: used as u16, ..e };
        let new = new_entry(inode_num, rec - used, nb, file_type);
        let b1 = bytes::splice(b, at, enc_entry(short));
        assert(e.name.len() == e.name_len);
        lemma_entry_stored(b, at, short);
        lemma_entry_stored(b1, at + used, new);
        lemma_same_entry(b2, b1, at);
        assert(place_of(b2, at + used, name) == Some(at + used));
    } else {
        lemma_added_prefix(b, at + rec, nb, inode_num, file_type);
        lemma_same_entry(b2, b, at);
        law_added_entry_is_found(b, at + rec, name, inode_num, file_type);
    }
}

/// From `at` on, entries tile the content exactly; their sizes are multiples
/// of 4.
pub open spec fn tiled(b: Seq<u8>, at: int) -> bool
    decreases b.len() - at,
{
    if at >= b.len() {
        at == b.len()
    } else {
        &&& at + 8 <= b.len()
        &&& rec_len_at(b, at) >= 8
        &&& rec_len_at(b, at) % 4 == 0
        &&& at + rec_len_at(b, at) <= b.len()
        &&& entry_at(b, at) is Some
        &&& tiled(b, at + rec_len_at(b, at))
    }
}

/// Some entry from `at` on has room for a new one of `needed` bytes: it is free
/// and large enough, or does not use so much of its space.
pub open spec fn has_room(b: Seq<u8>, at: int, needed: int) -> bool
    decreases b.len() - at,
{
    let rec = rec_len_at(b, at);
    if at >= b.len() || rec < 8 || at + rec > b.len() || entry_at(b, at) is None {
        false
    } else {
        let e = entry_at(b, at)->0;
        ||| e.inode_num == 0 && rec >= needed
        ||| e.inode_num != 0 && rec >= entry_room(e.name_len as int) + needed
        ||| has_room(b, at + rec, needed)
    }
}

/// In a tiled directory an entry is added exactly when there is room for it, and
/// the only error is that there is none.
pub proof fn law_entry_is_added_where_there_is_room(
    b: Seq<u8>,
    at: int,
    name: Seq<u8>,
    inode_num: u32,
    file_type: u8,
)
    requires
        0 <= at,
        tiled(b, at),
    ensures
        added(b, at, name, inode_num, file_type) is Ok <==> has_room(
            b,
            at,
            entry_room(name.len() as int),
        ),
        added(b, at, name, inode_num, file_type) matches Err(e) ==> e
            == "No space left in directory block"@,
    decreases b.len() - at,
{
    if at < b.len() {
        law_entry_is_added_where_there_is_room(
            b,
            at + rec_len_at(b, at),
            name,
            inode_num,
            file_type,
        );
    }
}

/// What stands from `at` on depends on the bytes from there on.
proof fn lemma_same_tail(a: Seq<u8>, b: Seq<u8>, at: int, other: Seq<char>)
    requires
        0 <= at,
        a.len() == b.len(),
        tiled(b, at),
        forall|i: int| at <= i < b.len() ==> #[trigger] a[i] == b[i],
    ensures
        tiled(a, at),
        place_of(a, at, other) == place_of(b, at, other),
        place_of(b, at, other) matches Some(p) ==> at <= p && entry_at(a, p) == entry_at(b, p),
    decreases b.len() - at,
{
    if at < b.len() {
        lemma_same_entry(a, b, at);
        lemma_same_tail(a, b, at + rec_len_at(b, at), other);
    }
}

/// The entries of the same name in two directories refer to the same file: both
/// have one or none has, and they agree on inode and type.
pub open spec fn same_file(a: Seq<u8>, b: Seq<u8>, at: int, other: Seq<char>) -> bool {
    match (place_of(a, at, other), place_of(b, at, other)) {
        (Some(p), Some(q)) => {
            &&& entry_at(a, p) is Some && entry_at(b, q) is Some
            &&& entry_at(a, p)->0.inode_num == entry_at(b, q)->0.inode_num
            &&& entry_at(a, p)->0.file_type == entry_at(b, q)->0.file_type
            &&& entry_at(a, p)->0.name == entry_at(b, q)->0.name
        },
        (None, None) => true,
        _ => false,
    }
}

/// A free entry that is taken.
proof fn lemma_free_entry_taken(
    b: Seq<u8>,
    at: int,
    nb: Seq<u8>,
    inode_num: u32,
    file_type: u8,
    other: Seq<char>,
)
    requires
        0 <= at < b.len(),
        tiled(b, at),
        nb.len() <= 255,
        entry_room(nb.len() as int) <= rec_len_at(b, at),
        entry_at(b, at)->0.inode_num == 0,
        text::shown(nb) != other,
    ensures
        ({
            let b2 = bytes::splice(
                b,
                at,
                enc_entry(new_entry(inode_num, rec_len_at(b, at), nb, file_type)),
            );
            &&& tiled(b2, at)
            &&& not_dead(b, at, other) ==> same_file(b2, b, at, other)
        }),
{
    let rec = rec_len_at(b, at);
    let new = new_entry(inode_num, rec, nb, file_type);
    let b2 = bytes::splice(b, at, enc_entry(new));
    assert(enc_entry(new).len() == 8 + nb.len());
    lemma_entry_stored(b, at, new);
    lemma_same_tail(b2, b, at + rec, other);
    assert(place_of(b2, at, other) == place_of(b2, at + rec, other));
    lemma_place_entry(b, at + rec, other);
}

/// What is found is an entry.
proof fn lemma_place_entry(b: Seq<u8>, at: int, other: Seq<char>)
    ensures
        place_of(b, at, other) matches Some(p) ==> entry_at(b, p) is Some,
    decreases b.len() - at,
{
    let rec = rec_len_at(b, at);
    if !(at >= b.len() || at + rec > b.len() || rec <= 0 || entry_at(b, at) is None) {
        lemma_place_entry(b, at + rec, other);
    }
}

/// An entry that shares its space with a new one.
proof fn lemma_entry_shared(
    b: Seq<u8>,
    at: int,
    nb: Seq<u8>,
    inode_num: u32,
    file_type: u8,
    other: Seq<char>,
)
    requires
        0 <= at < b.len(),
        tiled(b, at),
        nb.len() <= 255,
        entry_room(entry_at(b, at)->0.name_len as int) + entry_room(nb.len() as int) <= rec_len_at(
            b,
            at,
        ),
        text::shown(nb) != other,
    ensures
        ({
            let e = entry_at(b, at)->0;
            let used = entry_room(e.name_len as int);
            let b2 = bytes::splice(
                bytes::splice(b, at, enc_entry(DirEntryModel { rec_len: used as u16, ..e })),
                at + used,
                enc_entry(new_entry(inode_num, rec_len_at(b, at) - used, nb, file_type)),
            );
            &&& tiled(b2, at)
            &&& same_file(b2, b, at, other)
        }),
{
    let rec = rec_len_at(b, at);
    let e = entry_at(b, at)->0;
    let used = entry_room(e.name_len as int);
    let short = DirEntryModel { rec_len: used as u16, ..e };
    let new = new_entry(inode_num, rec - used, nb, file_type);
    let b2 = bytes::splice(
        bytes::splice(b, at, enc_entry(short)),
        at + used,
        enc_entry(new),
    );
    assert(e.name.len() == e.name_len);
    lemma_room(e.name_len as int);
    lemma_room(nb.len() as int);
    lemma_rec_small(b, at);
    assert(short.rec_len == used && new.rec_len == rec - used);
    assert(new.name == nb && new.name_len == nb.len());
    lemma_two_stored(b, at, rec, short, new);
    lemma_same_tail(b2, b, at + rec, other);
    lemma_place_entry(b, at + rec, other);
    lemma_two_tiles(b2, b, at, rec, used, e, short, new, other);
}

proof fn lemma_room(n: int)
    requires
        0 <= n <= 255,
    ensures
        entry_room(n) % 4 == 0,
        8 + n <= entry_room(n) <= 11 + n,
{
}

proof fn lemma_rec_small(b: Seq<u8>, at: int)
    ensures
        0 <= rec_len_at(b, at) <= u16::MAX,
{
}

/// Two entries that were stored one behind the other.
proof fn lemma_two_stored(b: Seq<u8>, at: int, rec: int, short: DirEntryModel, new: DirEntryModel)
    requires
        0 <= at,
        at + rec <= b.len(),
        short.name.len() == short.name_len,
        new.name.len() == new.name_len,
        8 + short.name_len <= short.rec_len,
        8 + new.name_len <= new.rec_len,
        short.rec_len + new.rec_len == rec,
    ensures
        ({
            let b2 = bytes::splice(
                bytes::splice(b, at, enc_entry(short)),
                at + short.rec_len,
                enc_entry(new),
            );
            &&& b2.len() == b.len()
            &&& rec_len_at(b2, at) == short.rec_len
            &&& entry_at(b2, at) == Some(short)
            &&& rec_len_at(b2, at + short.rec_len) == new.rec_len
            &&& entry_at(b2, at + short.rec_len) == Some(new)
            &&& forall|i: int| at + rec <= i < b.len() ==> #[trigger] b2[i] == b[i]
        }),
{
    let used = short.rec_len as int;
    let b1 = bytes::splice(b, at, enc_entry(short));
    let b2 = bytes::splice(b1, at + used, enc_entry(new));
    assert(enc_entry(new).len() == 8 + new.name.len());
    assert(enc_entry(short).len() == 8 + short.name.len());
    lemma_entry_stored(b, at, short);
    lemma_entry_stored(b1, at + used, new);
    lemma_same_entry(b2, b1, at);
}

/// Where one entry stood, two stand now.
proof fn lemma_two_tiles(
    b2: Seq<u8>,
    b: Seq<u8>,
    at: int,
    rec: int,
    used: int,
    e: DirEntryModel,
    short: DirEntryModel,
    new: DirEntryModel,
    other: Seq<char>,
)
    requires
        0 <= at < b.len(),
        b2.len() == b.len(),
        rec == rec_len_at(b, at),
        at + rec <= b.len(),
        entry_at(b, at) == Some(e),
        8 <= used,
        used + 8 <= rec,
        used % 4 == 0,
        rec % 4 == 0,
        rec_len_at(b2, at) == used,
        entry_at(b2, at) == Some(short),
        short == (DirEntryModel { rec_len: short.rec_len, ..e }),
        rec_len_at(b2, at + used) == rec - used,
        entry_at(b2, at + used) == Some(new),
        text::shown(new.name) != other,
        tiled(b2, at + rec),
        place_of(b2, at + rec, other) == place_of(b, at + rec, other),
        place_of(b, at + rec, other) matches Some(p) ==> entry_at(b, p) is Some && entry_at(b2, p)
            == entry_at(b, p),
    ensures
        tiled(b2, at),
        same_file(b2, b, at, other),
{
    assert(place_of(b2, at + used, other) == place_of(b2, at + rec, other));
    assert(tiled(b2, at + used));
    if text::shown(e.name) == other {
        assert(place_of(b2, at, other) == Some(at));
        assert(place_of(b, at, other) == Some(at));
    } else {
        assert(place_of(b2, at, other) == place_of(b2, at + used, other));
        assert(place_of(b, at, other) == place_of(b, at + rec, other));
    }
}

/// The name is not that of an entry whose file is gone.
pub open spec fn not_dead(b: Seq<u8>, at: int, other: Seq<char>) -> bool {
    place_of(b, at, other) matches Some(p) ==> entry_at(b, p)->0.inode_num != 0
}

/// Adding an entry to a tiled directory keeps it tiled, and every other name that
/// refers to a file, or to nothing, is found as before.
pub proof fn law_adding_keeps_other_names(
    b: Seq<u8>,
    at: int,
    name: Seq<char>,
    inode_num: u32,
    file_type: u8,
    other: Seq<char>,
)
    requires
        0 <= at,
        tiled(b, at),
        vstd::utf8::encode_utf8(name).len() <= 255,
        added(b, at, vstd::utf8::encode_utf8(name), inode_num, file_type) is Ok,
        other != name,
    ensures
        ({
            let b2 = added(b, at, vstd::utf8::encode_utf8(name), inode_num, file_type)->Ok_0;
            &&& b2.len() == b.len()
            &&& tiled(b2, at)
            &&& not_dead(b, at, other) ==> same_file(b2, b, at, other)
        }),
    decreases b.len() - at,
{
    let nb = vstd::utf8::encode_utf8(name);
    let b2 = added(b, at, nb, inode_num, file_type)->Ok_0;
    let rec = rec_len_at(b, at);
    let e = entry_at(b, at)->0;
    let needed = entry_room(nb.len() as int);
    let used = entry_room(e.name_len as int);
    text::lemma_shown(name);
    if e.inode_num == 0 && rec >= needed {
        lemma_free_entry_taken(b, at, nb, inode_num, file_type, other);
    } else if e.inode_num != 0 && rec >= used + needed {
        lemma_entry_shared(b, at, nb, inode_num, file_type, other);
    } else {
        lemma_added_prefix(b, at + rec, nb, inode_num, file_type);
        lemma_same_entry(b2, b, at);
        law_adding_keeps_other_names(b, at + rec, name, inode_num, file_type, other);
    }
}

/// The entry before another one ends where the other one begins.
proof fn lemma_place_before(b: Seq<u8>, at: int, to: int, name: Seq<char>)
    requires
        0 <= at < to,
        chain_ok(b, at),
        place_of(b, at, name) == Some(to),
    ensures
        ({
            let p = place_before(b, at, to);
            &&& at <= p < to
            &&& p + rec_len_at(b, p) == to
            &&& chain_ok(b, p)
            &&& chain_ok(b, to)
            &&& entry_at(b, p) is Some
            &&& to < b.len()
        }),
    decreases to - at,
{
    let rec = rec_len_at(b, at);
    lemma_place_bounds(b, at + rec, name);
    if at + rec < to {
        lemma_place_before(b, at + rec, to, name);
    }
}

proof fn lemma_place_bounds(b: Seq<u8>, at: int, name: Seq<char>)
    requires
        0 <= at,
        chain_ok(b, at),
    ensures
        match place_of(b, at, name) {
            Some(p) => at <= p < b.len() && chain_ok(b, p) && entry_at(b, p) is Some,
            None => true,
        },
    decreases b.len() - at,
{
    if at < b.len() && text::shown(entry_at(b, at)->0.name) != name {
        lemma_place_bounds(b, at + rec_len_at(b, at), name);
    }
}

/// The same bytes from `at` on hold the same names.
proof fn lemma_same_places(a: Seq<u8>, b: Seq<u8>, at: int, name: Seq<char>)
    requires
        0 <= at,
        chain_ok(b, at),
        a.len() == b.len(),
        forall|i: int| at <= i < b.len() ==> #[trigger] a[i] == b[i],
    ensures
        place_of(a, at, name) == place_of(b, at, name),
    decreases b.len() - at,
{
    if at < b.len() {
        lemma_same_entry(a, b, at);
        lemma_same_places(a, b, at + rec_len_at(b, at), name);
    }
}

#[verifier::rlimit(40)]
proof fn lemma_deleted_gone(b: Seq<u8>, b2: Seq<u8>, at: int, prev: int, to: int, name: Seq<char>)
    requires
        0 <= at <= prev < to < b.len(),
        chain_ok(b, at),
        chain_ok(b, to),
        place_of(b, at, name) == Some(to),
        prev == place_before(b, at, to),
        prev + rec_len_at(b, prev) == to,
        place_of(b, to + rec_len_at(b, to), name) is None,
        rec_len_at(b, prev) + rec_len_at(b, to) <= u16::MAX,
        entry_at(b, prev) is Some,
        b2 == bytes::splice(
            b,
            prev,
            enc_entry(
                DirEntryModel {
                    rec_len: (entry_at(b, prev)->0.rec_len + rec_len_at(b, to)) as u16,
                    ..entry_at(b, prev)->0
                },
            ),
        ),
    ensures
        place_of(b2, at, name) is None,
    decreases to - at,
{
    let rec = rec_len_at(b, at);
    let p = entry_at(b, prev)->0;
    let merged = DirEntryModel { rec_len: (p.rec_len + rec_len_at(b, to)) as u16, ..p };
    let sub = b.subrange(prev, to);
    assert forall|k: int| 0 <= k < 2 implies sub[4 + k] == #[trigger] b[prev + 4 + k] by {}
    bytes::lemma_same_int(sub, b, 4, prev + 4, 2);
    assert(p.rec_len == to - prev);
    assert(p.name.len() == p.name_len);
    lemma_place_bounds(b, at + rec, name);
    if at == prev {
        lemma_entry_stored(b, prev, merged);
        let next = to + rec_len_at(b, to);
        lemma_same_places(b2, b, next, name);
    } else {
        assert(at + rec < to);
        lemma_place_before(b, at + rec, to, name);
        lemma_same_entry(b2, b, at);
        lemma_deleted_gone(b, b2, at + rec, prev, to, name);
    }
}

/// A name that stood in the directory once, and not in its first entry, is no
/// longer found after it was deleted.
pub proof fn law_deleted_name_is_gone(b: Seq<u8>, name: Seq<char>, at: int)
    requires
        chain_ok(b, 0),
        mergeable(b, 0),
        place_of(b, 0, name) == Some(at),
        at > 0,
        place_of(b, at + rec_len_at(b, at), name) is None,
    ensures
        deleted(b, name) is Some,
        found(deleted(b, name)->0, name) is None,
{
    lemma_place_before(b, 0, at, name);
    lemma_mergeable_at(b, 0, at, name);
    lemma_deleted_gone(b, deleted(b, name)->0, 0, place_before(b, 0, at), at, name);
}

proof fn lemma_mergeable_at(b: Seq<u8>, at: int, to: int, name: Seq<char>)
    requires
        0 <= at < to,
        chain_ok(b, at),
        mergeable(b, at),
        place_of(b, at, name) == Some(to),
    ensures
        rec_len_at(b, place_before(b, at, to)) + rec_len_at(b, to) <= u16::MAX,
    decreases to - at,
{
    let rec = rec_len_at(b, at);
    lemma_place_bounds(b, at + rec, name);
    if at + rec < to {
        lemma_mergeable_at(b, at + rec, to, name);
    }
}

/// Adding an entry keeps the length.
pub proof fn lemma_added_len(b: Seq<u8>, at: int, name: Seq<u8>, inode_num: u32, file_type: u8)
    ensures
        match added(b, at, name, inode_num, file_type) {
            Ok(b2) => b2.len() == b.len(),
            Err(_) => true,
        },
    decreases b.len() - at,
{
    let rec = rec_len_at(b, at);
    if at >= b.len() || at + 8 > b.len() || rec < 8 || at + rec > b.len() {
    } else {
        lemma_added_len(b, at + rec, name, inode_num, file_type);
    }
}

/// Redirecting an entry keeps the length.
pub proof fn lemma_redirected_len(
    b: Seq<u8>,
    at: int,
    name: Seq<char>,
    inode_num: u32,
    file_type: u8,
)
    ensures
        match redirected(b, at, name, inode_num, file_type) {
            Ok(b2) => b2.len() == b.len(),
            Err(_) => true,
        },
    decreases b.len() - at,
{
    let rec = rec_len_at(b, at);
    if at >= b.len() || rec <= 0 || at + rec > b.len() {
    } else {
        lemma_redirected_len(b, at + rec, name, inode_num, file_type);
    }
}

/// Deleting an entry keeps the length.
pub proof fn lemma_deleted_len(b: Seq<u8>, name: Seq<char>)
    ensures
        match deleted(b, name) {
            Some(b2) => b2.len() == b.len(),
            None => true,
        },
{
}

/// The entry at `at` with another inode and another type.
proof fn lemma_entry_changed(b: Seq<u8>, at: int, inode_num: u32, file_type: u8, other: Seq<char>)
    requires
        0 <= at < b.len(),
        tiled(b, at),
    ensures
        ({
            let e2 = DirEntryModel { inode_num, file_type, ..entry_at(b, at)->0 };
            let b2 = bytes::splice(b, at, enc_entry(e2));
            let next = at + rec_len_at(b, at);
            &&& b2.len() == b.len()
            &&& rec_len_at(b2, at) == rec_len_at(b, at)
            &&& entry_at(b2, at) == Some(e2)
            &&& forall|i: int| 0 <= i < at ==> #[trigger] b2[i] == b[i]
            &&& tiled(b2, next)
            &&& place_of(b2, next, other) == place_of(b, next, other)
            &&& place_of(b, next, other) matches Some(p) ==> entry_at(b2, p) == entry_at(b, p)
        }),
{
    let next = at + rec_len_at(b, at);
    let e2 = DirEntryModel { inode_num, file_type, ..entry_at(b, at)->0 };
    let b2 = bytes::splice(b, at, enc_entry(e2));
    lemma_tile(b, at);
    lemma_next_tile(b, at);
    lemma_entry_stored(b, at, e2);
    lemma_entry_len(e2);
    lemma_splice_around(b, at, enc_entry(e2), next);
    lemma_same_tail(b2, b, next, other);
}

proof fn lemma_next_tile(b: Seq<u8>, at: int)
    requires
        0 <= at < b.len(),
        tiled(b, at),
    ensures
        tiled(b, at + rec_len_at(b, at)),
{
}

proof fn lemma_entry_len(e: DirEntryModel)
    ensures
        enc_entry(e).len() == 8 + e.name.len(),
{
}

proof fn lemma_splice_around(b: Seq<u8>, at: int, part: Seq<u8>, next: int)
    requires
        0 <= at,
        at + part.len() <= next <= b.len(),
    ensures
        bytes::splice(b, at, part).len() == b.len(),
        forall|i: int| 0 <= i < at ==> #[trigger] bytes::splice(b, at, part)[i] == b[i],
        forall|i: int| next <= i < b.len() ==> #[trigger] bytes::splice(b, at, part)[i] == b[i],
{
}

/// An entry of a name that is there refers to its new inode afterwards, with the
/// new type; under every other name what was found is found.
#[verifier::rlimit(40)]
pub proof fn law_redirected_name(
    b: Seq<u8>,
    at: int,
    name: Seq<char>,
    inode_num: u32,
    file_type: u8,
    other: Seq<char>,
)
    requires
        0 <= at,
        tiled(b, at),
    ensures
        redirected(b, at, name, inode_num, file_type) is Ok <==> place_of(b, at, name) is Some,
        redirected(b, at, name, inode_num, file_type) matches Ok(b2) ==> {
            &&& b2.len() == b.len()
            &&& tiled(b2, at)
            &&& forall|i: int| 0 <= i < at && i < b.len() ==> #[trigger] b2[i] == b[i]
            &&& place_of(b2, at, name) == place_of(b, at, name)
            &&& entry_at(b2, place_of(b, at, name)->0) == Some(
                DirEntryModel { inode_num, file_type, ..entry_at(b, place_of(b, at, name)->0)->0 },
            )
            &&& other != name ==> place_of(b2, at, other) == place_of(b, at, other) && (place_of(
                b,
                at,
                other,
            ) matches Some(p) ==> entry_at(b2, p) == entry_at(b, p))
        },
    decreases b.len() - at,
{
    let rec = rec_len_at(b, at);
    if at < b.len() {
        let e = entry_at(b, at)->0;
        if text::shown(e.name) == name {
            lemma_tile(b, at);
            lemma_entry_changed(b, at, inode_num, file_type, other);
        } else {
            law_redirected_name(b, at + rec, name, inode_num, file_type, other);
            match redirected(b, at + rec, name, inode_num, file_type) {
                Ok(b2) => {
                    lemma_tile(b, at);
                    assert forall|i: int| at <= i < at + rec implies #[trigger] b2[i] == b[i] by {}
                    lemma_same_entry(b2, b, at);
                },
                Err(_) => {},
            }
        }
    }
}

/// What an entry of content that is taken up by entries looks like.
proof fn lemma_tile(b: Seq<u8>, at: int)
    requires
        0 <= at < b.len(),
        tiled(b, at),
    ensures
        entry_at(b, at) is Some,
        entry_at(b, at)->0.rec_len == rec_len_at(b, at),
        entry_at(b, at)->0.name.len() == entry_at(b, at)->0.name_len,
        8 + entry_at(b, at)->0.name_len <= rec_len_at(b, at),
        at + rec_len_at(b, at) <= b.len(),
{
}

/// A new directory has itself under `.` and its parent under `..`, and nothing
/// else.
pub proof fn law_new_directory(b: Seq<u8>, parent: u32, own: u32)
    requires
        b.len() == 4096,
    ensures
        ({
            let d = dotted(b, parent, own, 4096);
            &&& d.len() == 4096
            &&& found(d, text::shown(seq![46u8])) matches Some(e) && e.inode_num == own
                && e.file_type == EXT4_DT_DIR
            &&& text::shown(seq![46u8, 46u8]) != text::shown(seq![46u8]) ==> (found(
                d,
                text::shown(seq![46u8, 46u8]),
            ) matches Some(e) && e.inode_num == parent && e.file_type == EXT4_DT_DIR)
            &&& forall|name: Seq<char>|
                name != text::shown(seq![46u8]) && name != text::shown(seq![46u8, 46u8])
                    ==> #[trigger] found(d, name) is None
        }),
{
    let dot = new_entry(own, 12, seq![46u8], EXT4_DT_DIR);
    let dotdot = new_entry(parent, 4084, seq![46u8, 46u8], EXT4_DT_DIR);
    lemma_two_stored(b, 0, 4096, dot, dotdot);
    let d = dotted(b, parent, own, 4096);
    assert(entry_at(d, 0) == Some(dot) && entry_at(d, 12) == Some(dotdot));
    assert forall|name: Seq<char>|
        name != text::shown(seq![46u8]) && name != text::shown(
            seq![46u8, 46u8],
        ) implies #[trigger] found(d, name) is None by {
        reveal_with_fuel(place_of, 3);
    }
    reveal_with_fuel(place_of, 3);
}

/// The same bytes from `at` on refer to the same files.
proof fn lemma_same_files(a: Seq<u8>, b: Seq<u8>, at: int, other: Seq<char>)
    requires
        0 <= at,
        chain_ok(b, at),
        a.len() == b.len(),
        forall|i: int| at <= i < b.len() ==> #[trigger] a[i] == b[i],
    ensures
        same_file(a, b, at, other),
    decreases b.len() - at,
{
    if at < b.len() {
        lemma_same_entry(a, b, at);
        lemma_same_files(a, b, at + rec_len_at(b, at), other);
    }
}

#[verifier::rlimit(40)]
proof fn lemma_others_stay(
    b: Seq<u8>,
    b2: Seq<u8>,
    at: int,
    prev: int,
    to: int,
    name: Seq<char>,
    other: Seq<char>,
)
    requires
        0 <= at <= prev < to < b.len(),
        chain_ok(b, at),
        chain_ok(b, to),
        place_of(b, at, name) == Some(to),
        prev == place_before(b, at, to),
        prev + rec_len_at(b, prev) == to,
        rec_len_at(b, prev) + rec_len_at(b, to) <= u16::MAX,
        entry_at(b, prev) is Some,
        text::shown(entry_at(b, to)->0.name) == name,
        other != name,
        b2 == bytes::splice(
            b,
            prev,
            enc_entry(
                DirEntryModel {
                    rec_len: (entry_at(b, prev)->0.rec_len + rec_len_at(b, to)) as u16,
                    ..entry_at(b, prev)->0
                },
            ),
        ),
    ensures
        same_file(b2, b, at, other),
    decreases to - at,
{
    let rec = rec_len_at(b, at);
    let p = entry_at(b, prev)->0;
    let merged = DirEntryModel { rec_len: (p.rec_len + rec_len_at(b, to)) as u16, ..p };
    let sub = b.subrange(prev, to);
    assert forall|k: int| 0 <= k < 2 implies sub[4 + k] == #[trigger] b[prev + 4 + k] by {}
    bytes::lemma_same_int(sub, b, 4, prev + 4, 2);
    assert(p.rec_len == to - prev);
    assert(p.name.len() == p.name_len);
    lemma_place_bounds(b, at + rec, name);
    if at == prev {
        lemma_entry_stored(b, prev, merged);
        let next = to + rec_len_at(b, to);
        lemma_same_files(b2, b, next, other);
    } else {
        assert(at + rec < to);
        lemma_place_before(b, at + rec, to, name);
        lemma_same_entry(b2, b, at);
        lemma_others_stay(b, b2, at + rec, prev, to, name, other);
    }
}

proof fn lemma_place_name(b: Seq<u8>, at: int, name: Seq<char>)
    ensures
        place_of(b, at, name) matches Some(p) ==> text::shown(entry_at(b, p)->0.name) == name,
    decreases b.len() - at,
{
    let rec = rec_len_at(b, at);
    if !(at >= b.len() || at + rec > b.len() || rec <= 0 || entry_at(b, at) is None) {
        lemma_place_name(b, at + rec, name);
    }
}

/// Deleting a name, other than that of the first entry, leaves every other name
/// with its file.
pub proof fn law_deleting_keeps_other_names(b: Seq<u8>, name: Seq<char>, at: int, other: Seq<char>)
    requires
        chain_ok(b, 0),
        mergeable(b, 0),
        place_of(b, 0, name) == Some(at),
        at > 0,
        other != name,
    ensures
        deleted(b, name) is Some,
        same_file(deleted(b, name)->0, b, 0, other),
{
    lemma_place_before(b, 0, at, name);
    lemma_mergeable_at(b, 0, at, name);
    lemma_place_name(b, 0, name);
    lemma_others_stay(b, deleted(b, name)->0, 0, place_before(b, 0, at), at, name, other);
}

} // verus!
