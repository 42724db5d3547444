//! What holds of links, device files and names.
use vstd::prelude::*;
use crate::bytes;
use crate::fs::dentry::DentryFlags;
use crate::fs::ext4::block_op;
use crate::fs::ext4::fs;
use crate::fs::ext4::fs::FsModel;
use crate::fs::ext4::inode;
use crate::fs::ext4::inode::InodeModel;
use crate::fs::ext4::inode_dir;
use crate::fs::ext4::inode_disk;
use crate::fs::ext4::inode_laws;
use crate::fs::ext4::inode_table;
use crate::fs::ext4::ops;
use crate::fs::types::{Errno, SyscallRet};

verus! {

/// Bytes, each as a character.
pub open spec fn characters(b: Seq<u8>) -> Seq<char> {
    Seq::new(b.len(), |i: int| b[i] as char)
}

proof fn lemma_link_chars(b: Seq<u8>)
    requires
        forall|i: int| 0 <= i < b.len() ==> b[i] != 0,
    ensures
        inode_dir::link_chars(b) == characters(b),
    decreases b.len(),
{
    if b.len() > 0 {
        lemma_link_chars(b.drop_first());
        assert(seq![b[0] as char] + characters(b.drop_first()) =~= characters(b));
    } else {
        assert(inode_dir::link_chars(b) =~= characters(b));
    }
}

/// A symbolic link leads where it was made to lead, while its target is shorter
/// than what an inode holds; it is told to be as long as its target.
pub proof fn law_short_link_leads_to_its_target(fs: FsModel, num: int, target: Seq<u8>)
    requires
        target.len() < 60,
        forall|i: int| 0 <= i < target.len() ==> target[i] != 0,
    ensures
        ops::link_made(fs, num, target) matches Some(t) && {
            &&& t.0 == fs
            &&& t.1.disk.size() == target.len()
            &&& inode_dir::link_bytes(fs, t.1) == target
            &&& inode_dir::link_chars(inode_dir::link_bytes(fs, t.1)) == characters(target)
        },
{
    inode_table::lemma_new_inode(0o777u16 | 0xA000u16, 0x1000_0000u32, num, 0, 0, 0);
    let t = ops::link_made(fs, num, target)->0;
    assert(t.1.disk.block.take(target.len() as int) =~= target);
    lemma_link_chars(target);
}

/// A symbolic link with a longer target leads there too.
pub proof fn law_long_link_leads_to_its_target(fs: FsModel, num: int, target: Seq<u8>)
    requires
        60 < target.len() <= u32::MAX,
        forall|i: int| 0 <= i < target.len() ==> target[i] != 0,
        ops::link_made(fs, num, target) is Some,
    ensures
        ({
            let t = ops::link_made(fs, num, target)->0;
            &&& t.1.disk.size_lo == target.len()
            &&& inode_dir::link_bytes(t.0, t.1) == target
            &&& inode_dir::link_chars(inode_dir::link_bytes(t.0, t.1)) == characters(target)
        }),
{
    let new = inode_table::new_inode(0o777u16 | 0xA000u16, 0x1000_0000u32, num, 0, 0, 0);
    inode_table::lemma_new_inode(0o777u16 | 0xA000u16, 0x1000_0000u32, num, 0, 0, 0);
    inode_laws::law_read_gives_back_write(fs, new, 0, target);
    crate::fs::ext4::attr_laws::law_told_size_after_a_write(fs, new, 4096, 0, target);
    lemma_link_chars(target);
}

/// The link that was read is remembered, and nothing else of the file changes.
pub proof fn law_link_is_remembered(fs: FsModel, m: InodeModel)
    requires
        m.disk.mode & 0xA000 == 0xA000,
        m.link is None,
    ensures
        inode_dir::link_read(fs, m).link == Some(
            inode_dir::link_chars(inode_dir::link_bytes(fs, m)),
        ),
        inode_dir::link_read(fs, m).disk == m.disk,
        inode_dir::link_read(fs, inode_dir::link_read(fs, m)) == inode_dir::link_read(fs, m),
{
}

/// The numbers of a device file are those that it was made with, and its mode has
/// what was asked for.
pub proof fn law_device_numbers(mode: u16, rdev: u64)
    ensures
        ({
            let d = ops::node_inode(mode, rdev);
            &&& d.block.len() == 60
            &&& bytes::le32(d.block, 0) == rdev as int / 0x1_0000_0000
            &&& bytes::le32(d.block, 4) == rdev as int % 0x1_0000_0000
            &&& d.mode & mode == mode
            &&& d.mode & 0x2000 == 0x2000
            &&& mode & 0x6000 == 0x6000 ==> d.mode & 0x6000 == 0x6000
        }),
{
    let major = (rdev as int / 0x1_0000_0000) as u32;
    let minor = (rdev as int % 0x1_0000_0000) as u32;
    let z = bytes::zeros(60);
    let b1 = bytes::splice(z, 0, bytes::enc32(major as int));
    let b2 = bytes::splice(b1, 4, bytes::enc32(minor as int));
    bytes::lemma_splice_stands(z, 0, bytes::enc32(major as int));
    bytes::lemma_splice_stands(b1, 4, bytes::enc32(minor as int));
    let e = bytes::enc32(major as int);
    assert forall|k: int| 0 <= k < e.len() implies b2[0 + k] == #[trigger] e[k] by {
        assert(b1[0 + k] == e[k]);
    }
    assert(bytes::stands_at(b2, 0, e));
    bytes::lemma_decode(b2, 0, major as int);
    bytes::lemma_decode(b2, 4, minor as int);
    let kind: u16 = if mode & 0x6000 == 0x6000 {
        0x6000
    } else {
        0x2000
    };
    assert((mode | kind) & mode == mode && (mode | kind) & kind == kind) by (bit_vector);
    let d = mode | kind;
    assert(d & 0x6000 == 0x6000 ==> d & 0x2000 == 0x2000) by (bit_vector);
}

/// An entry is of the type that the mode of its file gives.
pub proof fn law_entry_types(mode: u16)
    ensures
        mode & 0xF000 == 0x8000 ==> ops::type_flags(mode) == DentryFlags::REGULAR(),
        mode & 0xF000 == 0x4000 ==> ops::type_flags(mode) == DentryFlags::DIRECTORY(),
        mode & 0xF000 == 0xA000 ==> ops::type_flags(mode) == DentryFlags::SYMLINK(),
        mode & 0xF000 == 0x2000 || mode & 0xF000 == 0x6000 ==> ops::type_flags(mode)
            == DentryFlags::SPECIAL(),
        ops::type_flags(mode) == DentryFlags::DIRECTORY() ==> mode & 0xF000 == 0x4000,
{
}

/// Removing a name is refused exactly when there is no such file; then no name
/// goes and nothing changes on the device.
pub proof fn law_unlink(
    fs: FsModel,
    dir: InodeModel,
    name: Seq<char>,
    exists_file: bool,
    fs2: FsModel,
    dir2: InodeModel,
    r: SyscallRet,
)
    requires
        ops::unlinked(fs, dir, name, exists_file, fs2, dir2, r),
    ensures
        r is Ok <==> exists_file && block_op::place_of(
            inode_dir::dir_content(fs, dir, 0),
            0,
            name,
        ) is Some,
        r is Err ==> r == Err::<usize, Errno>(Errno::ENOENT) && fs2 == fs && dir2.disk == dir.disk,
{
}

/// A name that is removed is not found afterwards, and every other name is found as
/// before, unless the name stands in the first entry or stands there twice.
pub proof fn law_unlinked_name_is_gone(
    fs: FsModel,
    dir: InodeModel,
    name: Seq<char>,
    other: Seq<char>,
    at: int,
    fs2: FsModel,
    dir2: InodeModel,
    r: SyscallRet,
)
    requires
        inode_laws::plain_dir(fs, dir),
        ({
            let content = inode_dir::dir_content(fs, dir, 0);
            &&& block_op::chain_ok(content, 0)
            &&& block_op::mergeable(content, 0)
            &&& block_op::place_of(content, 0, name) == Some(at)
            &&& at > 0
            &&& block_op::place_of(content, at + block_op::rec_len_at(content, at), name) is None
        }),
        ops::unlinked(fs, dir, name, true, fs2, dir2, r),
        other != name,
    ensures
        r is Ok,
        block_op::found(inode_dir::dir_content(fs2, dir2, 0), name) is None,
        block_op::same_file(
            inode_dir::dir_content(fs2, dir2, 0),
            inode_dir::dir_content(fs, dir, 0),
            0,
            other,
        ),
{
    let content = inode_dir::dir_content(fs, dir, 0);
    inode_laws::law_deleted_name_is_not_found(fs, dir, name, at);
    block_op::law_deleting_keeps_other_names(content, name, at, other);
    block_op::lemma_deleted_len(content, name);
    inode_laws::lemma_dir_rewritten(fs, dir, block_op::deleted(content, name)->0);
}

/// A symbolic link that was made is found under its name as a link (type 7), with
/// an inode number that was free before, and its inode can be loaded and leads to
/// its target.
pub proof fn law_link_is_found(
    fs: FsModel,
    dir: InodeModel,
    name: Seq<char>,
    target: Seq<u8>,
    fs1: FsModel,
    num: int,
)
    requires
        vstd::utf8::encode_utf8(name).len() <= 255,
        target.len() < 60,
        forall|i: int| 0 <= i < target.len() ==> target[i] != 0,
        fs::inode_taken(fs, 0, false) == Some((fs1, num)),
        fs1.wf(),
        inode_table::inode_place(fs1, num) is Some,
        ops::entry_fits(
            inode_table::with_stored(fs1, num, (ops::link_made(fs1, num, target)->0).1.disk),
            dir,
            name,
            num,
            7,
        ),
    ensures
        ops::linked(fs, dir, vstd::utf8::encode_utf8(name), target) matches Some(t) && {
            &&& ops::refers_to(t.0, t.1, name, num, 7)
            &&& inode_table::stored_inode(t.0, num) == t.2.disk
            &&& t.2.disk.size() == target.len()
            &&& inode_dir::link_bytes(t.0, t.2) == target
        },
{
    law_short_link_leads_to_its_target(fs1, num, target);
    inode_table::lemma_new_inode(0o777u16 | 0xA000u16, 0x1000_0000u32, num, 0, 0, 0);
    let l = ops::link_made(fs1, num, target)->0;
    ops::lemma_made_is_found(fs1, dir, name, num, l.1, 7);
}

proof fn lemma_node_found(
    fs1: FsModel,
    dir: InodeModel,
    name: Seq<char>,
    num: int,
    d: inode_disk::InodeDiskModel,
)
    requires
        vstd::utf8::encode_utf8(name).len() <= 255,
        fs1.wf(),
        d.wf(),
        inode_table::inode_place(fs1, num) is Some,
        ops::entry_fits(inode_table::with_stored(fs1, num, d), dir, name, num, 1),
    ensures
        ops::file_made(
            fs1,
            dir,
            vstd::utf8::encode_utf8(name),
            num,
            inode_table::fresh(num, d, 0),
            1,
        ) matches Some(t) && ops::refers_to(t.0, t.1, name, num, 1) && inode_table::stored_inode(
            t.0,
            num,
        ) == d,
{
    ops::lemma_made_is_found(fs1, dir, name, num, inode_table::fresh(num, d, 0), 1);
}

/// A device file that was made is found under its name, with an inode number that
/// was free before, and its inode can be loaded with its device numbers.
#[verifier::rlimit(60)]
pub proof fn law_node_is_found(
    fs: FsModel,
    dir: InodeModel,
    name: Seq<char>,
    mode: u16,
    rdev: u64,
    fs1: FsModel,
    num: int,
)
    requires
        vstd::utf8::encode_utf8(name).len() <= 255,
        fs::inode_taken(fs, 0, false) == Some((fs1, num)),
        fs1.wf(),
        inode_table::inode_place(fs1, num) is Some,
        ops::entry_fits(
            inode_table::with_stored(fs1, num, ops::node_inode(mode, rdev)),
            dir,
            name,
            num,
            1,
        ),
    ensures
        ops::node_made(fs, dir, vstd::utf8::encode_utf8(name), mode, rdev) matches Some(t) && {
            let d = inode_table::stored_inode(t.0, num);
            &&& ops::refers_to(t.0, t.1, name, num, 1)
            &&& d == t.2.disk
            &&& bytes::le32(d.block, 0) == rdev as int / 0x1_0000_0000
            &&& bytes::le32(d.block, 4) == rdev as int % 0x1_0000_0000
            &&& d.mode & mode == mode
        },
{
    law_device_numbers(mode, rdev);
    lemma_node_found(fs1, dir, name, num, ops::node_inode(mode, rdev));
}

/// An entry that is set refers to its new inode afterwards, with its new type;
/// every other name is found as before, and nothing on the device changes.
pub proof fn law_set_entry(
    fs: FsModel,
    m: InodeModel,
    name: Seq<char>,
    num: u32,
    file_type: u8,
    other: Seq<char>,
)
    requires
        inode_laws::plain_dir(fs, m),
        block_op::tiled(inode_dir::dir_content(fs, m, 0), 0),
        block_op::found(inode_dir::dir_content(fs, m, 0), name) is Some,
        other != name,
    ensures
        inode_dir::entry_set(fs, m, name, num, file_type) matches Some(t) && {
            let before = inode_dir::dir_content(fs, m, 0);
            let after = inode_dir::dir_content(t.0, t.1, 0);
            &&& t.0 == fs
            &&& block_op::found(after, name) matches Some(e) && {
                &&& e.inode_num == num
                &&& e.file_type == file_type
                &&& e.name == (block_op::found(before, name)->0).name
            }
            &&& block_op::found(after, other) == block_op::found(before, other)
        },
{
    let content = inode_dir::dir_content(fs, m, 0);
    block_op::law_redirected_name(content, 0, name, num, file_type, other);
    let b = block_op::redirected(content, 0, name, num, file_type)->Ok_0;
    inode_laws::lemma_dir_rewritten(fs, m, b);
}

} // verus!
