//! What holds of reading and writing files.
use vstd::prelude::*;
use crate::bytes;
use crate::fs::ext4::block_op;
use crate::fs::ext4::fs;
use crate::fs::ext4::fs::FsModel;
use crate::fs::ext4::inode;
use crate::fs::ext4::inode::InodeModel;
use crate::fs::ext4::inode_dir;
use crate::fs::ext4::inode_write;

verus! {

/// The byte at position `p` is in the cache and is `v`.
pub open spec fn cached_byte(m: InodeModel, p: int, v: u8) -> bool {
    &&& m.pages.contains_key((p / 4096) as usize)
    &&& m.pages[(p / 4096) as usize].data[p % 4096] == v
}

/// A page that is brought in adds to the cache and changes nothing in it.
pub proof fn lemma_fetched(fs: FsModel, m: InodeModel, idx: int)
    requires
        0 <= idx <= usize::MAX,
        inode::pages_whole(m),
        inode_write::fetched(fs, m, idx) is Some,
    ensures
        ({
            let m2 = (inode_write::fetched(fs, m, idx)->0).1;
            &&& inode::pages_whole(m2)
            &&& m2.pages.contains_key(idx as usize)
            &&& m2.disk == m.disk.with_block(m2.disk.block)
            &&& forall|k: usize| #[trigger]
                m.pages.contains_key(k) ==> m2.pages.contains_key(k) && m2.pages[k] == m.pages[k]
        }),
{
    reveal(inode_write::fetched);
    reveal(inode_write::extent_for);
    let m2 = (inode_write::fetched(fs, m, idx)->0).1;
    assert(m.disk == m.disk.with_block(m.disk.block));
}

proof fn lemma_page_written(m: InodeModel, idx: int, at: int, part: Seq<u8>)
    requires
        0 <= idx <= usize::MAX,
        0 <= at,
        at + part.len() <= 4096,
        inode::pages_whole(m),
        m.pages.contains_key(idx as usize),
    ensures
        inode::pages_whole(inode_write::page_written(m, idx, at, part)),
{
}

/// What a write leaves in the cache: its bytes, and the cached bytes that it
/// does not touch.
pub proof fn lemma_pages_written(fs: FsModel, m: InodeModel, offset: int, buf: Seq<u8>)
    requires
        0 <= offset,
        offset + buf.len() <= usize::MAX,
        inode::pages_whole(m),
        inode_write::pages_written(fs, m, offset, buf) is Some,
    ensures
        ({
            let m2 = (inode_write::pages_written(fs, m, offset, buf)->0).1;
            &&& inode::pages_whole(m2)
            &&& m2.disk == m.disk.with_block(m2.disk.block)
            &&& forall|p: int|
                offset <= p < offset + buf.len() ==> cached_byte(m2, p, #[trigger] buf[p - offset])
            &&& forall|p: int, v: u8|
                0 <= p <= usize::MAX && !(offset <= p < offset + buf.len()) && #[trigger] cached_byte(m, p, v)
                    ==> cached_byte(m2, p, v)
        }),
    decreases buf.len(),
{
    if buf.len() == 0 {
        assert(m.disk == m.disk.with_block(m.disk.block));
    } else {
        let n = inode_write::in_first_page(offset, buf.len() as int);
        let idx = offset / 4096;
        let at = offset % 4096;
        let t = inode_write::fetched(fs, m, idx)->0;
        let m1 = inode_write::page_written(t.1, idx, at, buf.take(n));
        lemma_fetched(fs, m, idx);
        lemma_page_written(t.1, idx, at, buf.take(n));
        lemma_pages_written(t.0, m1, offset + n, buf.skip(n));
        let m2 = (inode_write::pages_written(fs, m, offset, buf)->0).1;
        let rest = buf.skip(n);
        assert forall|p: int| offset <= p < offset + buf.len() implies cached_byte(
            m2,
            p,
            #[trigger] buf[p - offset],
        ) by {
            if p < offset + n {
                assert(p / 4096 == idx && p % 4096 == at + (p - offset));
                assert(cached_byte(m1, p, buf[p - offset]));
            } else {
                assert(rest[p - (offset + n)] == buf[p - offset]);
            }
        }
        assert forall|p: int, v: u8|
            0 <= p <= usize::MAX && !(offset <= p < offset + buf.len()) && #[trigger] cached_byte(
                m,
                p,
                v,
            ) implies cached_byte(m2, p, v) by {
            let k = (p / 4096) as usize;
            assert(m.pages.contains_key(k));
            assert(t.1.pages[k] == m.pages[k]);
            if k == idx {
                assert(!(at <= p % 4096 < at + n));
            }
            assert(cached_byte(m1, p, v));
        }
    }
}

pub proof fn lemma_page_got(fs: FsModel, m: InodeModel)
    requires
        inode::pages_whole(m),
        m.disk.block.len() == 60,
        inode_write::page_got(fs, m, 0) is Some,
    ensures
        ({
            let m2 = (inode_write::page_got(fs, m, 0)->0).1;
            &&& inode::pages_whole(m2)
            &&& m2.pages.contains_key(0)
            &&& m2.disk == m.disk.with_block(m2.disk.block)
        }),
{
    if m.disk.inline_data() && !m.pages.contains_key(0) {
        assert(m.disk == m.disk.with_block(m.disk.block));
    } else {
        lemma_fetched(fs, m, 0);
    }
}

pub proof fn lemma_moved_out(fs: FsModel, m: InodeModel, offset: int)
    requires
        inode::pages_whole(m),
        m.disk.block.len() == 60,
        inode_write::moved_out(fs, m, offset) is Some,
    ensures
        ({
            let m2 = (inode_write::moved_out(fs, m, offset)->0).1;
            &&& inode::pages_whole(m2)
            &&& m2.disk == m.disk.with_flags(m2.disk.flags).with_block(m2.disk.block)
        }),
{
    let t = fs::block_taken(fs, 0)->0;
    if m.disk.size() > 0 {
        lemma_page_got(t.0, m);
    } else {
        assert(m.disk == m.disk.with_block(m.disk.block));
    }
}

/// Bytes that were written are read back.  Reads see sizes of 32 bits, so this
/// is stated for files and writes that stay below that.
#[verifier::rlimit(40)]
pub proof fn law_read_gives_back_write(fs: FsModel, m: InodeModel, offset: int, buf: Seq<u8>)
    requires
        0 <= offset,
        offset + buf.len() <= u32::MAX,
        m.disk.size_hi == 0,
        m.disk.block.len() == 60,
        inode::pages_whole(m),
        inode_write::written(fs, m, offset, buf) is Some,
    ensures
        ({
            let t = inode_write::written(fs, m, offset, buf)->0;
            &&& inode::read_count(t.1, offset, buf.len() as int) == buf.len()
            &&& inode::readable(t.0, t.1, offset, buf.len() as int)
            &&& inode::bytes_of(t.0, t.1, offset, buf.len() as int) == buf
        }),
{
    let t = inode_write::written(fs, m, offset, buf)->0;
    let end = offset + buf.len();
    if end <= 60 {
        lemma_page_got(fs, m);
        let g = inode_write::page_got(fs, m, 0)->0;
        assert forall|p: int| offset <= p < end implies cached_byte(
            t.1,
            p,
            #[trigger] buf[p - offset],
        ) by {
            assert(p / 4096 == 0 && p % 4096 == p);
        }
    } else if m.disk.size() <= 60 {
        lemma_moved_out(fs, m, offset);
        let f = inode_write::moved_out(fs, m, offset)->0;
        lemma_pages_written(f.0, f.1, offset, buf);
    } else {
        lemma_pages_written(fs, m, offset, buf);
    }
    assert(t.1.disk.size_lo >= end);
    lemma_cached_read(t.0, t.1, offset, buf);
}

/// A read of bytes that are all in the cache gives these bytes.
proof fn lemma_cached_read(fs: FsModel, m: InodeModel, offset: int, buf: Seq<u8>)
    requires
        0 <= offset,
        offset + buf.len() <= m.disk.size_lo,
        forall|p: int|
            offset <= p < offset + buf.len() ==> cached_byte(m, p, #[trigger] buf[p - offset]),
    ensures
        buf.len() > 0 ==> inode::read_count(m, offset, buf.len() as int) == buf.len(),
        inode::readable(fs, m, offset, buf.len() as int),
        inode::bytes_of(fs, m, offset, buf.len() as int) == buf,
{
    let n = buf.len() as int;
    if n > 0 {
        assert forall|idx: int|
            offset / 4096 <= idx <= inode::last_page(offset, n) implies (#[trigger] inode::page_of(
            fs,
            m,
            idx,
        )) is Some by {
            let p = if idx * 4096 < offset {
                offset
            } else {
                idx * 4096
            };
            assert(p / 4096 == idx);
            assert(cached_byte(m, p, buf[p - offset]));
        }
        if offset < 4096 {
            assert(cached_byte(m, offset, buf[offset - offset]));
        }
        assert forall|i: int| 0 <= i < n implies inode::bytes_of(fs, m, offset, n)[i]
            == #[trigger] buf[i] by {
            let p = offset + i;
            assert(cached_byte(m, p, buf[p - offset]));
        }
    }
    assert(inode::bytes_of(fs, m, offset, n) =~= buf);
}

/// A write leaves the cached bytes of a file with an extent tree that it does
/// not touch.
pub proof fn law_write_keeps_other_bytes(fs: FsModel, m: InodeModel, offset: int, buf: Seq<u8>, p: int, v: u8)
    requires
        0 <= offset,
        offset + buf.len() <= usize::MAX,
        inode::pages_whole(m),
        inode_write::tree_written(fs, m, offset, buf) is Some,
        0 <= p <= usize::MAX,
        !(offset <= p < offset + buf.len()),
        cached_byte(m, p, v),
    ensures
        cached_byte((inode_write::tree_written(fs, m, offset, buf)->0).1, p, v),
{
    lemma_pages_written(fs, m, offset, buf);
}

/// Reading changes no byte of the file: every page that can be had holds the
/// same afterwards.
pub proof fn law_read_changes_nothing(fs: FsModel, m: InodeModel, offset: int, len: int, idx: int)
    requires
        0 <= offset,
        inode::readable(fs, m, offset, len),
        0 <= idx <= usize::MAX,
        inode::page_of(fs, m, idx) is Some,
    ensures
        inode::page_of(
            fs,
            inode::after_read(fs, m, offset, inode::read_count(m, offset, len)),
            idx,
        ) == inode::page_of(fs, m, idx),
{
}

/// Two states of an inode that differ in the data of cached pages alone.
pub open spec fn alike(a: InodeModel, b: InodeModel) -> bool {
    a.disk == b.disk && a.pages.dom() == b.pages.dom()
}

proof fn lemma_fetched_alike(fs: FsModel, a: InodeModel, b: InodeModel, idx: int)
    requires
        alike(a, b),
    ensures
        match inode_write::fetched(fs, a, idx) {
            None => inode_write::fetched(fs, b, idx) is None,
            Some(t) => match inode_write::fetched(fs, b, idx) {
                None => false,
                Some(u) => t.0 == u.0 && alike(t.1, u.1),
            },
        },
{
    reveal(inode_write::fetched);
    assert(a.pages.contains_key(idx as usize) == b.pages.contains_key(idx as usize));
    if inode_write::fetched(fs, a, idx) is Some {
        let t = inode_write::fetched(fs, a, idx)->0;
        let u = inode_write::fetched(fs, b, idx)->0;
        assert(t.1.pages.dom() =~= u.1.pages.dom());
    }
}

proof fn lemma_pages_alike(
    fs: FsModel,
    a: InodeModel,
    b: InodeModel,
    offset: int,
    x: Seq<u8>,
    y: Seq<u8>,
)
    requires
        alike(a, b),
        x.len() == y.len(),
    ensures
        inode_write::pages_written(fs, a, offset, x) is Some == inode_write::pages_written(
            fs,
            b,
            offset,
            y,
        ) is Some,
    decreases x.len(),
{
    if x.len() > 0 {
        let n = inode_write::in_first_page(offset, x.len() as int);
        let idx = offset / 4096;
        lemma_fetched_alike(fs, a, b, idx);
        if n > 0 && inode_write::fetched(fs, a, idx) is Some {
            let t = inode_write::fetched(fs, a, idx)->0;
            let u = inode_write::fetched(fs, b, idx)->0;
            let a1 = inode_write::page_written(t.1, idx, offset % 4096, x.take(n));
            let b1 = inode_write::page_written(u.1, idx, offset % 4096, y.take(n));
            assert(a1.pages.dom() =~= b1.pages.dom());
            lemma_pages_alike(t.0, a1, b1, offset + n, x.skip(n), y.skip(n));
        }
    }
}

/// Whether a write can be done depends on its place and length, not on its
/// bytes.
pub proof fn law_writable_by_length(
    fs: FsModel,
    m: InodeModel,
    offset: int,
    x: Seq<u8>,
    y: Seq<u8>,
)
    requires
        x.len() == y.len(),
    ensures
        inode_write::written(fs, m, offset, x) is Some == inode_write::written(
            fs,
            m,
            offset,
            y,
        ) is Some,
{
    let end = offset + x.len();
    if end <= 60 {
    } else if m.disk.size() <= 60 {
        if inode_write::moved_out(fs, m, offset) is Some {
            let t = inode_write::moved_out(fs, m, offset)->0;
            lemma_pages_alike(t.0, t.1, t.1, offset, x, y);
        }
    } else {
        lemma_pages_alike(fs, m, m, offset, x, y);
    }
}

/// A write to pages that are all in the cache leaves the file system and the
/// stored part of the inode as they are.
proof fn lemma_cached_write(fs: FsModel, m: InodeModel, offset: int, buf: Seq<u8>)
    requires
        0 <= offset,
        offset + buf.len() <= usize::MAX,
        forall|p: int|
            offset <= p < offset + buf.len() ==> #[trigger] m.pages.contains_key(
                (p / 4096) as usize,
            ),
    ensures
        match inode_write::pages_written(fs, m, offset, buf) {
            None => false,
            Some(t) => t.0 == fs && t.1.disk == m.disk,
        },
    decreases buf.len(),
{
    if buf.len() > 0 {
        reveal(inode_write::fetched);
        let n = inode_write::in_first_page(offset, buf.len() as int);
        let idx = offset / 4096;
        assert(m.pages.contains_key((offset / 4096) as usize));
        let m1 = inode_write::page_written(m, idx, offset % 4096, buf.take(n));
        assert forall|p: int| offset + n <= p < offset + buf.len() implies #[trigger] m1.pages.contains_key(
            (p / 4096) as usize,
        ) by {
            assert(m.pages.contains_key((p / 4096) as usize));
        }
        lemma_cached_write(fs, m1, offset + n, buf.skip(n));
    }
}

/// After a read of `n` bytes their pages are in the cache.
proof fn lemma_read_is_cached(fs: FsModel, m: InodeModel, offset: int, n: int)
    requires
        0 <= offset,
        offset + n <= usize::MAX,
    ensures
        forall|p: int|
            offset <= p < offset + n ==> #[trigger] inode::after_read(
                fs,
                m,
                offset,
                n,
            ).pages.contains_key((p / 4096) as usize),
{
}

/// A directory that is not in an inode and whose size fits 32 bits.
pub open spec fn plain_dir(fs: FsModel, m: InodeModel) -> bool {
    &&& inode_dir::dir_ready(fs, m, 0)
    &&& 0 < m.disk.size() <= usize::MAX
    &&& m.disk.size_hi == 0
    &&& m.disk.block.len() == 60
    &&& inode::pages_whole(m)
}

/// Rewriting a directory with other content of the same length: what it holds
/// afterwards is that content, and nothing on the device changes.
pub proof fn lemma_dir_rewritten(fs: FsModel, m: InodeModel, b: Seq<u8>)
    requires
        plain_dir(fs, m),
        b.len() == m.disk.size(),
    ensures
        match inode_write::written(fs, inode_dir::dir_read(fs, m, 0), 0, b) {
            None => false,
            Some(t) => {
                &&& t.0 == fs
                &&& inode_dir::dir_content(t.0, t.1, 0) == b
                &&& t.1.disk.size() == m.disk.size()
            },
        },
{
    let size = m.disk.size();
    let m1 = inode_dir::dir_read(fs, m, 0);
    let n = inode::read_count(m, 0, size);
    assert(n == size);
    assert(size >= 4096);
    assert(inode::pages_whole(m1)) by {
        assert forall|k: usize| #[trigger] m1.pages.contains_key(k) implies m1.pages[k].data.len()
            == 4096 by {
            if m.pages.contains_key(k) {
            } else {
                assert(inode::page_of(fs, m, k as int) is Some);
                inode::lemma_page_len(fs, m, k as int);
            }
        }
    }
    lemma_read_is_cached(fs, m, 0, size);
    lemma_cached_write(fs, m1, 0, b);
    law_read_gives_back_write(fs, m1, 0, b);
    let t = inode_write::written(fs, m1, 0, b)->0;
    assert(inode_dir::dir_content(t.0, t.1, 0) =~= b);
}

/// A name that was added to a directory with room for it is found there, with
/// the inode that it was given; nothing on the device changes.
pub proof fn law_added_name_is_found(
    fs: FsModel,
    m: InodeModel,
    name: Seq<char>,
    inode_num: u32,
    file_type: u8,
)
    requires
        plain_dir(fs, m),
        vstd::utf8::encode_utf8(name).len() <= 255,
        block_op::place_of(inode_dir::dir_content(fs, m, 0), 0, name) is None,
        block_op::added(
            inode_dir::dir_content(fs, m, 0),
            0,
            vstd::utf8::encode_utf8(name),
            inode_num,
            file_type,
        ) is Ok,
    ensures
        match inode_dir::entry_added(
            fs,
            m,
            vstd::utf8::encode_utf8(name),
            inode_num,
            file_type,
        ) {
            None => false,
            Some(t) => {
                &&& t.0 == fs
                &&& match block_op::found(inode_dir::dir_content(t.0, t.1, 0), name) {
                    None => false,
                    Some(e) => e.inode_num == inode_num && e.file_type == file_type && e.name
                        == vstd::utf8::encode_utf8(name),
                }
            },
        },
{
    let content = inode_dir::dir_content(fs, m, 0);
    let nb = vstd::utf8::encode_utf8(name);
    let b = block_op::added(content, 0, nb, inode_num, file_type)->Ok_0;
    block_op::lemma_added_len(content, 0, nb, inode_num, file_type);
    lemma_dir_rewritten(fs, m, b);
    block_op::law_added_entry_is_found(content, 0, name, inode_num, file_type);
}

/// A name that was deleted from a directory is not found there any more, unless
/// it stands in the first entry or stands there twice.
pub proof fn law_deleted_name_is_not_found(fs: FsModel, m: InodeModel, name: Seq<char>, at: int)
    requires
        plain_dir(fs, m),
        ({
            let content = inode_dir::dir_content(fs, m, 0);
            &&& block_op::chain_ok(content, 0)
            &&& block_op::mergeable(content, 0)
            &&& block_op::place_of(content, 0, name) == Some(at)
            &&& at > 0
            &&& block_op::place_of(content, at + block_op::rec_len_at(content, at), name) is None
        }),
    ensures
        match inode_dir::entry_deleted(fs, m, name) {
            None => false,
            Some(t) => block_op::found(inode_dir::dir_content(t.0, t.1, 0), name) is None,
        },
{
    let content = inode_dir::dir_content(fs, m, 0);
    block_op::law_deleted_name_is_gone(content, name, at);
    block_op::lemma_deleted_len(content, name);
    lemma_dir_rewritten(fs, m, block_op::deleted(content, name)->0);
}

} // verus!
