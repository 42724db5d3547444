//! What a file holds after its size or its space was changed.
use vstd::prelude::*;
use crate::bytes;
use crate::fs::ext4::bitmap;
use crate::fs::ext4::extent_laws;
use crate::fs::ext4::extent_tree;
use crate::fs::ext4::extent_tree::{
    enc_extent, enc_header, extents_of, find_extent, header_of, idxs_of, node_at, node_on,
    tree_ok, Ext4Extent, Ext4ExtentHeader,
};
use crate::fs::ext4::fs;
use crate::fs::ext4::fs::FsModel;
use crate::fs::ext4::fs_laws;
use crate::fs::ext4::fs_laws::bitmap_block;
use crate::fs::ext4::inode;
use crate::fs::ext4::inode::InodeModel;
use crate::fs::ext4::inode_disk::InodeDiskModel;
use crate::fs::ext4::inode_extents;
use crate::fs::ext4::inode_laws;
use crate::fs::ext4::inode_laws::cached_byte;
use crate::fs::ext4::inode_size;
use crate::fs::ext4::inode_size::{tail_freed, truncated, FallocFlags};
use crate::fs::ext4::inode_write;
use crate::fs::ext4::io;
use crate::fs::ext4::tree_laws;
use crate::fs::ext4::tree_laws::{data_ok, depth_of, place, run_ok, tidy};
use crate::fs::ext4::write_laws;
use crate::fs::ext4::write_laws::{holds_content, is_bitmap, node_held, tree_held};
use crate::fs::types::Errno;
use crate::search;

verus! {

// ---------------------------------------------------------------------------
// Giving blocks back
// ---------------------------------------------------------------------------

/// Nothing but the bitmaps has changed on the device.
pub open spec fn bitmaps_alone(fs: FsModel, fs2: FsModel) -> bool {
    &&& fs::same_shape(fs, fs2)
    &&& forall|g: int|
        0 <= g < fs.groups.len() ==> #[trigger] bitmap_block(fs2, g) == bitmap_block(fs, g)
    &&& forall|x: int|
        !is_bitmap(fs, x) && node_on(fs.disk, 4096, x) ==> #[trigger] node_at(fs2.disk, 4096, x)
            == node_at(fs.disk, 4096, x)
}

proof fn lemma_alone_again(a: FsModel, b: FsModel, c: FsModel)
    requires
        bitmaps_alone(a, b),
        bitmaps_alone(b, c),
    ensures
        bitmaps_alone(a, c),
{
    assert forall|g: int| 0 <= g < a.groups.len() implies #[trigger] bitmap_block(c, g)
        == bitmap_block(a, g) by {
        assert(bitmap_block(b, g) == bitmap_block(a, g));
    }
    assert forall|x: int|
        !is_bitmap(a, x) && node_on(a.disk, 4096, x) implies #[trigger] node_at(c.disk, 4096, x)
        == node_at(a.disk, 4096, x) by {
        if is_bitmap(b, x) {
            let h = choose|h: int| 0 <= h < b.groups.len() && #[trigger] bitmap_block(b, h) == x;
            assert(bitmap_block(a, h) == x);
        }
        assert(node_at(b.disk, 4096, x) == node_at(a.disk, 4096, x));
    }
}

proof fn lemma_freed_len(b: Seq<u8>, from: int, n: int)
    requires
        b.len() == 4096,
        0 <= from,
        0 <= n,
    ensures
        bitmap::freed_run(b, from, n, 4096).len() == 4096,
{
    if from / 8 < 4096 && from / 8 + n < 4096 {
        bitmap::law_ranges(b, from, n, 0);
    }
}

/// Giving blocks back changes bitmaps alone.
pub proof fn law_freeing_changes_bitmaps_alone(fs: FsModel, block: int, count: int)
    requires
        fs.bs() == 4096,
        fs.sb.blocks_per_group == 8 * 4096,
        count >= 0,
        fs::blocks_freed(fs, block, count) is Some,
    ensures
        bitmaps_alone(fs, fs::blocks_freed(fs, block, count)->0),
{
    let after = fs::blocks_freed(fs, block, count)->0;
    let gi = block / fs.sb.blocks_per_group;
    let local = block % fs.sb.blocks_per_group;
    assert(0 <= local < 8 * 4096);
    assert(local / 32768 == 0);
    let bb = bitmap_block(fs, gi);
    let old_map = node_at(fs.disk, 4096, bb);
    let new_map = bitmap::freed_run(old_map, local % 32768, count, 4096);
    lemma_freed_len(old_map, local % 32768, count);
    assert(after.disk == io::put_block(fs.disk, 4096, bb, new_map));
    assert(new_map.take(4096) =~= new_map);
    assert forall|x: int|
        !is_bitmap(fs, x) && node_on(fs.disk, 4096, x) implies #[trigger] node_at(
        after.disk,
        4096,
        x,
    ) == node_at(fs.disk, 4096, x) by {
        assert(bitmap_block(fs, gi) == bb);
        assert(x != bb);
        fs_laws::lemma_apart(x, bb, 4096);
        assert(node_at(after.disk, 4096, x) =~= node_at(fs.disk, 4096, x));
    }
}

proof fn lemma_tail_alone(fs: FsModel, d: InodeDiskModel, lb: int, to: int)
    requires
        fs.bs() == 4096,
        fs.sb.blocks_per_group == 8 * 4096,
        tail_freed(fs, d, lb, to) is Some,
    ensures
        bitmaps_alone(fs, tail_freed(fs, d, lb, to)->0),
    decreases
            (if lb < to {
                to - lb
            } else {
                0
            }),
{
    if lb < to {
        match inode_extents::root_find(d.block, fs.disk, fs.bs(), lb) {
            None => {
                lemma_tail_alone(fs, d, lb + 1, to);
            },
            Some(e) => {
                let fs1 = fs::blocks_freed(fs, e.phys(), e.len as int)->0;
                law_freeing_changes_bitmaps_alone(fs, e.phys(), e.len as int);
                lemma_tail_alone(fs1, d, lb + e.len, to);
                lemma_alone_again(fs, fs1, tail_freed(fs1, d, lb + e.len, to)->0);
            },
        }
    }
}

/// Where nothing but bitmaps changed a tree of blocks in use is the same.
proof fn lemma_tree_unmoved(fs: FsModel, fs2: FsModel, b: Seq<u8>, lb: int, d: nat)
    requires
        fs.bs() == 4096,
        bitmaps_alone(fs, fs2),
        tree_held(fs, Set::empty(), b, d),
    ensures
        tree_ok(b, fs2.disk, 4096, d) == tree_ok(b, fs.disk, 4096, d),
        find_extent(b, fs2.disk, 4096, lb, d) == find_extent(b, fs.disk, 4096, lb, d),
    decreases d,
{
    if d > 0 {
        let xs = idxs_of(b);
        assert forall|i: int| 0 <= i < xs.len() implies {
            let leaf = (#[trigger] xs[i]).leaf();
            let child = node_at(fs.disk, 4096, leaf);
            let depth = header_of(child).depth as nat;
            &&& node_at(fs2.disk, 4096, leaf) == child
            &&& depth < d ==> tree_ok(child, fs2.disk, 4096, depth) == tree_ok(
                child,
                fs.disk,
                4096,
                depth,
            )
            &&& depth < d ==> find_extent(child, fs2.disk, 4096, lb, depth) == find_extent(
                child,
                fs.disk,
                4096,
                lb,
                depth,
            )
        } by {
            let leaf = xs[i].leaf();
            let child = node_at(fs.disk, 4096, leaf);
            let depth = header_of(child).depth as nat;
            assert(node_held(fs, Set::empty(), leaf));
            assert(0 * fs.bs() == 0);
            assert(holds_content(fs, leaf + 0));
            if depth < d {
                lemma_tree_unmoved(fs, fs2, child, lb, depth);
            }
        }
        write_laws::lemma_best_idx(xs, lb);
    }
}

// ---------------------------------------------------------------------------
// Fewer extents
// ---------------------------------------------------------------------------

/// A leaf with fewer extents, and something else behind them.
proof fn lemma_cut_bytes(b: Seq<u8>, h2: Ext4ExtentHeader, i: int, e: Ext4Extent)
    requires
        12 + 12 * i + 12 <= b.len(),
        0 <= i <= header_of(b).entries,
        h2.entries == i,
    ensures
        ({
            let b2 = bytes::splice(
                bytes::splice(b, 0, enc_header(h2)),
                12 + 12 * i,
                enc_extent(e),
            );
            &&& b2.len() == b.len()
            &&& header_of(b2) == h2
            &&& extents_of(b2) == extents_of(b).take(i)
        }),
{
    let enc = enc_header(h2);
    let b1 = bytes::splice(b, 0, enc);
    let b2 = bytes::splice(b1, 12 + 12 * i, enc_extent(e));
    bytes::lemma_splice_stands(b, 0, enc);
    assert forall|k: int| 0 <= k < enc.len() implies b2[0 + k] == #[trigger] enc[k] by {
        assert(b1[0 + k] == enc[k]);
    }
    assert(bytes::stands_at(b2, 0, enc));
    extent_tree::lemma_decode_header(b2, h2);
    assert forall|k: int| 0 <= k < i implies extents_of(b2)[k] == extents_of(b)[k] by {
        let at = 12 + 12 * k;
        assert forall|j: int| 0 <= j < 4 implies b2[at + j] == #[trigger] b[at + j] by {}
        bytes::lemma_same_int(b2, b, at, at, 4);
        assert forall|j: int| 0 <= j < 2 implies b2[at + 4 + j] == #[trigger] b[at + 4 + j] by {}
        bytes::lemma_same_int(b2, b, at + 4, at + 4, 2);
        assert forall|j: int| 0 <= j < 2 implies b2[at + 6 + j] == #[trigger] b[at + 6 + j] by {}
        bytes::lemma_same_int(b2, b, at + 6, at + 6, 2);
        assert forall|j: int| 0 <= j < 4 implies b2[at + 8 + j] == #[trigger] b[at + 8 + j] by {}
        bytes::lemma_same_int(b2, b, at + 8, at + 8, 4);
    }
    assert(extents_of(b2) =~= extents_of(b).take(i));
}

/// The first `i` extents find every block before the next one.
proof fn lemma_take_place(es: Seq<Ext4Extent>, i: int, x: int)
    requires
        run_ok(es),
        0 <= i < es.len(),
        x < es[i].logical_block,
    ensures
        extent_laws::place_of(es.take(i), x) == extent_laws::place_of(es, x),
{
    let es2 = es.take(i);
    assert(extent_laws::spaced(es2)) by {
        assert forall|k: int| 0 <= k < es2.len() implies (#[trigger] es2[k]).len > 0 by {
            assert(es2[k] == es[k]);
        }
        assert forall|k: int, j: int| 0 <= k < j < es2.len() implies (#[trigger] es2[k]).logical_block
            + es2[k].len <= (#[trigger] es2[j]).logical_block by {
            assert(es2[k] == es[k] && es2[j] == es[j]);
        }
    }
    extent_laws::lemma_place(es, x);
    extent_laws::lemma_place(es2, x);
    if extent_laws::place_of(es, x) is Some {
        let k = choose|k: int| 0 <= k < es.len() && (#[trigger] es[k]).maps(x);
        if k > i {
            assert(es[i].logical_block + es[i].len <= es[k].logical_block);
        }
        assert(es2[k] == es[k]);
    } else if extent_laws::place_of(es2, x) is Some {
        let k = choose|k: int| 0 <= k < es2.len() && (#[trigger] es2[k]).maps(x);
        assert(es[k].maps(x));
    }
}

/// What a leaf root is once it was cut behind `count` blocks.
proof fn lemma_cut_form(b: Seq<u8>, count: int)
    requires
        b.len() == 60,
        extent_tree::entries_fit(b),
        header_of(b).depth == 0,
        0 < count <= u32::MAX,
    ensures
        ({
            let b2 = inode_extents::cut_root(b, count);
            let es = extents_of(b);
            &&& b2.len() == 60
            &&& extent_tree::entries_fit(b2)
            &&& header_of(b2).depth == 0
            &&& header_of(b2).magic == header_of(b).magic
            &&& extents_of(b2) == es || exists|i: int|
                0 <= i < es.len() && count <= es[i].logical_block && extents_of(b2)
                    == #[trigger] es.take(i)
        }),
{
    let h = header_of(b);
    let es = extents_of(b);
    let low = count % 0x1_0000_0000;
    assert(low == count);
    search::lemma_first_index(es, extent_tree::starts_at_or_after(low), 0);
    match search::first_index(es, extent_tree::starts_at_or_after(low), 0) {
        None => {},
        Some(i) => {
            let h2 = Ext4ExtentHeader { entries: i as u16, ..h };
            let e = Ext4Extent { len: ((low - es[i].logical_block) % 0x1_0000) as u16, ..es[i] };
            assert(extent_tree::starts_at_or_after(low)(es[i]));
            lemma_cut_bytes(b, h2, i, e);
        },
    }
}

/// A root cut behind `count` blocks still finds the blocks before.
proof fn lemma_cut_root(fs: FsModel, d: InodeDiskModel, count: int, x: int)
    requires
        fs.bs() == 4096,
        inode_extents::has_tree(d),
        depth_of(d) == 0 ==> run_ok(extents_of(d.block)),
        0 <= x < count <= u32::MAX,
    ensures
        ({
            let d2 = d.with_block(inode_extents::cut_root(d.block, count));
            &&& inode_extents::has_tree(d2)
            &&& depth_of(d2) == depth_of(d)
            &&& place(fs, d2, x) == place(fs, d, x)
            &&& depth_of(d) > 0 ==> d2 == d
        }),
{
    let es = extents_of(d.block);
    let d2 = d.with_block(inode_extents::cut_root(d.block, count));
    assert(d.with_block(d.block) == d);
    if depth_of(d) == 0 {
        lemma_cut_form(d.block, count);
        assert(place(fs, d, x) == extent_laws::place_of(es, x));
        assert(place(fs, d2, x) == extent_laws::place_of(extents_of(d2.block), x));
        if extents_of(d2.block) != es {
            let i = choose|i: int|
                0 <= i < es.len() && count <= es[i].logical_block && extents_of(d2.block)
                    == #[trigger] es.take(i);
            lemma_take_place(es, i, x);
        }
    }
}

// ---------------------------------------------------------------------------
// Truncation
// ---------------------------------------------------------------------------

/// The page that holds the old end, once it was cleared behind the new end.
proof fn lemma_last_page(fs: FsModel, m: InodeModel, current: int, new: int, p: int)
    requires
        tidy(fs, m.disk),
        inode::pages_whole(m),
        0 <= p < new < current <= usize::MAX,
        p / 4096 <= u32::MAX,
        inode_size::last_page_cleared(fs, m, current, new) is Some,
    ensures
        ({
            let t = inode_size::last_page_cleared(fs, m, current, new)->0;
            &&& tidy(t.0, t.1.disk)
            &&& inode::pages_whole(t.1)
            &&& t.1.disk == m.disk.with_block(t.1.disk.block)
            &&& t.1.seals == m.seals
            &&& inode::page_of(t.0, t.1, p / 4096) is Some
            &&& inode::byte_of(t.0, t.1, p) == inode::byte_of(fs, m, p)
        }),
{
    let idx = current / 4096;
    let at = new % 4096;
    let k = p / 4096;
    assert(m.disk == m.disk.with_block(m.disk.block));
    if current % 4096 == 0 || idx > m.disk.size_lo as int / 4096 {
        if !m.pages.contains_key(k as usize) {
            tree_laws::lemma_uncached(fs, m, k);
        }
    } else {
        assert(inode_write::page_got(fs, m, idx) == inode_write::fetched(fs, m, idx));
        tree_laws::lemma_fetch_step(fs, m, idx, k);
        inode_laws::lemma_fetched(fs, m, idx);
        let u = inode_write::fetched(fs, m, idx)->0;
        let t = inode_size::last_page_cleared(fs, m, current, new)->0;
        assert(t.1.seals == m.seals) by {
            reveal(inode_write::fetched);
        }
        assert(t.0 == u.0 && t.1.disk == u.1.disk);
        if k == idx {
            assert(new / 4096 == idx);
            assert(p % 4096 < at);
            assert(t.1.pages[idx as usize].data == bytes::splice(
                u.1.pages[idx as usize].data,
                at,
                bytes::zeros(4096 - at),
            ));
        } else {
            assert(k as usize != idx as usize);
            assert(t.1.pages.contains_key(k as usize) == u.1.pages.contains_key(k as usize));
        }
    }
}

/// A file with a tree that is made smaller has its new size, and keeps every byte
/// below that, in the cache or not.
#[verifier::rlimit(40)]
pub proof fn law_truncate_keeps_what_is_left(fs: FsModel, m: InodeModel, new: int, p: int)
    requires
        tidy(fs, m.disk),
        inode::pages_whole(m),
        0 <= p < new < m.disk.size() <= usize::MAX,
        m.disk.size() <= 0xFFF_0000_0000,
        truncated(fs, m, new) is Some,
        (truncated(fs, m, new)->0).2 is Ok,
    ensures
        ({
            let t = truncated(fs, m, new)->0;
            &&& t.1.disk.size() == new
            &&& inode::page_of(fs, m, p / 4096) is Some
            &&& inode::page_of(t.0, t.1, p / 4096) is Some
            &&& inode::byte_of(t.0, t.1, p) == inode::byte_of(fs, m, p)
        }),
{
    let current = m.disk.size();
    let t = truncated(fs, m, new)->0;
    let k = p / 4096;
    lemma_last_page(fs, m, current, new, p);
    if !m.pages.contains_key(k as usize) {
        tree_laws::lemma_uncached(fs, m, k);
    }
    let u = inode_size::last_page_cleared(fs, m, current, new)->0;
    let lo = inode_size::units(new, 4096);
    let hi = inode_size::units(current, 4096);
    let m1 = inode_size::without_pages(u.1, lo, hi);
    assert(k < lo);
    let count = inode_size::units(new, fs.bs());
    let all = inode_size::units(current, fs.bs());
    let fs2 = tail_freed(u.0, m1.disk, count % 0x1_0000_0000, all % 0x1_0000_0000)->0;
    assert(u.0.bs() == 4096 && u.0.sb.blocks_per_group == 8 * 4096);
    lemma_tail_alone(u.0, m1.disk, count % 0x1_0000_0000, all % 0x1_0000_0000);
    let d1 = m1.disk;
    lemma_cut_root(fs2, d1, count, k);
    let d2 = d1.with_block(inode_extents::cut_root(d1.block, count));
    assert(t.1.disk == d1.with_size(new).with_block(d2.block));
    assert(t.0 == fs2);
    if m1.pages.contains_key(k as usize) {
        assert(t.1.pages[k as usize] == u.1.pages[k as usize]);
    } else {
        lemma_uncut_page(u.0, u.1, fs2, t.1, d2, k);
    }
}

/// A page that is not cached, once blocks behind it were given back.
proof fn lemma_uncut_page(
    fs: FsModel,
    m: InodeModel,
    fs2: FsModel,
    m2: InodeModel,
    d2: InodeDiskModel,
    k: int,
)
    requires
        tidy(fs, m.disk),
        bitmaps_alone(fs, fs2),
        0 <= k <= u32::MAX,
        !m.pages.contains_key(k as usize),
        !m2.pages.contains_key(k as usize),
        m2.disk.block == d2.block,
        m2.disk.flags == m.disk.flags,
        inode_extents::has_tree(d2),
        d2.flags == m.disk.flags,
        depth_of(d2) == depth_of(m.disk),
        depth_of(m.disk) > 0 ==> d2 == m.disk,
        place(fs2, d2, k) == place(fs2, m.disk, k),
    ensures
        inode::page_of(fs2, m2, k) == inode::page_of(fs, m, k),
{
    let depth = depth_of(m.disk);
    assert(inode::blocks_per_page(4096) == 1);
    lemma_tree_unmoved(fs, fs2, m.disk.block, k, depth);
    tree_laws::lemma_uncached(fs, m, k);
    assert(inode_extents::whole_tree(m2.disk, fs2.disk, 4096));
    assert(place(fs2, m.disk, k) == place(fs, m.disk, k));
    assert(place(fs2, m2.disk, k) == place(fs2, d2, k));
    if place(fs, m.disk, k) is Some {
        let b = place(fs, m.disk, k)->0;
        assert(data_ok(fs, m.disk, b));
        assert(holds_content(fs, b));
        tree_laws::lemma_limit(fs);
        assert(!inode::marks_hole(b));
        assert(node_on(fs.disk, 4096, b));
        assert(node_at(fs2.disk, 4096, b) == node_at(fs.disk, 4096, b));
    }
}

/// A file that the inode holds itself and that is made smaller has its new size,
/// and keeps every byte below that.
pub proof fn law_truncate_keeps_inline_data(fs: FsModel, m: InodeModel, new: int, p: int)
    requires
        m.disk.inline_data(),
        m.disk.block.len() == 60,
        0 <= p < new < m.disk.size(),
        truncated(fs, m, new) is Some,
        (truncated(fs, m, new)->0).2 is Ok,
    ensures
        ({
            let t = truncated(fs, m, new)->0;
            &&& t.0 == fs
            &&& t.1.disk.size() == new
            &&& t.1.pages == m.pages
            &&& t.1.disk.inline_data()
            &&& inode::byte_of(t.0, t.1, p) == inode::byte_of(fs, m, p)
        }),
{
    assert(p / 4096 == 0 && p % 4096 == p);
}

/// A file that is made smaller keeps every cached byte below its new size,
/// whatever its tree and the size of the blocks.
pub proof fn law_truncate_keeps_cached_bytes(fs: FsModel, m: InodeModel, new: int, p: int, v: u8)
    requires
        !m.disk.inline_data(),
        inode::pages_whole(m),
        0 <= p < new < m.disk.size() <= usize::MAX,
        truncated(fs, m, new) is Some,
        (truncated(fs, m, new)->0).2 is Ok,
        cached_byte(m, p, v),
    ensures
        ({
            let t = truncated(fs, m, new)->0;
            &&& t.1.disk.size() == new
            &&& cached_byte(t.1, p, v)
        }),
{
    let current = m.disk.size();
    let idx = current / 4096;
    let k = p / 4096;
    let u = inode_size::last_page_cleared(fs, m, current, new)->0;
    if !(current % 4096 == 0 || idx > m.disk.size_lo as int / 4096) {
        inode_laws::lemma_fetched(fs, m, idx);
        let f = inode_write::fetched(fs, m, idx)->0;
        assert(f.1.pages[k as usize] == m.pages[k as usize]);
        if k == idx {
            assert(new / 4096 == idx);
        } else {
            assert(k as usize != idx as usize);
        }
    }
    assert(cached_byte(u.1, p, v));
    assert(k < inode_size::units(new, 4096));
}

/// A file that is made larger has its new size, and what its pages hold stays.
pub proof fn law_truncate_up(fs: FsModel, m: InodeModel, new: int, k: int)
    requires
        m.disk.size() < new <= u64::MAX - 511,
        m.disk.flags & 0x1000_0000 == 0,
        truncated(fs, m, new) is Some,
        (truncated(fs, m, new)->0).2 is Ok,
    ensures
        ({
            let t = truncated(fs, m, new)->0;
            &&& t.0 == fs
            &&& t.1.disk.size() == new
            &&& t.1.pages == m.pages
            &&& inode::page_of(fs, t.1, k) == inode::page_of(fs, m, k)
        }),
{
}

/// A sealed file keeps its size: one sealed against shrinking does not get
/// smaller, and one sealed against growing does not get larger.
pub proof fn law_seals_hold(fs: FsModel, m: InodeModel, new: int)
    requires
        truncated(fs, m, new) is Some,
        new < m.disk.size() && m.seals & 0x2 != 0 || new > m.disk.size() && m.seals & 0x4 != 0,
    ensures
        truncated(fs, m, new) == Some((fs, m, Err::<usize, Errno>(Errno::EPERM))),
{
}

// ---------------------------------------------------------------------------
// Space
// ---------------------------------------------------------------------------

/// Space that is allocated for a file makes it as large as the space reaches, if
/// it was smaller, or leaves its size where that is asked for; it changes no
/// cached page, and no flag but those that say where the data is.
pub proof fn law_allocated_space(
    fs: FsModel,
    m: InodeModel,
    keep_size: bool,
    offset: int,
    len: int,
)
    requires
        0 <= offset,
        0 <= len,
        len != 314572800,
        offset + len <= u64::MAX,
        inode_size::fallocated(
            fs,
            m,
            FallocFlags(if keep_size {
                1
            } else {
                0
            }),
            offset,
            len,
        ) is Some,
    ensures
        ({
            let t = inode_size::fallocated(
                fs,
                m,
                FallocFlags(if keep_size {
                    1
                } else {
                    0
                }),
                offset,
                len,
            )->0;
            &&& t.1.pages == m.pages
            &&& t.1.seals == m.seals
            &&& t.2 is Ok ==> t.1.disk.size() == (if keep_size || m.disk.size() >= offset + len {
                m.disk.size()
            } else {
                offset + len
            })
            &&& t.2 is Err ==> t.1.disk.size() == m.disk.size()
            &&& m.seals & 4 != 0 && m.disk.size() < offset + len ==> t.2 == Err::<usize, Errno>(
                Errno::EPERM,
            ) && t.0 == fs && t.1 == m
        }),
{
    assert(1u32 & 1u32 == 1u32 && 0u32 & 1u32 != 1u32) by (bit_vector);
    let current = m.disk.size();
    if current < offset + len {
        let from = inode_size::units(current, 4096);
        let to = inode_size::units(offset + len, 4096);
        let d = if m.disk.inline_data() {
            m.disk.with_flags(inode_write::tree_flags(m.disk.flags)).with_block(
                inode_extents::with_empty_tree(m.disk.block),
            )
        } else {
            m.disk
        };
        match fs::blocks_taken(fs, 0, to - from) {
            None => {},
            Some(t) => {
                if inode_size::runs_mapped(t.0, d, from, t.1) is Some {
                    lemma_runs_keep_size(t.0, d, from, t.1);
                }
            },
        }
    }
}

proof fn lemma_runs_keep_size(fs: FsModel, d: InodeDiskModel, lb: int, runs: Seq<(int, int)>)
    requires
        inode_size::runs_mapped(fs, d, lb, runs) is Some,
    ensures
        ({
            let t = inode_size::runs_mapped(fs, d, lb, runs)->0;
            &&& t.1 == d.with_block(t.1.block)
            &&& t.2 == lb + total(runs)
        }),
    decreases runs.len(),
{
    assert(d == d.with_block(d.block));
    if runs.len() > 0 {
        let t = inode_extents::root_inserted(fs, d.block, lb, runs[0].0, runs[0].1)->0;
        lemma_runs_keep_size(t.0, d.with_block(t.1), lb + runs[0].1, runs.drop_first());
    }
}

/// Number of blocks in several runs.
pub open spec fn total(runs: Seq<(int, int)>) -> int
    decreases runs.len(),
{
    if runs.len() == 0 {
        0
    } else {
        runs[0].1 + total(runs.drop_first())
    }
}

proof fn lemma_pages(n: int)
    requires
        0 <= n,
    ensures
        inode_size::units(n, 4096) == (n + 4095) / 4096,
{
}

/// Where space was allocated for a file, it got as many blocks as it has pages
/// more, one behind the other from its old end on; where there were fewer, the
/// answer is ENOSPC.
pub proof fn law_allocated_blocks(fs: FsModel, m: InodeModel, current: int, new: int, update: bool)
    requires
        0 <= current < new,
        new <= 0xFFF_0000_0000,
        inode_size::extended(fs, m, current, new, update) is Some,
        m.seals & 4 == 0,
    ensures
        ({
            let t = inode_size::extended(fs, m, current, new, update)->0;
            let from = (current + 4095) / 4096;
            let to = (new + 4095) / 4096;
            &&& fs::blocks_taken(fs, 0, to - from) is Some
            &&& t.2 is Ok <==> from + total((fs::blocks_taken(fs, 0, to - from)->0).1) >= to
            &&& t.2 is Err ==> t.2 == Err::<usize, Errno>(Errno::ENOSPC)
        }),
{
    lemma_pages(current);
    lemma_pages(new);
    let from = inode_size::units(current, 4096);
    let to = inode_size::units(new, 4096);
    assert(to % 0x1_0000_0000 == to);
    let d = if m.disk.inline_data() {
        m.disk.with_flags(inode_write::tree_flags(m.disk.flags)).with_block(
            inode_extents::with_empty_tree(m.disk.block),
        )
    } else {
        m.disk
    };
    let t = fs::blocks_taken(fs, 0, to - from)->0;
    lemma_runs_keep_size(t.0, d, from, t.1);
}

/// A size in units is the smallest number of units that holds it.
pub proof fn law_units(n: int, d: int)
    requires
        0 <= n,
        0 < d,
    ensures
        inode_size::units(n, d) * d >= n,
        inode_size::units(n, d) * d < n + d,
{
    vstd::arithmetic::div_mod::lemma_fundamental_div_mod(n, d);
    let q = n / d;
    assert(q * d == d * q && (q + 1) * d == d * q + d) by (nonlinear_arith);
}

// ---------------------------------------------------------------------------
// Holes
// ---------------------------------------------------------------------------

/// One of the logical blocks from `from` up to `to` stands at block `x`.
pub open spec fn stands_in(fs: FsModel, d: InodeDiskModel, from: int, to: int, x: int) -> bool {
    exists|j: int| from <= j < to && #[trigger] place(fs, d, j) == Some(x)
}

/// The logical blocks from `from` up to `to` were cleared on the device; nothing
/// else changed but bitmaps.
spec fn cleared(fs0: FsModel, fs: FsModel, d: InodeDiskModel, from: int, to: int) -> bool {
    &&& fs::same_shape(fs0, fs)
    &&& forall|g: int|
        0 <= g < fs0.groups.len() ==> #[trigger] bitmap_block(fs, g) == bitmap_block(fs0, g)
    &&& forall|x: int|
        !is_bitmap(fs0, x) && node_on(fs0.disk, 4096, x) ==> #[trigger] node_at(fs.disk, 4096, x)
            == (if stands_in(fs0, d, from, to, x) {
            bytes::zeros(4096)
        } else {
            node_at(fs0.disk, 4096, x)
        })
}

/// Nodes that are not used for data are the same after data was cleared.
proof fn lemma_tree_cleared(
    fs0: FsModel,
    fs: FsModel,
    d: InodeDiskModel,
    from: int,
    to: int,
    b: Seq<u8>,
    lb: int,
    depth: nat,
)
    requires
        fs0.bs() == 4096,
        cleared(fs0, fs, d, from, to),
        tree_held(fs0, Set::empty(), b, depth),
        forall|j: int|
            (#[trigger] place(fs0, d, j)) matches Some(x) ==> tree_held(
                fs0,
                Set::empty().insert(x),
                b,
                depth,
            ),
    ensures
        tree_ok(b, fs.disk, 4096, depth) == tree_ok(b, fs0.disk, 4096, depth),
        find_extent(b, fs.disk, 4096, lb, depth) == find_extent(b, fs0.disk, 4096, lb, depth),
    decreases depth,
{
    if depth > 0 {
        let xs = idxs_of(b);
        assert forall|i: int| 0 <= i < xs.len() implies {
            let leaf = (#[trigger] xs[i]).leaf();
            let child = node_at(fs0.disk, 4096, leaf);
            let below = header_of(child).depth as nat;
            &&& node_at(fs.disk, 4096, leaf) == child
            &&& below < depth ==> tree_ok(child, fs.disk, 4096, below) == tree_ok(
                child,
                fs0.disk,
                4096,
                below,
            )
            &&& below < depth ==> find_extent(child, fs.disk, 4096, lb, below) == find_extent(
                child,
                fs0.disk,
                4096,
                lb,
                below,
            )
        } by {
            let leaf = xs[i].leaf();
            let child = node_at(fs0.disk, 4096, leaf);
            let below = header_of(child).depth as nat;
            assert(node_held(fs0, Set::empty(), leaf));
            assert(0 * fs0.bs() == 0);
            assert(holds_content(fs0, leaf + 0));
            assert(!stands_in(fs0, d, from, to, leaf)) by {
                if stands_in(fs0, d, from, to, leaf) {
                    let j = choose|j: int| from <= j < to && #[trigger] place(fs0, d, j) == Some(
                        leaf,
                    );
                    assert(tree_held(fs0, Set::empty().insert(leaf), b, depth));
                    assert(node_held(fs0, Set::empty().insert(leaf), leaf));
                    assert(holds_content(fs0, leaf + 0) && !Set::empty().insert(leaf).contains(
                        leaf + 0,
                    ));
                }
            }
            if below < depth {
                assert forall|j: int| (#[trigger] place(fs0, d, j)) is Some implies tree_held(
                    fs0,
                    Set::empty().insert(place(fs0, d, j)->0),
                    child,
                    below,
                ) by {
                    assert(tree_held(fs0, Set::empty().insert(place(fs0, d, j)->0), b, depth));
                }
                lemma_tree_cleared(fs0, fs, d, from, to, child, lb, below);
            }
        }
        write_laws::lemma_best_idx(xs, lb);
    }
}

/// One more block cleared.
proof fn lemma_cleared_step(
    fs0: FsModel,
    fs: FsModel,
    fs2: FsModel,
    d: InodeDiskModel,
    from: int,
    lb: int,
    block: int,
)
    requires
        fs0.bs() == 4096,
        cleared(fs0, fs, d, from, lb),
        from <= lb,
        place(fs0, d, lb) == Some(block),
        node_on(fs.disk, 4096, block),
        !is_bitmap(fs0, block),
        bitmaps_alone(
            FsModel { disk: bytes::splice(fs.disk, block * 4096, bytes::zeros(4096)), ..fs },
            fs2,
        ),
    ensures
        cleared(fs0, fs2, d, from, lb + 1),
{
    let fs1 = FsModel { disk: bytes::splice(fs.disk, block * 4096, bytes::zeros(4096)), ..fs };
    assert forall|g: int| 0 <= g < fs0.groups.len() implies #[trigger] bitmap_block(fs2, g)
        == bitmap_block(fs0, g) by {
        assert(bitmap_block(fs1, g) == bitmap_block(fs, g));
        assert(bitmap_block(fs, g) == bitmap_block(fs0, g));
    }
    assert forall|x: int|
        !is_bitmap(fs0, x) && node_on(fs0.disk, 4096, x) implies #[trigger] node_at(
        fs2.disk,
        4096,
        x,
    ) == (if stands_in(fs0, d, from, lb + 1, x) {
        bytes::zeros(4096)
    } else {
        node_at(fs0.disk, 4096, x)
    }) by {
        if is_bitmap(fs1, x) {
            let h = choose|h: int| 0 <= h < fs1.groups.len() && #[trigger] bitmap_block(fs1, h) == x;
            assert(bitmap_block(fs, h) == bitmap_block(fs0, h));
            assert(bitmap_block(fs0, h) == x);
        }
        assert(node_at(fs2.disk, 4096, x) == node_at(fs1.disk, 4096, x));
        assert(node_at(fs.disk, 4096, x) == (if stands_in(fs0, d, from, lb, x) {
            bytes::zeros(4096)
        } else {
            node_at(fs0.disk, 4096, x)
        }));
        if x == block {
            assert(place(fs0, d, lb) == Some(x));
            assert(stands_in(fs0, d, from, lb + 1, x));
            assert(node_at(fs1.disk, 4096, x) =~= bytes::zeros(4096));
        } else {
            fs_laws::lemma_apart(x, block, 4096);
            assert(node_at(fs1.disk, 4096, x) =~= node_at(fs.disk, 4096, x));
            if stands_in(fs0, d, from, lb + 1, x) {
                let j = choose|j: int| from <= j < lb + 1 && #[trigger] place(fs0, d, j) == Some(x);
                assert(j < lb);
                assert(stands_in(fs0, d, from, lb, x));
            } else if stands_in(fs0, d, from, lb, x) {
                let j = choose|j: int| from <= j < lb && #[trigger] place(fs0, d, j) == Some(x);
                assert(stands_in(fs0, d, from, lb + 1, x));
            }
        }
    }
}

proof fn lemma_none_cleared(fs0: FsModel, fs: FsModel, d: InodeDiskModel, from: int, lb: int)
    requires
        cleared(fs0, fs, d, from, lb),
        place(fs0, d, lb) is None,
    ensures
        cleared(fs0, fs, d, from, lb + 1),
{
    assert forall|x: int| stands_in(fs0, d, from, lb + 1, x) == #[trigger] stands_in(
        fs0,
        d,
        from,
        lb,
        x,
    ) by {
        if stands_in(fs0, d, from, lb + 1, x) {
            let j = choose|j: int| from <= j < lb + 1 && #[trigger] place(fs0, d, j) == Some(x);
            assert(j < lb);
        }
        if stands_in(fs0, d, from, lb, x) {
            let j = choose|j: int| from <= j < lb && #[trigger] place(fs0, d, j) == Some(x);
            assert(from <= j < lb + 1);
        }
    }
}

proof fn lemma_punched(
    fs0: FsModel,
    fs: FsModel,
    d: InodeDiskModel,
    from: int,
    lb: int,
    to: int,
)
    requires
        tidy(fs0, d),
        cleared(fs0, fs, d, from, lb),
        from <= lb <= to,
        inode_size::punched(fs, d, lb, to) is Some,
    ensures
        cleared(fs0, inode_size::punched(fs, d, lb, to)->0, d, from, to),
    decreases to - lb,
{
    if lb < to {
        let depth = depth_of(d);
        assert forall|j: int| (#[trigger] place(fs0, d, j)) is Some implies tree_held(
            fs0,
            Set::empty().insert(place(fs0, d, j)->0),
            d.block,
            depth,
        ) by {
            assert(data_ok(fs0, d, place(fs0, d, j)->0));
        }
        lemma_tree_cleared(fs0, fs, d, from, lb, d.block, lb, depth);
        match inode_extents::root_find(d.block, fs.disk, fs.bs(), lb) {
            None => {
                lemma_none_cleared(fs0, fs, d, from, lb);
                lemma_punched(fs0, fs, d, from, lb + 1, to);
            },
            Some(e) => {
                let block = e.target(lb);
                assert(place(fs0, d, lb) == Some(block));
                assert(data_ok(fs0, d, block));
                let fs1 = FsModel {
                    disk: bytes::splice(fs.disk, block * 4096, bytes::zeros(4096)),
                    ..fs
                };
                let fs2 = fs::blocks_freed(fs1, block, 1)->0;
                law_freeing_changes_bitmaps_alone(fs1, block, 1);
                lemma_cleared_step(fs0, fs, fs2, d, from, lb, block);
                lemma_punched(fs0, fs2, d, from, lb + 1, to);
            },
        }
    }
}

/// A page that is not cached, once blocks of its file were cleared.
#[verifier::rlimit(60)]
proof fn lemma_cleared_page(fs: FsModel, fs2: FsModel, m: InodeModel, from: int, to: int, k: int)
    requires
        tidy(fs, m.disk),
        tree_laws::unshared(fs, m.disk),
        cleared(fs, fs2, m.disk, from, to),
        0 <= k <= u32::MAX,
        !m.pages.contains_key(k as usize),
    ensures
        inode::page_of(fs2, m, k) == (if from <= k < to {
            Some(inode::clean(bytes::zeros(4096)))
        } else {
            inode::page_of(fs, m, k)
        }),
{
    let depth = depth_of(m.disk);
    assert forall|j: int| (#[trigger] place(fs, m.disk, j)) is Some implies tree_held(
        fs,
        Set::empty().insert(place(fs, m.disk, j)->0),
        m.disk.block,
        depth,
    ) by {
        assert(data_ok(fs, m.disk, place(fs, m.disk, j)->0));
    }
    lemma_tree_cleared(fs, fs2, m.disk, from, to, m.disk.block, k, depth);
    tree_laws::lemma_uncached(fs, m, k);
    assert(inode::blocks_per_page(4096) == 1);
    assert(fs2.bs() == 4096);
    assert(inode_extents::whole_tree(m.disk, fs2.disk, 4096));
    assert(place(fs2, m.disk, k) == place(fs, m.disk, k));
    if place(fs, m.disk, k) is Some {
        lemma_cleared_node(fs, fs2, m.disk, from, to, k);
        let x = place(fs, m.disk, k)->0;
        assert(inode::stored_page(fs2.disk, 4096, x) == Some(node_at(fs2.disk, 4096, x)));
        assert(inode::page_of(fs, m, k) == Some(inode::clean(node_at(fs.disk, 4096, x))));
    }
}

/// What the block of a page holds, once blocks of its file were cleared.
proof fn lemma_cleared_node(
    fs: FsModel,
    fs2: FsModel,
    d: InodeDiskModel,
    from: int,
    to: int,
    k: int,
)
    requires
        tidy(fs, d),
        tree_laws::unshared(fs, d),
        cleared(fs, fs2, d, from, to),
        place(fs, d, k) is Some,
    ensures
        !inode::marks_hole(place(fs, d, k)->0),
        node_on(fs.disk, 4096, place(fs, d, k)->0),
        node_on(fs2.disk, 4096, place(fs, d, k)->0),
        node_at(fs2.disk, 4096, place(fs, d, k)->0) == (if from <= k < to {
            bytes::zeros(4096)
        } else {
            node_at(fs.disk, 4096, place(fs, d, k)->0)
        }),
{
    let x = place(fs, d, k)->0;
    assert(data_ok(fs, d, x));
    tree_laws::lemma_limit(fs);
    assert(stands_in(fs, d, from, to, x) == (from <= k < to)) by {
        if stands_in(fs, d, from, to, x) {
            let j = choose|j: int| from <= j < to && #[trigger] place(fs, d, j) == Some(x);
            assert(place(fs, d, k) == place(fs, d, j));
        }
    }
}

/// A hole that is punched reads as zeros in all of its whole pages, and every other
/// page that is not cached reads as before; the size stays.
#[verifier::rlimit(60)]
pub proof fn law_hole_reads_as_zeros(
    fs: FsModel,
    m: InodeModel,
    mode: FallocFlags,
    offset: int,
    len: int,
    k: int,
)
    requires
        tidy(fs, m.disk),
        tree_laws::unshared(fs, m.disk),
        mode.0 & 2 == 2,
        0 <= offset,
        0 <= len,
        0 <= k <= u32::MAX,
        offset / 4096 <= k < (offset + len) / 4096 || !m.pages.contains_key(k as usize),
        inode_size::fallocated(fs, m, mode, offset, len) is Some,
    ensures
        ({
            let t = inode_size::fallocated(fs, m, mode, offset, len)->0;
            &&& t.2 is Ok
            &&& t.1.disk == m.disk
            &&& offset / 4096 <= k < (offset + len) / 4096 ==> inode::page_of(t.0, t.1, k) == Some(
                inode::clean(bytes::zeros(4096)),
            )
            &&& !(offset / 4096 <= k < (offset + len) / 4096) ==> inode::page_of(t.0, t.1, k)
                == inode::page_of(fs, m, k)
        }),
{
    let t = inode_size::fallocated(fs, m, mode, offset, len)->0;
    let from = offset / 4096;
    let to = (offset + len) / 4096;
    assert(mode.0 != 0 && mode.0 != 1) by {
        let v: u32 = mode.0;
        assert(v & 2 == 2 ==> v != 0 && v != 1) by (bit_vector);
    }
    assert(cleared(fs, fs, m.disk, from, from));
    lemma_punched(fs, fs, m.disk, from, from, to);
    lemma_cleared_page(fs, t.0, t.1, from, to, k);
    let bare = InodeModel { pages: Map::empty(), ..m };
    assert(inode::page_of(fs, t.1, k) == inode::page_of(fs, bare, k));
    if !(from <= k < to) {
        assert(inode::page_of(fs, m, k) == inode::page_of(fs, bare, k));
    }
}

} // verus!
