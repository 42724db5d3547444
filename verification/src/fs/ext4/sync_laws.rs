//! What is read of a file that was flushed and loaded anew.
use vstd::prelude::*;
use crate::bytes;
use crate::fs::ext4::extent_tree::{node_at, node_on};
use crate::fs::ext4::fs;
use crate::fs::ext4::fs::FsModel;
use crate::fs::ext4::inode;
use crate::fs::ext4::inode::InodeModel;
use crate::fs::ext4::inode_disk;
use crate::fs::ext4::inode_disk::InodeDiskModel;
use crate::fs::ext4::inode_laws;
use crate::fs::ext4::inode_sync;
use crate::fs::ext4::inode_sync::{is_dirty, page_flushed, pages_flushed, synced};
use crate::fs::ext4::inode_table;
use crate::fs::ext4::inode_table::{inode_place, stored_inode, with_stored};
use crate::fs::ext4::inode_write;
use crate::fs::ext4::tree_laws;
use crate::fs::ext4::tree_laws::{
    content, data_ok, depth_of, foreign, place, same_tables, tidy, unshared,
};

verus! {

/// Cached pages that have not changed hold what their places on the device hold.
pub open spec fn coherent(fs: FsModel, m: InodeModel) -> bool {
    forall|k: usize| #[trigger]
        m.pages.contains_key(k) && !m.pages[k].dirty ==> m.pages[k].data == content(
            fs,
            m.disk,
            k as int,
        )
}

/// A file in order, in the cache and on the device: its tree is, no two of its
/// blocks stand at one place, and the cache agrees with the device.
pub open spec fn in_order(fs: FsModel, m: InodeModel) -> bool {
    &&& tidy(fs, m.disk)
    &&& unshared(fs, m.disk)
    &&& inode::pages_whole(m)
    &&& coherent(fs, m)
}

/// What a flush does to a page that has changed.
proof fn lemma_flushed_form(fs: FsModel, m: InodeModel, idx: int)
    requires
        fs.bs() == 4096,
        !m.disk.inline_data(),
        is_dirty(m, idx),
        page_flushed(fs, m, idx) is Some,
    ensures
        idx <= u32::MAX,
        inode_write::extent_for(fs, m.disk, idx) is Some,
        ({
            let u = inode_write::extent_for(fs, m.disk, idx)->0;
            let data = m.pages[idx as usize].data;
            let disk = bytes::splice(u.0.disk, u.2.target(idx) * u.0.bs(), data);
            &&& u.1 == m.disk.with_block(u.1.block)
            &&& page_flushed(fs, m, idx) == Some(
                (
                    FsModel { disk, ..u.0 },
                    m.with_disk(u.1).with_page(idx, inode::clean(data)),
                ),
            )
        }),
{
    assert(inode::blocks_per_page(4096) == 1);
    assert(m.disk == m.disk.with_block(m.disk.block));
    assert(inode_write::extent_for(fs, m.disk, idx) is Some);
    let u = inode_write::extent_for(fs, m.disk, idx)->0;
    assert(u.1 == m.disk.with_block(u.1.block)) by {
        reveal(inode_write::extent_for);
    }
}

/// What a step keeps.
spec fn step_kept(fs: FsModel, d: InodeDiskModel, fs2: FsModel, d2: InodeDiskModel) -> bool {
    &&& tidy(fs2, d2)
    &&& unshared(fs2, d2)
    &&& fs::same_shape(fs, fs2)
    &&& same_tables(fs, fs2)
    &&& depth_of(d2) == 0 ==> depth_of(d) == 0
    &&& forall|x: int| #[trigger]
        place(fs2, d2, x) is Some || place(fs, d, x) is None
    &&& forall|w: int| #[trigger]
        foreign(fs, d, w) ==> foreign(fs2, d2, w) && node_at(fs2.disk, 4096, w) == node_at(
            fs.disk,
            4096,
            w,
        )
}

/// Two steps in a row.
proof fn lemma_kept_again(
    fs: FsModel,
    d: InodeDiskModel,
    fs1: FsModel,
    d1: InodeDiskModel,
    fs2: FsModel,
    d2: InodeDiskModel,
)
    requires
        step_kept(fs, d, fs1, d1),
        step_kept(fs1, d1, fs2, d2),
    ensures
        step_kept(fs, d, fs2, d2),
{
    assert forall|g: int| 0 <= g < fs.groups.len() implies (#[trigger] fs2.groups[g]).inode_table
        == fs.groups[g].inode_table by {
        assert(fs1.groups[g].inode_table == fs.groups[g].inode_table);
    }
    assert forall|x: int| #[trigger] place(fs2, d2, x) is Some || place(fs, d, x) is None by {
        assert(place(fs1, d1, x) is Some || place(fs, d, x) is None);
    }
    assert forall|w: int| #[trigger] foreign(fs, d, w) implies foreign(fs2, d2, w) && node_at(
        fs2.disk,
        4096,
        w,
    ) == node_at(fs.disk, 4096, w) by {
        assert(foreign(fs1, d1, w));
    }
}

/// A block of the file is written at its place, which is found or made.
#[verifier::rlimit(30)]
proof fn lemma_placed(fs: FsModel, d: InodeDiskModel, idx: int, data: Seq<u8>)
    requires
        tidy(fs, d),
        unshared(fs, d),
        0 <= idx <= u32::MAX,
        data.len() == 4096,
        inode_write::extent_for(fs, d, idx) is Some,
    ensures
        ({
            let u = inode_write::extent_for(fs, d, idx)->0;
            let disk = bytes::splice(u.0.disk, u.2.target(idx) * u.0.bs(), data);
            let fs2 = FsModel { disk, ..u.0 };
            &&& step_kept(fs, d, fs2, u.1)
            &&& depth_of(u.1) == 0 ==> place(fs2, u.1, idx) is Some
            &&& forall|x: int| #[trigger]
                place(fs2, u.1, x) == place(fs, d, x) || x == idx && place(fs, d, x) is None
            &&& forall|x: int| #[trigger]
                content(fs2, u.1, x) == (if x == idx && place(fs2, u.1, x) is Some {
                    data
                } else {
                    content(fs, d, x)
                })
        }),
{
    let u = inode_write::extent_for(fs, d, idx)->0;
    let b = u.2.target(idx);
    tree_laws::lemma_extent_step(fs, d, idx);
    tree_laws::lemma_block_put(u.0, u.1, b, data);
    let fs2 = FsModel { disk: bytes::splice(u.0.disk, b * u.0.bs(), data), ..u.0 };
    assert forall|x: int| #[trigger] place(fs2, u.1, x) == place(u.0, u.1, x) && (place(
        fs2,
        u.1,
        x,
    ) == place(fs, d, x) || x == idx && place(fs, d, x) is None) by {
        assert(place(u.0, u.1, x) == place(fs, d, x) || x == idx && place(fs, d, x) is None);
    }
    assert forall|x: int, y: int|
        (#[trigger] place(fs2, u.1, x)) is Some && place(fs2, u.1, x) == (#[trigger] place(
            fs2,
            u.1,
            y,
        )) implies x == y by {
        assert(place(fs2, u.1, x) == place(u.0, u.1, x));
        assert(place(fs2, u.1, y) == place(u.0, u.1, y));
    }
    assert forall|w: int| #[trigger] foreign(fs, d, w) implies foreign(fs2, u.1, w) && node_at(
        fs2.disk,
        4096,
        w,
    ) == node_at(fs.disk, 4096, w) by {
        assert(foreign(u.0, u.1, w));
        assert(data_ok(u.0, u.1, w));
        assert(data_ok(fs, d, w));
        assert forall|x: int| #[trigger] place(fs2, u.1, x) != Some(w) by {
            assert(place(fs2, u.1, x) == place(u.0, u.1, x));
        }
    }
    assert forall|g: int| 0 <= g < fs.groups.len() implies (#[trigger] fs2.groups[g]).inode_table
        == fs.groups[g].inode_table by {
        assert(u.0.groups[g].inode_table == fs.groups[g].inode_table);
    }
    assert forall|x: int| #[trigger] content(fs2, u.1, x) == (if x == idx && place(
        fs2,
        u.1,
        x,
    ) is Some {
        data
    } else {
        content(fs, d, x)
    }) by {
        assert(content(u.0, u.1, x) == content(fs, d, x));
        assert(place(fs2, u.1, x) == place(u.0, u.1, x));
    }
}

/// What a flush of one page makes of the file: the page stands at its place, if it
/// has one afterwards, and nothing else changes.
proof fn lemma_flush_step(fs: FsModel, m: InodeModel, idx: int)
    requires
        tidy(fs, m.disk),
        unshared(fs, m.disk),
        inode::pages_whole(m),
        0 <= idx <= usize::MAX,
        page_flushed(fs, m, idx) is Some,
    ensures
        ({
            let t = page_flushed(fs, m, idx)->0;
            &&& step_kept(fs, m.disk, t.0, t.1.disk)
            &&& inode::pages_whole(t.1)
            &&& t.1.disk == m.disk.with_block(t.1.disk.block)
            &&& t.1.num == m.num
            &&& is_dirty(m, idx) && depth_of(t.1.disk) == 0 ==> place(t.0, t.1.disk, idx) is Some
            &&& forall|x: int| #[trigger]
                place(t.0, t.1.disk, x) == place(fs, m.disk, x) || x == idx && is_dirty(m, idx)
            &&& forall|x: int| #[trigger]
                content(t.0, t.1.disk, x) == (if x == idx && is_dirty(m, idx) && place(
                    t.0,
                    t.1.disk,
                    x,
                ) is Some {
                    m.pages[idx as usize].data
                } else {
                    content(fs, m.disk, x)
                })
        }),
{
    assert(m.disk == m.disk.with_block(m.disk.block));
    if is_dirty(m, idx) {
        lemma_flushed_form(fs, m, idx);
        lemma_placed(fs, m.disk, idx, m.pages[idx as usize].data);
    }
}

/// What flushing the pages below index `n` makes of the file.
spec fn flushed_to(fs: FsModel, m: InodeModel, n: nat, fs2: FsModel, m2: InodeModel) -> bool {
    &&& step_kept(fs, m.disk, fs2, m2.disk)
    &&& inode::pages_whole(m2)
    &&& m2.disk == m.disk.with_block(m2.disk.block)
    &&& m2.num == m.num
    &&& forall|x: int|
        0 <= x < n && is_dirty(m, x) && depth_of(m2.disk) == 0 ==> #[trigger] place(
            fs2,
            m2.disk,
            x,
        ) is Some
    &&& forall|x: int|
        0 <= x <= usize::MAX ==> #[trigger] content(fs2, m2.disk, x) == (if x < n && is_dirty(m, x)
            && place(fs2, m2.disk, x) is Some {
            m.pages[x as usize].data
        } else {
            content(fs, m.disk, x)
        })
}

proof fn lemma_flush_all(fs: FsModel, m: InodeModel, n: nat)
    requires
        tidy(fs, m.disk),
        unshared(fs, m.disk),
        inode::pages_whole(m),
        n <= usize::MAX + 1,
        pages_flushed(fs, m, n) is Some,
    ensures
        flushed_to(fs, m, n, (pages_flushed(fs, m, n)->0).0, (pages_flushed(fs, m, n)->0).1),
    decreases n,
{
    if n == 0 {
        assert(m.disk == m.disk.with_block(m.disk.block));
    } else {
        let i = n - 1;
        let u = pages_flushed(fs, m, i as nat)->0;
        let t = pages_flushed(fs, m, n)->0;
        lemma_flush_all(fs, m, i as nat);
        lemma_flush_step(u.0, u.1, i);
        lemma_kept_again(fs, m.disk, u.0, u.1.disk, t.0, t.1.disk);
        inode_sync::law_nothing_is_dirty_after_a_flush(fs, m, i as nat, i as usize);
        assert(is_dirty(u.1, i) == is_dirty(m, i));
        assert forall|x: int|
            0 <= x < n && is_dirty(m, x) && depth_of(t.1.disk) == 0 implies #[trigger] place(
            t.0,
            t.1.disk,
            x,
        ) is Some by {
            if x < i {
                assert(place(u.0, u.1.disk, x) is Some);
            }
        }
        assert forall|x: int| 0 <= x <= usize::MAX implies #[trigger] content(t.0, t.1.disk, x) == (
        if x < n && is_dirty(m, x) && place(t.0, t.1.disk, x) is Some {
            m.pages[x as usize].data
        } else {
            content(fs, m.disk, x)
        }) by {
            assert(place(t.0, t.1.disk, x) == place(u.0, u.1.disk, x) || x == i);
            assert(content(u.0, u.1.disk, x) == (if x < i && is_dirty(m, x) && place(
                u.0,
                u.1.disk,
                x,
            ) is Some {
                m.pages[x as usize].data
            } else {
                content(fs, m.disk, x)
            }));
        }
    }
}

/// Every page that had changed has a place once the pages below index `n` were
/// flushed.
pub open spec fn gets_places(fs: FsModel, m: InodeModel, n: nat) -> bool {
    let t = pages_flushed(fs, m, n)->0;
    forall|k: usize| #[trigger]
        m.pages.contains_key(k) && m.pages[k].dirty ==> place(t.0, t.1.disk, k as int) is Some
}

/// Where the extents of a file still stand in its inode after a flush, every page
/// that had changed got a place.
pub proof fn law_flush_gives_places(fs: FsModel, m: InodeModel, n: nat)
    requires
        in_order(fs, m),
        n <= usize::MAX + 1,
        inode_sync::all_below(m, n),
        pages_flushed(fs, m, n) is Some,
        depth_of((pages_flushed(fs, m, n)->0).1.disk) == 0,
    ensures
        gets_places(fs, m, n),
{
    let t = pages_flushed(fs, m, n)->0;
    lemma_flush_all(fs, m, n);
    assert forall|k: usize| #[trigger]
        m.pages.contains_key(k) && m.pages[k].dirty implies place(
        t.0,
        t.1.disk,
        k as int,
    ) is Some by {
        assert(is_dirty(m, k as int));
    }
}

/// Storing an inode writes to one block.
proof fn lemma_stored_block(fs: FsModel, num: int, d: InodeDiskModel)
    requires
        fs.wf(),
        fs.bs() == 4096,
        d.wf(),
        inode_place(fs, num) is Some,
    ensures
        ({
            let p = inode_place(fs, num)->0;
            let data = bytes::splice(
                node_at(fs.disk, 4096, p.0),
                p.1,
                inode_disk::enc_inode(d),
            );
            &&& data.len() == 4096
            &&& with_stored(fs, num, d) == (FsModel {
                disk: bytes::splice(fs.disk, p.0 * 4096, data),
                ..fs
            })
        }),
{
    let p = inode_place(fs, num)->0;
    let e = inode_disk::enc_inode(d);
    let node = node_at(fs.disk, 4096, p.0);
    vstd::arithmetic::div_mod::lemma_mod_bound(
        (num - 1) % fs.sb.inodes_per_group * fs.sb.inode_size,
        fs.bs(),
    );
    inode_disk::lemma_enc_len(d);
    assert(0 <= p.1 && p.1 + 160 <= 4096);
    assert(node_on(fs.disk, 4096, p.0));
    let data = bytes::splice(node, p.1, e);
    let x = bytes::splice(fs.disk, p.0 * 4096, data);
    let y = with_stored(fs, num, d).disk;
    assert(x.len() == y.len());
    assert forall|i: int| 0 <= i < x.len() implies x[i] == y[i] by {
        if p.0 * 4096 <= i < p.0 * 4096 + 4096 {
            assert(x[i] == data[i - p.0 * 4096]);
        }
    }
    assert(x =~= y);
}

/// After a file in order was flushed and its inode is loaded anew, every page of
/// it reads as before, those that had changed and those that were never cached.
/// The pages that had changed got places, and the block that the inode is stored
/// in is none of the file's.
pub proof fn law_synced_file_reads_the_same(fs: FsModel, m: InodeModel, n: nat, k: int)
    requires
        in_order(fs, m),
        m.disk.wf(),
        n <= usize::MAX + 1,
        inode_sync::all_below(m, n),
        inode_place(fs, m.num) is Some,
        foreign(fs, m.disk, (inode_place(fs, m.num)->0).0),
        pages_flushed(fs, m, n) is Some,
        gets_places(fs, m, n),
        0 <= k <= u32::MAX,
    ensures
        synced(fs, m, n) is Some,
        ({
            let after = (synced(fs, m, n)->0).0;
            let again = inode_table::fresh(m.num, stored_inode(after, m.num), m.seals);
            &&& again.disk.size() == m.disk.size()
            &&& inode::page_of(fs, m, k) is Some
            &&& inode::page_of(after, again, k) == Some(
                inode::clean(inode::page_of(fs, m, k)->0.data),
            )
        }),
{
    let t = pages_flushed(fs, m, n)->0;
    lemma_flush_all(fs, m, n);
    let p = inode_place(fs, m.num)->0;
    lemma_same_place(fs, t.0, m.num);
    let d = t.1.disk;
    assert(d.wf());
    lemma_stored_block(t.0, m.num, d);
    inode_table::law_stored_inode_is_loaded(t.0, m.num, d);
    assert(foreign(t.0, d, p.0));
    let data = bytes::splice(node_at(t.0.disk, 4096, p.0), p.1, inode_disk::enc_inode(d));
    tree_laws::lemma_block_put(t.0, d, p.0, data);
    let after = with_stored(t.0, m.num, d);
    assert(synced(fs, m, n) == Some((after, t.1)));
    let again = inode_table::fresh(m.num, d, m.seals);
    tree_laws::lemma_uncached(after, again, k);
    assert(place(t.0, d, k) != Some(p.0));
    assert(content(after, d, k) == content(t.0, d, k));
    if m.pages.contains_key(k as usize) {
        assert(is_dirty(m, k) ==> place(t.0, d, k) is Some);
    } else {
        tree_laws::lemma_uncached(fs, m, k);
    }
}

proof fn lemma_same_place(fs: FsModel, now: FsModel, num: int)
    requires
        fs.wf(),
        fs::same_shape(fs, now),
        same_tables(fs, now),
        inode_place(fs, num) is Some,
    ensures
        inode_place(now, num) == inode_place(fs, num),
{
    let gi = (num - 1) / fs.sb.inodes_per_group as int;
    assert(0 <= gi) by (nonlinear_arith)
        requires
            gi == (num - 1) / fs.sb.inodes_per_group as int,
            num >= 1,
            fs.sb.inodes_per_group > 0,
    ;
    assert(now.groups[gi].inode_table == fs.groups[gi].inode_table);
}

// ---------------------------------------------------------------------------
// Writes
// ---------------------------------------------------------------------------

/// What is brought into the cache.
proof fn lemma_fetched_form(fs: FsModel, m: InodeModel, idx: int)
    requires
        fs.bs() == 4096,
        !m.pages.contains_key(idx as usize),
        inode_write::fetched(fs, m, idx) is Some,
    ensures
        idx <= u32::MAX,
        inode_write::extent_for(fs, m.disk, idx) is Some,
        ({
            let u = inode_write::extent_for(fs, m.disk, idx)->0;
            let data = inode::stored_page(u.0.disk, u.0.bs(), u.2.target(idx));
            &&& data is Some
            &&& inode_write::fetched(fs, m, idx) == Some(
                (u.0, m.with_disk(u.1).with_page(idx, inode::clean(data->0))),
            )
        }),
{
    reveal(inode_write::fetched);
    assert(inode::blocks_per_page(4096) == 1);
    assert(inode_write::extent_for(fs, m.disk, idx) is Some);
}

/// A page that is brought into the cache agrees with the device.
proof fn lemma_fetch_in_order(fs: FsModel, m: InodeModel, idx: int)
    requires
        in_order(fs, m),
        0 <= idx <= usize::MAX,
        inode_write::fetched(fs, m, idx) is Some,
    ensures
        ({
            let t = inode_write::fetched(fs, m, idx)->0;
            &&& in_order(t.0, t.1)
            &&& step_kept(fs, m.disk, t.0, t.1.disk)
            &&& t.1.num == m.num
            &&& t.1.seals == m.seals
        }),
{
    inode_laws::lemma_fetched(fs, m, idx);
    let t = inode_write::fetched(fs, m, idx)->0;
    if m.pages.contains_key(idx as usize) {
        assert(t == (fs, m)) by {
            reveal(inode_write::fetched);
        }
    } else {
        lemma_fetched_form(fs, m, idx);
        let u = inode_write::extent_for(fs, m.disk, idx)->0;
        tree_laws::lemma_extent_step(fs, m.disk, idx);
        assert(t.0 == u.0 && t.1.disk == u.1);
        assert forall|k: usize| #[trigger]
            t.1.pages.contains_key(k) && !t.1.pages[k].dirty implies t.1.pages[k].data == content(
            t.0,
            t.1.disk,
            k as int,
        ) by {
            assert(content(u.0, u.1, k as int) == content(fs, m.disk, k as int));
            if k != idx as usize {
                assert(m.pages.contains_key(k) && t.1.pages[k] == m.pages[k]);
            }
        }
    }
}

proof fn lemma_pages_in_order(fs: FsModel, m: InodeModel, offset: int, buf: Seq<u8>)
    requires
        in_order(fs, m),
        0 <= offset,
        offset + buf.len() <= usize::MAX,
        inode_write::pages_written(fs, m, offset, buf) is Some,
    ensures
        ({
            let t = inode_write::pages_written(fs, m, offset, buf)->0;
            &&& in_order(t.0, t.1)
            &&& step_kept(fs, m.disk, t.0, t.1.disk)
            &&& t.1.num == m.num
            &&& t.1.seals == m.seals
        }),
    decreases buf.len(),
{
    if buf.len() > 0 {
        let n = inode_write::in_first_page(offset, buf.len() as int);
        let idx = offset / 4096;
        let t = inode_write::fetched(fs, m, idx)->0;
        lemma_fetch_in_order(fs, m, idx);
        inode_laws::lemma_fetched(fs, m, idx);
        let m1 = inode_write::page_written(t.1, idx, offset % 4096, buf.take(n));
        assert(inode::pages_whole(m1));
        assert forall|k: usize| #[trigger]
            m1.pages.contains_key(k) && !m1.pages[k].dirty implies m1.pages[k].data == content(
            t.0,
            m1.disk,
            k as int,
        ) by {
            assert(t.1.pages.contains_key(k) && m1.pages[k] == t.1.pages[k]);
        }
        lemma_pages_in_order(t.0, m1, offset + n, buf.skip(n));
        let r = inode_write::pages_written(t.0, m1, offset + n, buf.skip(n))->0;
        lemma_kept_again(fs, m.disk, t.0, t.1.disk, r.0, r.1.disk);
    }
}

/// A write leaves a file in order; every block in use that is not the file's holds
/// what it held and is still not the file's, and no inode moves.
pub proof fn law_write_keeps_the_file_in_order(
    fs: FsModel,
    m: InodeModel,
    offset: int,
    buf: Seq<u8>,
    w: int,
)
    requires
        in_order(fs, m),
        foreign(fs, m.disk, w),
        0 <= offset,
        inode_write::end_ok(offset, buf.len() as int),
        inode_write::tree_written(fs, m, offset, buf) is Some,
    ensures
        ({
            let t = inode_write::tree_written(fs, m, offset, buf)->0;
            &&& in_order(t.0, t.1)
            &&& foreign(t.0, t.1.disk, w)
            &&& node_at(t.0.disk, 4096, w) == node_at(fs.disk, 4096, w)
            &&& fs::same_shape(fs, t.0)
            &&& same_tables(fs, t.0)
            &&& t.1.num == m.num
            &&& t.1.seals == m.seals
            &&& m.disk.wf() ==> t.1.disk.wf()
        }),
{
    inode_laws::lemma_pages_written(fs, m, offset, buf);
    let u = inode_write::pages_written(fs, m, offset, buf)->0;
    let t = inode_write::tree_written(fs, m, offset, buf)->0;
    lemma_pages_in_order(fs, m, offset, buf);
    tree_laws::lemma_same_tree(u.0, u.1, t.1);
    assert forall|x: int| #[trigger] place(u.0, t.1.disk, x) == place(u.0, u.1.disk, x) by {}
    assert forall|x: int| #[trigger] content(u.0, t.1.disk, x) == content(u.0, u.1.disk, x) by {}
    assert(foreign(u.0, u.1.disk, w));
    assert(data_ok(u.0, t.1.disk, w));
    assert forall|x: int, y: int|
        (#[trigger] place(t.0, t.1.disk, x)) is Some && place(t.0, t.1.disk, x) == (
        #[trigger] place(t.0, t.1.disk, y)) implies x == y by {
        assert(place(u.0, u.1.disk, x) == place(u.0, u.1.disk, y));
    }
}

/// What was written to a file is read back after the file was flushed and its
/// inode is loaded anew, and every other byte is read as before the write.  The
/// pages that had changed got places.
pub proof fn law_synced_write_is_read_back(
    fs: FsModel,
    m: InodeModel,
    offset: int,
    buf: Seq<u8>,
    n: nat,
    p: int,
)
    requires
        in_order(fs, m),
        m.disk.wf(),
        inode_place(fs, m.num) is Some,
        foreign(fs, m.disk, (inode_place(fs, m.num)->0).0),
        0 <= offset,
        inode_write::end_ok(offset, buf.len() as int),
        inode_write::tree_written(fs, m, offset, buf) is Some,
        ({
            let t = inode_write::tree_written(fs, m, offset, buf)->0;
            &&& synced(t.0, t.1, n) is Some
            &&& gets_places(t.0, t.1, n)
            &&& inode_sync::all_below(t.1, n)
        }),
        n <= usize::MAX + 1,
        0 <= p,
        p / 4096 <= u32::MAX,
    ensures
        ({
            let t = inode_write::tree_written(fs, m, offset, buf)->0;
            let after = (synced(t.0, t.1, n)->0).0;
            let again = inode_table::fresh(m.num, stored_inode(after, m.num), m.seals);
            let end = offset + buf.len();
            &&& again.disk.size() == (if m.disk.size() < end {
                end
            } else {
                m.disk.size()
            })
            &&& inode::page_of(after, again, p / 4096) is Some
            &&& inode::byte_of(after, again, p) == (if offset <= p < end {
                buf[p - offset]
            } else {
                inode::byte_of(fs, m, p)
            })
        }),
{
    let t = inode_write::tree_written(fs, m, offset, buf)->0;
    let w = (inode_place(fs, m.num)->0).0;
    law_write_keeps_the_file_in_order(fs, m, offset, buf, w);
    tree_laws::law_write_changes_its_bytes_alone(fs, m, offset, buf, p);
    lemma_same_place(fs, t.0, m.num);
    assert(pages_flushed(t.0, t.1, n) is Some);
    law_synced_file_reads_the_same(t.0, t.1, n, p / 4096);
    let after = (synced(t.0, t.1, n)->0).0;
    let again = inode_table::fresh(m.num, stored_inode(after, m.num), m.seals);
    assert(inode::page_of(after, again, p / 4096)->0.data == inode::page_of(
        t.0,
        t.1,
        p / 4096,
    )->0.data);
}

// ---------------------------------------------------------------------------
// Direct writes
// ---------------------------------------------------------------------------

/// A part of a block that is written is the block written with that part.
proof fn lemma_part_written(disk: Seq<u8>, b: int, at: int, part: Seq<u8>)
    requires
        node_on(disk, 4096, b),
        0 <= at,
        at + part.len() <= 4096,
    ensures
        ({
            let data = bytes::splice(node_at(disk, 4096, b), at, part);
            &&& data.len() == 4096
            &&& bytes::splice(disk, b * 4096 + at, part) == bytes::splice(disk, b * 4096, data)
        }),
{
    let data = bytes::splice(node_at(disk, 4096, b), at, part);
    let x = bytes::splice(disk, b * 4096 + at, part);
    let y = bytes::splice(disk, b * 4096, data);
    assert forall|i: int| 0 <= i < disk.len() implies x[i] == y[i] by {
        if b * 4096 <= i < b * 4096 + 4096 {
            assert(y[i] == data[i - b * 4096]);
        }
    }
    assert(x =~= y);
}

/// Where the page that a block holds stands.
proof fn lemma_stored_at(fs: FsModel, d: InodeDiskModel, b: int, data: Seq<u8>)
    requires
        tidy(fs, d),
        data_ok(fs, d, b),
        inode::stored_page(fs.disk, fs.bs(), b) == Some(data),
    ensures
        fs.bs() == 4096,
        node_on(fs.disk, 4096, b),
        node_at(fs.disk, 4096, b) == data,
{
    tree_laws::lemma_limit(fs);
    assert(!inode::marks_hole(b));
}

/// What stands at the block that is found or made for a page.
#[verifier::rlimit(60)]
proof fn lemma_target(fs: FsModel, d: InodeDiskModel, idx: int)
    requires
        tidy(fs, d),
        0 <= idx <= u32::MAX,
        inode_write::extent_for(fs, d, idx) is Some,
    ensures
        ({
            let u = inode_write::extent_for(fs, d, idx)->0;
            &&& u.0.bs() == 4096
            &&& node_on(u.0.disk, 4096, u.2.target(idx))
            &&& node_at(u.0.disk, 4096, u.2.target(idx)) == content(fs, d, idx)
        }),
{
    let u = inode_write::extent_for(fs, d, idx)->0;
    tree_laws::lemma_extent_step(fs, d, idx);
    lemma_stored_at(u.0, u.1, u.2.target(idx), content(fs, d, idx));
}

/// One page of a direct write.
#[verifier::rlimit(60)]
proof fn lemma_direct_step(fs: FsModel, d: InodeDiskModel, idx: int, at: int, part: Seq<u8>)
    requires
        tidy(fs, d),
        unshared(fs, d),
        0 <= idx <= u32::MAX,
        0 <= at,
        at + part.len() <= 4096,
        inode_write::extent_for(fs, d, idx) is Some,
    ensures
        ({
            let u = inode_write::extent_for(fs, d, idx)->0;
            let b = u.2.target(idx);
            let fs2 = FsModel { disk: bytes::splice(u.0.disk, b * 4096 + at, part), ..u.0 };
            let data = bytes::splice(content(fs, d, idx), at, part);
            &&& tidy(fs2, u.1)
            &&& unshared(fs2, u.1)
            &&& u.1 == d.with_block(u.1.block)
            &&& depth_of(u.1) == 0 ==> depth_of(d) == 0
            &&& content(fs, d, idx).len() == 4096
            &&& forall|x: int|
                depth_of(u.1) == 0 ==> #[trigger] content(fs2, u.1, x) == (if x == idx {
                    data
                } else {
                    content(fs, d, x)
                })
        }),
{
    let u = inode_write::extent_for(fs, d, idx)->0;
    let b = u.2.target(idx);
    assert(d == d.with_block(d.block));
    lemma_target(fs, d, idx);
    lemma_part_written(u.0.disk, b, at, part);
    let data = bytes::splice(content(fs, d, idx), at, part);
    lemma_placed(fs, d, idx, data);
    assert(u.1 == d.with_block(u.1.block)) by {
        reveal(inode_write::extent_for);
    }
    let fs2 = FsModel { disk: bytes::splice(u.0.disk, b * u.0.bs(), data), ..u.0 };
    assert forall|x: int| depth_of(u.1) == 0 implies #[trigger] content(fs2, u.1, x) == (if x
        == idx {
        data
    } else {
        content(fs, d, x)
    }) by {
        assert(depth_of(u.1) == 0 ==> place(fs2, u.1, idx) is Some);
    }
}

/// What every byte of the file is on the device after a direct write.
proof fn lemma_direct(fs: FsModel, d: InodeDiskModel, offset: int, buf: Seq<u8>, p: int)
    requires
        tidy(fs, d),
        unshared(fs, d),
        0 <= offset,
        0 <= p,
        p / 4096 <= u32::MAX,
        inode_write::direct_written(fs, d, offset, buf) is Some,
        depth_of((inode_write::direct_written(fs, d, offset, buf)->0).1) == 0,
    ensures
        ({
            let t = inode_write::direct_written(fs, d, offset, buf)->0;
            &&& tidy(t.0, t.1)
            &&& unshared(t.0, t.1)
            &&& depth_of(d) == 0
            &&& t.1 == d.with_block(t.1.block)
            &&& content(t.0, t.1, p / 4096)[p % 4096] == (if offset <= p < offset + buf.len() {
                buf[p - offset]
            } else {
                content(fs, d, p / 4096)[p % 4096]
            })
        }),
    decreases buf.len(),
{
    assert(d == d.with_block(d.block));
    if buf.len() > 0 {
        let n = inode_write::in_first_page(offset, buf.len() as int);
        let idx = offset / 4096;
        let at = offset % 4096;
        let u = inode_write::extent_for(fs, d, idx)->0;
        let b = u.2.target(idx);
        let part = buf.take(n);
        let rest = buf.skip(n);
        lemma_direct_step(fs, d, idx, at, part);
        let fs2 = FsModel { disk: bytes::splice(u.0.disk, b * 4096 + at, part), ..u.0 };
        let data = bytes::splice(content(fs, d, idx), at, part);
        assert(inode_write::direct_written(fs, d, offset, buf) == inode_write::direct_written(
            fs2,
            u.1,
            offset + n,
            rest,
        ));
        lemma_direct(fs2, u.1, offset + n, rest, p);
        let k = p / 4096;
        assert(content(fs2, u.1, k) == (if k == idx {
            data
        } else {
            content(fs, d, k)
        }));
        if k == idx {
            assert(p % 4096 - at == p - offset);
            if offset <= p < offset + n {
                assert(part[p - offset] == buf[p - offset]);
            }
        } else {
            assert(!(offset <= p < offset + n));
        }
        if offset + n <= p < offset + buf.len() {
            assert(rest[p - (offset + n)] == buf[p - offset]);
        }
    }
}

/// A direct write stands on the device: a page that is not cached reads what was
/// written to it, and else what it held; the file reaches to the end of what was
/// written, if it was smaller.  The file's extents still stand in its inode.
pub proof fn law_direct_write_is_read_back(
    fs: FsModel,
    m: InodeModel,
    offset: int,
    buf: Seq<u8>,
    p: int,
)
    requires
        tidy(fs, m.disk),
        unshared(fs, m.disk),
        0 <= offset,
        inode_write::end_ok(offset, buf.len() as int),
        0 <= p,
        p / 4096 <= u32::MAX,
        !m.pages.contains_key((p / 4096) as usize),
        inode_write::tree_written_direct(fs, m, offset, buf) is Some,
        depth_of((inode_write::tree_written_direct(fs, m, offset, buf)->0).1.disk) == 0,
    ensures
        ({
            let t = inode_write::tree_written_direct(fs, m, offset, buf)->0;
            let end = offset + buf.len();
            &&& t.1.disk.size() == (if m.disk.size() < end {
                end
            } else {
                m.disk.size()
            })
            &&& inode::page_of(t.0, t.1, p / 4096) is Some
            &&& inode::byte_of(t.0, t.1, p) == (if offset <= p < end {
                buf[p - offset]
            } else {
                inode::byte_of(fs, m, p)
            })
        }),
{
    let u = inode_write::direct_written(fs, m.disk, offset, buf)->0;
    let t = inode_write::tree_written_direct(fs, m, offset, buf)->0;
    lemma_direct(fs, m.disk, offset, buf, p);
    tree_laws::lemma_uncached(fs, m, p / 4096);
    tree_laws::lemma_same_tree(u.0, m.with_disk(u.1), t.1);
    tree_laws::lemma_uncached(u.0, m.with_disk(u.1), p / 4096);
    assert(inode::page_of(u.0, t.1, p / 4096) == inode::page_of(u.0, m.with_disk(u.1), p / 4096));
}

/// A direct write to a file that an inode cannot hold gives what a write through
/// its tree gives: the bytes stand on the device, and the file reaches to the end
/// of what was written, if it was smaller.
pub proof fn law_direct_write(fs: FsModel, m: InodeModel, offset: int, buf: Seq<u8>, p: int)
    requires
        tidy(fs, m.disk),
        unshared(fs, m.disk),
        0 <= offset,
        inode_write::end_ok(offset, buf.len() as int),
        offset + buf.len() > 60,
        m.disk.size() > 60,
        0 <= p,
        p / 4096 <= u32::MAX,
        !m.pages.contains_key((p / 4096) as usize),
        inode_write::direct(fs, m, offset, buf) is Some,
        depth_of((inode_write::direct(fs, m, offset, buf)->0).1.disk) == 0,
    ensures
        ({
            let t = inode_write::direct(fs, m, offset, buf)->0;
            let end = offset + buf.len();
            &&& t.1.disk.size() == (if m.disk.size() < end {
                end
            } else {
                m.disk.size()
            })
            &&& inode::page_of(t.0, t.1, p / 4096) is Some
            &&& inode::byte_of(t.0, t.1, p) == (if offset <= p < end {
                buf[p - offset]
            } else {
                inode::byte_of(fs, m, p)
            })
        }),
{
    law_direct_write_is_read_back(fs, m, offset, buf, p);
}

} // verus!
