//! What is free after blocks, inodes or whole files were given back.
use vstd::prelude::*;
use crate::bytes;
use crate::fs::ext4::bitmap;
use crate::fs::ext4::bitmap::bit_set;
use crate::fs::ext4::block_group;
use crate::fs::ext4::extent_laws::spaced;
use crate::fs::ext4::extent_tree::{extents_of, header_of, mapping, node_at, node_on, Ext4Extent};
use crate::fs::ext4::fs;
use crate::fs::ext4::fs::FsModel;
use crate::fs::ext4::fs_laws;
use crate::fs::ext4::fs_laws::{bitmap_block, bitmap_of, block_limit, in_use};
use crate::fs::ext4::inode::InodeModel;
use crate::fs::ext4::inode_disk;
use crate::fs::ext4::inode_disk::InodeDiskModel;
use crate::fs::ext4::inode_size;
use crate::fs::ext4::inode_size::{tail_freed, truncated};
use crate::fs::ext4::inode_table;
use crate::fs::ext4::inode_table::{extents_freed, inode_place, released, with_stored};
use crate::fs::ext4::inode_write;
use crate::search;

verus! {

/// Each group has one whole block of bits on the device, all different.
pub open spec fn has_maps(fs: FsModel) -> bool {
    &&& fs.wf()
    &&& fs.sb.blocks_per_group == 8 * fs.bs()
    &&& forall|g: int|
        0 <= g < fs.groups.len() ==> node_on(fs.disk, fs.bs(), #[trigger] bitmap_block(fs, g))
    &&& forall|g: int, h: int|
        0 <= g < h < fs.groups.len() ==> #[trigger] bitmap_block(fs, g) != #[trigger] bitmap_block(
            fs,
            h,
        )
}

/// The blocks of a run can be given back: they end before the last bytes of
/// their group's bitmap.
pub open spec fn freeable(fs: FsModel, block: int, count: int) -> bool {
    &&& 0 <= block < block_limit(fs)
    &&& (block % fs.sb.blocks_per_group) / 8 + count < fs.bs()
}

/// The bitmap of group `h` after a run of blocks was given back.
proof fn lemma_map_after(fs: FsModel, block: int, count: int, h: int, k: int)
    requires
        has_maps(fs),
        count >= 0,
        freeable(fs, block, count),
        fs::blocks_freed(fs, block, count) is Some,
        0 <= h < fs.groups.len(),
        0 <= k < 8 * fs.bs(),
    ensures
        ({
            let after = fs::blocks_freed(fs, block, count)->0;
            let g = block / fs.sb.blocks_per_group;
            let i = block % fs.sb.blocks_per_group;
            &&& fs::same_shape(fs, after)
            &&& after.sb.free_blocks_count == fs.sb.free_blocks_count + count
            &&& bitmap_block(after, h) == bitmap_block(fs, h)
            &&& i + count <= 8 * fs.bs()
            &&& bit_set(bitmap_of(after, h), k) == (bit_set(bitmap_of(fs, h), k) && !(h == g && i
                <= k < i + count))
        }),
{
    let bs = fs.bs();
    let per = fs.sb.blocks_per_group;
    let g = block / per;
    let i = block % per;
    let after = fs::blocks_freed(fs, block, count)->0;
    vstd::arithmetic::div_mod::lemma_fundamental_div_mod(block, per);
    assert(i / (bs * 8) == 0 && i % (bs * 8) == i) by (nonlinear_arith)
        requires
            0 <= i < bs * 8,
    ;
    let map = bitmap_block(fs, g);
    assert(node_on(fs.disk, bs, map));
    assert(node_on(fs.disk, bs, bitmap_block(fs, h)));
    let node = node_at(fs.disk, bs, map);
    assert(bitmap::freed_run(node, i, count, bs) == bitmap::without_range(node, i, count));
    bitmap::law_ranges(node, i, count, k);
    let new = bitmap::without_range(node, i, count);
    assert(after.disk == bytes::splice(fs.disk, map * bs, new.take(bs)));
    if h != g {
        if h < g {
            assert(bitmap_block(fs, h) != bitmap_block(fs, g));
        } else {
            assert(bitmap_block(fs, g) != bitmap_block(fs, h));
        }
        fs_laws::lemma_apart(bitmap_block(fs, h), map, bs);
        assert(bitmap_of(after, h) =~= bitmap_of(fs, h));
    } else {
        assert(bitmap_of(after, g) =~= new.take(bs));
        assert(bitmap_of(after, g)[k / 8] == new[k / 8]);
        assert(bitmap_of(fs, g)[k / 8] == node[k / 8]);
    }
}

/// Where block `x` stands in the bitmaps.
proof fn lemma_place(fs: FsModel, x: int)
    requires
        fs.wf(),
        0 <= x < block_limit(fs),
    ensures
        0 <= x / fs.sb.blocks_per_group < fs.groups.len(),
        0 <= x % fs.sb.blocks_per_group < fs.sb.blocks_per_group,
        x == fs.sb.blocks_per_group * (x / fs.sb.blocks_per_group) + x % fs.sb.blocks_per_group,
{
    let per = fs.sb.blocks_per_group;
    let h = x / per;
    let k = x % per;
    vstd::arithmetic::div_mod::lemma_fundamental_div_mod(x, per);
    assert(0 <= h < fs.groups.len()) by (nonlinear_arith)
        requires
            x == per * h + k,
            0 <= k < per,
            0 <= x < per * fs.groups.len(),
    ;
}

/// A run of blocks that is given back is free afterwards and counted as such; no
/// other block's mark changes.
pub proof fn law_freed_run_is_free(fs: FsModel, block: int, count: int)
    requires
        has_maps(fs),
        count >= 0,
        freeable(fs, block, count),
        fs::blocks_freed(fs, block, count) is Some,
    ensures
        ({
            let after = fs::blocks_freed(fs, block, count)->0;
            &&& has_maps(after)
            &&& fs::same_shape(fs, after)
            &&& after.sb.free_blocks_count == fs.sb.free_blocks_count + count
            &&& forall|x: int|
                0 <= x < block_limit(fs) ==> #[trigger] in_use(after, x) == (in_use(fs, x) && !(
                block <= x < block + count))
        }),
{
    let after = fs::blocks_freed(fs, block, count)->0;
    let per = fs.sb.blocks_per_group;
    let g = block / per;
    let i = block % per;
    lemma_place(fs, block);
    lemma_map_after(fs, block, count, g, 0);
    assert forall|x: int| 0 <= x < block_limit(fs) implies #[trigger] in_use(after, x) == (in_use(
        fs,
        x,
    ) && !(block <= x < block + count)) by {
        lemma_place(fs, x);
        let h = x / per;
        let k = x % per;
        lemma_map_after(fs, block, count, h, k);
        assert((h == g && i <= k < i + count) == (block <= x < block + count)) by (nonlinear_arith)
            requires
                x == per * h + k,
                block == per * g + i,
                0 <= k < per,
                0 <= i,
                i + count <= per,
        ;
    }
    assert forall|h: int| 0 <= h < after.groups.len() implies node_on(
        after.disk,
        after.bs(),
        #[trigger] bitmap_block(after, h),
    ) by {
        lemma_map_after(fs, block, count, h, 0);
        assert(node_on(fs.disk, fs.bs(), bitmap_block(fs, h)));
    }
    assert forall|h: int, k: int| 0 <= h < k < after.groups.len() implies #[trigger] bitmap_block(
        after,
        h,
    ) != #[trigger] bitmap_block(after, k) by {
        lemma_map_after(fs, block, count, h, 0);
        lemma_map_after(fs, block, count, k, 0);
        assert(bitmap_block(fs, h) != bitmap_block(fs, k));
    }
}

// ---------------------------------------------------------------------------
// Truncation
// ---------------------------------------------------------------------------

/// All extents can be given back.
pub open spec fn all_freeable(fs: FsModel, es: Seq<Ext4Extent>) -> bool {
    forall|i: int| 0 <= i < es.len() ==> freeable(fs, (#[trigger] es[i]).phys(), es[i].len as int)
}

/// Block `x` of the device is one that an extent starting at a logical block from
/// `lb` up to `to` maps.
pub open spec fn behind(es: Seq<Ext4Extent>, lb: int, to: int, x: int) -> bool {
    exists|i: int|
        0 <= i < es.len() && lb <= (#[trigger] es[i]).logical_block < to && es[i].phys() <= x
            < es[i].phys() + es[i].len
}

/// No extent begins before logical block `lb` and reaches over it.
pub open spec fn splits_none(es: Seq<Ext4Extent>, lb: int) -> bool {
    forall|i: int|
        0 <= i < es.len() ==> !((#[trigger] es[i]).logical_block < lb < es[i].logical_block
            + es[i].len)
}

proof fn lemma_tail(fs: FsModel, d: InodeDiskModel, lb: int, to: int)
    requires
        has_maps(fs),
        header_of(d.block).depth == 0,
        spaced(extents_of(d.block)),
        all_freeable(fs, extents_of(d.block)),
        splits_none(extents_of(d.block), lb),
        tail_freed(fs, d, lb, to) is Some,
    ensures
        ({
            let after = tail_freed(fs, d, lb, to)->0;
            &&& has_maps(after)
            &&& fs::same_shape(fs, after)
            &&& forall|x: int|
                0 <= x < block_limit(fs) ==> #[trigger] in_use(after, x) == (in_use(fs, x)
                    && !behind(extents_of(d.block), lb, to, x))
        }),
    decreases
            (if lb < to {
                to - lb
            } else {
                0
            }),
{
    let es = extents_of(d.block);
    let after = tail_freed(fs, d, lb, to)->0;
    search::lemma_first_index(es, mapping(lb), 0);
    if lb < to {
        match search::first_index(es, mapping(lb), 0) {
            None => {
                assert forall|i: int| 0 <= i < es.len() implies !((#[trigger] es[i]).logical_block
                    <= lb < es[i].logical_block + es[i].len) by {
                    assert(!mapping(lb)(es[i]));
                }
                lemma_tail(fs, d, lb + 1, to);
                assert forall|x: int| 0 <= x < block_limit(fs) implies #[trigger] in_use(after, x)
                    == (in_use(fs, x) && !behind(es, lb, to, x)) by {
                    assert(behind(es, lb, to, x) == behind(es, lb + 1, to, x));
                }
            },
            Some(n) => {
                let e = es[n];
                assert(mapping(lb)(e));
                assert(e.logical_block == lb);
                let fs1 = fs::blocks_freed(fs, e.phys(), e.len as int)->0;
                law_freed_run_is_free(fs, e.phys(), e.len as int);
                assert forall|i: int| 0 <= i < es.len() implies freeable(
                    fs1,
                    (#[trigger] es[i]).phys(),
                    es[i].len as int,
                ) by {
                    assert(freeable(fs, es[i].phys(), es[i].len as int));
                }
                assert forall|i: int| 0 <= i < es.len() && i != n implies (
                #[trigger] es[i]).logical_block + es[i].len <= lb || lb + e.len
                    <= es[i].logical_block by {
                    if i < n {
                        assert(es[i].logical_block + es[i].len <= es[n].logical_block);
                    } else {
                        assert(es[n].logical_block + es[n].len <= es[i].logical_block);
                    }
                }
                lemma_tail(fs1, d, lb + e.len, to);
                assert forall|x: int| 0 <= x < block_limit(fs) implies #[trigger] in_use(after, x)
                    == (in_use(fs, x) && !behind(es, lb, to, x)) by {
                    assert(in_use(fs1, x) == (in_use(fs, x) && !(e.phys() <= x < e.phys()
                        + e.len)));
                    lemma_behind(es, n, to, x);
                }
            },
        }
    }
}

proof fn lemma_behind(es: Seq<Ext4Extent>, n: int, to: int, x: int)
    requires
        spaced(es),
        0 <= n < es.len(),
        es[n].logical_block < to,
    ensures
        behind(es, es[n].logical_block as int, to, x) == (behind(
            es,
            es[n].logical_block + es[n].len,
            to,
            x,
        ) || es[n].phys() <= x < es[n].phys() + es[n].len),
{
    let lb = es[n].logical_block as int;
    if behind(es, lb, to, x) {
        let i = choose|i: int|
            0 <= i < es.len() && lb <= (#[trigger] es[i]).logical_block < to && es[i].phys() <= x
                < es[i].phys() + es[i].len;
        if i < n {
            assert(es[i].logical_block + es[i].len <= es[n].logical_block);
        } else if i > n {
            assert(es[n].logical_block + es[n].len <= es[i].logical_block);
        }
    }
    if behind(es, lb + es[n].len, to, x) {
        let i = choose|i: int|
            0 <= i < es.len() && lb + es[n].len <= (#[trigger] es[i]).logical_block < to
                && es[i].phys() <= x < es[i].phys() + es[i].len;
        assert(lb <= es[i].logical_block < to);
    }
}

proof fn lemma_units(n: int, d: int)
    requires
        0 <= n,
        0 < d,
    ensures
        inode_size::units(n, d) == (n + d - 1) / d,
{
    let q = n / d;
    let r = n % d;
    vstd::arithmetic::div_mod::lemma_fundamental_div_mod(n, d);
    assert(q * d == d * q && (q + 1) * d == d * q + d) by (nonlinear_arith);
    if r == 0 {
        vstd::arithmetic::div_mod::lemma_fundamental_div_mod_converse(n + d - 1, d, q, d - 1);
    } else {
        vstd::arithmetic::div_mod::lemma_fundamental_div_mod_converse(n + d - 1, d, q + 1, r - 1);
    }
}

/// A file that is made smaller gives back the blocks of the extents behind its new
/// end, and no others.  Its extents stand in its inode, none of them reaches over
/// the new end, and its last page is whole or cached.
pub proof fn law_truncation_gives_blocks_back(fs: FsModel, m: InodeModel, new: int)
    requires
        has_maps(fs),
        !m.disk.inline_data(),
        header_of(m.disk.block).depth == 0,
        spaced(extents_of(m.disk.block)),
        all_freeable(fs, extents_of(m.disk.block)),
        0 <= new < m.disk.size(),
        m.disk.size() < 0xFFFF_FFFF * fs.bs(),
        splits_none(extents_of(m.disk.block), (new + fs.bs() - 1) / fs.bs()),
        m.disk.size() % 4096 == 0 || m.pages.contains_key((m.disk.size() / 4096) as usize),
        truncated(fs, m, new) is Some,
        (truncated(fs, m, new)->0).2 is Ok,
    ensures
        ({
            let t = truncated(fs, m, new)->0;
            forall|x: int|
                0 <= x < block_limit(fs) ==> #[trigger] in_use(t.0, x) == (in_use(fs, x) && !behind(
                    extents_of(m.disk.block),
                    (new + fs.bs() - 1) / fs.bs(),
                    (m.disk.size() + fs.bs() - 1) / fs.bs(),
                    x,
                ))
        }),
{
    let current = m.disk.size();
    let bs = fs.bs();
    let u = inode_size::last_page_cleared(fs, m, current, new)->0;
    assert(u.0 == fs && u.1.disk == m.disk) by {
        reveal(inode_write::fetched);
    }
    let count = (new + bs - 1) / bs;
    let all = (current + bs - 1) / bs;
    assert(0 <= count <= 0xFFFF_FFFF && 0 <= all <= 0xFFFF_FFFF) by {
        vstd::arithmetic::div_mod::lemma_fundamental_div_mod(new + bs - 1, bs);
        vstd::arithmetic::div_mod::lemma_fundamental_div_mod(current + bs - 1, bs);
        assert(0 <= count <= 0xFFFF_FFFF && 0 <= all <= 0xFFFF_FFFF) by (nonlinear_arith)
            requires
                new + bs - 1 == bs * count + (new + bs - 1) % bs,
                current + bs - 1 == bs * all + (current + bs - 1) % bs,
                0 <= (new + bs - 1) % bs < bs,
                0 <= (current + bs - 1) % bs < bs,
                0 <= new < current < 0xFFFF_FFFF * bs,
                bs > 0,
        ;
    }
    lemma_units(new, bs);
    lemma_units(current, bs);
    lemma_tail(fs, m.disk, count, all);
}

// ---------------------------------------------------------------------------
// Release
// ---------------------------------------------------------------------------

/// Block `x` of the device is one that an extent maps.
pub open spec fn covers(es: Seq<Ext4Extent>, x: int) -> bool {
    exists|i: int|
        0 <= i < es.len() && (#[trigger] es[i]).phys() <= x < es[i].phys() + es[i].len
}

/// Number of blocks that extents map.
pub open spec fn block_total(es: Seq<Ext4Extent>) -> int
    decreases es.len(),
{
    if es.len() == 0 {
        0
    } else {
        es[0].len + block_total(es.drop_first())
    }
}

/// Blocks of extents that are given back are free afterwards and counted as such;
/// no other block's mark changes.
pub proof fn law_freed_extents_are_free(fs: FsModel, es: Seq<Ext4Extent>)
    requires
        has_maps(fs),
        all_freeable(fs, es),
        extents_freed(fs, es) is Some,
    ensures
        ({
            let after = extents_freed(fs, es)->0;
            &&& has_maps(after)
            &&& after.sb.free_blocks_count == fs.sb.free_blocks_count + block_total(es)
            &&& forall|x: int|
                0 <= x < block_limit(fs) ==> #[trigger] in_use(after, x) == (in_use(fs, x)
                    && !covers(es, x))
        }),
    decreases es.len(),
{
    if es.len() > 0 {
        let rest = es.drop_first();
        let after = extents_freed(fs, es)->0;
        assert(freeable(fs, es[0].phys(), es[0].len as int));
        law_freed_run_is_free(fs, es[0].phys(), es[0].len as int);
        let fs1 = fs::blocks_freed(fs, es[0].phys(), es[0].len as int)->0;
        assert forall|i: int| 0 <= i < rest.len() implies freeable(
            fs1,
            (#[trigger] rest[i]).phys(),
            rest[i].len as int,
        ) by {
            assert(rest[i] == es[i + 1]);
            assert(freeable(fs, es[i + 1].phys(), es[i + 1].len as int));
        }
        law_freed_extents_are_free(fs1, rest);
        assert forall|x: int| 0 <= x < block_limit(fs) implies #[trigger] in_use(after, x) == (
        in_use(fs, x) && !covers(es, x)) by {
            assert(in_use(fs1, x) == (in_use(fs, x) && !(es[0].phys() <= x < es[0].phys()
                + es[0].len)));
            if covers(rest, x) {
                let i = choose|i: int|
                    0 <= i < rest.len() && (#[trigger] rest[i]).phys() <= x < rest[i].phys()
                        + rest[i].len;
                assert(rest[i] == es[i + 1]);
            }
            if covers(es, x) {
                let i = choose|i: int|
                    0 <= i < es.len() && (#[trigger] es[i]).phys() <= x < es[i].phys() + es[i].len;
                if i > 0 {
                    assert(rest[i - 1] == es[i]);
                }
            }
        }
    }
}

/// A file that still has a link keeps its blocks when it is released: its inode is
/// stored, and no block is given back.
pub proof fn law_linked_file_is_kept(fs: FsModel, m: InodeModel)
    requires
        fs.wf(),
        m.disk.wf(),
        m.disk.links_count > 0,
        m.disk.inline_data() ==> !m.pages.contains_key(0),
        released(fs, m) is Some,
    ensures
        ({
            let after = released(fs, m)->0;
            &&& inode_table::stored_inode(after, m.num) == m.disk
            &&& after.sb == fs.sb
            &&& after.groups == fs.groups
        }),
{
    inode_table::law_stored_inode_is_loaded(fs, m.num, m.disk);
}

/// A file without links gives all its blocks back when it is released.  Its
/// extents stand in its inode, which is not stored in a bitmap.
pub proof fn law_unlinked_file_is_freed(fs: FsModel, m: InodeModel)
    requires
        has_maps(fs),
        m.disk.wf(),
        m.disk.links_count == 0,
        m.disk.uses_extents(),
        !m.disk.inline_data(),
        header_of(m.disk.block).depth == 0,
        all_freeable(fs, extents_of(m.disk.block)),
        inode_place(fs, m.num) is Some,
        forall|g: int|
            0 <= g < fs.groups.len() ==> #[trigger] bitmap_block(fs, g) != (inode_place(
                fs,
                m.num,
            )->0).0,
        released(fs, m) is Some,
    ensures
        ({
            let after = released(fs, m)->0;
            &&& after.sb.free_blocks_count == fs.sb.free_blocks_count + block_total(
                extents_of(m.disk.block),
            )
            &&& forall|x: int|
                0 <= x < block_limit(fs) ==> #[trigger] in_use(after, x) == (in_use(fs, x)
                    && !covers(extents_of(m.disk.block), x))
        }),
{
    let fs1 = with_stored(fs, m.num, m.disk);
    let after = released(fs, m)->0;
    let p = inode_place(fs, m.num)->0;
    let es = extents_of(m.disk.block);
    inode_disk::lemma_enc_len(m.disk);
    vstd::arithmetic::div_mod::lemma_mod_bound(
        (m.num - 1) % fs.sb.inodes_per_group * fs.sb.inode_size,
        fs.bs(),
    );
    assert forall|g: int| 0 <= g < fs.groups.len() implies bitmap_of(fs1, g) == bitmap_of(fs, g)
        && node_on(fs1.disk, fs.bs(), #[trigger] bitmap_block(fs1, g)) by {
        assert(bitmap_block(fs, g) != p.0);
        assert(node_on(fs.disk, fs.bs(), bitmap_block(fs, g)));
        fs_laws::lemma_apart(bitmap_block(fs, g), p.0, fs.bs());
        assert(bitmap_of(fs1, g) =~= bitmap_of(fs, g));
    }
    assert forall|g: int, h: int| 0 <= g < h < fs1.groups.len() implies #[trigger] bitmap_block(
        fs1,
        g,
    ) != #[trigger] bitmap_block(fs1, h) by {
        assert(bitmap_block(fs, g) != bitmap_block(fs, h));
    }
    assert forall|i: int| 0 <= i < es.len() implies freeable(
        fs1,
        (#[trigger] es[i]).phys(),
        es[i].len as int,
    ) by {
        assert(freeable(fs, es[i].phys(), es[i].len as int));
    }
    law_freed_extents_are_free(fs1, es);
    assert forall|x: int| 0 <= x < block_limit(fs) implies #[trigger] in_use(after, x) == (in_use(
        fs,
        x,
    ) && !covers(es, x)) by {
        lemma_place(fs, x);
        assert(bitmap_block(fs1, x / fs.sb.blocks_per_group) == bitmap_block(
            fs,
            x / fs.sb.blocks_per_group,
        ));
        assert(in_use(fs1, x) == in_use(fs, x));
    }
}

// ---------------------------------------------------------------------------
// Inodes
// ---------------------------------------------------------------------------

/// Freeing an item of a bitmap frees that item and no other.
pub proof fn law_freed_item(b: Seq<u8>, i: int, size: int, k: int)
    requires
        0 <= i < 8 * b.len(),
        i < 8 * size,
        0 <= k < 8 * b.len(),
    ensures
        bitmap::freed_one(b, i, size).len() == b.len(),
        bit_set(bitmap::freed_one(b, i, size), k) == (k != i && bit_set(b, k)),
{
    bitmap::lemma_bit(b, i, k);
}

/// An inode that is given back is counted as free, and is free in its bitmap; no
/// other mark of the bitmap changes.  Its directory is not counted any more.
pub proof fn law_freed_inode_is_free(
    disk: Seq<u8>,
    g: block_group::GroupDesc,
    local: int,
    is_dir: bool,
    inode_size: int,
    bs: int,
    size: int,
    k: int,
)
    requires
        1024 <= bs <= 4096,
        0 <= local < 8 * size,
        size <= bs,
        0 < inode_size,
        0 <= k < 8 * bs,
        g.inode_table + local * inode_size / bs != g.inode_bitmap,
        block_group::inode_freed(disk, g, local, is_dir, inode_size, bs, size) is Some,
    ensures
        ({
            let t = block_group::inode_freed(disk, g, local, is_dir, inode_size, bs, size)->0;
            let before = crate::fs::ext4::io::block_at(disk, bs, g.inode_bitmap as int);
            let after = crate::fs::ext4::io::block_at(t.0, bs, g.inode_bitmap as int);
            &&& t.0.len() == disk.len()
            &&& t.1.inner.free_inodes_count == g.inner.free_inodes_count + 1
            &&& is_dir ==> t.1.inner.used_dirs_count == g.inner.used_dirs_count - 1
            &&& !is_dir ==> t.1.inner.used_dirs_count == g.inner.used_dirs_count
            &&& t.1.inner.free_blocks_count == g.inner.free_blocks_count
            &&& bit_set(after, k) == (k != local && bit_set(before, k))
        }),
{
    let t = block_group::inode_freed(disk, g, local, is_dir, inode_size, bs, size)->0;
    let block = g.inode_table + local * inode_size / bs;
    let map = g.inode_bitmap as int;
    assert(local / (bs * 8) == 0 && local % (bs * 8) == local) by (nonlinear_arith)
        requires
            0 <= local < bs * 8,
    ;
    let node = node_at(disk, bs, block);
    let at = local * inode_size % bs;
    vstd::arithmetic::div_mod::lemma_mod_bound(local * inode_size, bs);
    let wiped = block_group::wiped_inode(node, at);
    assert(wiped.len() == 4096);
    let d1 = crate::fs::ext4::io::put_block(disk, bs, block, wiped);
    assert(d1 == bytes::splice(disk, block * bs, wiped.take(bs)));
    fs_laws::lemma_apart(block, map, bs);
    let before = crate::fs::ext4::io::block_at(disk, bs, map);
    let after = crate::fs::ext4::io::block_at(t.0, bs, map);
    let node1 = node_at(d1, bs, map);
    assert(node1.take(bs) =~= before);
    law_freed_item(node1, local, size, k);
    let new = bitmap::freed_one(node1, local, size);
    assert(after =~= new.take(bs));
    assert(after[k / 8] == new[k / 8]);
    assert(before[k / 8] == node1[k / 8]);
}

} // verus!
