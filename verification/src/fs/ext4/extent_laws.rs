//! What a file's extents map after one was looked up or inserted.
use vstd::prelude::*;
use crate::fs::ext4::extent_tree;
use crate::fs::ext4::extent_tree::{
    all_extents, best_idx, extent_of, extents_below, extents_of, find_extent, header_of, idxs_of,
    inserted, mapping, node_at, with_extents, Ext4Extent, Ext4ExtentIdx,
};
use crate::fs::ext4::fs::FsModel;
use crate::fs::ext4::inode_extents;
use crate::search;

verus! {

/// Extents in ascending order, none empty, none reaching into the next.
pub open spec fn spaced(es: Seq<Ext4Extent>) -> bool {
    &&& forall|i: int| 0 <= i < es.len() ==> (#[trigger] es[i]).len > 0
    &&& forall|i: int, j: int|
        0 <= i < j < es.len() ==> (#[trigger] es[i]).logical_block + es[i].len <= (
        #[trigger] es[j]).logical_block
}

/// No extent contains one of the `count` blocks from `lb` on.
pub open spec fn unmapped(es: Seq<Ext4Extent>, lb: int, count: int) -> bool {
    forall|i: int|
        0 <= i < es.len() ==> (#[trigger] es[i]).logical_block + es[i].len <= lb || lb + count
            <= es[i].logical_block
}

/// The block on the device for logical block `x`.
pub open spec fn place_of(es: Seq<Ext4Extent>, x: int) -> Option<int> {
    match search::first_index(es, mapping(x), 0) {
        Some(i) => Some(es[i].target(x)),
        None => None,
    }
}

/// An extent that would grow to hold the new blocks ends on the device where
/// these start, and stays within the length that an extent may have.
pub open spec fn joins_well(es: Seq<Ext4Extent>, lb: int, pb: int, count: int) -> bool {
    forall|i: int|
        0 <= i < es.len() && extent_tree::joins(lb, pb)(#[trigger] es[i]) ==> es[i].phys()
            + es[i].len == pb && es[i].len + count <= 32768
}

pub proof fn lemma_place(es: Seq<Ext4Extent>, x: int)
    requires
        spaced(es),
    ensures
        forall|k: int|
            0 <= k < es.len() && (#[trigger] es[k]).maps(x) ==> place_of(es, x) == Some(
                es[k].target(x),
            ),
        (forall|k: int| 0 <= k < es.len() ==> !(#[trigger] es[k]).maps(x)) ==> place_of(es, x) is None,
        place_of(es, x) is Some ==> exists|k: int| 0 <= k < es.len() && (#[trigger] es[k]).maps(x),
{
    search::lemma_first_index(es, mapping(x), 0);
    assert forall|k: int| 0 <= k < es.len() && (#[trigger] es[k]).maps(x) implies place_of(es, x)
        == Some(es[k].target(x)) by {
        assert(mapping(x)(es[k]));
        let i = search::first_index(es, mapping(x), 0)->0;
        if i < k {
            assert(es[i].logical_block + es[i].len <= es[k].logical_block);
        }
    }
}

/// Once the `count` blocks from `lb` on were mapped to the device's blocks from
/// `pb` on, they are found there; every other block is found where it was, the
/// extents are still in order, and there is at most one more.
pub proof fn law_inserted_extent_is_found(es: Seq<Ext4Extent>, lb: int, pb: int, count: int, x: int)
    requires
        spaced(es),
        0 <= lb <= u32::MAX,
        1 <= count <= 32768,
        0 <= pb < 0x1_0000_0000_0000,
        unmapped(es, lb, count),
        joins_well(es, lb, pb, count),
        inserted(es, lb, pb, count) is Some,
    ensures
        ({
            let es2 = inserted(es, lb, pb, count)->0;
            &&& spaced(es2)
            &&& es2.len() <= es.len() + 1
            &&& place_of(es2, x) == (if lb <= x < lb + count {
                Some(pb + x - lb)
            } else {
                place_of(es, x)
            })
        }),
{
    let es2 = inserted(es, lb, pb, count)->0;
    search::lemma_first_index(es, extent_tree::joins(lb, pb), 0);
    match search::first_index(es, extent_tree::joins(lb, pb), 0) {
        Some(i) => {
            assert(extent_tree::joins(lb, pb)(es[i]));
            assert forall|a: int, b: int| 0 <= a < b < es2.len() implies (
            #[trigger] es2[a]).logical_block + es2[a].len <= (#[trigger] es2[b]).logical_block by {
                assert(es[a].logical_block + es[a].len <= es[b].logical_block);
                assert(es[b].len > 0);
            }
            lemma_place(es2, x);
            lemma_place(es, x);
            if lb <= x < lb + count {
                assert(es2[i].maps(x));
            } else if place_of(es, x) is Some {
                let k = choose|k: int| 0 <= k < es.len() && (#[trigger] es[k]).maps(x);
                assert(es2[k].maps(x));
            } else {
                assert forall|k: int| 0 <= k < es2.len() implies !(#[trigger] es2[k]).maps(x) by {
                    if es2[k].maps(x) {
                        assert(es[k].maps(x));
                    }
                }
            }
        },
        None => {
            search::lemma_first_index(es, extent_tree::starts_after(lb), 0);
            let pos = match search::first_index(es, extent_tree::starts_after(lb), 0) {
                Some(i) => i,
                None => es.len() as int,
            };
            let e = extent_of(lb, count % 0x1_0000, pb);
            assert(es2 == es.insert(pos, e));
            assert(e.phys() == pb && e.len == count && e.logical_block == lb);
            assert forall|a: int| 0 <= a < pos implies (#[trigger] es[a]).logical_block + es[a].len
                <= lb by {
                assert(!extent_tree::starts_after(lb)(es[a]));
            }
            assert forall|a: int| pos <= a < es.len() implies lb + count <= (
            #[trigger] es[a]).logical_block by {
                assert(extent_tree::starts_after(lb)(es[pos]));
                if a > pos {
                    assert(es[pos].logical_block + es[pos].len <= es[a].logical_block);
                }
                assert(es[a].len > 0);
            }
            let old_of = |k: int| if k < pos { k } else { k - 1 };
            assert forall|a: int| 0 <= a < es2.len() implies (#[trigger] es2[a]).len > 0 by {
                if a != pos {
                    assert(es2[a] == es[old_of(a)]);
                }
            }
            assert forall|a: int, b: int| 0 <= a < b < es2.len() implies (
            #[trigger] es2[a]).logical_block + es2[a].len <= (#[trigger] es2[b]).logical_block by {
                if a != pos {
                    assert(es2[a] == es[old_of(a)]);
                }
                if b != pos {
                    assert(es2[b] == es[old_of(b)]);
                }
            }
            lemma_place(es2, x);
            lemma_place(es, x);
            if lb <= x < lb + count {
                assert(es2[pos] == e);
                assert(es2[pos].maps(x));
            } else if place_of(es, x) is Some {
                let k = choose|k: int| 0 <= k < es.len() && (#[trigger] es[k]).maps(x);
                let n = if k < pos { k } else { k + 1 };
                assert(es2[n] == es[k]);
            } else {
                assert forall|k: int| 0 <= k < es2.len() implies !(#[trigger] es2[k]).maps(x) by {
                    if k != pos {
                        assert(es2[k] == es[old_of(k)]);
                        assert(!es[old_of(k)].maps(x)) by {
                            if es[old_of(k)].maps(x) {
                                assert(place_of(es, x) is Some);
                            }
                        }
                    }
                }
            }
        },
    }
}

// ---------------------------------------------------------------------------
// Lookup
// ---------------------------------------------------------------------------

/// Where the part of the tree below child `i` ends, in a node that ends at `hi`.
pub open spec fn child_end(xs: Seq<Ext4ExtentIdx>, i: int, hi: int) -> int {
    if i + 1 < xs.len() {
        xs[i + 1].block as int
    } else {
        hi
    }
}

/// The extents below node `b` of depth `d` map blocks from `lo` up to `hi`, in
/// order, and the indices say where the part of each child starts.
pub open spec fn indexed(b: Seq<u8>, disk: Seq<u8>, bs: int, d: nat, lo: int, hi: int) -> bool
    decreases d,
{
    if d == 0 {
        &&& spaced(extents_of(b))
        &&& forall|i: int|
            0 <= i < extents_of(b).len() ==> lo <= (#[trigger] extents_of(b)[i]).logical_block
                && extents_of(b)[i].logical_block + extents_of(b)[i].len <= hi
    } else {
        let xs = idxs_of(b);
        &&& forall|i: int, j: int|
            0 <= i < j < xs.len() ==> (#[trigger] xs[i]).block < (#[trigger] xs[j]).block
        &&& forall|i: int|
            0 <= i < xs.len() ==> {
                let child = node_at(disk, bs, (#[trigger] xs[i]).leaf());
                &&& lo <= xs[i].block
                &&& child_end(xs, i, hi) <= hi
                &&& header_of(child).depth < d
                &&& indexed(
                    child,
                    disk,
                    bs,
                    header_of(child).depth as nat,
                    xs[i].block as int,
                    child_end(xs, i, hi),
                )
            }
    }
}

/// In ascending order, the best index is the last that starts at or below `lb`.
proof fn lemma_best(xs: Seq<Ext4ExtentIdx>, lb: int)
    requires
        forall|i: int, j: int|
            0 <= i < j < xs.len() ==> (#[trigger] xs[i]).block < (#[trigger] xs[j]).block,
    ensures
        match best_idx(xs, lb) {
            Some(i) => 0 <= i < xs.len() && xs[i].block <= lb && forall|j: int|
                i < j < xs.len() ==> (#[trigger] xs[j]).block > lb,
            None => forall|j: int| 0 <= j < xs.len() ==> (#[trigger] xs[j]).block > lb,
        },
    decreases xs.len(),
{
    if xs.len() > 0 {
        let init = xs.drop_last();
        assert forall|i: int, j: int| 0 <= i < j < init.len() implies (#[trigger] init[i]).block < (
        #[trigger] init[j]).block by {
            assert(xs[i].block < xs[j].block);
        }
        lemma_best(init, lb);
        let last = xs.len() - 1;
        match best_idx(init, lb) {
            Some(i) => {
                assert(init[i] == xs[i]);
                assert(xs[i].block < xs[last].block);
                assert forall|j: int| i < j < xs.len() && xs[last].block > lb implies (
                #[trigger] xs[j]).block > lb by {
                    if j < last {
                        assert(init[j] == xs[j]);
                    }
                }
            },
            None => {
                assert forall|j: int| 0 <= j < last implies (#[trigger] xs[j]).block > lb by {
                    assert(init[j] == xs[j]);
                }
            },
        }
    }
}

/// What is below the first `n` children.
proof fn lemma_below(b: Seq<u8>, disk: Seq<u8>, bs: int, d: nat, n: nat, e: Ext4Extent)
    requires
        n <= idxs_of(b).len(),
        forall|i: int|
            0 <= i < idxs_of(b).len() ==> header_of(
                node_at(disk, bs, (#[trigger] idxs_of(b)[i]).leaf()),
            ).depth < d,
    ensures
        extents_below(b, disk, bs, d, n).contains(e) <==> exists|i: int|
            0 <= i < n && below_child(b, disk, bs, i, e),
    decreases n,
{
    if n > 0 {
        lemma_below(b, disk, bs, d, (n - 1) as nat, e);
        let child = node_at(disk, bs, idxs_of(b)[n - 1].leaf());
        let x = extents_below(b, disk, bs, d, (n - 1) as nat);
        let y = all_extents(child, disk, bs, header_of(child).depth as nat);
        assert(extents_below(b, disk, bs, d, n) == x + y);
        if (x + y).contains(e) {
            let k = choose|k: int| 0 <= k < (x + y).len() && (x + y)[k] == e;
            if k < x.len() {
                assert(x[k] == e);
            } else {
                assert(y[k - x.len()] == e);
                assert(below_child(b, disk, bs, n - 1, e));
            }
        }
        if x.contains(e) {
            let k = choose|k: int| 0 <= k < x.len() && x[k] == e;
            assert((x + y)[k] == e);
        }
        if y.contains(e) {
            let k = choose|k: int| 0 <= k < y.len() && y[k] == e;
            assert((x + y)[x.len() + k] == e);
        }
        if exists|i: int| 0 <= i < n && below_child(b, disk, bs, i, e) {
            let i = choose|i: int| 0 <= i < n && below_child(b, disk, bs, i, e);
            if i < n - 1 {
                assert(x.contains(e));
            } else {
                assert(y.contains(e));
            }
        }
    }
}

/// A leaf below child `i` holds the extent.
pub open spec fn below_child(b: Seq<u8>, disk: Seq<u8>, bs: int, i: int, e: Ext4Extent) -> bool {
    let child = node_at(disk, bs, idxs_of(b)[i].leaf());
    all_extents(child, disk, bs, header_of(child).depth as nat).contains(e)
}

/// The extents of an indexed tree lie within its bounds.
proof fn lemma_in_bounds(
    b: Seq<u8>,
    disk: Seq<u8>,
    bs: int,
    d: nat,
    lo: int,
    hi: int,
    e: Ext4Extent,
)
    requires
        indexed(b, disk, bs, d, lo, hi),
        all_extents(b, disk, bs, d).contains(e),
    ensures
        lo <= e.logical_block,
        e.logical_block + e.len <= hi,
    decreases d,
{
    if d == 0 {
        let k = choose|k: int| 0 <= k < extents_of(b).len() && extents_of(b)[k] == e;
        assert(extents_of(b)[k] == e);
    } else {
        let xs = idxs_of(b);
        lemma_below(b, disk, bs, d, header_of(b).entries as nat, e);
        let i = choose|i: int| 0 <= i < header_of(b).entries && below_child(b, disk, bs, i, e);
        let child = node_at(disk, bs, xs[i].leaf());
        lemma_in_bounds(
            child,
            disk,
            bs,
            header_of(child).depth as nat,
            xs[i].block as int,
            child_end(xs, i, hi),
            e,
        );
    }
}

/// A lookup finds an extent exactly when a leaf of the tree holds it and it
/// contains the block that is looked up.
pub proof fn law_lookup_finds_what_a_leaf_holds(
    b: Seq<u8>,
    disk: Seq<u8>,
    bs: int,
    d: nat,
    lo: int,
    hi: int,
    lb: int,
    e: Ext4Extent,
)
    requires
        indexed(b, disk, bs, d, lo, hi),
    ensures
        find_extent(b, disk, bs, lb, d) == Some(e) <==> all_extents(b, disk, bs, d).contains(e)
            && e.maps(lb),
    decreases d,
{
    if d == 0 {
        let es = extents_of(b);
        search::lemma_first_index(es, mapping(lb), 0);
        if es.contains(e) && e.maps(lb) {
            let k = choose|k: int| 0 <= k < es.len() && es[k] == e;
            assert(mapping(lb)(es[k]));
            let i = search::first_index(es, mapping(lb), 0)->0;
            if i < k {
                assert(es[i].logical_block + es[i].len <= es[k].logical_block);
            }
        }
    } else {
        let xs = idxs_of(b);
        let n = header_of(b).entries as nat;
        lemma_below(b, disk, bs, d, n, e);
        lemma_best(xs, lb);
        match best_idx(xs, lb) {
            Some(i) => {
                let child = node_at(disk, bs, xs[i].leaf());
                law_lookup_finds_what_a_leaf_holds(
                    child,
                    disk,
                    bs,
                    header_of(child).depth as nat,
                    xs[i].block as int,
                    child_end(xs, i, hi),
                    lb,
                    e,
                );
                if find_extent(b, disk, bs, lb, d) == Some(e) {
                    assert(below_child(b, disk, bs, i, e));
                }
            },
            None => {},
        }
        if all_extents(b, disk, bs, d).contains(e) && e.maps(lb) {
            let j = choose|j: int| 0 <= j < n && below_child(b, disk, bs, j, e);
            let child = node_at(disk, bs, xs[j].leaf());
            lemma_in_bounds(
                child,
                disk,
                bs,
                header_of(child).depth as nat,
                xs[j].block as int,
                child_end(xs, j, hi),
                e,
            );
            let i = best_idx(xs, lb)->0;
            if i < j {
                assert(xs[j].block > lb);
            } else if j < i {
                if j + 1 < i {
                    assert(xs[j + 1].block < xs[i].block);
                }
            }
        }
    }
}

// ---------------------------------------------------------------------------
// Insertion
// ---------------------------------------------------------------------------

/// The block on the device for logical block `x`, below node `b` of depth `d`.
pub open spec fn place_below(b: Seq<u8>, disk: Seq<u8>, bs: int, x: int, d: nat) -> Option<int> {
    match find_extent(b, disk, bs, x, d) {
        Some(e) => Some(e.target(x)),
        None => None,
    }
}

/// Extents in order stay as they are when they are sorted.
proof fn lemma_sorted_same(es: Seq<Ext4Extent>)
    requires
        spaced(es),
    ensures
        inode_extents::sorted(es) == es,
    decreases es.len(),
{
    if es.len() > 0 {
        let init = es.drop_last();
        let e = es.last();
        assert forall|i: int, j: int| 0 <= i < j < init.len() implies (
        #[trigger] init[i]).logical_block + init[i].len <= (#[trigger] init[j]).logical_block by {
            assert(es[i].logical_block + es[i].len <= es[j].logical_block);
        }
        assert forall|i: int| 0 <= i < init.len() implies (#[trigger] init[i]).len > 0 by {
            assert(es[i].len > 0);
        }
        lemma_sorted_same(init);
        assert forall|j: int| 0 <= j < init.len() implies !extent_tree::starts_after(
            e.logical_block as int,
        )(#[trigger] init[j]) by {
            assert(es[j].logical_block + es[j].len <= es[es.len() - 1].logical_block);
        }
        search::lemma_first_index_none(
            init,
            extent_tree::starts_after(e.logical_block as int),
            0,
        );
        assert(init.push(e) =~= es);
    }
}

/// What an insertion in a root that holds its extents itself writes, where it
/// does not have to be split.
pub proof fn lemma_root_written(fs: FsModel, block: Seq<u8>, lb: int, pb: int, count: int)
    requires
        block.len() == 60,
        header_of(block).depth == 0,
        extent_tree::entries_fit(block),
        search::first_index(extents_of(block), extent_tree::joins(lb, pb), 0) is Some
            || header_of(block).entries != header_of(block).max,
        spaced(extents_of(block)),
        0 <= lb <= u32::MAX,
        1 <= count <= 32768,
        inode_extents::root_inserted(fs, block, lb, pb, count) is Some,
    ensures
        inserted(extents_of(block), lb, pb, count) is Some,
        inserted(extents_of(block), lb, pb, count)->0.len() <= 4,
        inode_extents::root_inserted(fs, block, lb, pb, count) == Some(
            (
                fs,
                with_extents(block, inserted(extents_of(block), lb, pb, count)->0),
                Ok::<(), Seq<char>>(()),
            ),
        ),
{
    let es = extents_of(block);
    search::lemma_first_index(es, extent_tree::joins(lb, pb), 0);
    match search::first_index(es, extent_tree::joins(lb, pb), 0) {
        Some(i) => {},
        None => {
            let e = extent_of(lb, count % 0x1_0000, pb);
            lemma_sorted_same(es);
            assert(es.push(e).drop_last() =~= es);
            assert(es.push(e).last() == e);
            assert(inode_extents::sorted(es.push(e)) == inode_extents::put_in_order(es, e));
            search::lemma_first_index(es, extent_tree::starts_after(lb), 0);
            assert(es.push(e) =~= es.insert(es.len() as int, e));
            assert(inserted(es, lb, pb, count) == Some(inode_extents::put_in_order(es, e)));
        },
    }
}

/// A root that holds its extents itself and is not full takes one more.
proof fn lemma_root_has_room(fs: FsModel, block: Seq<u8>, lb: int, pb: int, count: int)
    requires
        header_of(block).depth == 0,
        header_of(block).entries < header_of(block).max,
        header_of(block).entries < 4,
        1 <= count <= 32768,
        joins_well(extents_of(block), lb, pb, count),
    ensures
        inode_extents::root_inserted(fs, block, lb, pb, count) is Some,
{
    let es = extents_of(block);
    let found = search::first_index(es, extent_tree::joins(lb, pb), 0);
    assert(es.len() == header_of(block).entries);
    assert(count % 0x1_0000 == count);
    search::lemma_first_index(es, extent_tree::joins(lb, pb), 0);
    if found is Some {
        let i = found->0;
        assert(extent_tree::joins(lb, pb)(es[i]));
        assert(es[i].len + count <= 32768);
        assert(extent_tree::grown(es, i, count) is Some);
        assert(inode_extents::root_inserted(fs, block, lb, pb, count) is Some);
    } else {
        assert(inode_extents::root_inserted(fs, block, lb, pb, count) is Some);
    }
}

/// Once blocks were mapped in a root that holds its extents itself and has room,
/// they are found where they were mapped to; every other block is found where
/// it was, the extents are still in order, and there is at most one more.
pub proof fn law_extent_inserted_in_root_is_found(
    fs: FsModel,
    block: Seq<u8>,
    lb: int,
    pb: int,
    count: int,
    x: int,
)
    requires
        block.len() == 60,
        header_of(block).depth == 0,
        header_of(block).entries < header_of(block).max,
        header_of(block).entries < 4,
        spaced(extents_of(block)),
        0 <= lb <= u32::MAX,
        1 <= count <= 32768,
        0 <= pb < 0x1_0000_0000_0000,
        unmapped(extents_of(block), lb, count),
        joins_well(extents_of(block), lb, pb, count),
    ensures
        inode_extents::root_inserted(fs, block, lb, pb, count) is Some,
        ({
            let t = inode_extents::root_inserted(fs, block, lb, pb, count)->0;
            &&& t.0 == fs
            &&& t.2 is Ok
            &&& header_of(t.1).depth == 0
            &&& header_of(t.1).entries <= header_of(block).entries + 1
            &&& spaced(extents_of(t.1))
            &&& place_below(t.1, fs.disk, fs.bs(), x, 0) == (if lb <= x < lb + count {
                Some(pb + x - lb)
            } else {
                place_below(block, fs.disk, fs.bs(), x, 0)
            })
        }),
{
    let es = extents_of(block);
    lemma_root_has_room(fs, block, lb, pb, count);
    lemma_root_written(fs, block, lb, pb, count);
    let es2 = inserted(es, lb, pb, count)->0;
    law_inserted_extent_is_found(es, lb, pb, count, x);
    extent_tree::law_stored_extents_are_read(block, es2);
}

} // verus!
