//! What a write to a file with an extent tree makes of the file as a whole.
use vstd::prelude::*;
use crate::bytes;
use crate::fs::ext4::extent_laws;
use crate::fs::ext4::extent_laws::{
    joins_well, place_below, place_of, spaced, unmapped,
};
use crate::fs::ext4::extent_tree;
use crate::fs::ext4::extent_tree::{
    best_idx, entries_fit, extent_of, extents_of, header_of, idx_of, idxs_of, inserted, node_at,
    node_on, tree_ok, Ext4Extent, Ext4ExtentIdx,
};
use crate::fs::ext4::fs;
use crate::fs::ext4::fs::FsModel;
use crate::fs::ext4::fs_laws;
use crate::fs::ext4::fs_laws::sound;
use crate::fs::ext4::inode;
use crate::fs::ext4::inode::InodeModel;
use crate::fs::ext4::inode_disk::InodeDiskModel;
use crate::fs::ext4::inode_extents;
use crate::fs::ext4::inode_laws;
use crate::fs::ext4::inode_write;
use crate::fs::ext4::io;
use crate::fs::ext4::write_laws;
use crate::fs::ext4::write_laws::{holds_content, keeps, node_held, tree_held};
use crate::search;

verus! {

/// Depth of the tree of a file.
pub open spec fn depth_of(d: InodeDiskModel) -> nat {
    header_of(d.block).depth as nat
}

/// The block on the device for logical block `x` of a file.
pub open spec fn place(fs: FsModel, d: InodeDiskModel, x: int) -> Option<int> {
    place_below(d.block, fs.disk, fs.bs(), x, depth_of(d))
}

/// Extents in order, with block numbers of 32 bits.
pub open spec fn run_ok(es: Seq<Ext4Extent>) -> bool {
    &&& spaced(es)
    &&& forall|i: int| 0 <= i < es.len() ==> (#[trigger] es[i]).phys() < 0x1_0000_0000
}

/// Block `b` is in use, and no node of the file's own tree.
pub open spec fn data_ok(fs: FsModel, d: InodeDiskModel, b: int) -> bool {
    &&& holds_content(fs, b)
    &&& tree_held(fs, Set::empty().insert(b), d.block, depth_of(d))
}

/// The tree of a file is in order, on a file system whose blocks are as large as
/// pages: its nodes and the blocks that it maps are in use, and no node is used
/// for data.
pub open spec fn tidy(fs: FsModel, d: InodeDiskModel) -> bool {
    &&& sound(fs)
    &&& fs.bs() == 4096
    &&& inode_extents::whole_tree(d, fs.disk, fs.bs())
    &&& tree_held(fs, Set::empty(), d.block, depth_of(d))
    &&& depth_of(d) == 0 ==> run_ok(extents_of(d.block))
    &&& forall|x: int| (#[trigger] place(fs, d, x)) matches Some(b) ==> data_ok(fs, d, b)
}

/// The inode tables stand at the same places.
pub open spec fn same_tables(a: FsModel, b: FsModel) -> bool {
    forall|g: int|
        0 <= g < a.groups.len() ==> (#[trigger] b.groups[g]).inode_table == a.groups[g].inode_table
}

/// A later state of the file system and a file: what was no node of the tree is
/// none, and holds what it held.
pub open spec fn leads_to(fs: FsModel, d: InodeDiskModel, fs2: FsModel, d2: InodeDiskModel) -> bool {
    &&& fs::same_shape(fs, fs2)
    &&& same_tables(fs, fs2)
    &&& forall|b: int| #[trigger]
        data_ok(fs, d, b) ==> data_ok(fs2, d2, b) && node_at(fs2.disk, 4096, b) == node_at(
            fs.disk,
            4096,
            b,
        )
}

/// What logical block `x` of a file holds: zeros where nothing is mapped.
pub open spec fn content(fs: FsModel, d: InodeDiskModel, x: int) -> Seq<u8> {
    match place(fs, d, x) {
        None => bytes::zeros(4096),
        Some(b) => node_at(fs.disk, fs.bs(), b),
    }
}

// ---------------------------------------------------------------------------
// Trees on a device that changes
// ---------------------------------------------------------------------------

/// Nodes that keep their content are still in use.
proof fn lemma_still_held(
    fs: FsModel,
    fs2: FsModel,
    changed: Set<int>,
    own: Set<int>,
    b: Seq<u8>,
    d: nat,
)
    requires
        sound(fs),
        keeps(fs, fs2, changed),
        forall|x: int| #[trigger] holds_content(fs, x) ==> holds_content(fs2, x),
        tree_held(fs, changed, b, d),
        tree_held(fs, own, b, d),
    ensures
        tree_held(fs2, own, b, d),
    decreases d,
{
    let bs = fs.bs();
    if d > 0 {
        let xs = idxs_of(b);
        assert forall|i: int| 0 <= i < xs.len() implies {
            let leaf = (#[trigger] xs[i]).leaf();
            let other = node_at(fs2.disk, bs, leaf);
            let depth = header_of(other).depth as nat;
            &&& node_held(fs2, own, leaf)
            &&& depth < d ==> tree_held(fs2, own, other, depth)
        } by {
            let leaf = xs[i].leaf();
            let child = node_at(fs.disk, bs, leaf);
            let depth = header_of(child).depth as nat;
            assert(node_held(fs, own, leaf));
            assert forall|j: int| 0 <= j && j * fs2.bs() < 4096 implies #[trigger] holds_content(
                fs2,
                leaf + j,
            ) && !own.contains(leaf + j) by {
                assert(holds_content(fs, leaf + j));
            }
            write_laws::lemma_node_kept(fs, fs2, changed, leaf);
            if depth < d {
                lemma_still_held(fs, fs2, changed, own, child, depth);
            }
        }
    }
}

/// A block without content is no node.
proof fn lemma_no_node(fs: FsModel, b: Seq<u8>, d: nat, c: int)
    requires
        tree_held(fs, Set::empty(), b, d),
        !holds_content(fs, c),
    ensures
        tree_held(fs, Set::empty().insert(c), b, d),
    decreases d,
{
    if d > 0 {
        let xs = idxs_of(b);
        assert forall|i: int| 0 <= i < xs.len() implies {
            let leaf = (#[trigger] xs[i]).leaf();
            let child = node_at(fs.disk, fs.bs(), leaf);
            let depth = header_of(child).depth as nat;
            &&& node_held(fs, Set::empty().insert(c), leaf)
            &&& depth < d ==> tree_held(fs, Set::empty().insert(c), child, depth)
        } by {
            let leaf = xs[i].leaf();
            let child = node_at(fs.disk, fs.bs(), leaf);
            let depth = header_of(child).depth as nat;
            assert(node_held(fs, Set::empty(), leaf));
            if depth < d {
                lemma_no_node(fs, child, depth, c);
            }
        }
    }
}

/// Blocks that are whole pages.
proof fn lemma_whole_blocks(disk: Seq<u8>, b: int)
    ensures
        io::block_at(disk, 4096, b) == node_at(disk, 4096, b),
        io::block_on(disk, 4096, b) == node_on(disk, 4096, b),
{
}

/// What `keeps` says of single blocks.
proof fn lemma_content_stays(fs: FsModel, fs2: FsModel, own: Set<int>)
    requires
        keeps(fs, fs2, own),
        fs.bs() == 4096,
    ensures
        forall|x: int| #[trigger] holds_content(fs, x) ==> holds_content(fs2, x),
        forall|x: int| #[trigger]
            holds_content(fs, x) && !own.contains(x) ==> node_at(fs2.disk, 4096, x) == node_at(
                fs.disk,
                4096,
                x,
            ),
{
    assert forall|x: int| #[trigger] holds_content(fs, x) implies holds_content(fs2, x) by {
        write_laws::lemma_same_bitmaps(fs, fs2, own, x);
        assert(in_use_again(fs, fs2, x));
    }
    assert forall|x: int| #[trigger] holds_content(fs, x) && !own.contains(x) implies node_at(
        fs2.disk,
        4096,
        x,
    ) == node_at(fs.disk, 4096, x) by {
        lemma_whole_blocks(fs.disk, x);
        lemma_whole_blocks(fs2.disk, x);
    }
}

spec fn in_use_again(fs: FsModel, fs2: FsModel, x: int) -> bool {
    fs_laws::in_use(fs, x) && fs_laws::in_use(fs2, x)
}

// ---------------------------------------------------------------------------
// An allocation
// ---------------------------------------------------------------------------

/// An allocation leaves the tree as it is; the block that was taken belongs to
/// nothing yet, and holds zeros.
#[verifier::rlimit(40)]
proof fn lemma_taken_tidy(fs: FsModel, d: InodeDiskModel)
    requires
        tidy(fs, d),
        fs::block_taken(fs, 0) is Some,
    ensures
        ({
            let (after, b) = fs::block_taken(fs, 0)->0;
            &&& tidy(after, d)
            &&& leads_to(fs, d, after, d)
            &&& keeps(fs, after, Set::empty())
            &&& data_ok(after, d, b)
            &&& !holds_content(fs, b)
            &&& 0 <= b < 0x1_0000_0000
            &&& node_at(after.disk, 4096, b) == bytes::zeros(4096)
            &&& forall|x: int| #[trigger] place(after, d, x) == place(fs, d, x)
        }),
{
    let (after, b) = fs::block_taken(fs, 0)->0;
    let depth = depth_of(d);
    write_laws::lemma_taken(fs, Set::empty());
    lemma_limit(fs);
    fs_laws::lemma_taken_zeros(fs);
    lemma_whole_blocks(after.disk, b);
    write_laws::lemma_same_bitmaps(fs, after, Set::empty(), b);
    lemma_content_stays(fs, after, Set::empty());
    lemma_still_held(fs, after, Set::empty(), Set::empty(), d.block, depth);
    write_laws::lemma_tree_kept(fs, after, Set::empty(), d.block, 0, depth);
    assert forall|x: int| #[trigger] place(after, d, x) == place(fs, d, x) by {
        write_laws::lemma_tree_kept(fs, after, Set::empty(), d.block, x, depth);
    }
    assert forall|c: int| #[trigger] data_ok(fs, d, c) implies data_ok(after, d, c) by {
        lemma_still_held(fs, after, Set::empty(), Set::empty().insert(c), d.block, depth);
    }
    assert forall|x: int| (#[trigger] place(after, d, x)) is Some implies data_ok(
        after,
        d,
        place(after, d, x)->0,
    ) by {
        assert(place(fs, d, x) is Some);
        assert(data_ok(fs, d, place(fs, d, x)->0));
    }
    lemma_no_node(fs, d.block, depth, b);
    lemma_still_held(fs, after, Set::empty(), Set::empty().insert(b), d.block, depth);
}

// ---------------------------------------------------------------------------
// An insertion
// ---------------------------------------------------------------------------

/// A block that is not found is in no extent of the run.
proof fn lemma_not_found(es: Seq<Ext4Extent>, lb: int)
    requires
        run_ok(es),
        place_of(es, lb) is None,
    ensures
        unmapped(es, lb, 1),
{
    extent_laws::lemma_place(es, lb);
    assert forall|i: int| 0 <= i < es.len() implies (#[trigger] es[i]).logical_block + es[i].len
        <= lb || lb + 1 <= es[i].logical_block by {
        assert(!es[i].maps(lb));
    }
}

/// One block more in a run of extents.
proof fn lemma_run_grows(es: Seq<Ext4Extent>, lb: int, pb: int)
    requires
        run_ok(es),
        place_of(es, lb) is None,
        0 <= lb <= u32::MAX,
        0 <= pb < 0x1_0000_0000,
        inserted(es, lb, pb, 1) is Some,
    ensures
        unmapped(es, lb, 1),
        joins_well(es, lb, pb, 1),
        run_ok(inserted(es, lb, pb, 1)->0),
{
    lemma_not_found(es, lb);
    assert forall|i: int|
        0 <= i < es.len() && extent_tree::joins(lb, pb)(#[trigger] es[i]) implies es[i].phys()
        + es[i].len == pb && es[i].len + 1 <= 32768 by {
        assert(es[i].phys() < 0x1_0000_0000);
    }
    extent_laws::law_inserted_extent_is_found(es, lb, pb, 1, lb);
    let es2 = inserted(es, lb, pb, 1)->0;
    search::lemma_first_index(es, extent_tree::joins(lb, pb), 0);
    search::lemma_first_index(es, extent_tree::starts_after(lb), 0);
    assert forall|i: int| 0 <= i < es2.len() implies (#[trigger] es2[i]).phys() < 0x1_0000_0000 by {
        match search::first_index(es, extent_tree::joins(lb, pb), 0) {
            Some(k) => {
                assert(es2[i].phys() == es[i].phys());
            },
            None => {
                let pos = match search::first_index(es, extent_tree::starts_after(lb), 0) {
                    Some(k) => k,
                    None => es.len() as int,
                };
                let e = extent_of(lb, 1, pb);
                assert(es2 == es.insert(pos, e));
                if i < pos {
                    assert(es2[i] == es[i]);
                } else if i == pos {
                    assert(es2[i] == e);
                } else {
                    assert(es2[i] == es[i - 1]);
                }
            },
        }
    }
}

/// The tree after a block was mapped in a root that holds its extents itself and
/// does not have to be split.
#[verifier::rlimit(30)]
proof fn lemma_root_step(fs: FsModel, d: InodeDiskModel, lb: int, pb: int)
    requires
        tidy(fs, d),
        depth_of(d) == 0,
        place(fs, d, lb) is None,
        0 <= lb <= u32::MAX,
        0 <= pb < 0x1_0000_0000,
        data_ok(fs, d, pb),
        search::first_index(extents_of(d.block), extent_tree::joins(lb, pb), 0) is Some
            || header_of(d.block).entries != header_of(d.block).max,
        inode_extents::root_inserted(fs, d.block, lb, pb, 1) is Some,
    ensures
        ({
            let t = inode_extents::root_inserted(fs, d.block, lb, pb, 1)->0;
            let d2 = d.with_block(t.1);
            &&& t.0 == fs
            &&& depth_of(d2) == 0
            &&& tidy(fs, d2)
            &&& leads_to(fs, d, fs, d2)
            &&& forall|x: int| #[trigger]
                place(fs, d2, x) == (if x == lb {
                    Some(pb)
                } else {
                    place(fs, d, x)
                })
        }),
{
    let es = extents_of(d.block);
    let t = inode_extents::root_inserted(fs, d.block, lb, pb, 1)->0;
    let d2 = d.with_block(t.1);
    extent_laws::lemma_root_written(fs, d.block, lb, pb, 1);
    let es2 = inserted(es, lb, pb, 1)->0;
    lemma_run_grows(es, lb, pb);
    extent_laws::law_inserted_extent_is_found(es, lb, pb, 1, lb);
    extent_tree::law_stored_extents_are_read(d.block, es2);
    assert forall|x: int| #[trigger] place(fs, d2, x) == (if x == lb {
        Some(pb)
    } else {
        place(fs, d, x)
    }) by {
        extent_laws::law_inserted_extent_is_found(es, lb, pb, 1, x);
        assert(place(fs, d, x) == place_of(es, x));
        assert(place(fs, d2, x) == place_of(es2, x));
    }
    assert forall|x: int| (#[trigger] place(fs, d2, x)) is Some implies data_ok(
        fs,
        d2,
        place(fs, d2, x)->0,
    ) by {
        if x != lb {
            assert(place(fs, d, x) is Some);
        }
    }
}

// ---------------------------------------------------------------------------
// A split
// ---------------------------------------------------------------------------

/// Which of two leaves is responsible.
proof fn lemma_best_of_two(l: Ext4ExtentIdx, r: Ext4ExtentIdx, x: int)
    requires
        l.block < r.block,
    ensures
        best_idx(seq![l, r], x) == (if r.block <= x {
            Some(1int)
        } else if l.block <= x {
            Some(0int)
        } else {
            None
        }),
{
    reveal_with_fuel(best_idx, 3);
    assert(seq![l, r].drop_last() =~= seq![l]);
    assert(seq![l].drop_last() =~= Seq::<Ext4ExtentIdx>::empty());
}

/// The first two and the last two of four extents.
proof fn lemma_halves(es: Seq<Ext4Extent>, x: int)
    requires
        run_ok(es),
        es.len() == 4,
    ensures
        run_ok(es.take(2)),
        run_ok(es.skip(2)),
        es[0].logical_block < es[2].logical_block,
        place_of(es, x) == (if es[2].logical_block <= x {
            place_of(es.skip(2), x)
        } else if es[0].logical_block <= x {
            place_of(es.take(2), x)
        } else {
            None
        }),
{
    let a = es.take(2);
    let b = es.skip(2);
    assert(es[0].logical_block + es[0].len <= es[2].logical_block);
    assert(es[1].logical_block + es[1].len <= es[2].logical_block);
    assert(es[0].logical_block + es[0].len <= es[1].logical_block);
    assert(es[2].logical_block + es[2].len <= es[3].logical_block);
    assert(a[0] == es[0] && a[1] == es[1] && b[0] == es[2] && b[1] == es[3]);
    assert(spaced(a)) by {
        assert forall|i: int, j: int| 0 <= i < j < a.len() implies (#[trigger] a[i]).logical_block
            + a[i].len <= (#[trigger] a[j]).logical_block by {
            assert(i == 0 && j == 1);
        }
    }
    assert(spaced(b)) by {
        assert forall|i: int, j: int| 0 <= i < j < b.len() implies (#[trigger] b[i]).logical_block
            + b[i].len <= (#[trigger] b[j]).logical_block by {
            assert(i == 0 && j == 1);
        }
    }
    extent_laws::lemma_place(es, x);
    extent_laws::lemma_place(a, x);
    extent_laws::lemma_place(b, x);
    if place_of(es, x) is Some {
        let k = choose|k: int| 0 <= k < es.len() && (#[trigger] es[k]).maps(x);
        if k < 2 {
            assert(a[k].maps(x));
        } else {
            assert(b[k - 2].maps(x));
        }
    } else {
        if place_of(a, x) is Some {
            let k = choose|k: int| 0 <= k < a.len() && (#[trigger] a[k]).maps(x);
            assert(es[k].maps(x));
        }
        if place_of(b, x) is Some {
            let k = choose|k: int| 0 <= k < b.len() && (#[trigger] b[k]).maps(x);
            assert(es[k + 2].maps(x));
        }
    }
}

/// A root that refers to two leaves.
spec fn two_leaves(
    fs: FsModel,
    d: InodeDiskModel,
    l: Ext4ExtentIdx,
    r: Ext4ExtentIdx,
    es: Seq<Ext4Extent>,
) -> bool {
    let left = node_at(fs.disk, 4096, l.leaf());
    let right = node_at(fs.disk, 4096, r.leaf());
    &&& fs.bs() == 4096
    &&& depth_of(d) == 1
    &&& idxs_of(d.block) == seq![l, r]
    &&& l.block < r.block
    &&& l.leaf() != r.leaf()
    &&& holds_content(fs, l.leaf())
    &&& holds_content(fs, r.leaf())
    &&& header_of(left).depth == 0
    &&& header_of(right).depth == 0
    &&& entries_fit(left)
    &&& entries_fit(right)
    &&& es.len() == 4
    &&& run_ok(es)
    &&& extents_of(left) == es.take(2)
    &&& extents_of(right) == es.skip(2)
    &&& l.block == es[0].logical_block
    &&& r.block == es[2].logical_block
}

proof fn lemma_two_leaves(
    fs: FsModel,
    d: InodeDiskModel,
    l: Ext4ExtentIdx,
    r: Ext4ExtentIdx,
    es: Seq<Ext4Extent>,
    x: int,
)
    requires
        two_leaves(fs, d, l, r, es),
    ensures
        place(fs, d, x) == place_of(es, x),
{
    reveal_with_fuel(extent_tree::find_extent, 2);
    lemma_best_of_two(l, r, x);
    lemma_halves(es, x);
}

proof fn lemma_two_leaves_data(
    fs: FsModel,
    d: InodeDiskModel,
    l: Ext4ExtentIdx,
    r: Ext4ExtentIdx,
    es: Seq<Ext4Extent>,
    b: int,
)
    requires
        two_leaves(fs, d, l, r, es),
        holds_content(fs, b),
        b != l.leaf(),
        b != r.leaf(),
    ensures
        data_ok(fs, d, b),
{
    let xs = idxs_of(d.block);
    let own = Set::empty().insert(b);
    assert forall|i: int| 0 <= i < xs.len() implies {
        let leaf = (#[trigger] xs[i]).leaf();
        &&& node_held(fs, own, leaf)
        &&& header_of(node_at(fs.disk, 4096, leaf)).depth == 0
    } by {
        let leaf = xs[i].leaf();
        assert(xs[i] == l || xs[i] == r);
        assert forall|j: int| 0 <= j && j * fs.bs() < 4096 implies #[trigger] holds_content(
            fs,
            leaf + j,
        ) && !own.contains(leaf + j) by {
            assert(j == 0);
        }
    }
    assert(tree_held(fs, own, d.block, 1)) by {
        reveal_with_fuel(tree_held, 2);
    }
}

proof fn lemma_two_leaves_tidy(
    fs: FsModel,
    d: InodeDiskModel,
    l: Ext4ExtentIdx,
    r: Ext4ExtentIdx,
    es: Seq<Ext4Extent>,
)
    requires
        two_leaves(fs, d, l, r, es),
        sound(fs),
        inode_extents::has_tree(d),
        forall|x: int| (#[trigger] place_of(es, x)) matches Some(b) ==> holds_content(fs, b) && b
            != l.leaf() && b != r.leaf(),
    ensures
        tidy(fs, d),
{
    let xs = idxs_of(d.block);
    let ll = l.leaf();
    let rl = r.leaf();
    lemma_whole_blocks(fs.disk, ll);
    lemma_whole_blocks(fs.disk, rl);
    assert forall|i: int| 0 <= i < xs.len() implies (#[trigger] xs[i]).leaf() == ll || xs[i].leaf()
        == rl by {
        assert(xs[i] == l || xs[i] == r);
    }
    assert(forall|y: int| #[trigger] holds_content(fs, y) ==> node_held(fs, Set::empty(), y)) by {
        assert forall|y: int| #[trigger] holds_content(fs, y) implies node_held(
            fs,
            Set::empty(),
            y,
        ) by {
            assert forall|j: int| 0 <= j && j * fs.bs() < 4096 implies #[trigger] holds_content(
                fs,
                y + j,
            ) by {
                assert(j == 0);
            }
        }
    }
    lemma_halves(es, 0);
    assert(tree_ok(d.block, fs.disk, 4096, 1)) by {
        reveal_with_fuel(tree_ok, 2);
    }
    assert(tree_held(fs, Set::empty(), d.block, 1)) by {
        reveal_with_fuel(tree_held, 2);
    }
    assert forall|x: int| (#[trigger] place(fs, d, x)) is Some implies data_ok(
        fs,
        d,
        place(fs, d, x)->0,
    ) by {
        lemma_two_leaves(fs, d, l, r, es, x);
        lemma_two_leaves_data(fs, d, l, r, es, place(fs, d, x)->0);
    }
}

/// A block written as a leaf.
proof fn lemma_leaf_put(fs: FsModel, w: int, es: Seq<Ext4Extent>)
    requires
        sound(fs),
        fs.bs() == 4096,
        holds_content(fs, w),
        es.len() <= 4,
    ensures
        ({
            let fs2 = FsModel {
                disk: io::put_block(fs.disk, 4096, w, extent_tree::leaf_block(es)),
                ..fs
            };
            &&& keeps(fs, fs2, Set::empty().insert(w))
            &&& node_at(fs2.disk, 4096, w) == extent_tree::leaf_block(es)
            &&& fs2.disk.len() == fs.disk.len()
        }),
{
    let n = extent_tree::leaf_block(es);
    let own = Set::empty().insert(w);
    let fs2 = FsModel { disk: io::put_block(fs.disk, 4096, w, n), ..fs };
    lemma_whole_blocks(fs.disk, w);
    assert(n.len() == 4096) by {
        extent_tree::law_leaf_block(es);
        lemma_leaf_block_len(es);
    }
    assert(keeps(fs, fs, own));
    write_laws::lemma_own_block(fs, fs, own, w, n);
    assert(n.take(4096) =~= n);
    assert(node_at(fs2.disk, 4096, w) =~= n);
}

proof fn lemma_leaf_block_len(es: Seq<Ext4Extent>)
    requires
        es.len() <= 4,
    ensures
        extent_tree::leaf_block(es).len() == 4096,
{
    let h = extent_tree::Ext4ExtentHeader {
        magic: 0xF30A,
        entries: 0,
        max: 340,
        depth: 0,
        generation: 0,
    };
    let b = bytes::splice(bytes::zeros(4096), 0, extent_tree::enc_header(h));
    extent_tree::law_stored_extents_are_read(b, es);
}

/// A split moves the extents to two leaves, and every block is found where it
/// was.
#[verifier::rlimit(60)]
proof fn lemma_split_step(fs: FsModel, d: InodeDiskModel)
    requires
        tidy(fs, d),
        depth_of(d) == 0,
        inode_extents::split_root(fs, d.block) is Some,
    ensures
        ({
            let t = inode_extents::split_root(fs, d.block)->0;
            let d2 = d.with_block(t.1);
            &&& tidy(t.0, d2)
            &&& depth_of(d2) == 1
            &&& forall|x: int| #[trigger] place(t.0, d2, x) == place(fs, d, x)
            &&& leads_to(fs, d, t.0, d2)
        }),
{
    let es = extents_of(d.block);
    let (f1, left) = fs::block_taken(fs, 0)->0;
    lemma_taken_tidy(fs, d);
    let (f2, right) = fs::block_taken(f1, 0)->0;
    lemma_taken_tidy(f1, d);
    lemma_content_stays(fs, f1, Set::empty());
    lemma_content_stays(f1, f2, Set::empty());
    assert(holds_content(f1, left));
    assert(holds_content(f2, left) && holds_content(f2, right) && left != right);
    lemma_leaf_put(f2, left, es.take(2));
    let own1 = Set::<int>::empty().insert(left);
    let f3 = FsModel {
        disk: io::put_block(f2.disk, 4096, left, extent_tree::leaf_block(es.take(2))),
        ..f2
    };
    lemma_content_stays(f2, f3, own1);
    lemma_leaf_put(f3, right, es.skip(2));
    let own2 = Set::<int>::empty().insert(right);
    let f4 = FsModel {
        disk: io::put_block(f3.disk, 4096, right, extent_tree::leaf_block(es.skip(2))),
        ..f3
    };
    lemma_content_stays(f3, f4, own2);
    let l = idx_of(es[0].logical_block as int, left);
    let r = idx_of(es[2].logical_block as int, right);
    write_laws::lemma_idx_leaf(es[0].logical_block as int, left);
    write_laws::lemma_idx_leaf(es[2].logical_block as int, right);
    let t = inode_extents::split_root(fs, d.block)->0;
    assert(t.0 == f4);
    let d2 = d.with_block(t.1);
    inode_extents::law_two_children(d.block, l, r);
    extent_tree::law_leaf_block(es.take(2));
    extent_tree::law_leaf_block(es.skip(2));
    lemma_halves(es, 0);
    assert(node_at(f4.disk, 4096, left) == node_at(f3.disk, 4096, left)) by {
        assert(holds_content(f3, left) && !own2.contains(left));
    }
    assert(two_leaves(f4, d2, l, r, es));
    assert forall|b: int| #[trigger] data_ok(fs, d, b) implies holds_content(f4, b) && b != left && b
        != right && node_at(f4.disk, 4096, b) == node_at(fs.disk, 4096, b) by {
        assert(holds_content(fs, b));
        assert(holds_content(f1, b));
        assert(holds_content(f2, b));
        assert(!own1.contains(b));
        assert(holds_content(f3, b));
        assert(!own2.contains(b));
        lemma_node_chain(fs, f1, f2, f3, f4, b, own1, own2);
    }
    assert forall|x: int| (#[trigger] place_of(es, x)) is Some implies holds_content(
        f4,
        place_of(es, x)->0,
    ) && place_of(es, x)->0 != left && place_of(es, x)->0 != right by {
        assert(place(fs, d, x) == place_of(es, x));
        assert(data_ok(fs, d, place_of(es, x)->0));
    }
    lemma_two_leaves_tidy(f4, d2, l, r, es);
    assert forall|x: int| #[trigger] place(f4, d2, x) == place(fs, d, x) by {
        lemma_two_leaves(f4, d2, l, r, es, x);
        assert(place(fs, d, x) == place_of(es, x));
    }
    assert forall|b: int| #[trigger] data_ok(fs, d, b) implies data_ok(f4, d2, b) by {
        lemma_two_leaves_data(f4, d2, l, r, es, b);
    }
}

proof fn lemma_node_chain(
    fs: FsModel,
    f1: FsModel,
    f2: FsModel,
    f3: FsModel,
    f4: FsModel,
    b: int,
    own1: Set<int>,
    own2: Set<int>,
)
    requires
        fs.bs() == 4096,
        keeps(fs, f1, Set::empty()),
        keeps(f1, f2, Set::empty()),
        keeps(f2, f3, own1),
        keeps(f3, f4, own2),
        holds_content(fs, b),
        !own1.contains(b),
        !own2.contains(b),
    ensures
        node_at(f4.disk, 4096, b) == node_at(fs.disk, 4096, b),
{
    lemma_content_stays(fs, f1, Set::empty());
    lemma_content_stays(f1, f2, Set::empty());
    lemma_content_stays(f2, f3, own1);
    lemma_content_stays(f3, f4, own2);
}

// ---------------------------------------------------------------------------
// Pages
// ---------------------------------------------------------------------------

/// Mapping one block more: it is found if the root holds the extents itself
/// afterwards; below an inner root it is not, as the child that was changed is
/// not written back.  Every other block is found where it was.
#[verifier::rlimit(40)]
proof fn lemma_insert_step(fs: FsModel, d: InodeDiskModel, lb: int, pb: int)
    requires
        tidy(fs, d),
        place(fs, d, lb) is None,
        0 <= lb <= u32::MAX,
        0 <= pb < 0x1_0000_0000,
        data_ok(fs, d, pb),
        inode_extents::root_inserted(fs, d.block, lb, pb, 1) is Some,
    ensures
        ({
            let t = inode_extents::root_inserted(fs, d.block, lb, pb, 1)->0;
            let d2 = d.with_block(t.1);
            &&& tidy(t.0, d2)
            &&& leads_to(fs, d, t.0, d2)
            &&& forall|x: int| #[trigger]
                place(t.0, d2, x) == (if x == lb && depth_of(d2) == 0 {
                    Some(pb)
                } else {
                    place(fs, d, x)
                })
        }),
{
    let es = extents_of(d.block);
    if depth_of(d) > 0 {
        assert(d.with_block(d.block) == d);
    } else if search::first_index(es, extent_tree::joins(lb, pb), 0) is None && header_of(
        d.block,
    ).entries == header_of(d.block).max {
        lemma_split_step(fs, d);
    } else {
        lemma_root_step(fs, d, lb, pb);
    }
}

/// No two blocks of a file stand at one place.
pub open spec fn unshared(fs: FsModel, d: InodeDiskModel) -> bool {
    forall|x: int, y: int|
        (#[trigger] place(fs, d, x)) is Some && place(fs, d, x) == (#[trigger] place(fs, d, y))
            ==> x == y
}

/// Block `w` is in use, but not for the file.
pub open spec fn foreign(fs: FsModel, d: InodeDiskModel, w: int) -> bool {
    &&& data_ok(fs, d, w)
    &&& forall|x: int| #[trigger] place(fs, d, x) != Some(w)
}

/// An extent of one block.
proof fn lemma_one_block(lb: int, b: int)
    requires
        0 <= lb <= u32::MAX,
        0 <= b < 0x1_0000_0000,
    ensures
        extent_of(lb, 1, b).phys() == b,
        extent_of(lb, 1, b).target(lb) == b,
{
}

/// How a place for a block is made.
proof fn lemma_made_form(fs: FsModel, d: InodeDiskModel, lb: int)
    requires
        place(fs, d, lb) is None,
        inode_write::extent_for(fs, d, lb) is Some,
    ensures
        fs::block_taken(fs, 0) is Some,
        ({
            let (f1, b) = fs::block_taken(fs, 0)->0;
            let e = extent_of(lb, 1, b);
            let r = inode_extents::root_inserted(f1, d.block, lb, e.phys(), 1);
            &&& r is Some
            &&& inode_write::extent_for(fs, d, lb) == Some(((r->0).0, d.with_block((r->0).1), e))
        }),
{
    reveal(inode_write::extent_for);
}

/// What making a place for a block does: `b` is the block that was taken, and
/// `f1` the file system with it.
proof fn lemma_made(fs: FsModel, d: InodeDiskModel, lb: int)
    requires
        tidy(fs, d),
        0 <= lb <= u32::MAX,
        place(fs, d, lb) is None,
        inode_write::extent_for(fs, d, lb) is Some,
    ensures
        fs::block_taken(fs, 0) is Some,
        ({
            let t = inode_write::extent_for(fs, d, lb)->0;
            let (f1, b) = fs::block_taken(fs, 0)->0;
            &&& t.2.target(lb) == b
            &&& tidy(f1, d)
            &&& leads_to(fs, d, f1, d)
            &&& !holds_content(fs, b)
            &&& data_ok(f1, d, b)
            &&& node_at(f1.disk, 4096, b) == bytes::zeros(4096)
            &&& tidy(t.0, t.1)
            &&& leads_to(f1, d, t.0, t.1)
            &&& depth_of(t.1) == 0 ==> depth_of(d) == 0
            &&& forall|x: int| #[trigger]
                place(t.0, t.1, x) == (if x == lb && depth_of(t.1) == 0 {
                    Some(b)
                } else {
                    place(fs, d, x)
                })
        }),
{
    lemma_made_form(fs, d, lb);
    let t = inode_write::extent_for(fs, d, lb)->0;
    let (f1, b) = fs::block_taken(fs, 0)->0;
    lemma_taken_tidy(fs, d);
    lemma_one_block(lb, b);
    assert(place(f1, d, lb) == place(fs, d, lb));
    lemma_insert_step(f1, d, lb, b);
    assert forall|x: int| #[trigger] place(t.0, t.1, x) == (if x == lb && depth_of(t.1) == 0 {
        Some(b)
    } else {
        place(fs, d, x)
    }) by {
        assert(place(f1, d, x) == place(fs, d, x));
    }
}

/// Two later states in a row.
proof fn lemma_leads_on(
    fs: FsModel,
    d: InodeDiskModel,
    f1: FsModel,
    d1: InodeDiskModel,
    f2: FsModel,
    d2: InodeDiskModel,
)
    requires
        leads_to(fs, d, f1, d1),
        leads_to(f1, d1, f2, d2),
    ensures
        leads_to(fs, d, f2, d2),
{
    assert forall|g: int| 0 <= g < fs.groups.len() implies (#[trigger] f2.groups[g]).inode_table
        == fs.groups[g].inode_table by {
        assert(f1.groups[g].inode_table == fs.groups[g].inode_table);
    }
    assert forall|b: int| #[trigger] data_ok(fs, d, b) implies data_ok(f2, d2, b) && node_at(
        f2.disk,
        4096,
        b,
    ) == node_at(fs.disk, 4096, b) by {
        assert(data_ok(f1, d1, b));
    }
}

/// Finding or making a place for a block changes what no block holds.
pub proof fn lemma_extent_step(fs: FsModel, d: InodeDiskModel, lb: int)
    requires
        tidy(fs, d),
        0 <= lb <= u32::MAX,
        inode_write::extent_for(fs, d, lb) is Some,
    ensures
        ({
            let t = inode_write::extent_for(fs, d, lb)->0;
            &&& tidy(t.0, t.1)
            &&& leads_to(fs, d, t.0, t.1)
            &&& inode::stored_page(t.0.disk, t.0.bs(), t.2.target(lb)) == Some(content(fs, d, lb))
            &&& place(fs, d, lb) is Some ==> t.0 == fs && t.1 == d && place(fs, d, lb) == Some(
                t.2.target(lb),
            )
            &&& depth_of(t.1) == 0 ==> depth_of(d) == 0 && place(t.0, t.1, lb) is Some
            &&& data_ok(t.0, t.1, t.2.target(lb))
            &&& place(t.0, t.1, lb) is None || place(t.0, t.1, lb) == Some(t.2.target(lb))
            &&& unshared(fs, d) ==> unshared(t.0, t.1) && forall|x: int|
                (#[trigger] place(t.0, t.1, x)) == Some(t.2.target(lb)) ==> x == lb
            &&& forall|x: int| #[trigger]
                place(t.0, t.1, x) == place(fs, d, x) || x == lb && place(fs, d, x) is None
            &&& forall|w: int| #[trigger]
                foreign(fs, d, w) ==> foreign(t.0, t.1, w) && w != t.2.target(lb)
            &&& forall|x: int| #[trigger] content(t.0, t.1, x) == content(fs, d, x)
        }),
{
    let t = inode_write::extent_for(fs, d, lb)->0;
    if place(fs, d, lb) is Some {
        assert(t.0 == fs && t.1 == d && place(fs, d, lb) == Some(t.2.target(lb))) by {
            reveal(inode_write::extent_for);
        }
        lemma_stored(fs, d, place(fs, d, lb)->0);
    } else {
        lemma_made(fs, d, lb);
        let (f1, b) = fs::block_taken(fs, 0)->0;
        lemma_leads_on(fs, d, f1, d, t.0, t.1);
        lemma_stored(t.0, t.1, b);
        assert forall|x: int| #[trigger] place(fs, d, x) != Some(b) by {
            if place(fs, d, x) == Some(b) {
                assert(data_ok(fs, d, b));
            }
        }
        lemma_made_content(fs, d, t.0, t.1, lb, b);
        assert forall|w: int| #[trigger] foreign(fs, d, w) implies foreign(t.0, t.1, w) && w != b by {
            assert(data_ok(fs, d, w));
        }
        if unshared(fs, d) {
            assert forall|x: int, y: int|
                (#[trigger] place(t.0, t.1, x)) is Some && place(t.0, t.1, x) == (#[trigger] place(
                    t.0,
                    t.1,
                    y,
                )) implies x == y by {
                assert(place(fs, d, x) != Some(b) && place(fs, d, y) != Some(b));
            }
        }
    }
}

proof fn lemma_made_content(
    fs: FsModel,
    d: InodeDiskModel,
    fs2: FsModel,
    d2: InodeDiskModel,
    lb: int,
    b: int,
)
    requires
        tidy(fs, d),
        tidy(fs2, d2),
        leads_to(fs, d, fs2, d2),
        place(fs, d, lb) is None,
        node_at(fs2.disk, 4096, b) == bytes::zeros(4096),
        forall|x: int| #[trigger]
            place(fs2, d2, x) == (if x == lb && depth_of(d2) == 0 {
                Some(b)
            } else {
                place(fs, d, x)
            }),
    ensures
        forall|x: int| #[trigger] content(fs2, d2, x) == content(fs, d, x),
{
    assert forall|x: int| #[trigger] content(fs2, d2, x) == content(fs, d, x) by {
        assert(place(fs2, d2, x) == (if x == lb && depth_of(d2) == 0 {
            Some(b)
        } else {
            place(fs, d, x)
        }));
        if place(fs, d, x) is Some {
            assert(data_ok(fs, d, place(fs, d, x)->0));
        }
    }
}

/// What stands at a block that the file may use.
proof fn lemma_stored(fs: FsModel, d: InodeDiskModel, b: int)
    requires
        tidy(fs, d),
        data_ok(fs, d, b),
    ensures
        inode::stored_page(fs.disk, fs.bs(), b) == Some(node_at(fs.disk, 4096, b)),
{
    lemma_limit(fs);
    lemma_whole_blocks(fs.disk, b);
    assert(!inode::marks_hole(b));
}

/// A block that is no node of the tree is written.
#[verifier::rlimit(40)]
pub proof fn lemma_block_put(fs: FsModel, d: InodeDiskModel, b: int, data: Seq<u8>)
    requires
        tidy(fs, d),
        data_ok(fs, d, b),
        data.len() == 4096,
    ensures
        ({
            let fs2 = FsModel { disk: bytes::splice(fs.disk, b * 4096, data), ..fs };
            &&& tidy(fs2, d)
            &&& fs::same_shape(fs, fs2)
            &&& same_tables(fs, fs2)
            &&& forall|x: int| #[trigger] place(fs2, d, x) == place(fs, d, x)
            &&& forall|c: int| #[trigger]
                data_ok(fs, d, c) ==> data_ok(fs2, d, c) && (c != b ==> node_at(fs2.disk, 4096, c)
                    == node_at(fs.disk, 4096, c))
            &&& forall|x: int| #[trigger]
                content(fs2, d, x) == (if place(fs, d, x) == Some(b) {
                    data
                } else {
                    content(fs, d, x)
                })
        }),
{
    let fs2 = FsModel { disk: bytes::splice(fs.disk, b * 4096, data), ..fs };
    let own = Set::empty().insert(b);
    let depth = depth_of(d);
    assert(data.take(4096) =~= data);
    assert(fs2.disk == io::put_block(fs.disk, fs.bs(), b, data));
    lemma_whole_blocks(fs.disk, b);
    assert(keeps(fs, fs, own));
    write_laws::lemma_own_block(fs, fs, own, b, data);
    assert(keeps(fs, fs2, own));
    lemma_content_stays(fs, fs2, own);
    lemma_still_held(fs, fs2, own, Set::empty(), d.block, depth);
    write_laws::lemma_tree_kept(fs, fs2, own, d.block, 0, depth);
    assert forall|x: int| #[trigger] place(fs2, d, x) == place(fs, d, x) by {
        write_laws::lemma_tree_kept(fs, fs2, own, d.block, x, depth);
    }
    assert forall|c: int| #[trigger] data_ok(fs, d, c) implies data_ok(fs2, d, c) && (c != b
        ==> node_at(fs2.disk, 4096, c) == node_at(fs.disk, 4096, c)) by {
        lemma_still_held(fs, fs2, own, Set::empty().insert(c), d.block, depth);
        assert(c != b ==> !own.contains(c));
    }
    assert forall|x: int| (#[trigger] place(fs2, d, x)) is Some implies data_ok(
        fs2,
        d,
        place(fs2, d, x)->0,
    ) by {
        assert(data_ok(fs, d, place(fs, d, x)->0));
    }
    assert forall|x: int| #[trigger] content(fs2, d, x) == (if place(fs, d, x) == Some(b) {
        data
    } else {
        content(fs, d, x)
    }) by {
        assert(place(fs2, d, x) == place(fs, d, x));
        if place(fs, d, x) == Some(b) {
            assert(node_at(fs2.disk, 4096, b) =~= data);
        } else if place(fs, d, x) is Some {
            let c = place(fs, d, x)->0;
            assert(data_ok(fs, d, c));
            assert(!own.contains(c));
        }
    }
}

/// What is read of a page that is not cached.
pub proof fn lemma_uncached(fs: FsModel, m: InodeModel, idx: int)
    requires
        tidy(fs, m.disk),
        0 <= idx <= u32::MAX,
        !m.pages.contains_key(idx as usize),
    ensures
        inode::page_of(fs, m, idx) == Some(inode::clean(content(fs, m.disk, idx))),
        content(fs, m.disk, idx).len() == 4096,
{
    assert(inode::blocks_per_page(4096) == 1);
    if place(fs, m.disk, idx) is Some {
        assert(data_ok(fs, m.disk, place(fs, m.disk, idx)->0));
        lemma_stored(fs, m.disk, place(fs, m.disk, idx)->0);
        lemma_whole_blocks(fs.disk, place(fs, m.disk, idx)->0);
    }
}

/// Block numbers are far below those that stand for holes.
pub proof fn lemma_limit(fs: FsModel)
    requires
        sound(fs),
    ensures
        fs_laws::block_limit(fs) <= 0x20_0000,
{
    assert(fs.sb.blocks_per_group * fs.groups.len() <= 32768 * 64) by (nonlinear_arith)
        requires
            0 <= fs.sb.blocks_per_group <= 32768,
            0 <= fs.groups.len() <= 64,
    ;
}

/// Bringing a page into the cache changes what no page holds.
pub proof fn lemma_fetch_step(fs: FsModel, m: InodeModel, idx: int, k: int)
    requires
        tidy(fs, m.disk),
        inode::pages_whole(m),
        0 <= idx <= usize::MAX,
        0 <= k <= u32::MAX,
        inode_write::fetched(fs, m, idx) is Some,
    ensures
        ({
            let t = inode_write::fetched(fs, m, idx)->0;
            &&& tidy(t.0, t.1.disk)
            &&& inode::page_of(t.0, t.1, k) is Some
            &&& inode::page_of(fs, m, k) is Some
            &&& inode::page_of(t.0, t.1, k)->0.data == inode::page_of(fs, m, k)->0.data
        }),
{
    reveal(inode_write::fetched);
    let t = inode_write::fetched(fs, m, idx)->0;
    assert(inode::blocks_per_page(4096) == 1);
    if !m.pages.contains_key(k as usize) {
        lemma_uncached(fs, m, k);
    }
    if !m.pages.contains_key(idx as usize) {
        lemma_extent_step(fs, m.disk, idx);
        let u = inode_write::extent_for(fs, m.disk, idx)->0;
        lemma_uncached(fs, m, idx);
        assert(content(u.0, u.1, idx) == content(fs, m.disk, idx));
        assert(content(u.0, u.1, k) == content(fs, m.disk, k));
        if !t.1.pages.contains_key(k as usize) {
            lemma_uncached(t.0, t.1, k);
        }
    }
}

/// What every byte of the file is after a write to its pages.
proof fn lemma_pages_step(fs: FsModel, m: InodeModel, offset: int, buf: Seq<u8>, p: int)
    requires
        tidy(fs, m.disk),
        inode::pages_whole(m),
        0 <= offset,
        offset + buf.len() <= usize::MAX,
        0 <= p,
        p / 4096 <= u32::MAX,
        inode_write::pages_written(fs, m, offset, buf) is Some,
    ensures
        ({
            let t = inode_write::pages_written(fs, m, offset, buf)->0;
            &&& tidy(t.0, t.1.disk)
            &&& inode::page_of(t.0, t.1, p / 4096) is Some
            &&& inode::byte_of(t.0, t.1, p) == (if offset <= p < offset + buf.len() {
                buf[p - offset]
            } else {
                inode::byte_of(fs, m, p)
            })
        }),
    decreases buf.len(),
{
    if buf.len() == 0 {
        if !m.pages.contains_key((p / 4096) as usize) {
            lemma_uncached(fs, m, p / 4096);
        }
    } else {
        let n = inode_write::in_first_page(offset, buf.len() as int);
        let idx = offset / 4096;
        let at = offset % 4096;
        let t = inode_write::fetched(fs, m, idx)->0;
        inode_laws::lemma_fetched(fs, m, idx);
        lemma_fetch_step(fs, m, idx, p / 4096);
        let part = buf.take(n);
        let m1 = inode_write::page_written(t.1, idx, at, part);
        let rest = buf.skip(n);
        assert(inode::pages_whole(m1));
        lemma_pages_step(t.0, m1, offset + n, rest, p);
        let old_page = t.1.pages[idx as usize].data;
        assert(inode::byte_of(t.0, m1, p) == (if offset <= p < offset + n {
            buf[p - offset]
        } else {
            inode::byte_of(fs, m, p)
        })) by {
            if p / 4096 == idx {
                assert(m1.pages[idx as usize].data == bytes::splice(old_page, at, part));
                assert(p % 4096 - at == p - offset);
                if offset <= p < offset + n {
                    assert(part[p - offset] == buf[p - offset]);
                }
            } else {
                assert(!(offset <= p < offset + n));
                assert(m1.pages.contains_key((p / 4096) as usize) == t.1.pages.contains_key(
                    (p / 4096) as usize,
                ));
            }
        }
        if offset + n <= p < offset + buf.len() {
            assert(rest[p - (offset + n)] == buf[p - offset]);
        }
    }
}

/// After a write to a file whose tree is in order the file has grown to the end
/// of what was written, if it was smaller; the bytes that were written are there,
/// every other byte, in the cache or not, is what it was, and the tree is in
/// order again.
pub proof fn law_write_changes_its_bytes_alone(
    fs: FsModel,
    m: InodeModel,
    offset: int,
    buf: Seq<u8>,
    p: int,
)
    requires
        tidy(fs, m.disk),
        inode::pages_whole(m),
        0 <= offset,
        inode_write::end_ok(offset, buf.len() as int),
        inode_write::tree_written(fs, m, offset, buf) is Some,
        0 <= p,
        p / 4096 <= u32::MAX,
    ensures
        ({
            let t = inode_write::tree_written(fs, m, offset, buf)->0;
            let end = offset + buf.len();
            &&& t.1.disk.size() == (if m.disk.size() < end {
                end
            } else {
                m.disk.size()
            })
            &&& tidy(t.0, t.1.disk)
            &&& inode::pages_whole(t.1)
            &&& inode::page_of(fs, m, p / 4096) is Some
            &&& inode::page_of(t.0, t.1, p / 4096) is Some
            &&& inode::byte_of(t.0, t.1, p) == (if offset <= p < end {
                buf[p - offset]
            } else {
                inode::byte_of(fs, m, p)
            })
        }),
{
    let u = inode_write::pages_written(fs, m, offset, buf)->0;
    let t = inode_write::tree_written(fs, m, offset, buf)->0;
    inode_laws::lemma_pages_written(fs, m, offset, buf);
    lemma_pages_step(fs, m, offset, buf, p);
    if !m.pages.contains_key((p / 4096) as usize) {
        lemma_uncached(fs, m, p / 4096);
    }
    lemma_same_tree(u.0, u.1, t.1);
}

/// The size and the times of a file have nothing to do with its tree.
pub proof fn lemma_same_tree(fs: FsModel, m: InodeModel, m2: InodeModel)
    requires
        tidy(fs, m.disk),
        m2.pages == m.pages,
        m2.disk.block == m.disk.block,
        m2.disk.flags == m.disk.flags,
    ensures
        tidy(fs, m2.disk),
        forall|k: int| #[trigger] inode::page_of(fs, m2, k) == inode::page_of(fs, m, k),
{
    assert forall|x: int| (#[trigger] place(fs, m2.disk, x)) is Some implies data_ok(
        fs,
        m2.disk,
        place(fs, m2.disk, x)->0,
    ) by {
        assert(place(fs, m.disk, x) == place(fs, m2.disk, x));
        assert(data_ok(fs, m.disk, place(fs, m.disk, x)->0));
    }
}

/// A read after a write gives the bytes that were written and, everywhere else,
/// what was there before.  Reads see sizes of 32 bits, so this is stated for
/// files and writes that stay below that.
pub proof fn law_read_after_write(
    fs: FsModel,
    m: InodeModel,
    offset: int,
    buf: Seq<u8>,
    from: int,
    len: int,
)
    requires
        tidy(fs, m.disk),
        inode::pages_whole(m),
        0 <= offset,
        offset + buf.len() <= u32::MAX,
        m.disk.size_hi == 0,
        inode_write::tree_written(fs, m, offset, buf) is Some,
        0 <= from,
        0 <= len,
    ensures
        ({
            let t = inode_write::tree_written(fs, m, offset, buf)->0;
            let n = inode::read_count(t.1, from, len);
            &&& inode::readable(t.0, t.1, from, len)
            &&& inode::bytes_of(t.0, t.1, from, n) == Seq::new(
                n as nat,
                |i: int|
                    if offset <= from + i < offset + buf.len() {
                        buf[from + i - offset]
                    } else {
                        inode::byte_of(fs, m, from + i)
                    },
            )
        }),
{
    let t = inode_write::tree_written(fs, m, offset, buf)->0;
    let n = inode::read_count(t.1, from, len);
    law_write_changes_its_bytes_alone(fs, m, offset, buf, 0);
    if n > 0 {
        assert forall|idx: int|
            from / 4096 <= idx <= inode::last_page(from, n) implies (#[trigger] inode::page_of(
            t.0,
            t.1,
            idx,
        )) is Some by {
            assert((idx * 4096) / 4096 == idx);
            law_write_changes_its_bytes_alone(fs, m, offset, buf, idx * 4096);
        }
    }
    let got = inode::bytes_of(t.0, t.1, from, n);
    let want = Seq::new(
        n as nat,
        |i: int|
            if offset <= from + i < offset + buf.len() {
                buf[from + i - offset]
            } else {
                inode::byte_of(fs, m, from + i)
            },
    );
    assert forall|i: int| 0 <= i < n implies got[i] == want[i] by {
        law_write_changes_its_bytes_alone(fs, m, offset, buf, from + i);
    }
    assert(got =~= want);
}

/// Page `idx` is cached, or has a place on the device.
pub open spec fn mapped(fs: FsModel, m: InodeModel, idx: int) -> bool {
    let lb = idx * inode::blocks_per_page(fs.bs());
    m.pages.contains_key(idx as usize) || inode_extents::whole_tree(m.disk, fs.disk, fs.bs())
        && inode_extents::root_find(m.disk.block, fs.disk, fs.bs(), lb) is Some
}

proof fn lemma_overwrite(fs: FsModel, m: InodeModel, offset: int, buf: Seq<u8>, p: int)
    requires
        inode::pages_whole(m),
        0 <= offset,
        offset + buf.len() <= usize::MAX,
        inode_write::pages_written(fs, m, offset, buf) is Some,
        forall|idx: int|
            offset / 4096 <= idx <= inode::last_page(offset, buf.len() as int) ==> #[trigger] mapped(
                fs,
                m,
                idx,
            ),
        0 <= p <= usize::MAX,
        inode::page_of(fs, m, p / 4096) is Some,
    ensures
        ({
            let t = inode_write::pages_written(fs, m, offset, buf)->0;
            &&& t.0 == fs
            &&& t.1.disk == m.disk
            &&& inode::page_of(t.0, t.1, p / 4096) is Some
            &&& inode::byte_of(t.0, t.1, p) == (if offset <= p < offset + buf.len() {
                buf[p - offset]
            } else {
                inode::byte_of(fs, m, p)
            })
        }),
    decreases buf.len(),
{
    if buf.len() > 0 {
        let n = inode_write::in_first_page(offset, buf.len() as int);
        let idx = offset / 4096;
        let at = offset % 4096;
        assert(mapped(fs, m, idx));
        inode_laws::lemma_fetched(fs, m, idx);
        let t = inode_write::fetched(fs, m, idx)->0;
        let part = buf.take(n);
        let rest = buf.skip(n);
        let m1 = inode_write::page_written(t.1, idx, at, part);
        assert(t.0 == fs && t.1.disk == m.disk && inode::page_of(fs, t.1, p / 4096)
            == inode::page_of(fs, m, p / 4096)) by {
            reveal(inode_write::fetched);
            reveal(inode_write::extent_for);
            assert(m.with_disk(m.disk) == m);
        }
        assert(inode::pages_whole(m1));
        assert forall|k: int|
            (offset + n) / 4096 <= k <= inode::last_page(
                offset + n,
                rest.len() as int,
            ) implies #[trigger] mapped(fs, m1, k) by {
            assert(mapped(fs, m, k));
            assert(m.pages.contains_key(k as usize) ==> m1.pages.contains_key(k as usize));
        }
        assert(inode::page_of(fs, m1, p / 4096) is Some);
        lemma_overwrite(fs, m1, offset + n, rest, p);
        assert(inode::byte_of(fs, m1, p) == (if offset <= p < offset + n {
            buf[p - offset]
        } else {
            inode::byte_of(fs, m, p)
        })) by {
            if p / 4096 == idx {
                assert(p % 4096 - at == p - offset);
                if offset <= p < offset + n {
                    assert(part[p - offset] == buf[p - offset]);
                }
            } else {
                assert(!(offset <= p < offset + n));
                assert((p / 4096) as usize != idx as usize);
            }
        }
        if offset + n <= p < offset + buf.len() {
            assert(rest[p - (offset + n)] == buf[p - offset]);
        }
    }
}

/// A write to pages that are cached or have a place changes nothing on the
/// device, whatever the tree and the size of the blocks; the bytes that were
/// written are there, and every other byte that could be read is what it was.
pub proof fn law_overwrite_changes_its_bytes_alone(
    fs: FsModel,
    m: InodeModel,
    offset: int,
    buf: Seq<u8>,
    p: int,
)
    requires
        inode::pages_whole(m),
        0 <= offset,
        inode_write::end_ok(offset, buf.len() as int),
        inode_write::tree_written(fs, m, offset, buf) is Some,
        forall|idx: int|
            offset / 4096 <= idx <= inode::last_page(offset, buf.len() as int) ==> #[trigger] mapped(
                fs,
                m,
                idx,
            ),
        0 <= p <= usize::MAX,
        inode::page_of(fs, m, p / 4096) is Some,
    ensures
        ({
            let t = inode_write::tree_written(fs, m, offset, buf)->0;
            let end = offset + buf.len();
            &&& t.0 == fs
            &&& t.1.disk.size() == (if m.disk.size() < end {
                end
            } else {
                m.disk.size()
            })
            &&& inode::page_of(t.0, t.1, p / 4096) is Some
            &&& inode::byte_of(t.0, t.1, p) == (if offset <= p < end {
                buf[p - offset]
            } else {
                inode::byte_of(fs, m, p)
            })
        }),
{
    lemma_overwrite(fs, m, offset, buf, p);
    let u = inode_write::pages_written(fs, m, offset, buf)->0;
    let t = inode_write::tree_written(fs, m, offset, buf)->0;
    assert(inode_extents::whole_tree(t.1.disk, fs.disk, fs.bs()) == inode_extents::whole_tree(
        u.1.disk,
        fs.disk,
        fs.bs(),
    ));
    assert(inode::page_of(fs, t.1, p / 4096) == inode::page_of(fs, u.1, p / 4096));
}

} // verus!
