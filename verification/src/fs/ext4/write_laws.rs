//! What a write to one file leaves as it is.
use vstd::prelude::*;
use crate::fs::ext4::extent_tree;
use crate::fs::ext4::fs;
use crate::fs::ext4::fs::FsModel;
use crate::fs::ext4::fs_laws;
use crate::fs::ext4::fs_laws::{bitmap_block, bitmap_of, block_limit, group_sound, in_use, sound};
use crate::fs::ext4::inode;
use crate::fs::ext4::inode::InodeModel;
use crate::fs::ext4::inode_disk::InodeDiskModel;
use crate::fs::ext4::inode_extents;
use crate::fs::ext4::inode_write;
use crate::fs::ext4::io;

verus! {

/// Block `x` holds a block bitmap.
pub open spec fn is_bitmap(fs: FsModel, x: int) -> bool {
    exists|h: int| 0 <= h < fs.groups.len() && #[trigger] bitmap_block(fs, h) == x
}

/// Block `x` is in use, and holds something other than a bitmap.
pub open spec fn holds_content(fs: FsModel, x: int) -> bool {
    &&& 0 <= x < block_limit(fs)
    &&& in_use(fs, x)
    &&& io::block_on(fs.disk, fs.bs(), x)
    &&& !is_bitmap(fs, x)
}

/// Blocks in use stay in use, and all but those in `own` keep their content; the
/// bitmaps stay sound.
pub open spec fn keeps(fs: FsModel, after: FsModel, own: Set<int>) -> bool {
    &&& sound(after)
    &&& fs::same_shape(fs, after)
    &&& forall|h: int|
        0 <= h < fs.groups.len() ==> #[trigger] bitmap_block(after, h) == bitmap_block(fs, h)
    &&& forall|x: int| 0 <= x < block_limit(fs) && in_use(fs, x) ==> #[trigger] in_use(after, x)
    &&& forall|x: int| #[trigger]
        holds_content(fs, x) && !own.contains(x) ==> io::block_at(after.disk, fs.bs(), x)
            == io::block_at(fs.disk, fs.bs(), x)
}

proof fn lemma_keeps_again(a: FsModel, b: FsModel, c: FsModel, own: Set<int>)
    requires
        keeps(a, b, own),
        keeps(b, c, own),
    ensures
        keeps(a, c, own),
{
    assert(block_limit(a) == block_limit(b));
    assert forall|h: int| 0 <= h < a.groups.len() implies #[trigger] bitmap_block(c, h)
        == bitmap_block(a, h) by {
        assert(bitmap_block(b, h) == bitmap_block(a, h));
    }
    assert forall|x: int| 0 <= x < block_limit(a) && in_use(a, x) implies #[trigger] in_use(c, x) by {
        assert(in_use(b, x));
    }
    assert forall|x: int| #[trigger] holds_content(a, x) && !own.contains(x) implies io::block_at(
        c.disk,
        a.bs(),
        x,
    ) == io::block_at(a.disk, a.bs(), x) by {
        assert(in_use(b, x));
        if is_bitmap(b, x) {
            let h = choose|h: int| 0 <= h < b.groups.len() && #[trigger] bitmap_block(b, h) == x;
            assert(bitmap_block(a, h) == x);
        }
        assert(holds_content(b, x));
    }
}

/// What an allocation of one block keeps, and where the block was.
pub proof fn lemma_taken(fs: FsModel, own: Set<int>)
    requires
        sound(fs),
        fs::block_taken(fs, 0) is Some,
    ensures
        ({
            let (after, b) = fs::block_taken(fs, 0)->0;
            &&& keeps(fs, after, own)
            &&& 0 <= b < block_limit(fs)
            &&& !in_use(fs, b)
            &&& in_use(after, b)
            &&& !is_bitmap(fs, b)
        }),
{
    let (after, b) = fs::block_taken(fs, 0)->0;
    fs_laws::law_allocated_block_was_free(fs);
    fs_laws::lemma_taken_shape(fs);
    assert(in_use(after, b));
    assert forall|x: int| #[trigger] holds_content(fs, x) implies io::block_at(
        after.disk,
        fs.bs(),
        x,
    ) == io::block_at(fs.disk, fs.bs(), x) by {
        fs_laws::law_allocation_keeps_used_blocks(fs, x);
    }
    if is_bitmap(fs, b) {
        let h = choose|h: int| 0 <= h < fs.groups.len() && #[trigger] bitmap_block(fs, h) == b;
        assert(group_sound(fs, h));
    }
}

/// Writing to a block of `own`, or to one that was free, keeps everything else.
pub proof fn lemma_own_block(fs: FsModel, mid: FsModel, own: Set<int>, b: int, data: Seq<u8>)
    requires
        keeps(fs, mid, own),
        own.contains(b) || !in_use(fs, b),
        !is_bitmap(mid, b),
        extent_tree::node_on(mid.disk, mid.bs(), b),
        data.len() >= mid.bs(),
    ensures
        keeps(fs, FsModel { disk: io::put_block(mid.disk, mid.bs(), b, data), ..mid }, own),
{
    let bs = mid.bs();
    let after = FsModel { disk: io::put_block(mid.disk, bs, b, data), ..mid };
    assert forall|h: int| 0 <= h < mid.groups.len() implies #[trigger] bitmap_of(after, h)
        == bitmap_of(mid, h) by {
        assert(group_sound(mid, h));
        assert(bitmap_block(mid, h) != b);
        fs_laws::lemma_apart(bitmap_block(mid, h), b, bs);
        assert(bitmap_of(after, h) =~= bitmap_of(mid, h));
    }
    assert forall|x: int| #[trigger] in_use(after, x) == in_use(mid, x) || !(0 <= x < block_limit(
        mid,
    )) by {
        if 0 <= x < block_limit(mid) {
            let per = mid.sb.blocks_per_group;
            vstd::arithmetic::div_mod::lemma_fundamental_div_mod(x, per);
            assert(0 <= x / per < mid.groups.len()) by (nonlinear_arith)
                requires
                    x == per * (x / per) + x % per,
                    0 <= x % per < per,
                    0 <= x < per * mid.groups.len(),
            ;
            assert(bitmap_of(after, x / per) == bitmap_of(mid, x / per));
        }
    }
    assert(block_limit(after) == block_limit(mid));
    assert forall|h: int| 0 <= h < after.groups.len() implies #[trigger] group_sound(after, h) by {
        assert(group_sound(mid, h));
        assert(bitmap_block(after, h) == bitmap_block(mid, h));
        assert(bitmap_of(after, h) == bitmap_of(mid, h));
        assert(in_use(after, bitmap_block(mid, h)) == in_use(mid, bitmap_block(mid, h)));
    }
    assert forall|h: int, k: int| 0 <= h < k < after.groups.len() implies #[trigger] bitmap_block(
        after,
        h,
    ) != #[trigger] bitmap_block(after, k) by {
        assert(bitmap_block(mid, h) != bitmap_block(mid, k));
    }
    assert forall|h: int| 0 <= h < fs.groups.len() implies #[trigger] bitmap_block(after, h)
        == bitmap_block(fs, h) by {
        assert(bitmap_block(mid, h) == bitmap_block(fs, h));
    }
    assert forall|x: int| 0 <= x < block_limit(fs) && in_use(fs, x) implies #[trigger] in_use(
        after,
        x,
    ) by {
        assert(in_use(mid, x));
    }
    assert forall|x: int| #[trigger] holds_content(fs, x) && !own.contains(x) implies io::block_at(
        after.disk,
        fs.bs(),
        x,
    ) == io::block_at(fs.disk, fs.bs(), x) by {
        assert(x != b);
        fs_laws::lemma_apart(x, b, bs);
        assert(io::block_at(after.disk, bs, x) =~= io::block_at(mid.disk, bs, x));
    }
}

/// A block that was free is no bitmap.
proof fn lemma_not_bitmap(fs: FsModel, after: FsModel, own: Set<int>, b: int)
    requires
        sound(fs),
        keeps(fs, after, own),
        0 <= b < block_limit(fs),
        !in_use(fs, b),
    ensures
        !is_bitmap(fs, b),
        !is_bitmap(after, b),
{
    lemma_same_bitmaps(fs, after, own, b);
    if is_bitmap(fs, b) {
        let h = choose|h: int| 0 <= h < fs.groups.len() && #[trigger] bitmap_block(fs, h) == b;
        assert(group_sound(fs, h));
    }
}

pub proof fn lemma_same_bitmaps(fs: FsModel, after: FsModel, own: Set<int>, b: int)
    requires
        keeps(fs, after, own),
    ensures
        is_bitmap(after, b) == is_bitmap(fs, b),
{
    if is_bitmap(after, b) {
        let h = choose|h: int| 0 <= h < after.groups.len() && #[trigger] bitmap_block(after, h) == b;
        assert(bitmap_block(fs, h) == b);
    }
    if is_bitmap(fs, b) {
        let h = choose|h: int| 0 <= h < fs.groups.len() && #[trigger] bitmap_block(fs, h) == b;
        assert(bitmap_block(after, h) == b);
    }
}

pub proof fn lemma_idx_leaf(first: int, leaf: int)
    requires
        0 <= leaf < 0x1_0000_0000_0000,
    ensures
        extent_tree::idx_of(first, leaf).leaf() == leaf,
{
}

proof fn lemma_split_root(fs: FsModel, block: Seq<u8>)
    requires
        sound(fs),
        inode_extents::split_root(fs, block) is Some,
    ensures
        keeps(fs, (inode_extents::split_root(fs, block)->0).0, Set::empty()),
{
    let bs = fs.bs();
    let es = extent_tree::extents_of(block);
    let (fs1, left) = fs::block_taken(fs, 0)->0;
    lemma_taken(fs, Set::empty());
    let (fs2, right) = fs::block_taken(fs1, 0)->0;
    lemma_taken(fs1, Set::empty());
    lemma_keeps_again(fs, fs1, fs2, Set::empty());
    assert(!in_use(fs, right)) by {
        if in_use(fs, right) {
            assert(in_use(fs1, right));
        }
    }
    lemma_not_bitmap(fs, fs2, Set::empty(), left);
    lemma_not_bitmap(fs, fs2, Set::empty(), right);
    let first = extent_tree::leaf_block(es.take(2));
    let second = extent_tree::leaf_block(es.skip(2));
    assert(first.len() == 4096 && second.len() == 4096);
    lemma_own_block(fs, fs2, Set::empty(), left, first);
    let fs3 = FsModel { disk: io::put_block(fs2.disk, bs, left, first), ..fs2 };
    lemma_not_bitmap(fs, fs3, Set::empty(), right);
    lemma_own_block(fs, fs3, Set::empty(), right, second);
}

proof fn lemma_inserted(fs: FsModel, block: Seq<u8>, lb: int, pb: int, count: int)
    requires
        sound(fs),
        inode_extents::root_inserted(fs, block, lb, pb, count) is Some,
    ensures
        keeps(fs, (inode_extents::root_inserted(fs, block, lb, pb, count)->0).0, Set::empty()),
{
    if inode_extents::split_root(fs, block) is Some {
        lemma_split_root(fs, block);
    }
}

proof fn lemma_extent_for(fs: FsModel, d: InodeDiskModel, lb: int)
    requires
        sound(fs),
        inode_write::extent_for(fs, d, lb) is Some,
    ensures
        keeps(fs, (inode_write::extent_for(fs, d, lb)->0).0, Set::empty()),
{
    reveal(inode_write::extent_for);
    if inode_extents::root_find(d.block, fs.disk, fs.bs(), lb) is None {
        let (fs1, b) = fs::block_taken(fs, 0)->0;
        let e = extent_tree::extent_of(lb, 1, b);
        lemma_taken(fs, Set::empty());
        lemma_inserted(fs1, d.block, lb, e.phys(), 1);
        lemma_keeps_again(
            fs,
            fs1,
            (inode_extents::root_inserted(fs1, d.block, lb, e.phys(), 1)->0).0,
            Set::empty(),
        );
    }
}

proof fn lemma_fetched(fs: FsModel, m: InodeModel, idx: int)
    requires
        sound(fs),
        inode_write::fetched(fs, m, idx) is Some,
    ensures
        keeps(fs, (inode_write::fetched(fs, m, idx)->0).0, Set::empty()),
{
    reveal(inode_write::fetched);
    let lb = idx * inode::blocks_per_page(fs.bs());
    if inode_write::extent_for(fs, m.disk, lb) is Some {
        lemma_extent_for(fs, m.disk, lb);
    }
}

proof fn lemma_pages_written(fs: FsModel, m: InodeModel, offset: int, buf: Seq<u8>)
    requires
        sound(fs),
        inode_write::pages_written(fs, m, offset, buf) is Some,
    ensures
        keeps(fs, (inode_write::pages_written(fs, m, offset, buf)->0).0, Set::empty()),
    decreases buf.len(),
{
    if buf.len() > 0 {
        let n = inode_write::in_first_page(offset, buf.len() as int);
        let t = inode_write::fetched(fs, m, offset / 4096)->0;
        lemma_fetched(fs, m, offset / 4096);
        let m1 = inode_write::page_written(t.1, offset / 4096, offset % 4096, buf.take(n));
        lemma_pages_written(t.0, m1, offset + n, buf.skip(n));
        lemma_keeps_again(
            fs,
            t.0,
            (inode_write::pages_written(t.0, m1, offset + n, buf.skip(n))->0).0,
            Set::empty(),
        );
    }
}

proof fn lemma_page_got(fs: FsModel, m: InodeModel, idx: int)
    requires
        sound(fs),
        inode_write::page_got(fs, m, idx) is Some,
    ensures
        keeps(fs, (inode_write::page_got(fs, m, idx)->0).0, Set::empty()),
{
    if inode_write::fetched(fs, m, idx) is Some {
        lemma_fetched(fs, m, idx);
    }
}

proof fn lemma_moved_out(fs: FsModel, m: InodeModel, offset: int)
    requires
        sound(fs),
        inode_write::moved_out(fs, m, offset) is Some,
    ensures
        keeps(fs, (inode_write::moved_out(fs, m, offset)->0).0, Set::empty()),
{
    let fs1 = (fs::block_taken(fs, 0)->0).0;
    lemma_taken(fs, Set::empty());
    if m.disk.size() > 0 {
        lemma_page_got(fs1, m, 0);
        lemma_keeps_again(fs, fs1, (inode_write::page_got(fs1, m, 0)->0).0, Set::empty());
    }
}

/// A write to a file changes no block that was in use, but for the bitmaps:
/// whatever other files have stored is still there, and stays marked as used.
pub proof fn law_write_keeps_used_blocks(fs: FsModel, m: InodeModel, offset: int, buf: Seq<u8>)
    requires
        sound(fs),
        inode_write::written(fs, m, offset, buf) is Some,
    ensures
        keeps(fs, (inode_write::written(fs, m, offset, buf)->0).0, Set::empty()),
{
    let end = offset + buf.len();
    if end <= 60 {
        lemma_page_got(fs, m, 0);
    } else if m.disk.size() <= 60 {
        let t = inode_write::moved_out(fs, m, offset)->0;
        lemma_moved_out(fs, m, offset);
        lemma_pages_written(t.0, t.1, offset, buf);
        lemma_keeps_again(
            fs,
            t.0,
            (inode_write::pages_written(t.0, t.1, offset, buf)->0).0,
            Set::empty(),
        );
    } else {
        lemma_pages_written(fs, m, offset, buf);
    }
}

// ---------------------------------------------------------------------------
// Other files
// ---------------------------------------------------------------------------

/// The page of data that starts at block `b` lies in blocks that are in use, and
/// not in `own`.
pub open spec fn node_held(fs: FsModel, own: Set<int>, b: int) -> bool {
    forall|j: int| 0 <= j && j * fs.bs() < 4096 ==> #[trigger] holds_content(fs, b + j) && !own.contains(
            b + j,
        )
}

/// All nodes below node `b` lie in blocks that are in use.
pub open spec fn tree_held(fs: FsModel, own: Set<int>, b: Seq<u8>, d: nat) -> bool
    decreases d,
{
    d > 0 ==> forall|i: int|
        0 <= i < extent_tree::idxs_of(b).len() ==> {
            let leaf = (#[trigger] extent_tree::idxs_of(b)[i]).leaf();
            let child = extent_tree::node_at(fs.disk, fs.bs(), leaf);
            &&& node_held(fs, own, leaf)
            &&& extent_tree::header_of(child).depth < d ==> tree_held(
                fs,
                own,
                child,
                extent_tree::header_of(child).depth as nat,
            )
        }
}

/// Page `idx` of a file is cached or in the inode itself, or else the page and
/// the tree that leads to it lie in blocks that are in use.
pub open spec fn page_held(fs: FsModel, m: InodeModel, idx: int) -> bool {
    let lb = idx * inode::blocks_per_page(fs.bs());
    ||| m.pages.contains_key(idx as usize)
    ||| idx == 0 && m.disk.inline_data()
    ||| {
        &&& tree_held(fs, Set::empty(), m.disk.block, extent_tree::header_of(m.disk.block).depth as nat)
        &&& inode_extents::root_find(m.disk.block, fs.disk, fs.bs(), lb) matches Some(e)
            ==> inode::marks_hole(e.target(lb)) || node_held(fs, Set::empty(), e.target(lb))
    }
}

pub proof fn lemma_node_kept(fs: FsModel, after: FsModel, own: Set<int>, b: int)
    requires
        sound(fs),
        keeps(fs, after, own),
        node_held(fs, own, b),
    ensures
        extent_tree::node_at(after.disk, fs.bs(), b) == extent_tree::node_at(fs.disk, fs.bs(), b),
        extent_tree::node_on(after.disk, fs.bs(), b) == extent_tree::node_on(fs.disk, fs.bs(), b),
{
    let bs = fs.bs();
    let x = extent_tree::node_at(fs.disk, bs, b);
    let y = extent_tree::node_at(after.disk, bs, b);
    assert(extent_tree::node_on(fs.disk, bs, b)) by {
        let j = 4095int / bs;
        vstd::arithmetic::div_mod::lemma_fundamental_div_mod(4095, bs);
        assert(j >= 0 && j * bs <= 4095 && j * bs + bs >= 4096 && (b + j) * bs == b * bs + j * bs)
            by (nonlinear_arith)
            requires
                4095 == bs * j + 4095int % bs,
                0 <= 4095int % bs < bs,
        ;
        assert(0 * bs == 0);
        assert(holds_content(fs, b + 0));
        assert(holds_content(fs, b + j));
    }
    assert forall|k: int| 0 <= k < 4096 implies x[k] == y[k] by {
        let j = k / bs;
        let r = k % bs;
        vstd::arithmetic::div_mod::lemma_fundamental_div_mod(k, bs);
        assert(j >= 0 && j * bs <= k && k == j * bs + r && (b + j) * bs == b * bs + j * bs)
            by (nonlinear_arith)
            requires
                k == bs * j + r,
                0 <= r < bs,
                0 <= k,
        ;
        assert(holds_content(fs, b + j));
        let old_block = io::block_at(fs.disk, bs, b + j);
        let new_block = io::block_at(after.disk, bs, b + j);
        assert(old_block == new_block);
        assert(old_block[r] == fs.disk[b * bs + k]);
        assert(new_block[r] == after.disk[b * bs + k]);
    }
    assert(x =~= y);
}

pub proof fn lemma_tree_kept(
    fs: FsModel,
    after: FsModel,
    own: Set<int>,
    b: Seq<u8>,
    lb: int,
    d: nat,
)
    requires
        sound(fs),
        keeps(fs, after, own),
        tree_held(fs, own, b, d),
    ensures
        extent_tree::tree_ok(b, after.disk, fs.bs(), d) == extent_tree::tree_ok(
            b,
            fs.disk,
            fs.bs(),
            d,
        ),
        extent_tree::find_extent(b, after.disk, fs.bs(), lb, d) == extent_tree::find_extent(
            b,
            fs.disk,
            fs.bs(),
            lb,
            d,
        ),
    decreases d,
{
    let bs = fs.bs();
    if d > 0 {
        let xs = extent_tree::idxs_of(b);
        assert forall|i: int| 0 <= i < xs.len() implies {
            let leaf = (#[trigger] xs[i]).leaf();
            let child = extent_tree::node_at(fs.disk, bs, leaf);
            let depth = extent_tree::header_of(child).depth;
            &&& extent_tree::node_at(after.disk, bs, leaf) == child
            &&& extent_tree::node_on(after.disk, bs, leaf) == extent_tree::node_on(
                fs.disk,
                bs,
                leaf,
            )
            &&& depth < d ==> extent_tree::tree_ok(child, after.disk, bs, depth as nat)
                == extent_tree::tree_ok(child, fs.disk, bs, depth as nat)
            &&& depth < d ==> extent_tree::find_extent(child, after.disk, bs, lb, depth as nat)
                == extent_tree::find_extent(child, fs.disk, bs, lb, depth as nat)
        } by {
            let leaf = xs[i].leaf();
            let child = extent_tree::node_at(fs.disk, bs, leaf);
            lemma_node_kept(fs, after, own, leaf);
            if extent_tree::header_of(child).depth < d {
                lemma_tree_kept(
                    fs,
                    after,
                    own,
                    child,
                    lb,
                    extent_tree::header_of(child).depth as nat,
                );
            }
        }
        lemma_best_idx(xs, lb);
    }
}

pub proof fn lemma_best_idx(xs: Seq<extent_tree::Ext4ExtentIdx>, lb: int)
    ensures
        extent_tree::best_idx(xs, lb) matches Some(i) ==> 0 <= i < xs.len(),
    decreases xs.len(),
{
    if xs.len() > 0 {
        lemma_best_idx(xs.drop_last(), lb);
    }
}

proof fn lemma_page_kept(fs: FsModel, after: FsModel, m: InodeModel, idx: int)
    requires
        sound(fs),
        keeps(fs, after, Set::empty()),
        page_held(fs, m, idx),
    ensures
        inode::page_of(after, m, idx) == inode::page_of(fs, m, idx),
{
    if !m.pages.contains_key(idx as usize) && !(idx == 0 && m.disk.inline_data()) {
        let bs = fs.bs();
        let lb = idx * inode::blocks_per_page(bs);
        let block = m.disk.block;
        lemma_tree_kept(
            fs,
            after,
            Set::empty(),
            block,
            lb,
            extent_tree::header_of(block).depth as nat,
        );
        match inode_extents::root_find(block, fs.disk, bs, lb) {
            Some(e) => {
                if !inode::marks_hole(e.target(lb)) {
                    lemma_node_kept(fs, after, Set::empty(), e.target(lb));
                }
            },
            None => {},
        }
    }
}

proof fn lemma_bytes_kept(
    fs: FsModel,
    after: FsModel,
    m: InodeModel,
    from: int,
    n: int,
)
    requires
        sound(fs),
        keeps(fs, after, Set::empty()),
        n >= 0,
        forall|idx: int|
            from / 4096 <= idx <= inode::last_page(from, n) ==> #[trigger] page_held(fs, m, idx),
    ensures
        inode::bytes_of(after, m, from, n) == inode::bytes_of(fs, m, from, n),
{
    assert forall|p: int| from <= p < from + n implies inode::byte_of(after, m, p)
        == #[trigger] inode::byte_of(fs, m, p) by {
        let idx = p / 4096;
        assert(from / 4096 <= idx <= inode::last_page(from, n));
        assert(page_held(fs, m, idx));
        lemma_page_kept(fs, after, m, idx);
    }
    let a = inode::bytes_of(after, m, from, n);
    let b = inode::bytes_of(fs, m, from, n);
    assert forall|i: int| 0 <= i < b.len() implies a[i] == b[i] by {
        assert(inode::byte_of(after, m, from + i) == inode::byte_of(fs, m, from + i));
    }
    assert(a =~= b);
}

/// A write to one file does not change what is read of another, whose pages lie
/// in blocks that are in use.
pub proof fn law_write_leaves_other_files(
    fs: FsModel,
    m: InodeModel,
    offset: int,
    buf: Seq<u8>,
    other: InodeModel,
    from: int,
    n: int,
)
    requires
        sound(fs),
        inode_write::written(fs, m, offset, buf) is Some,
        n >= 0,
        forall|idx: int|
            from / 4096 <= idx <= inode::last_page(from, n) ==> #[trigger] page_held(fs, other, idx),
    ensures
        inode::bytes_of((inode_write::written(fs, m, offset, buf)->0).0, other, from, n)
            == inode::bytes_of(fs, other, from, n),
{
    law_write_keeps_used_blocks(fs, m, offset, buf);
    lemma_bytes_kept(
        fs,
        (inode_write::written(fs, m, offset, buf)->0).0,
        other,
        from,
        n,
    );
}

} // verus!
