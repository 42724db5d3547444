//! What allocation does to the inodes of a file system.
use vstd::prelude::*;
use crate::bytes;
use crate::fs::ext4::bitmap;
use crate::fs::ext4::bitmap::bit_set;
use crate::fs::ext4::block_group;
use crate::fs::ext4::extent_tree;
use crate::fs::ext4::fs;
use crate::fs::ext4::fs::FsModel;
use crate::fs::ext4::fs_laws;
use crate::fs::ext4::fs_laws::clear_count;
use crate::fs::ext4::io;

verus! {

/// The block that holds the inode bitmap of group `g`.
pub open spec fn bitmap_block(fs: FsModel, g: int) -> int {
    fs.groups[g].inode_bitmap as int
}

/// The inode bitmap of group `g`.
pub open spec fn bitmap_of(fs: FsModel, g: int) -> Seq<u8> {
    io::block_at(fs.disk, fs.bs(), bitmap_block(fs, g))
}

/// Number of inodes that the bitmaps speak of; they are numbered from 1 on.
pub open spec fn inode_limit(fs: FsModel) -> int {
    fs.sb.inodes_per_group * fs.groups.len()
}

/// Inode `num` is marked as used.
pub open spec fn in_use(fs: FsModel, num: int) -> bool {
    bit_set(bitmap_of(fs, (num - 1) / fs.sb.inodes_per_group), (num - 1) % fs.sb.inodes_per_group)
}

/// Group `g` has a bitmap, and counts no more free inodes than its bitmap has.
pub open spec fn group_sound(fs: FsModel, g: int) -> bool {
    &&& extent_tree::node_on(fs.disk, fs.bs(), bitmap_block(fs, g))
    &&& fs.groups[g].inner.free_inodes_count <= clear_count(
        bitmap_of(fs, g),
        fs.sb.inodes_per_group,
    )
}

/// The bitmaps are sound: whole bytes, one block for each group, all different.
pub open spec fn sound(fs: FsModel) -> bool {
    &&& fs.wf()
    &&& fs.sb.inodes_per_group % 8 == 0
    &&& fs.sb.inodes_per_group <= 8 * fs.bs()
    &&& forall|g: int| 0 <= g < fs.groups.len() ==> #[trigger] group_sound(fs, g)
    &&& forall|g: int, h: int|
        0 <= g < h < fs.groups.len() ==> #[trigger] bitmap_block(fs, g) != #[trigger] bitmap_block(
            fs,
            h,
        )
}

/// What a sound group hands out: its first free inode.
proof fn lemma_group_takes(fs: FsModel, g: int, is_dir: bool)
    requires
        sound(fs),
        0 <= g < fs.groups.len(),
    ensures
        ({
            let t = block_group::inode_taken(
                fs.disk,
                fs.groups[g],
                fs.bs(),
                fs.sb.inodes_per_group / 8,
                is_dir,
            );
            let first = bitmap::first_clear(
                extent_tree::node_at(fs.disk, fs.bs(), bitmap_block(fs, g)),
                0,
            );
            if fs.groups[g].inner.free_inodes_count == 0 {
                t == Some((fs.disk, fs.groups[g], None::<int>))
            } else {
                &&& first is Some
                &&& 0 <= first->0 < fs.sb.inodes_per_group
                &&& !bit_set(bitmap_of(fs, g), first->0)
                &&& t is Some ==> {
                    &&& (t->0).0 == bytes::splice(
                        fs.disk,
                        bitmap_block(fs, g) * fs.bs(),
                        bitmap::with_bit(bitmap_of(fs, g), first->0),
                    )
                    &&& (t->0).1.inner.free_inodes_count == fs.groups[g].inner.free_inodes_count - 1
                    &&& (t->0).1.inode_bitmap == fs.groups[g].inode_bitmap
                    &&& (t->0).2 == Some(first->0)
                }
            }
        }),
{
    let bs = fs.bs();
    let per = fs.sb.inodes_per_group;
    let size = per / 8;
    let block = bitmap_block(fs, g);
    let node = extent_tree::node_at(fs.disk, bs, block);
    let bits = bitmap_of(fs, g);
    assert(group_sound(fs, g));
    if fs.groups[g].inner.free_inodes_count != 0 {
        assert(bits =~= node.take(bs));
        assert forall|i: int| 0 <= i < 8 * bs implies #[trigger] bit_set(node, i) == bit_set(bits, i) by {
            assert(node[i / 8] == bits[i / 8]);
        }
        fs_laws::lemma_clear_count(bits, per);
        let i = choose|i: int| 0 <= i < per && !#[trigger] bit_set(bits, i);
        assert(!bit_set(node, i));
        bitmap::lemma_first_clear(node, 0);
        let first = bitmap::first_clear(node, 0)->0;
        assert(first <= i);
        assert(bitmap::with_bit(node, first).take(bs) =~= bitmap::with_bit(bits, first));
        assert((size + bs - 1) / bs == 1) by (nonlinear_arith)
            requires
                0 < size <= bs,
        ;
        reveal_with_fuel(block_group::take_one, 2);
        assert(first / 8 <= size);
        assert(0 * bs * 8 == 0);
    }
}

/// `after` is the file system once inode `i` of group `g` was marked as used.
spec fn took(fs: FsModel, after: FsModel, g: int, i: int) -> bool {
    &&& 0 <= g < fs.groups.len()
    &&& 0 <= i < fs.sb.inodes_per_group
    &&& !bit_set(bitmap_of(fs, g), i)
    &&& fs.groups[g].inner.free_inodes_count > 0
    &&& fs::same_shape(fs, after)
    &&& after.disk == bytes::splice(
        fs.disk,
        bitmap_block(fs, g) * fs.bs(),
        bitmap::with_bit(bitmap_of(fs, g), i),
    )
    &&& forall|h: int|
        0 <= h < fs.groups.len() ==> {
            &&& (#[trigger] after.groups[h]).inode_bitmap == fs.groups[h].inode_bitmap
            &&& after.groups[h].inner.free_inodes_count == fs.groups[h].inner.free_inodes_count - (
            if h == g {
                1int
            } else {
                0
            })
        }
}

proof fn lemma_inode_taken(fs: FsModel, gi: int, is_dir: bool)
    requires
        sound(fs),
        0 <= gi,
        fs::inode_taken(fs, gi, is_dir) is Some,
    ensures
        exists|g: int, i: int| #[trigger]
            took(fs, (fs::inode_taken(fs, gi, is_dir)->0).0, g, i) && (fs::inode_taken(
                fs,
                gi,
                is_dir,
            )->0).1 == i + fs.sb.inodes_per_group * g + 1,
    decreases fs.groups.len() - gi,
{
    reveal(fs::inode_taken);
    assert(group_sound(fs, gi));
    lemma_group_takes(fs, gi, is_dir);
    if fs.groups[gi].inner.free_inodes_count == 0 {
        assert(fs.groups.update(gi, fs.groups[gi]) =~= fs.groups);
        lemma_inode_taken(fs, gi + 1, is_dir);
    } else {
        let i = bitmap::first_clear(
            extent_tree::node_at(fs.disk, fs.bs(), bitmap_block(fs, gi)),
            0,
        )->0;
        let after = (fs::inode_taken(fs, gi, is_dir)->0).0;
        assert(took(fs, after, gi, i));
    }
}

/// What the bitmaps are after an inode was handed out.
proof fn lemma_bitmaps_after(fs: FsModel, after: FsModel, g: int, i: int, h: int)
    requires
        sound(fs),
        took(fs, after, g, i),
        0 <= h < fs.groups.len(),
    ensures
        bitmap_block(after, h) == bitmap_block(fs, h),
        bitmap_of(after, h) == (if h == g {
            bitmap::with_bit(bitmap_of(fs, g), i)
        } else {
            bitmap_of(fs, h)
        }),
{
    assert(group_sound(fs, g));
    assert(group_sound(fs, h));
    assert(after.groups[h].inode_bitmap == fs.groups[h].inode_bitmap);
    if h != g {
        if h < g {
            assert(bitmap_block(fs, h) != bitmap_block(fs, g));
        } else {
            assert(bitmap_block(fs, g) != bitmap_block(fs, h));
        }
        fs_laws::lemma_apart(bitmap_block(fs, h), bitmap_block(fs, g), fs.bs());
        assert(bitmap_of(after, h) =~= bitmap_of(fs, h));
    } else {
        assert(bitmap_of(after, g) =~= bitmap::with_bit(bitmap_of(fs, g), i));
    }
}

/// An allocated inode was free, is marked as used afterwards, and is the only
/// inode whose mark changes; the bitmaps stay sound.
pub proof fn law_allocated_inode_was_free(fs: FsModel, is_dir: bool)
    requires
        sound(fs),
        fs::inode_taken(fs, 0, is_dir) is Some,
    ensures
        ({
            let (after, num) = fs::inode_taken(fs, 0, is_dir)->0;
            &&& sound(after)
            &&& 1 <= num <= inode_limit(fs)
            &&& !in_use(fs, num)
            &&& forall|x: int|
                1 <= x <= inode_limit(fs) ==> #[trigger] in_use(after, x) == (x == num || in_use(
                    fs,
                    x,
                ))
        }),
{
    lemma_inode_taken(fs, 0, is_dir);
    let (after, num) = fs::inode_taken(fs, 0, is_dir)->0;
    let (g, i) = choose|g: int, i: int| #[trigger]
        took(fs, after, g, i) && num == i + fs.sb.inodes_per_group * g + 1;
    let per = fs.sb.inodes_per_group;
    assert(per * g == g * per) by (nonlinear_arith);
    vstd::arithmetic::div_mod::lemma_fundamental_div_mod_converse(num - 1, per, g, i);
    assert(per * g + per <= per * fs.groups.len()) by (nonlinear_arith)
        requires
            g + 1 <= fs.groups.len(),
            per > 0,
    ;
    assert(per * g >= 0) by (nonlinear_arith)
        requires
            g >= 0,
            per > 0,
    ;
    assert(group_sound(fs, g));
    assert forall|x: int| 1 <= x <= inode_limit(fs) implies #[trigger] in_use(after, x) == (x == num
        || in_use(fs, x)) by {
        let h = (x - 1) / per;
        let k = (x - 1) % per;
        vstd::arithmetic::div_mod::lemma_fundamental_div_mod(x - 1, per);
        assert(0 <= h < fs.groups.len()) by (nonlinear_arith)
            requires
                x - 1 == per * h + k,
                0 <= k < per,
                0 <= x - 1 < per * fs.groups.len(),
        ;
        lemma_bitmaps_after(fs, after, g, i, h);
        if h == g {
            bitmap::lemma_bit(bitmap_of(fs, g), i, k);
        }
    }
    assert forall|h: int| 0 <= h < after.groups.len() implies #[trigger] group_sound(after, h) by {
        lemma_bitmaps_after(fs, after, g, i, h);
        assert(group_sound(fs, h));
        if h == g {
            fs_laws::lemma_count_with_bit(bitmap_of(fs, g), i, per);
        }
    }
    assert forall|h: int, k: int| 0 <= h < k < after.groups.len() implies #[trigger] bitmap_block(
        after,
        h,
    ) != #[trigger] bitmap_block(after, k) by {
        lemma_bitmaps_after(fs, after, g, i, h);
        lemma_bitmaps_after(fs, after, g, i, k);
        assert(bitmap_block(fs, h) != bitmap_block(fs, k));
    }
}

/// Two allocations in a row give different inodes.
pub proof fn law_allocated_inodes_differ(fs: FsModel, first_dir: bool, second_dir: bool)
    requires
        sound(fs),
        fs::inode_taken(fs, 0, first_dir) is Some,
        fs::inode_taken((fs::inode_taken(fs, 0, first_dir)->0).0, 0, second_dir) is Some,
    ensures
        (fs::inode_taken(fs, 0, first_dir)->0).1 != (fs::inode_taken(
            (fs::inode_taken(fs, 0, first_dir)->0).0,
            0,
            second_dir,
        )->0).1,
{
    law_allocated_inode_was_free(fs, first_dir);
    law_allocated_inode_was_free((fs::inode_taken(fs, 0, first_dir)->0).0, second_dir);
}

} // verus!
