//! What allocation does to the blocks of a file system.
use vstd::prelude::*;
use crate::bytes;
use crate::fs::ext4::bitmap;
use crate::fs::ext4::bitmap::bit_set;
use crate::fs::ext4::block_group;
use crate::fs::ext4::extent_tree;
use crate::fs::ext4::fs;
use crate::fs::ext4::fs::FsModel;
use crate::fs::ext4::io;

verus! {

/// The block that holds the block bitmap of group `g`.
pub open spec fn bitmap_block(fs: FsModel, g: int) -> int {
    fs.groups[g].block_bitmap as int
}

/// The block bitmap of group `g`.
pub open spec fn bitmap_of(fs: FsModel, g: int) -> Seq<u8> {
    io::block_at(fs.disk, fs.bs(), bitmap_block(fs, g))
}

/// Block `x` is marked as used.
pub open spec fn in_use(fs: FsModel, x: int) -> bool {
    bit_set(bitmap_of(fs, x / fs.sb.blocks_per_group), x % fs.sb.blocks_per_group)
}

/// Number of blocks that the bitmaps speak of.
pub open spec fn block_limit(fs: FsModel) -> int {
    fs.sb.blocks_per_group * fs.groups.len()
}

/// Number of free items among the first `n`.
pub open spec fn clear_count(b: Seq<u8>, n: int) -> int
    decreases n,
{
    if n <= 0 {
        0
    } else if bit_set(b, n - 1) {
        clear_count(b, n - 1)
    } else {
        clear_count(b, n - 1) + 1
    }
}

/// Group `g` has a bitmap of its own, which is marked as used, and counts no
/// more free blocks than its bitmap has.
pub open spec fn group_sound(fs: FsModel, g: int) -> bool {
    &&& extent_tree::node_on(fs.disk, fs.bs(), bitmap_block(fs, g))
    &&& bitmap_block(fs, g) < block_limit(fs)
    &&& in_use(fs, bitmap_block(fs, g))
    &&& fs.groups[g].inner.free_blocks_count <= clear_count(bitmap_of(fs, g), 8 * fs.bs())
}

/// The bitmaps are sound: one whole block of bits for each group, all different.
pub open spec fn sound(fs: FsModel) -> bool {
    &&& fs.wf()
    &&& fs.sb.blocks_per_group == 8 * fs.bs()
    &&& forall|g: int| 0 <= g < fs.groups.len() ==> #[trigger] group_sound(fs, g)
    &&& forall|g: int, h: int|
        0 <= g < h < fs.groups.len() ==> #[trigger] bitmap_block(fs, g) != #[trigger] bitmap_block(
            fs,
            h,
        )
}

/// Where free items are counted there is one.
pub proof fn lemma_clear_count(b: Seq<u8>, n: int)
    requires
        clear_count(b, n) > 0,
    ensures
        exists|i: int| 0 <= i < n && !#[trigger] bit_set(b, i),
    decreases n,
{
    if n > 0 && bit_set(b, n - 1) {
        lemma_clear_count(b, n - 1);
    }
}

/// Taking a free item leaves one less.
pub proof fn lemma_count_with_bit(b: Seq<u8>, i: int, n: int)
    requires
        0 <= i < 8 * b.len(),
        0 <= n <= 8 * b.len(),
        !bit_set(b, i),
    ensures
        clear_count(bitmap::with_bit(b, i), n) == clear_count(b, n) - (if i < n {
            1int
        } else {
            0
        }),
    decreases n,
{
    if n > 0 {
        lemma_count_with_bit(b, i, n - 1);
        bitmap::lemma_bit(b, i, n - 1);
    }
}

/// Two blocks do not overlap.
pub proof fn lemma_apart(a: int, b: int, bs: int)
    requires
        a != b,
        bs > 0,
    ensures
        a * bs + bs <= b * bs || b * bs + bs <= a * bs,
{
    if a < b {
        assert(a * bs + bs <= b * bs) by (nonlinear_arith)
            requires
                a + 1 <= b,
                bs > 0,
        ;
    } else {
        assert(b * bs + bs <= a * bs) by (nonlinear_arith)
            requires
                b + 1 <= a,
                bs > 0,
        ;
    }
}

/// What a sound group hands out: its first free block.
proof fn lemma_group_takes(fs: FsModel, g: int)
    requires
        sound(fs),
        0 <= g < fs.groups.len(),
    ensures
        ({
            let t = block_group::block_taken(
                fs.disk,
                fs.groups[g],
                fs.bs(),
                fs.sb.blocks_per_group / 8,
            );
            let first = bitmap::first_clear(
                extent_tree::node_at(fs.disk, fs.bs(), bitmap_block(fs, g)),
                0,
            );
            if fs.groups[g].inner.free_blocks_count == 0 {
                t == Some((fs.disk, fs.groups[g], None::<int>))
            } else {
                &&& first is Some
                &&& 0 <= first->0 < 8 * fs.bs()
                &&& !bit_set(bitmap_of(fs, g), first->0)
                &&& t == Some(
                    (
                        bytes::splice(
                            fs.disk,
                            bitmap_block(fs, g) * fs.bs(),
                            bitmap::with_bit(bitmap_of(fs, g), first->0),
                        ),
                        block_group::with_free_blocks(
                            fs.groups[g],
                            fs.groups[g].inner.free_blocks_count - 1,
                        ),
                        Some(first->0),
                    ),
                )
            }
        }),
{
    let bs = fs.bs();
    let block = bitmap_block(fs, g);
    let node = extent_tree::node_at(fs.disk, bs, block);
    let bits = bitmap_of(fs, g);
    assert(group_sound(fs, g));
    assert(fs.sb.blocks_per_group / 8 == bs);
    if fs.groups[g].inner.free_blocks_count != 0 {
        assert(bits =~= node.take(bs));
        assert forall|i: int| 0 <= i < 8 * bs implies #[trigger] bit_set(node, i) == bit_set(bits, i) by {
            assert(node[i / 8] == bits[i / 8]);
        }
        lemma_clear_count(bits, 8 * bs);
        let i = choose|i: int| 0 <= i < 8 * bs && !#[trigger] bit_set(bits, i);
        assert(!bit_set(node, i));
        bitmap::lemma_first_clear(node, 0);
        let first = bitmap::first_clear(node, 0)->0;
        assert(first <= i);
        assert(bitmap::with_bit(node, first).take(bs) =~= bitmap::with_bit(bits, first));
        assert(bs / bs == 1) by (nonlinear_arith)
            requires
                bs > 0,
        ;
        reveal_with_fuel(block_group::take_one, 2);
        assert(first / 8 <= bs);
        assert(0 * bs * 8 == 0);
    }
}

/// The file system after block `i` of group `g` was marked as used and filled
/// with zeros.
spec fn with_block(fs: FsModel, g: int, i: int) -> FsModel {
    let marked = bytes::splice(
        fs.disk,
        bitmap_block(fs, g) * fs.bs(),
        bitmap::with_bit(bitmap_of(fs, g), i),
    );
    let group = block_group::with_free_blocks(
        fs.groups[g],
        fs.groups[g].inner.free_blocks_count - 1,
    );
    FsModel {
        disk: bytes::splice(
            marked,
            (i + fs.sb.blocks_per_group * g) * fs.bs(),
            bytes::zeros(fs.bs()),
        ),
        ..fs::with_free_blocks(
            fs.with_group(g, group, marked),
            fs.sb.free_blocks_count - 1,
        )
    }
}

/// Block `i` of group `g` is free, and can be handed out.
spec fn can_take(fs: FsModel, g: int, i: int) -> bool {
    &&& sound(fs)
    &&& 0 <= g < fs.groups.len()
    &&& 0 <= i < 8 * fs.bs()
    &&& !bit_set(bitmap_of(fs, g), i)
    &&& fs.groups[g].inner.free_blocks_count > 0
    &&& io::block_on(fs.disk, fs.bs(), i + fs.sb.blocks_per_group * g)
}

/// Number `i` of group `g` belongs to that group, and is not a bitmap.
proof fn lemma_number(fs: FsModel, g: int, i: int)
    requires
        can_take(fs, g, i),
    ensures
        ({
            let b = i + fs.sb.blocks_per_group * g;
            &&& b / fs.sb.blocks_per_group == g
            &&& b % fs.sb.blocks_per_group == i
            &&& 0 <= b < block_limit(fs)
            &&& !in_use(fs, b)
            &&& forall|h: int| 0 <= h < fs.groups.len() ==> #[trigger] bitmap_block(fs, h) != b
        }),
{
    let per = fs.sb.blocks_per_group;
    let b = i + per * g;
    assert(per * g == g * per) by (nonlinear_arith);
    vstd::arithmetic::div_mod::lemma_fundamental_div_mod_converse(b, per, g, i);
    assert(per * g + per <= per * fs.groups.len()) by (nonlinear_arith)
        requires
            g + 1 <= fs.groups.len(),
            per > 0,
    ;
    assert(per * g >= 0) by (nonlinear_arith)
        requires
            g >= 0,
            per > 0,
    ;
    assert forall|h: int| 0 <= h < fs.groups.len() implies #[trigger] bitmap_block(fs, h) != b by {
        assert(group_sound(fs, h));
    }
}

/// What the bitmaps are after a block was handed out.
proof fn lemma_bitmaps_after(fs: FsModel, g: int, i: int, h: int)
    requires
        can_take(fs, g, i),
        0 <= h < fs.groups.len(),
    ensures
        bitmap_block(with_block(fs, g, i), h) == bitmap_block(fs, h),
        with_block(fs, g, i).disk.len() == fs.disk.len(),
        bitmap_of(with_block(fs, g, i), h) == (if h == g {
            bitmap::with_bit(bitmap_of(fs, g), i)
        } else {
            bitmap_of(fs, h)
        }),
{
    let bs = fs.bs();
    let b = i + fs.sb.blocks_per_group * g;
    let fs2 = with_block(fs, g, i);
    lemma_number(fs, g, i);
    assert(group_sound(fs, g));
    assert(group_sound(fs, h));
    assert(bitmap_block(fs, h) != b);
    lemma_apart(bitmap_block(fs, h), b, bs);
    if h != g {
        if h < g {
            assert(bitmap_block(fs, h) != bitmap_block(fs, g));
        } else {
            assert(bitmap_block(fs, g) != bitmap_block(fs, h));
        }
        lemma_apart(bitmap_block(fs, h), bitmap_block(fs, g), bs);
        assert(bitmap_of(fs2, h) =~= bitmap_of(fs, h));
    } else {
        assert(bitmap_of(fs2, g) =~= bitmap::with_bit(bitmap_of(fs, g), i));
    }
}

/// Handing out a free block marks it and no other, and keeps the bitmaps sound.
proof fn lemma_with_block(fs: FsModel, g: int, i: int)
    requires
        can_take(fs, g, i),
    ensures
        sound(with_block(fs, g, i)),
        forall|x: int|
            0 <= x < block_limit(fs) ==> #[trigger] in_use(with_block(fs, g, i), x) == (x == i
                + fs.sb.blocks_per_group * g || in_use(fs, x)),
{
    let fs2 = with_block(fs, g, i);
    let per = fs.sb.blocks_per_group;
    let b = i + per * g;
    lemma_number(fs, g, i);
    assert(group_sound(fs, g));
    assert forall|x: int| 0 <= x < block_limit(fs) implies #[trigger] in_use(fs2, x) == (x == b
        || in_use(fs, x)) by {
        let h = x / per;
        let k = x % per;
        vstd::arithmetic::div_mod::lemma_fundamental_div_mod(x, per);
        assert(0 <= h < fs.groups.len()) by (nonlinear_arith)
            requires
                x == per * h + k,
                0 <= k < per,
                0 <= x < per * fs.groups.len(),
        ;
        lemma_bitmaps_after(fs, g, i, h);
        if h == g {
            bitmap::lemma_bit(bitmap_of(fs, g), i, k);
        }
    }
    assert forall|h: int| 0 <= h < fs2.groups.len() implies #[trigger] group_sound(fs2, h) by {
        lemma_bitmaps_after(fs, g, i, h);
        assert(group_sound(fs, h));
        assert(in_use(fs2, bitmap_block(fs, h)));
        if h == g {
            lemma_count_with_bit(bitmap_of(fs, g), i, 8 * fs.bs());
        }
    }
    assert forall|h: int, k: int| 0 <= h < k < fs2.groups.len() implies #[trigger] bitmap_block(
        fs2,
        h,
    ) != #[trigger] bitmap_block(fs2, k) by {
        lemma_bitmaps_after(fs, g, i, h);
        lemma_bitmaps_after(fs, g, i, k);
        assert(bitmap_block(fs, h) != bitmap_block(fs, k));
    }
}

proof fn lemma_block_taken(fs: FsModel, gi: int)
    requires
        sound(fs),
        0 <= gi,
        fs::block_taken(fs, gi) is Some,
    ensures
        exists|g: int, i: int| #[trigger]
            can_take(fs, g, i) && fs::block_taken(fs, gi) == Some(
                (with_block(fs, g, i), i + fs.sb.blocks_per_group * g),
            ),
    decreases fs.groups.len() - gi,
{
    reveal(fs::block_taken);
    assert(group_sound(fs, gi));
    lemma_group_takes(fs, gi);
    if fs.groups[gi].inner.free_blocks_count == 0 {
        assert(fs.groups.update(gi, fs.groups[gi]) =~= fs.groups);
        lemma_block_taken(fs, gi + 1);
    } else {
        let i = bitmap::first_clear(
            extent_tree::node_at(fs.disk, fs.bs(), bitmap_block(fs, gi)),
            0,
        )->0;
        assert(can_take(fs, gi, i));
    }
}

/// An allocation keeps the geometry and the places of the bitmaps.
pub proof fn lemma_taken_shape(fs: FsModel)
    requires
        sound(fs),
        fs::block_taken(fs, 0) is Some,
    ensures
        ({
            let after = (fs::block_taken(fs, 0)->0).0;
            &&& fs::same_shape(fs, after)
            &&& forall|h: int|
                0 <= h < fs.groups.len() ==> #[trigger] bitmap_block(after, h) == bitmap_block(fs, h)
        }),
{
    lemma_block_taken(fs, 0);
    let (g, i) = choose|g: int, i: int| #[trigger]
        can_take(fs, g, i) && fs::block_taken(fs, 0) == Some(
            (with_block(fs, g, i), i + fs.sb.blocks_per_group * g),
        );
    assert forall|h: int| 0 <= h < fs.groups.len() implies #[trigger] bitmap_block(
        with_block(fs, g, i),
        h,
    ) == bitmap_block(fs, h) by {
        lemma_bitmaps_after(fs, g, i, h);
    }
}

/// An allocated block was free, is marked as used afterwards, and is the only
/// block whose mark changes; the bitmaps stay sound.
pub proof fn law_allocated_block_was_free(fs: FsModel)
    requires
        sound(fs),
        fs::block_taken(fs, 0) is Some,
    ensures
        ({
            let (after, block) = fs::block_taken(fs, 0)->0;
            &&& sound(after)
            &&& 0 <= block < block_limit(fs)
            &&& !in_use(fs, block)
            &&& forall|x: int|
                0 <= x < block_limit(fs) ==> #[trigger] in_use(after, x) == (x == block || in_use(
                    fs,
                    x,
                ))
        }),
{
    lemma_block_taken(fs, 0);
    let (g, i) = choose|g: int, i: int| #[trigger]
        can_take(fs, g, i) && fs::block_taken(fs, 0) == Some(
            (with_block(fs, g, i), i + fs.sb.blocks_per_group * g),
        );
    lemma_number(fs, g, i);
    lemma_with_block(fs, g, i);
}

/// An allocated block lies on the device, and holds zeros; the inode tables stay
/// where they are.
pub proof fn lemma_taken_zeros(fs: FsModel)
    requires
        sound(fs),
        fs::block_taken(fs, 0) is Some,
    ensures
        ({
            let (after, block) = fs::block_taken(fs, 0)->0;
            &&& io::block_on(after.disk, fs.bs(), block)
            &&& io::block_at(after.disk, fs.bs(), block) == bytes::zeros(fs.bs())
            &&& forall|h: int|
                0 <= h < fs.groups.len() ==> (#[trigger] after.groups[h]).inode_table
                    == fs.groups[h].inode_table
        }),
{
    lemma_block_taken(fs, 0);
    let (g, i) = choose|g: int, i: int| #[trigger]
        can_take(fs, g, i) && fs::block_taken(fs, 0) == Some(
            (with_block(fs, g, i), i + fs.sb.blocks_per_group * g),
        );
    let after = with_block(fs, g, i);
    let block = i + fs.sb.blocks_per_group * g;
    assert(group_sound(fs, g));
    assert(io::block_at(after.disk, fs.bs(), block) =~= bytes::zeros(fs.bs()));
}

/// An allocation changes the content of no block that is in use, but for the
/// bitmaps.
pub proof fn law_allocation_keeps_used_blocks(fs: FsModel, x: int)
    requires
        sound(fs),
        fs::block_taken(fs, 0) is Some,
        0 <= x < block_limit(fs),
        in_use(fs, x),
        io::block_on(fs.disk, fs.bs(), x),
        forall|h: int| 0 <= h < fs.groups.len() ==> #[trigger] bitmap_block(fs, h) != x,
    ensures
        io::block_at((fs::block_taken(fs, 0)->0).0.disk, fs.bs(), x) == io::block_at(
            fs.disk,
            fs.bs(),
            x,
        ),
{
    lemma_block_taken(fs, 0);
    let (g, i) = choose|g: int, i: int| #[trigger]
        can_take(fs, g, i) && fs::block_taken(fs, 0) == Some(
            (with_block(fs, g, i), i + fs.sb.blocks_per_group * g),
        );
    lemma_number(fs, g, i);
    assert(group_sound(fs, g));
    lemma_apart(bitmap_block(fs, g), x, fs.bs());
    lemma_apart(i + fs.sb.blocks_per_group * g, x, fs.bs());
    assert(io::block_at(with_block(fs, g, i).disk, fs.bs(), x) =~= io::block_at(
        fs.disk,
        fs.bs(),
        x,
    ));
}

/// Two allocations in a row give different blocks.
pub proof fn law_allocated_blocks_differ(fs: FsModel)
    requires
        sound(fs),
        fs::block_taken(fs, 0) is Some,
        fs::block_taken((fs::block_taken(fs, 0)->0).0, 0) is Some,
    ensures
        (fs::block_taken(fs, 0)->0).1 != (fs::block_taken((fs::block_taken(fs, 0)->0).0, 0)->0).1,
{
    law_allocated_block_was_free(fs);
    law_allocated_block_was_free((fs::block_taken(fs, 0)->0).0);
}

proof fn lemma_count_without_bit(b: Seq<u8>, i: int, n: int)
    requires
        0 <= i < 8 * b.len(),
        0 <= n <= 8 * b.len(),
        bit_set(b, i),
    ensures
        clear_count(bitmap::without_bit(b, i), n) == clear_count(b, n) + (if i < n {
            1int
        } else {
            0
        }),
    decreases n,
{
    if n > 0 {
        lemma_count_without_bit(b, i, n - 1);
        bitmap::lemma_bit(b, i, n - 1);
    }
}

/// What the bitmaps are after a block was given back.
proof fn lemma_bitmaps_freed(fs: FsModel, block: int, h: int)
    requires
        sound(fs),
        0 <= block < block_limit(fs),
        (block % fs.sb.blocks_per_group) / 8 + 1 < fs.bs(),
        fs::blocks_freed(fs, block, 1) is Some,
        0 <= h < fs.groups.len(),
    ensures
        ({
            let after = fs::blocks_freed(fs, block, 1)->0;
            let g = block / fs.sb.blocks_per_group;
            &&& 0 <= g < fs.groups.len()
            &&& after.disk.len() == fs.disk.len()
            &&& after.groups.len() == fs.groups.len()
            &&& after.sb == (crate::fs::ext4::super_block::SuperModel {
                free_blocks_count: fs.sb.free_blocks_count + 1,
                ..fs.sb
            })
            &&& bitmap_block(after, h) == bitmap_block(fs, h)
            &&& after.groups[h].inner.free_blocks_count == fs.groups[h].inner.free_blocks_count + (
            if h == g {
                1int
            } else {
                0
            })
            &&& bitmap_of(after, h) == (if h == g {
                bitmap::without_bit(bitmap_of(fs, g), block % fs.sb.blocks_per_group)
            } else {
                bitmap_of(fs, h)
            })
        }),
{
    let bs = fs.bs();
    let per = fs.sb.blocks_per_group;
    let g = block / per;
    let i = block % per;
    let after = fs::blocks_freed(fs, block, 1)->0;
    vstd::arithmetic::div_mod::lemma_fundamental_div_mod(block, per);
    assert(i / (bs * 8) == 0) by (nonlinear_arith)
        requires
            0 <= i < bs * 8,
    ;
    assert(i % (bs * 8) == i) by (nonlinear_arith)
        requires
            0 <= i < bs * 8,
    ;
    assert(group_sound(fs, g));
    assert(group_sound(fs, h));
    let node = extent_tree::node_at(fs.disk, bs, bitmap_block(fs, g));
    reveal_with_fuel(bitmap::without_range, 2);
    assert(bitmap::freed_run(node, i, 1, bs) == bitmap::without_bit(node, i));
    assert(bitmap::without_bit(node, i).take(bs) =~= bitmap::without_bit(bitmap_of(fs, g), i));
    if h != g {
        if h < g {
            assert(bitmap_block(fs, h) != bitmap_block(fs, g));
        } else {
            assert(bitmap_block(fs, g) != bitmap_block(fs, h));
        }
        lemma_apart(bitmap_block(fs, h), bitmap_block(fs, g), bs);
        assert(bitmap_of(after, h) =~= bitmap_of(fs, h));
    } else {
        assert(bitmap_of(after, g) =~= bitmap::without_bit(bitmap_of(fs, g), i));
    }
}

/// A used block that is given back is free afterwards, and is the only block
/// whose mark changes; the bitmaps stay sound.  The bitmaps themselves are left
/// out, and the blocks of a bitmap's last byte: giving those back does nothing.
pub proof fn law_freed_block_is_free(fs: FsModel, block: int)
    requires
        sound(fs),
        0 <= block < block_limit(fs),
        in_use(fs, block),
        forall|h: int| 0 <= h < fs.groups.len() ==> #[trigger] bitmap_block(fs, h) != block,
        (block % fs.sb.blocks_per_group) / 8 + 1 < fs.bs(),
        fs::blocks_freed(fs, block, 1) is Some,
    ensures
        ({
            let after = fs::blocks_freed(fs, block, 1)->0;
            &&& sound(after)
            &&& forall|x: int|
                0 <= x < block_limit(fs) ==> #[trigger] in_use(after, x) == (x != block && in_use(
                    fs,
                    x,
                ))
        }),
{
    let after = fs::blocks_freed(fs, block, 1)->0;
    let per = fs.sb.blocks_per_group;
    let g = block / per;
    let i = block % per;
    assert(group_sound(fs, 0));
    lemma_bitmaps_freed(fs, block, 0);
    assert(group_sound(fs, g));
    vstd::arithmetic::div_mod::lemma_fundamental_div_mod(block, per);
    assert forall|x: int| 0 <= x < block_limit(fs) implies #[trigger] in_use(after, x) == (x
        != block && in_use(fs, x)) by {
        let h = x / per;
        let k = x % per;
        vstd::arithmetic::div_mod::lemma_fundamental_div_mod(x, per);
        assert(0 <= h < fs.groups.len()) by (nonlinear_arith)
            requires
                x == per * h + k,
                0 <= k < per,
                0 <= x < per * fs.groups.len(),
        ;
        lemma_bitmaps_freed(fs, block, h);
        if h == g {
            bitmap::lemma_bit(bitmap_of(fs, g), i, k);
        }
    }
    assert forall|h: int| 0 <= h < after.groups.len() implies #[trigger] group_sound(after, h) by {
        lemma_bitmaps_freed(fs, block, h);
        assert(group_sound(fs, h));
        assert(bitmap_block(fs, h) != block);
        assert(in_use(after, bitmap_block(fs, h)));
        if h == g {
            lemma_count_without_bit(bitmap_of(fs, g), i, 8 * fs.bs());
        }
    }
    assert forall|h: int, k: int| 0 <= h < k < after.groups.len() implies #[trigger] bitmap_block(
        after,
        h,
    ) != #[trigger] bitmap_block(after, k) by {
        lemma_bitmaps_freed(fs, block, h);
        lemma_bitmaps_freed(fs, block, k);
        assert(bitmap_block(fs, h) != bitmap_block(fs, k));
    }
}

/// A mounted file system has what its superblock and its group descriptors say, in
/// the layout of the format: the superblock stands at byte 1024, the descriptors
/// follow in the next block, 64 bytes each.  Its groups are just as many as hold
/// its blocks.
pub proof fn law_mounted(disk: Seq<u8>, g: int)
    requires
        fs::mountable(disk),
    ensures
        ({
            let m = fs::mounted(disk);
            let blocks = bytes::le32(disk, 1028) + 0x1_0000_0000 * bytes::le32(disk, 1360);
            let first = if m.bs() == 1024 { 2 * 1024int } else { m.bs() };
            let at = first + 64 * g;
            &&& m.disk == disk
            &&& m.wf()
            &&& bytes::le32(disk, 1048) == 0 ==> m.bs() == 1024
            &&& bytes::le32(disk, 1048) == 1 ==> m.bs() == 2048
            &&& bytes::le32(disk, 1048) == 2 ==> m.bs() == 4096
            &&& m.sb.blocks_per_group == bytes::le32(disk, 1056)
            &&& m.sb.inodes_per_group == bytes::le32(disk, 1064)
            &&& m.sb.inode_size == bytes::le16(disk, 1112)
            &&& m.sb.free_inodes_count == bytes::le32(disk, 1040)
            &&& m.sb.free_blocks_count == bytes::le32(disk, 1036) + 0x1_0000_0000 * bytes::le32(
                disk,
                1368,
            )
            &&& m.groups.len() * m.sb.blocks_per_group >= blocks
            &&& (m.groups.len() - 1) * m.sb.blocks_per_group < blocks
            &&& 0 <= g < m.groups.len() ==> {
                let d = m.groups[g];
                &&& d.block_bitmap == bytes::le32(disk, at) + 0x1_0000_0000 * bytes::le32(
                    disk,
                    at + 32,
                )
                &&& d.inode_bitmap == bytes::le32(disk, at + 4) + 0x1_0000_0000 * bytes::le32(
                    disk,
                    at + 36,
                )
                &&& d.inode_table == bytes::le32(disk, at + 8) + 0x1_0000_0000 * bytes::le32(
                    disk,
                    at + 40,
                )
                &&& d.inner.free_blocks_count == bytes::le16(disk, at + 12) + 0x1_0000
                    * bytes::le16(disk, at + 44)
                &&& d.inner.free_inodes_count == bytes::le16(disk, at + 14) + 0x1_0000
                    * bytes::le16(disk, at + 46)
                &&& d.inner.used_dirs_count == bytes::le16(disk, at + 16) + 0x1_0000 * bytes::le16(
                    disk,
                    at + 48,
                )
                &&& d.inner.itable_unused == bytes::le16(disk, at + 28) + 0x1_0000 * bytes::le16(
                    disk,
                    at + 50,
                )
            }
        }),
{
    let m = fs::mounted(disk);
    let d = crate::fs::ext4::super_block::super_at(disk, 1024);
    let per = m.sb.blocks_per_group;
    let n = m.sb.block_group_count;
    let blocks = d.blocks();
    vstd::arithmetic::div_mod::lemma_fundamental_div_mod(blocks + per - 1, per);
    vstd::arithmetic::div_mod::lemma_mod_bound(blocks + per - 1, per);
    assert(n * per == per * n && (n - 1) * per == per * n - per) by (nonlinear_arith);
    if 0 <= g < m.groups.len() {
        let first = if m.bs() == 1024 { 2 * 1024int } else { m.bs() };
        let at = first + 64 * g;
        let descs = io::block_at(disk, m.bs(), fs::descriptor_block(m.bs()));
        assert(m.bs() == 1024 || m.bs() == 2048 || m.bs() == 4096);
        let block = fs::descriptor_block(m.bs());
        if m.bs() == 1024 {
            assert(1024int / 1024 == 1);
        } else {
            assert(1024int / m.bs() == 0 && block == 1) by {
                assert(1024int / 2048 == 0 && 1024int / 4096 == 0);
            }
        }
        assert(block * m.bs() == first) by (nonlinear_arith)
            requires
                m.bs() == 1024 && block == 2 && first == 2048 || block == 1 && first == m.bs(),
        ;
        assert(descs == disk.subrange(first, first + m.bs()));
        lemma_desc_bytes(disk, first, m.bs(), 64 * g);
    }
}

/// A descriptor in the block of descriptors that begins at byte `first`.
proof fn lemma_desc_bytes(disk: Seq<u8>, first: int, bs: int, at: int)
    requires
        0 <= first,
        first + bs <= disk.len(),
        0 <= at,
        at + 64 <= bs,
    ensures
        block_group::desc_at(disk.subrange(first, first + bs), at) == block_group::desc_at(
            disk,
            first + at,
        ),
{
    let b = disk.subrange(first, first + bs);
    assert forall|k: int| 0 <= k < 64 implies b[at + k] == #[trigger] disk[first + at + k] by {}
    assert forall|j: int| 0 <= j <= 60 implies #[trigger] bytes::le32(b, at + j) == bytes::le32(
        disk,
        first + at + j,
    ) by {
        assert forall|k: int| 0 <= k < 4 implies b[at + j + k] == #[trigger] disk[first + at + j
            + k] by {}
        bytes::lemma_same_int(b, disk, at + j, first + at + j, 4);
    }
    assert forall|j: int| 0 <= j <= 62 implies #[trigger] bytes::le16(b, at + j) == bytes::le16(
        disk,
        first + at + j,
    ) by {
        assert forall|k: int| 0 <= k < 2 implies b[at + j + k] == #[trigger] disk[first + at + j
            + k] by {}
        bytes::lemma_same_int(b, disk, at + j, first + at + j, 2);
    }
    assert(bytes::le32(b, at) == bytes::le32(b, at + 0));
    assert(bytes::le32(disk, first + at) == bytes::le32(disk, first + at + 0));
}

} // verus!
