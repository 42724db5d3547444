//! Block groups: each has an inode table and the bitmaps that say which of its
//! inodes and blocks are in use.
use vstd::prelude::*;
use crate::bytes;
use crate::fs::dev::block_dev::BlockDevice;
use crate::fs::ext4::bitmap::Ext4Bitmap;
use crate::fs::ext4::bitmap;
use crate::fs::ext4::extent_tree;
use crate::fs::ext4::io;

verus! {

/// Bytes of a group descriptor on the device.
pub const GROUP_DESC_SIZE: usize = 64;

/// A group descriptor on the device.
#[derive(Debug, Clone, Copy, PartialEq, Eq, Structural)]
pub struct Ext4GroupDescDisk {
    pub block_bitmap_lo: u32,
    pub inode_bitmap_lo: u32,
    pub inode_table_lo: u32,
    pub free_blocks_count_lo: u16,
    pub free_inodes_count_lo: u16,
    pub used_dirs_count_lo: u16,
    pub flags: u16,
    pub exclude_bitmap_lo: u32,
    pub block_bitmap_csum_lo: u16,
    pub inode_bitmap_csum_lo: u16,
    pub itable_unused_lo: u16,
    pub checksum: u16,
    pub block_bitmap_hi: u32,
    pub inode_bitmap_hi: u32,
    pub inode_table_hi: u32,
    pub free_blocks_count_hi: u16,
    pub free_inodes_count_hi: u16,
    pub used_dirs_count_hi: u16,
    pub itable_unused_hi: u16,
    pub exclude_bitmap_hi: u32,
    pub block_bitmap_csum_hi: u16,
    pub inode_bitmap_csum_hi: u16,
    pub reserved: u32,
}

/// The group descriptor stored at `at`.
pub open spec fn desc_at(b: Seq<u8>, at: int) -> Ext4GroupDescDisk {
    Ext4GroupDescDisk {
        block_bitmap_lo: bytes::le32(b, at) as u32,
        inode_bitmap_lo: bytes::le32(b, at + 4) as u32,
        inode_table_lo: bytes::le32(b, at + 8) as u32,
        free_blocks_count_lo: bytes::le16(b, at + 12) as u16,
        free_inodes_count_lo: bytes::le16(b, at + 14) as u16,
        used_dirs_count_lo: bytes::le16(b, at + 16) as u16,
        flags: bytes::le16(b, at + 18) as u16,
        exclude_bitmap_lo: bytes::le32(b, at + 20) as u32,
        block_bitmap_csum_lo: bytes::le16(b, at + 24) as u16,
        inode_bitmap_csum_lo: bytes::le16(b, at + 26) as u16,
        itable_unused_lo: bytes::le16(b, at + 28) as u16,
        checksum: bytes::le16(b, at + 30) as u16,
        block_bitmap_hi: bytes::le32(b, at + 32) as u32,
        inode_bitmap_hi: bytes::le32(b, at + 36) as u32,
        inode_table_hi: bytes::le32(b, at + 40) as u32,
        free_blocks_count_hi: bytes::le16(b, at + 44) as u16,
        free_inodes_count_hi: bytes::le16(b, at + 46) as u16,
        used_dirs_count_hi: bytes::le16(b, at + 48) as u16,
        itable_unused_hi: bytes::le16(b, at + 50) as u16,
        exclude_bitmap_hi: bytes::le32(b, at + 52) as u32,
        block_bitmap_csum_hi: bytes::le16(b, at + 56) as u16,
        inode_bitmap_csum_hi: bytes::le16(b, at + 58) as u16,
        reserved: bytes::le32(b, at + 60) as u32,
    }
}

/// A 64-bit number from its halves.
pub open spec fn wide64(hi: u32, lo: u32) -> u64 {
    (hi * 0x1_0000_0000 + lo) as u64
}

/// A 32-bit number from its halves.
pub open spec fn wide32(hi: u16, lo: u16) -> u32 {
    (hi * 0x1_0000 + lo) as u32
}

fn join64(hi: u32, lo: u32) -> (r: u64)
    ensures
        r == wide64(hi, lo),
{
    hi as u64 * 0x1_0000_0000 + lo as u64
}

fn join32(hi: u16, lo: u16) -> (r: u32)
    ensures
        r == wide32(hi, lo),
{
    hi as u32 * 0x1_0000 + lo as u32
}

impl Ext4GroupDescDisk {
    /// Read the group descriptor stored at `at`.
    pub fn read_from(b: &[u8], at: usize) -> (r: Self)
        requires
            at + GROUP_DESC_SIZE <= b@.len(),
        ensures
            r == desc_at(b@, at as int),
    {
        let _len: usize = b.len();
        Ext4GroupDescDisk {
            block_bitmap_lo: bytes::get_u32(b, at),
            inode_bitmap_lo: bytes::get_u32(b, at + 4),
            inode_table_lo: bytes::get_u32(b, at + 8),
            free_blocks_count_lo: bytes::get_u16(b, at + 12),
            free_inodes_count_lo: bytes::get_u16(b, at + 14),
            used_dirs_count_lo: bytes::get_u16(b, at + 16),
            flags: bytes::get_u16(b, at + 18),
            exclude_bitmap_lo: bytes::get_u32(b, at + 20),
            block_bitmap_csum_lo: bytes::get_u16(b, at + 24),
            inode_bitmap_csum_lo: bytes::get_u16(b, at + 26),
            itable_unused_lo: bytes::get_u16(b, at + 28),
            checksum: bytes::get_u16(b, at + 30),
            block_bitmap_hi: bytes::get_u32(b, at + 32),
            inode_bitmap_hi: bytes::get_u32(b, at + 36),
            inode_table_hi: bytes::get_u32(b, at + 40),
            free_blocks_count_hi: bytes::get_u16(b, at + 44),
            free_inodes_count_hi: bytes::get_u16(b, at + 46),
            used_dirs_count_hi: bytes::get_u16(b, at + 48),
            itable_unused_hi: bytes::get_u16(b, at + 50),
            exclude_bitmap_hi: bytes::get_u32(b, at + 52),
            block_bitmap_csum_hi: bytes::get_u16(b, at + 56),
            inode_bitmap_csum_hi: bytes::get_u16(b, at + 58),
            reserved: bytes::get_u32(b, at + 60),
        }
    }

    /// Whether the group's inode table was never filled in: the lowest flag.
    pub fn is_inode_uninit(&self) -> (r: bool)
        ensures
            r == (self.flags % 2 == 1),
    {
        self.flags % 2 == 1
    }

    pub fn inode_table(&self) -> (r: u64)
        ensures
            r == wide64(self.inode_table_hi, self.inode_table_lo),
    {
        join64(self.inode_table_hi, self.inode_table_lo)
    }

    pub fn block_bitmap(&self) -> (r: u64)
        ensures
            r == wide64(self.block_bitmap_hi, self.block_bitmap_lo),
    {
        join64(self.block_bitmap_hi, self.block_bitmap_lo)
    }

    pub fn inode_bitmap(&self) -> (r: u64)
        ensures
            r == wide64(self.inode_bitmap_hi, self.inode_bitmap_lo),
    {
        join64(self.inode_bitmap_hi, self.inode_bitmap_lo)
    }

    pub fn exclude_bitmap(&self) -> (r: u64)
        ensures
            r == wide64(self.exclude_bitmap_hi, self.exclude_bitmap_lo),
    {
        join64(self.exclude_bitmap_hi, self.exclude_bitmap_lo)
    }

    pub fn free_blocks_count(&self) -> (r: u32)
        ensures
            r == wide32(self.free_blocks_count_hi, self.free_blocks_count_lo),
    {
        join32(self.free_blocks_count_hi, self.free_blocks_count_lo)
    }

    pub fn free_inodes_count(&self) -> (r: u32)
        ensures
            r == wide32(self.free_inodes_count_hi, self.free_inodes_count_lo),
    {
        join32(self.free_inodes_count_hi, self.free_inodes_count_lo)
    }

    pub fn used_dirs_count(&self) -> (r: u32)
        ensures
            r == wide32(self.used_dirs_count_hi, self.used_dirs_count_lo),
    {
        join32(self.used_dirs_count_hi, self.used_dirs_count_lo)
    }

    pub fn itable_unused(&self) -> (r: u32)
        ensures
            r == wide32(self.itable_unused_hi, self.itable_unused_lo),
    {
        join32(self.itable_unused_hi, self.itable_unused_lo)
    }
}

/// Counters of a group.
#[derive(Debug, Clone, Copy, PartialEq, Eq, Structural)]
pub struct GroupDescInner {
    pub free_blocks_count: u32,
    pub free_inodes_count: u32,
    pub used_dirs_count: u32,
    pub itable_unused: u32,
}

impl GroupDescInner {
    #[verifier::allow_in_spec]
    pub fn new(
        free_blocks_count: u32,
        free_inodes_count: u32,
        used_dirs_count: u32,
        itable_unused: u32,
    ) -> Self
        returns
            (GroupDescInner {
                free_blocks_count,
                free_inodes_count,
                used_dirs_count,
                itable_unused,
            }),
    {
        GroupDescInner { free_blocks_count, free_inodes_count, used_dirs_count, itable_unused }
    }
}

/// A group: where its parts are, and how much of it is free.
#[derive(Debug, Clone, Copy, PartialEq, Eq, Structural)]
pub struct GroupDesc {
    pub inode_table: u64,
    pub block_bitmap: u64,
    pub inode_bitmap: u64,
    pub exclude_bitmap: u64,
    pub inner: GroupDescInner,
}

/// The group that a descriptor describes.
pub open spec fn group_of(d: Ext4GroupDescDisk) -> GroupDesc {
    GroupDesc {
        inode_table: wide64(d.inode_table_hi, d.inode_table_lo),
        block_bitmap: wide64(d.block_bitmap_hi, d.block_bitmap_lo),
        inode_bitmap: wide64(d.inode_bitmap_hi, d.inode_bitmap_lo),
        exclude_bitmap: wide64(d.exclude_bitmap_hi, d.exclude_bitmap_lo),
        inner: GroupDescInner {
            free_blocks_count: wide32(d.free_blocks_count_hi, d.free_blocks_count_lo),
            free_inodes_count: wide32(d.free_inodes_count_hi, d.free_inodes_count_lo),
            used_dirs_count: wide32(d.used_dirs_count_hi, d.used_dirs_count_lo),
            itable_unused: wide32(d.itable_unused_hi, d.itable_unused_lo),
        },
    }
}

impl GroupDesc {
    pub fn inode_table(&self) -> (r: u64)
        ensures
            r == self.inode_table,
    {
        self.inode_table
    }

    pub fn new(d: &Ext4GroupDescDisk) -> (r: Self)
        ensures
            r == group_of(*d),
    {
        GroupDesc {
            inode_table: d.inode_table(),
            block_bitmap: d.block_bitmap(),
            inode_bitmap: d.inode_bitmap(),
            exclude_bitmap: d.exclude_bitmap(),
            inner: GroupDescInner::new(
                d.free_blocks_count(),
                d.free_inodes_count(),
                d.used_dirs_count(),
                d.itable_unused(),
            ),
        }
    }
}

// ---------------------------------------------------------------------------
// Allocation
// ---------------------------------------------------------------------------

/// One item taken from the bitmap blocks `from` up to `to`, the first of which
/// is block `first` of the device: the device afterwards, and the item.  None
/// when a bitmap block is not on the device.
pub open spec fn take_one(
    disk: Seq<u8>,
    bs: int,
    size: int,
    first: int,
    from: int,
    to: int,
) -> Option<(Seq<u8>, Option<int>)>
    decreases to - from,
{
    if from >= to {
        Some((disk, None))
    } else if !extent_tree::node_on(disk, bs, first + from) {
        None
    } else {
        let t = bitmap::taken_one(extent_tree::node_at(disk, bs, first + from), size);
        match t.1 {
            Some(i) => Some(
                (io::put_block(disk, bs, first + from, t.0), Some(i + from * bs * 8)),
            ),
            None => take_one(disk, bs, size, first, from + 1, to),
        }
    }
}

/// Number of bitmap blocks that `size` bytes take.
pub open spec fn bitmap_blocks(size: int, bs: int) -> int {
    (size + bs - 1) / bs
}

/// An allocation of an inode in a group: the device and the group afterwards,
/// and the inode's number within the group.
pub open spec fn inode_taken(disk: Seq<u8>, g: GroupDesc, bs: int, size: int, is_dir: bool) -> Option<
    (Seq<u8>, GroupDesc, Option<int>),
> {
    if g.inner.free_inodes_count == 0 {
        Some((disk, g, None))
    } else {
        match take_one(disk, bs, size, g.inode_bitmap as int, 0, bitmap_blocks(size, bs)) {
            None => None,
            Some(t) => match t.1 {
                None => Some((t.0, g, None)),
                Some(i) => if is_dir && g.inner.used_dirs_count == u32::MAX {
                    None
                } else {
                    Some(
                        (
                            t.0,
                            GroupDesc {
                                inner: GroupDescInner {
                                    free_inodes_count: (g.inner.free_inodes_count - 1) as u32,
                                    used_dirs_count: (g.inner.used_dirs_count + (if is_dir {
                                        1int
                                    } else {
                                        0
                                    })) as u32,
                                    ..g.inner
                                },
                                ..g
                            },
                            Some(i),
                        ),
                    )
                },
            },
        }
    }
}

/// An allocation of a block in a group: the device and the group afterwards,
/// and the block's number within the group.
pub open spec fn block_taken(disk: Seq<u8>, g: GroupDesc, bs: int, size: int) -> Option<
    (Seq<u8>, GroupDesc, Option<int>),
> {
    if g.inner.free_blocks_count == 0 {
        Some((disk, g, None))
    } else {
        match take_one(disk, bs, size, g.block_bitmap as int, 0, size / bs) {
            None => None,
            Some(t) => match t.1 {
                None => Some((t.0, g, None)),
                Some(i) => Some((t.0, with_free_blocks(g, g.inner.free_blocks_count - 1), Some(i))),
            },
        }
    }
}

/// A group with another number of free blocks.
pub open spec fn with_free_blocks(g: GroupDesc, n: int) -> GroupDesc {
    GroupDesc { inner: GroupDescInner { free_blocks_count: n as u32, ..g.inner }, ..g }
}

/// Number of items in several runs.
pub open spec fn total(runs: Seq<(int, int)>) -> int
    decreases runs.len(),
{
    if runs.len() == 0 {
        0
    } else {
        runs[0].1 + total(runs.drop_first())
    }
}

/// Runs taken from one bitmap block until `count` items are had or none is
/// left: the block afterwards, and the runs.
pub open spec fn take_runs(b: Seq<u8>, size: int, count: int) -> (Seq<u8>, Seq<(int, int)>)
    decreases count,
{
    let t = bitmap::taken_run(b, size, count);
    if count <= 0 || t.1 is None || !(0 < (t.1->0).1 <= count) {
        (b, seq![])
    } else {
        let rest = take_runs(t.0, size, count - (t.1->0).1);
        (rest.0, seq![t.1->0] + rest.1)
    }
}

/// Runs with their starts moved up by `by`.
pub open spec fn shifted(runs: Seq<(int, int)>, by: int) -> Seq<(int, int)> {
    runs.map_values(|p: (int, int)| (p.0 + by, p.1))
}

/// Runs taken from the bitmap blocks `from` up to `to`.
pub open spec fn take_many(
    disk: Seq<u8>,
    bs: int,
    size: int,
    first: int,
    from: int,
    to: int,
    count: int,
) -> Option<(Seq<u8>, Seq<(int, int)>)>
    decreases to - from,
{
    if from >= to || count <= 0 {
        Some((disk, seq![]))
    } else if !extent_tree::node_on(disk, bs, first + from) {
        None
    } else {
        let t = take_runs(extent_tree::node_at(disk, bs, first + from), size, count);
        let d = if t.1.len() > 0 {
            io::put_block(disk, bs, first + from, t.0)
        } else {
            disk
        };
        match take_many(d, bs, size, first, from + 1, to, count - total(t.1)) {
            None => None,
            Some(rest) => Some((rest.0, shifted(t.1, from * bs * 8) + rest.1)),
        }
    }
}

/// An allocation of up to `count` blocks in a group: the device and the group
/// afterwards, and the runs within the group.
pub open spec fn blocks_taken(disk: Seq<u8>, g: GroupDesc, bs: int, size: int, count: int) -> Option<
    (Seq<u8>, GroupDesc, Seq<(int, int)>),
> {
    match take_many(disk, bs, size, g.block_bitmap as int, 0, size / bs, count) {
        None => None,
        Some(t) => if total(t.1) > g.inner.free_blocks_count {
            None
        } else {
            Some((t.0, with_free_blocks(g, g.inner.free_blocks_count - total(t.1)), t.1))
        },
    }
}

/// Blocks of a group given back: the device and the group afterwards.
pub open spec fn blocks_freed(
    disk: Seq<u8>,
    g: GroupDesc,
    local: int,
    count: int,
    bs: int,
    size: int,
) -> Option<(Seq<u8>, GroupDesc)> {
    let block = g.block_bitmap + local / (bs * 8);
    let at = local % (bs * 8);
    if !extent_tree::node_on(disk, bs, block) || !bitmap::run_in_block(at, count, size)
        || g.inner.free_blocks_count + count > u32::MAX {
        None
    } else {
        Some(
            (
                io::put_block(
                    disk,
                    bs,
                    block,
                    bitmap::freed_run(extent_tree::node_at(disk, bs, block), at, count, size),
                ),
                with_free_blocks(g, g.inner.free_blocks_count + count),
            ),
        )
    }
}

/// Limits within which a group is worked on.
pub open spec fn sizes_ok(bs: int, size: int) -> bool {
    1024 <= bs <= 4096 && 0 <= size <= 0x1FFF_FFFF
}

fn find_free<D: BlockDevice>(
    device: &mut D,
    bs: usize,
    size: usize,
    first: u64,
    to: usize,
) -> (r: Option<u64>)
    requires
        sizes_ok(bs as int, size as int),
        to <= size,
        to * bs <= size + bs,
        take_one(
            old(device).contents(),
            bs as int,
            size as int,
            first as int,
            0,
            to as int,
        ) is Some,
    ensures
        ({
            let t = take_one(
                old(device).contents(),
                bs as int,
                size as int,
                first as int,
                0,
                to as int,
            )->0;
            &&& final(device).contents() == t.0
            &&& t.0.len() == old(device).contents().len()
            &&& match r {
                Some(i) => t.1 == Some(i as int) && i < 0x2_0000_0000,
                None => t.1 is None,
            }
        }),
{
    let ghost disk = device.contents();
    let limit: usize = device.size();
    let mut i: usize = 0;
    while i < to
        invariant
            limit == disk.len(),
            i <= to <= size,
            to * bs <= size + bs,
            sizes_ok(bs as int, size as int),
            device.contents() == disk,
            disk == old(device).contents(),
            take_one(disk, bs as int, size as int, first as int, 0, to as int) is Some,
            take_one(disk, bs as int, size as int, first as int, 0, to as int) == take_one(
                disk,
                bs as int,
                size as int,
                first as int,
                i as int,
                to as int,
            ),
        decreases to - i,
    {
        proof {
            lemma_block_number(first + i, bs as int, limit as int);
        }
        let data = extent_tree::read_node(device, first + i as u64, bs);
        let mut map = Ext4Bitmap::new(data);
        let found = map.alloc_bit(size);
        if found.is_some() {
            let n: usize = found.unwrap();
            io::write_ext4_block(device, first + i as u64, &map.into_block(), bs);
            assert(i * bs <= size + bs && 0 <= i * bs) by (nonlinear_arith)
                requires
                    i < to,
                    to * bs <= size + bs,
                    bs > 0,
            ;
            assert(i * bs * 8 == (i * bs) * 8);
            return Some(n as u64 + i as u64 * bs as u64 * 8);
        }
        i += 1;
    }
    None
}

impl GroupDesc {
    /// Take an inode.  The number is relative to the group.
    pub fn alloc_inode<D: BlockDevice>(
        &mut self,
        block_device: &mut D,
        ext4_block_size: usize,
        inode_bitmap_size: usize,
        is_dir: bool,
    ) -> (r: Option<u64>)
        requires
            sizes_ok(ext4_block_size as int, inode_bitmap_size as int),
            inode_bitmap_size <= ext4_block_size,
            inode_taken(
                old(block_device).contents(),
                *old(self),
                ext4_block_size as int,
                inode_bitmap_size as int,
                is_dir,
            ) is Some,
        ensures
            ({
                let t = inode_taken(
                    old(block_device).contents(),
                    *old(self),
                    ext4_block_size as int,
                    inode_bitmap_size as int,
                    is_dir,
                )->0;
                &&& final(block_device).contents() == t.0
                &&& t.0.len() == old(block_device).contents().len()
                &&& *final(self) == t.1
                &&& match r {
                    Some(i) => t.2 == Some(i as int) && i < 0x2_0000_0000,
                    None => t.2 is None,
                }
            }),
    {
        if self.inner.free_inodes_count == 0 {
            return None;
        }
        let blocks: usize = if inode_bitmap_size == 0 {
            0
        } else {
            1
        };
        proof {
            let s = inode_bitmap_size as int;
            let b = ext4_block_size as int;
            if s == 0 {
                vstd::arithmetic::div_mod::lemma_basic_div(b - 1, b);
            } else {
                vstd::arithmetic::div_mod::lemma_fundamental_div_mod_converse(
                    s + b - 1,
                    b,
                    1,
                    s - 1,
                );
            }
            assert(blocks == bitmap_blocks(s, b));
            assert(blocks * ext4_block_size <= s + b) by (nonlinear_arith)
                requires
                    blocks <= 1,
                    0 <= s,
                    b == ext4_block_size,
            ;
        }
        let r = find_free(
            block_device,
            ext4_block_size,
            inode_bitmap_size,
            self.inode_bitmap,
            blocks,
        );
        if r.is_some() {
            self.inner.free_inodes_count = self.inner.free_inodes_count - 1;
            if is_dir {
                self.inner.used_dirs_count = self.inner.used_dirs_count + 1;
            }
        }
        r
    }

    /// Take a block.  The number is relative to the group.
    pub fn alloc_one_block<D: BlockDevice>(
        &mut self,
        block_device: &mut D,
        ext4_block_size: usize,
        block_bitmap_size: usize,
    ) -> (r: Option<u64>)
        requires
            sizes_ok(ext4_block_size as int, block_bitmap_size as int),
            block_taken(
                old(block_device).contents(),
                *old(self),
                ext4_block_size as int,
                block_bitmap_size as int,
            ) is Some,
        ensures
            ({
                let t = block_taken(
                    old(block_device).contents(),
                    *old(self),
                    ext4_block_size as int,
                    block_bitmap_size as int,
                )->0;
                &&& final(block_device).contents() == t.0
                &&& t.0.len() == old(block_device).contents().len()
                &&& *final(self) == t.1
                &&& match r {
                    Some(i) => t.2 == Some(i as int) && i < 0x2_0000_0000,
                    None => t.2 is None,
                }
            }),
    {
        if self.inner.free_blocks_count < 1 {
            return None;
        }
        let blocks: usize = block_bitmap_size / ext4_block_size;
        proof {
            lemma_block_count(block_bitmap_size as int, ext4_block_size as int);
        }
        let r = find_free(
            block_device,
            ext4_block_size,
            block_bitmap_size,
            self.block_bitmap,
            blocks,
        );
        if r.is_some() {
            self.inner.free_blocks_count = self.inner.free_blocks_count - 1;
        }
        r
    }
}

/// The number of a block on a device is at most the device's size.
pub proof fn lemma_block_number(block: int, bs: int, limit: int)
    requires
        bs >= 1,
        0 <= block * bs <= limit,
    ensures
        0 <= block <= limit,
{
    assert(0 <= block <= block * bs) by (nonlinear_arith)
        requires
            bs >= 1,
            0 <= block * bs,
    ;
}

proof fn lemma_block_count(size: int, bs: int)
    requires
        sizes_ok(bs, size),
    ensures
        0 <= size / bs <= size,
        (size / bs) * bs <= size,
{
    vstd::arithmetic::div_mod::lemma_fundamental_div_mod(size, bs);
    vstd::arithmetic::div_mod::lemma_mod_bound(size, bs);
    vstd::arithmetic::mul::lemma_mul_is_commutative(bs, size / bs);
    vstd::arithmetic::div_mod::lemma_div_pos_is_pos(size, bs);
    assert(size / bs <= (size / bs) * bs) by (nonlinear_arith)
        requires
            size / bs >= 0,
            bs >= 1,
    ;
}

// ---------------------------------------------------------------------------
// Runs of blocks
// ---------------------------------------------------------------------------

/// Mathematical content of a list of runs.
pub open spec fn runs_of(v: Seq<(u64, u32)>) -> Seq<(int, int)> {
    v.map_values(|p: (u64, u32)| (p.0 as int, p.1 as int))
}

/// Totals add up.
pub proof fn lemma_total_concat(a: Seq<(int, int)>, b: Seq<(int, int)>)
    ensures
        total(a + b) == total(a) + total(b),
    decreases a.len(),
{
    if a.len() == 0 {
        assert(a + b =~= b);
    } else {
        assert((a + b).drop_first() =~= a.drop_first() + b);
        lemma_total_concat(a.drop_first(), b);
    }
}

/// Moving runs keeps their total.
pub proof fn lemma_total_shifted(a: Seq<(int, int)>, by: int)
    ensures
        total(shifted(a, by)) == total(a),
    decreases a.len(),
{
    if a.len() > 0 {
        assert(shifted(a, by).drop_first() =~= shifted(a.drop_first(), by));
        lemma_total_shifted(a.drop_first(), by);
    }
}

/// No more is taken from a bitmap block than was asked for.
pub proof fn lemma_take_runs(b: Seq<u8>, size: int, count: int)
    requires
        count >= 0,
        b.len() == 4096,
        size >= 0,
    ensures
        0 <= total(take_runs(b, size, count).1) <= count,
        take_runs(b, size, count).0.len() == 4096,
        forall|k: int|
            0 <= k < take_runs(b, size, count).1.len() ==> {
                let p = #[trigger] take_runs(b, size, count).1[k];
                0 <= p.0 && 0 < p.1 && p.0 + p.1 <= 0x8000
            },
    decreases count,
{
    let t = bitmap::taken_run(b, size, count);
    if count <= 0 || t.1 is None || !(0 < (t.1->0).1 <= count) {
    } else {
        let p = t.1->0;
        bitmap::lemma_widest_in(b, bitmap::item_count(4096, size), count);
        bitmap::law_ranges(b, p.0, p.1, 0);
        lemma_take_runs(t.0, size, count - p.1);
        let rest = take_runs(t.0, size, count - p.1);
        assert((seq![p] + rest.1).drop_first() =~= rest.1);
        assert forall|k: int| 0 <= k < (seq![p] + rest.1).len() implies ({
            let q = #[trigger] (seq![p] + rest.1)[k];
            0 <= q.0 && 0 < q.1 && q.0 + q.1 <= 0x8000
        }) by {
            if k > 0 {
                assert((seq![p] + rest.1)[k] == rest.1[k - 1]);
            }
        }
    }
}

/// Runs that are not empty and have starts that block numbers can have.
pub open spec fn runs_ok(runs: Seq<(int, int)>) -> bool {
    forall|k: int| 0 <= k < runs.len() ==> run_ok(#[trigger] runs[k])
}

pub open spec fn run_ok(p: (int, int)) -> bool {
    0 <= p.0 <= 0x2_0000_0000 && 0 < p.1 <= 0x8000
}

/// A total is not negative.
pub proof fn lemma_total_pos(runs: Seq<(int, int)>)
    requires
        runs_ok(runs),
    ensures
        total(runs) >= 0,
    decreases runs.len(),
{
    if runs.len() > 0 {
        assert forall|k: int| 0 <= k < runs.drop_first().len() implies run_ok(
            #[trigger] runs.drop_first()[k],
        ) by {
            assert(run_ok(runs[k + 1]));
        }
        lemma_total_pos(runs.drop_first());
        assert(run_ok(runs[0]));
    }
}

proof fn lemma_take_many(
    disk: Seq<u8>,
    bs: int,
    size: int,
    first: int,
    from: int,
    to: int,
    count: int,
)
    requires
        sizes_ok(bs, size),
        0 <= from,
        to * bs <= size,
        count >= 0,
    ensures
        match take_many(disk, bs, size, first, from, to, count) {
            None => true,
            Some(t) => {
                &&& 0 <= total(t.1) <= count
                &&& t.0.len() == disk.len()
                &&& runs_ok(t.1)
            },
        },
    decreases to - from,
{
    if from >= to || count <= 0 || !extent_tree::node_on(disk, bs, first + from) {
    } else {
        let b = extent_tree::node_at(disk, bs, first + from);
        let t = take_runs(b, size, count);
        let d = if t.1.len() > 0 {
            io::put_block(disk, bs, first + from, t.0)
        } else {
            disk
        };
        lemma_take_runs(b, size, count);
        lemma_take_many(d, bs, size, first, from + 1, to, count - total(t.1));
        let rest = take_many(d, bs, size, first, from + 1, to, count - total(t.1));
        let by = from * bs * 8;
        lemma_total_shifted(t.1, by);
        assert(0 <= from * bs <= size) by (nonlinear_arith)
            requires
                0 <= from < to,
                to * bs <= size,
                bs > 0,
        ;
        assert(by == (from * bs) * 8);
        if rest is Some {
            let all = shifted(t.1, by) + (rest->0).1;
            lemma_total_concat(shifted(t.1, by), (rest->0).1);
            assert forall|k: int| 0 <= k < all.len() implies run_ok(#[trigger] all[k]) by {
                if k < t.1.len() {
                    assert(all[k] == (t.1[k].0 + by, t.1[k].1));
                } else {
                    assert(all[k] == (rest->0).1[k - t.1.len()]);
                }
            }
        }
    }
}

/// A group hands out no more blocks than it is asked for, and keeps the size of
/// the device.
pub proof fn lemma_blocks_taken(disk: Seq<u8>, g: GroupDesc, bs: int, size: int, count: int)
    requires
        sizes_ok(bs, size),
        count >= 0,
    ensures
        match blocks_taken(disk, g, bs, size, count) {
            None => true,
            Some(t) => {
                &&& 0 <= total(t.2) <= count
                &&& t.0.len() == disk.len()
                &&& runs_ok(t.2)
            },
        },
{
    lemma_block_count(size, bs);
    lemma_take_many(disk, bs, size, g.block_bitmap as int, 0, size / bs, count);
}

/// Take runs from one bitmap block and append them to `out`, moved up by `by`.
fn take_from_block(
    map: &mut Ext4Bitmap,
    size: usize,
    count: usize,
    by: u64,
    out: &mut Vec<(u64, u32)>,
) -> (r: usize)
    requires
        old(map).wf(),
        by + 0x8000 <= u64::MAX,
    ensures
        final(map).wf(),
        final(map)@ == take_runs(old(map)@, size as int, count as int).0,
        runs_of(final(out)@) == runs_of(old(out)@) + shifted(
            take_runs(old(map)@, size as int, count as int).1,
            by as int,
        ),
        r == total(take_runs(old(map)@, size as int, count as int).1),
        r <= count,
        r > 0 <==> take_runs(old(map)@, size as int, count as int).1.len() > 0,
{
    let ghost whole = take_runs(map@, size as int, count as int);
    let ghost start = runs_of(out@);
    let mut left: usize = count;
    let ghost mut done: Seq<(int, int)> = seq![];
    proof {
        lemma_take_runs(map@, size as int, count as int);
        assert(done + take_runs(map@, size as int, left as int).1 =~= whole.1);
        assert(start + shifted(done, by as int) =~= start);
    }
    while left > 0
        invariant_except_break
            whole.0 == take_runs(map@, size as int, left as int).0,
            whole.1 == done + take_runs(map@, size as int, left as int).1,
        invariant
            map.wf(),
            left <= count,
            by + 0x8000 <= u64::MAX,
            whole == take_runs(old(map)@, size as int, count as int),
            runs_of(out@) == start + shifted(done, by as int),
            total(done) == count - left,
            done.len() > 0 <==> left < count,
        ensures
            whole.0 == map@,
            whole.1 == done,
        decreases left,
    {
        let ghost before = map@;
        let got = map.alloc_contiguous(size, left);
        if got.is_none() {
            assert(done + Seq::<(int, int)>::empty() =~= done);
            break ;
        }
        let run: (u64, u32) = (got.unwrap().0 as u64, got.unwrap().1);
        let ghost p = (run.0 as int, run.1 as int);
        proof {
            let ghost rest = take_runs(map@, size as int, left - p.1);
            assert(take_runs(before, size as int, left as int).1 == seq![p] + rest.1);
            assert(done + (seq![p] + rest.1) =~= done.push(p) + rest.1);
            assert(done.push(p) =~= done + seq![p]);
            lemma_total_concat(done, seq![p]);
            assert(seq![p].drop_first() =~= seq![]);
            reveal_with_fuel(total, 2);
            assert(total(seq![p]) == p.1);
        }
        let ghost out0 = out@;
        out.push((run.0 + by, run.1));
        left = left - run.1 as usize;
        proof {
            assert(runs_of(out@) =~= runs_of(out0).push((p.0 + by, p.1)));
            assert(shifted(done.push(p), by as int) =~= shifted(done, by as int).push(
                (p.0 + by, p.1),
            ));
            done = done.push(p);
            assert(runs_of(out@) =~= start + shifted(done, by as int));
        }
    }
    proof {
        if left == 0 {
            assert(done + Seq::<(int, int)>::empty() =~= done);
        }
    }
    count - left
}

impl GroupDesc {
    /// Take up to `block_count` blocks, in as few runs as the bitmap allows when
    /// the widest run is taken first.  The numbers are relative to the group.
    pub fn alloc_block<D: BlockDevice>(
        &mut self,
        block_device: &mut D,
        ext4_block_size: usize,
        block_bitmap_size: usize,
        block_count: usize,
    ) -> (r: Vec<(u64, u32)>)
        requires
            sizes_ok(ext4_block_size as int, block_bitmap_size as int),
            blocks_taken(
                old(block_device).contents(),
                *old(self),
                ext4_block_size as int,
                block_bitmap_size as int,
                block_count as int,
            ) is Some,
        ensures
            ({
                let t = blocks_taken(
                    old(block_device).contents(),
                    *old(self),
                    ext4_block_size as int,
                    block_bitmap_size as int,
                    block_count as int,
                )->0;
                &&& final(block_device).contents() == t.0
                &&& *final(self) == t.1
                &&& runs_of(r@) == t.2
            }),
    {
        let bs: usize = ext4_block_size;
        let size: usize = block_bitmap_size;
        let first: u64 = self.block_bitmap;
        let limit: usize = block_device.size();
        let blocks: usize = size / bs;
        proof {
            lemma_block_count(size as int, bs as int);
        }
        let ghost whole = take_many(
            block_device.contents(),
            bs as int,
            size as int,
            first as int,
            0,
            blocks as int,
            block_count as int,
        )->0;
        let mut out: Vec<(u64, u32)> = Vec::new();
        let mut left: usize = block_count;
        let mut i: usize = 0;
        assert(runs_of(out@) + whole.1 =~= whole.1);
        while i < blocks && left > 0
            invariant
                i <= blocks <= size,
                blocks * bs <= size,
                sizes_ok(bs as int, size as int),
                limit == block_device.contents().len(),
                left <= block_count,
                total(runs_of(out@)) == block_count - left,
                ({
                    let t = take_many(
                        block_device.contents(),
                        bs as int,
                        size as int,
                        first as int,
                        i as int,
                        blocks as int,
                        left as int,
                    );
                    t is Some && whole.0 == (t->0).0 && whole.1 == runs_of(out@) + (t->0).1
                }),
            decreases blocks - i,
        {
            proof {
                lemma_block_number(first + i, bs as int, limit as int);
                assert(i * bs <= size && 0 <= i * bs) by (nonlinear_arith)
                    requires
                        i < blocks,
                        blocks * bs <= size,
                        bs > 0,
                ;
                assert(i * bs * 8 == (i * bs) * 8);
            }
            let data = extent_tree::read_node(block_device, first + i as u64, bs);
            let mut map = Ext4Bitmap::new(data);
            let ghost t = take_runs(map@, size as int, left as int);
            let ghost before = runs_of(out@);
            let got: usize = take_from_block(
                &mut map,
                size,
                left,
                i as u64 * bs as u64 * 8,
                &mut out,
            );
            if got > 0 {
                io::write_ext4_block(block_device, first + i as u64, &map.into_block(), bs);
            }
            proof {
                let by = i * bs * 8;
                lemma_total_concat(before, shifted(t.1, by));
                lemma_total_shifted(t.1, by);
                let rest = take_many(
                    block_device.contents(),
                    bs as int,
                    size as int,
                    first as int,
                    i + 1,
                    blocks as int,
                    left - got,
                )->0;
                assert(before + (shifted(t.1, by) + rest.1) =~= runs_of(out@) + rest.1);
            }
            left = left - got;
            i += 1;
        }
        assert(runs_of(out@) + Seq::<(int, int)>::empty() =~= runs_of(out@));
        let taken: usize = block_count - left;
        self.inner.free_blocks_count = self.inner.free_blocks_count - taken as u32;
        out
    }

    /// Give blocks back.
    pub fn dealloc_block<D: BlockDevice>(
        &mut self,
        block_device: &mut D,
        local_block_num: u64,
        block_count: usize,
        ext4_block_size: usize,
        block_bitmap_size: usize,
    )
        requires
            sizes_ok(ext4_block_size as int, block_bitmap_size as int),
            blocks_freed(
                old(block_device).contents(),
                *old(self),
                local_block_num as int,
                block_count as int,
                ext4_block_size as int,
                block_bitmap_size as int,
            ) is Some,
        ensures
            blocks_freed(
                old(block_device).contents(),
                *old(self),
                local_block_num as int,
                block_count as int,
                ext4_block_size as int,
                block_bitmap_size as int,
            ) == Some((final(block_device).contents(), *final(self))),
    {
        let limit: usize = block_device.size();
        let per: u64 = ext4_block_size as u64 * 8;
        proof {
            lemma_block_number(
                self.block_bitmap + local_block_num as int / (per as int),
                ext4_block_size as int,
                limit as int,
            );
        }
        let block: u64 = self.block_bitmap + local_block_num / per;
        let at: usize = (local_block_num % per) as usize;
        let mut map = Ext4Bitmap::new(
            extent_tree::read_node(block_device, block, ext4_block_size),
        );
        map.dealloc_contiguous(at, block_count, block_bitmap_size);
        io::write_ext4_block(block_device, block, &map.into_block(), ext4_block_size);
        self.inner.free_blocks_count = self.inner.free_blocks_count + block_count as u32;
    }
}

// ---------------------------------------------------------------------------
// Giving an inode back
// ---------------------------------------------------------------------------

/// Deletion time that is stored in a freed inode.
pub const FREED_TIME: u32 = 66666666;

/// A block with the inode stored at `at` wiped: size, mode and block map are
/// zero, and the deletion time is set.
pub open spec fn wiped_inode(b: Seq<u8>, at: int) -> Seq<u8> {
    let s1 = bytes::splice(b, at + 4, bytes::zeros(4));
    let s2 = bytes::splice(s1, at + 112, bytes::zeros(4));
    let s3 = bytes::splice(s2, at + 20, bytes::enc32(FREED_TIME as int));
    let s4 = bytes::splice(s3, at, bytes::zeros(2));
    bytes::splice(s4, at + 40, bytes::zeros(60))
}

/// An inode given back: the device and the group afterwards.
pub open spec fn inode_freed(
    disk: Seq<u8>,
    g: GroupDesc,
    local: int,
    is_dir: bool,
    inode_size: int,
    bs: int,
    size: int,
) -> Option<(Seq<u8>, GroupDesc)> {
    let block = g.inode_table + local * inode_size / bs;
    let at = local * inode_size % bs;
    let map = g.inode_bitmap + local / (bs * 8);
    let d1 = io::put_block(
        disk,
        bs,
        block,
        wiped_inode(extent_tree::node_at(disk, bs, block), at),
    );
    if !extent_tree::node_on(disk, bs, block) || at + 160 > 4096 || !extent_tree::node_on(
        d1,
        bs,
        map,
    ) || g.inner.free_inodes_count == u32::MAX || (is_dir && g.inner.used_dirs_count == 0) {
        None
    } else {
        Some(
            (
                io::put_block(
                    d1,
                    bs,
                    map,
                    bitmap::freed_one(
                        extent_tree::node_at(d1, bs, map),
                        local % (bs * 8),
                        size,
                    ),
                ),
                GroupDesc {
                    inner: GroupDescInner {
                        free_inodes_count: (g.inner.free_inodes_count + 1) as u32,
                        used_dirs_count: (g.inner.used_dirs_count - (if is_dir {
                            1int
                        } else {
                            0
                        })) as u32,
                        ..g.inner
                    },
                    ..g
                },
            ),
        )
    }
}

impl GroupDesc {
    /// Give an inode back.
    pub fn dealloc_inode<D: BlockDevice>(
        &mut self,
        block_device: &mut D,
        local_inode_num: u32,
        is_dir: bool,
        inode_size: u16,
        ext4_block_size: usize,
        block_bitmap_size: usize,
    )
        requires
            sizes_ok(ext4_block_size as int, block_bitmap_size as int),
            inode_freed(
                old(block_device).contents(),
                *old(self),
                local_inode_num as int,
                is_dir,
                inode_size as int,
                ext4_block_size as int,
                block_bitmap_size as int,
            ) is Some,
        ensures
            inode_freed(
                old(block_device).contents(),
                *old(self),
                local_inode_num as int,
                is_dir,
                inode_size as int,
                ext4_block_size as int,
                block_bitmap_size as int,
            ) == Some((final(block_device).contents(), *final(self))),
    {
        let limit: usize = block_device.size();
        let bs: u64 = ext4_block_size as u64;
        assert(0 <= local_inode_num * inode_size <= 0xFFFF_FFFF * 0xFFFF) by (nonlinear_arith);
        let offset: u64 = local_inode_num as u64 * inode_size as u64;
        proof {
            lemma_block_number(
                self.inode_table + offset as int / (bs as int),
                bs as int,
                limit as int,
            );
        }
        let table_block: u64 = self.inode_table + offset / bs;
        let at: usize = (offset % bs) as usize;
        let mut table = extent_tree::read_node(block_device, table_block, ext4_block_size);
        bytes::clear_range(table.as_mut_slice(), at + 4, 4);
        bytes::clear_range(table.as_mut_slice(), at + 112, 4);
        bytes::put_u32(table.as_mut_slice(), at + 20, FREED_TIME);
        bytes::clear_range(table.as_mut_slice(), at, 2);
        bytes::clear_range(table.as_mut_slice(), at + 40, 60);
        io::write_ext4_block(block_device, table_block, &table, ext4_block_size);
        let per: u64 = bs * 8;
        proof {
            lemma_block_number(
                self.inode_bitmap + local_inode_num as int / (per as int),
                bs as int,
                limit as int,
            );
        }
        let map_block: u64 = self.inode_bitmap + local_inode_num as u64 / per;
        let map_at: usize = (local_inode_num as u64 % per) as usize;
        let mut map = Ext4Bitmap::new(
            extent_tree::read_node(block_device, map_block, ext4_block_size),
        );
        map.dealloc(map_at, block_bitmap_size);
        io::write_ext4_block(block_device, map_block, &map.into_block(), ext4_block_size);
        self.inner.free_inodes_count = self.inner.free_inodes_count + 1;
        if is_dir {
            self.inner.used_dirs_count = self.inner.used_dirs_count - 1;
        }
    }
}

} // verus!
