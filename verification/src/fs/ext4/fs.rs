//! A mounted ext4 file system: superblock, block groups and device.
use vstd::prelude::*;
use crate::bytes;
use crate::fs::dev::block_dev::BlockDevice;
use crate::fs::ext4::block_group;
use crate::fs::ext4::block_group::{Ext4GroupDescDisk, GroupDesc, GROUP_DESC_SIZE};
use crate::fs::ext4::io;
use crate::fs::ext4::super_block;
use crate::fs::ext4::super_block::{Ext4SuperBlock, Ext4SuperBlockDisk, SuperModel};

verus! {

/// Byte offset of the superblock.
pub const EXT4_SUPERBLOCK_OFFSET: usize = 1024;

/// A mounted file system.
pub struct Ext4FileSystem<D: BlockDevice> {
    pub super_block: Ext4SuperBlock,
    pub block_groups: Vec<GroupDesc>,
    pub block_device: D,
}

/// Mathematical content of an `Ext4FileSystem`.
#[verifier::ext_equal]
pub struct FsModel {
    pub disk: Seq<u8>,
    pub sb: SuperModel,
    pub groups: Seq<GroupDesc>,
}

impl<D: BlockDevice> View for Ext4FileSystem<D> {
    type V = FsModel;

    open spec fn view(&self) -> FsModel {
        FsModel {
            disk: self.block_device.contents(),
            sb: self.super_block@,
            groups: self.block_groups@,
        }
    }
}

impl FsModel {
    /// The geometry makes sense, and the groups are those that one block of
    /// descriptors can describe.
    pub open spec fn wf(self) -> bool {
        &&& self.sb.wf()
        &&& self.groups.len() <= 64
    }

    /// Block size.
    pub open spec fn bs(self) -> int {
        self.sb.block_size
    }

    /// The file system after group `gi` and the device changed.
    pub open spec fn with_group(self, gi: int, g: GroupDesc, disk: Seq<u8>) -> FsModel {
        FsModel { disk, groups: self.groups.update(gi, g), ..self }
    }
}

/// The geometry of two states of one file system agrees.
pub open spec fn same_shape(a: FsModel, b: FsModel) -> bool {
    &&& a.disk.len() == b.disk.len()
    &&& a.groups.len() == b.groups.len()
    &&& a.sb.block_size == b.sb.block_size
    &&& a.sb.block_group_count == b.sb.block_group_count
    &&& a.sb.blocks_per_group == b.sb.blocks_per_group
    &&& a.sb.inodes_per_group == b.sb.inodes_per_group
    &&& a.sb.inode_size == b.sb.inode_size
}

/// The group descriptor block of a file system with block size `bs`.
pub open spec fn descriptor_block(bs: int) -> int {
    1024int / bs + 1
}

/// The device holds a file system that can be mounted: a valid superblock, and
/// one block of descriptors for all of its groups.
pub open spec fn mountable(disk: Seq<u8>) -> bool {
    let d = super_block::super_at(disk, 1024);
    let sb = super_block::super_of(d);
    &&& disk.len() >= 4096
    &&& d.valid()
    &&& 0 < sb.block_group_count
    &&& sb.block_group_count * 64 <= sb.block_size
    &&& io::block_on(disk, sb.block_size, descriptor_block(sb.block_size))
}

/// The file system on a device.
pub open spec fn mounted(disk: Seq<u8>) -> FsModel {
    let sb = super_block::super_of(super_block::super_at(disk, 1024));
    let descs = io::block_at(disk, sb.block_size, descriptor_block(sb.block_size));
    FsModel {
        disk,
        sb,
        groups: Seq::new(
            sb.block_group_count as nat,
            |i: int| block_group::group_of(block_group::desc_at(descs, 64 * i)),
        ),
    }
}

/// An inode taken from the first group, from `gi` on, that has one: the file
/// system afterwards and the inode's number.  None when there is no inode left,
/// or the file system's own records do not allow it.
#[verifier::opaque]
pub open spec fn inode_taken(fs: FsModel, gi: int, is_dir: bool) -> Option<(FsModel, int)>
    decreases fs.groups.len() - gi,
{
    let size = fs.sb.inodes_per_group / 8;
    if gi < 0 || gi >= fs.groups.len() || size > fs.bs() {
        None
    } else {
        match block_group::inode_taken(fs.disk, fs.groups[gi], fs.bs(), size, is_dir) {
            None => None,
            Some(t) => {
                let fs1 = fs.with_group(gi, t.1, t.0);
                match t.2 {
                    None => inode_taken(fs1, gi + 1, is_dir),
                    Some(i) => if fs.sb.free_inodes_count == 0 {
                        None
                    } else {
                        Some(
                            (
                                FsModel {
                                    sb: SuperModel {
                                        free_inodes_count: fs.sb.free_inodes_count - 1,
                                        ..fs.sb
                                    },
                                    ..fs1
                                },
                                i + fs.sb.inodes_per_group * gi + 1,
                            ),
                        )
                    },
                }
            },
        }
    }
}

/// A file system with another number of free blocks.
pub open spec fn with_free_blocks(fs: FsModel, n: int) -> FsModel {
    FsModel { sb: SuperModel { free_blocks_count: n, ..fs.sb }, ..fs }
}

/// A block taken from the first group, from `gi` on, that has one, and filled
/// with zeros: the file system afterwards and the block's number.
#[verifier::opaque]
pub open spec fn block_taken(fs: FsModel, gi: int) -> Option<(FsModel, int)>
    decreases fs.groups.len() - gi,
{
    let size = fs.sb.blocks_per_group / 8;
    if gi < 0 || gi >= fs.groups.len() {
        None
    } else {
        match block_group::block_taken(fs.disk, fs.groups[gi], fs.bs(), size) {
            None => None,
            Some(t) => {
                let fs1 = fs.with_group(gi, t.1, t.0);
                match t.2 {
                    None => block_taken(fs1, gi + 1),
                    Some(i) => {
                        let block = i + fs.sb.blocks_per_group * gi;
                        if fs.sb.free_blocks_count == 0 || !io::block_on(t.0, fs.bs(), block) {
                            None
                        } else {
                            Some(
                                (
                                    FsModel {
                                        disk: bytes::splice(
                                            t.0,
                                            block * fs.bs(),
                                            bytes::zeros(fs.bs()),
                                        ),
                                        ..with_free_blocks(fs1, fs.sb.free_blocks_count - 1)
                                    },
                                    block,
                                ),
                            )
                        }
                    },
                }
            },
        }
    }
}

/// Runs of blocks filled with zeros and counted as used.
pub open spec fn zeroed(fs: FsModel, runs: Seq<(int, int)>) -> Option<FsModel>
    decreases runs.len(),
{
    if runs.len() == 0 {
        Some(fs)
    } else {
        let p = runs[0];
        if fs.sb.free_blocks_count < p.1 || (p.0 + p.1) * fs.bs() > fs.disk.len() {
            None
        } else {
            zeroed(
                FsModel {
                    disk: bytes::splice(fs.disk, p.0 * fs.bs(), bytes::zeros(p.1 * fs.bs())),
                    ..with_free_blocks(fs, fs.sb.free_blocks_count - p.1)
                },
                runs.drop_first(),
            )
        }
    }
}

/// Up to `count` blocks taken from the groups from `gi` on: the file system
/// afterwards and the runs.
#[verifier::opaque]
pub open spec fn blocks_taken(fs: FsModel, gi: int, count: int) -> Option<
    (FsModel, Seq<(int, int)>),
>
    decreases fs.groups.len() - gi,
{
    let size = fs.sb.blocks_per_group / 8;
    if gi < 0 || gi >= fs.groups.len() || count <= 0 {
        Some((fs, seq![]))
    } else {
        match block_group::blocks_taken(fs.disk, fs.groups[gi], fs.bs(), size, count) {
            None => None,
            Some(t) => {
                let runs = block_group::shifted(t.2, fs.sb.blocks_per_group * gi);
                match zeroed(fs.with_group(gi, t.1, t.0), runs) {
                    None => None,
                    Some(fs2) => if fs2.groups.len() != fs.groups.len() {
                        None
                    } else {
                        match blocks_taken(fs2, gi + 1, count - block_group::total(t.2)) {
                            None => None,
                            Some(rest) => Some((rest.0, runs + rest.1)),
                        }
                    },
                }
            },
        }
    }
}

/// Blocks given back.
pub open spec fn blocks_freed(fs: FsModel, block: int, count: int) -> Option<FsModel> {
    let gi = block / fs.sb.blocks_per_group;
    let local = block % fs.sb.blocks_per_group;
    if !(0 <= gi < fs.groups.len()) || fs.sb.free_blocks_count + count > u64::MAX {
        None
    } else {
        match block_group::blocks_freed(
            fs.disk,
            fs.groups[gi],
            local,
            count,
            fs.bs(),
            fs.sb.blocks_per_group / 8,
        ) {
            None => None,
            Some(t) => Some(
                with_free_blocks(fs.with_group(gi, t.1, t.0), fs.sb.free_blocks_count + count),
            ),
        }
    }
}

/// An inode given back.  The counter of the superblock stays.
pub open spec fn inode_freed(fs: FsModel, num: int, is_dir: bool) -> Option<FsModel> {
    let gi = (num - 1) / fs.sb.inodes_per_group;
    let local = (num - 1) % fs.sb.inodes_per_group;
    if num < 1 || !(0 <= gi < fs.groups.len()) {
        None
    } else {
        match block_group::inode_freed(
            fs.disk,
            fs.groups[gi],
            local,
            is_dir,
            fs.sb.inode_size,
            fs.bs(),
            fs.sb.inodes_per_group / 8,
        ) {
            None => None,
            Some(t) => Some(fs.with_group(gi, t.1, t.0)),
        }
    }
}

impl<D: BlockDevice> Ext4FileSystem<D> {
    /// Mount the file system on a device.
    pub fn open(block_device: D) -> (r: Self)
        requires
            mountable(block_device.contents()),
        ensures
            r@ == mounted(block_device.contents()),
            r@.wf(),
    {
        let ghost disk = block_device.contents();
        let mut head: Vec<u8> = vec![0u8;4096];
        block_device.read(0, head.as_mut_slice());
        let on_disk = Ext4SuperBlockDisk::read_from(head.as_slice(), EXT4_SUPERBLOCK_OFFSET);
        proof {
            lemma_same_super(head@, disk, 1024);
        }
        let super_block = Ext4SuperBlock::new(&on_disk);
        let bs: usize = super_block.block_size as usize;
        let table: u64 = (EXT4_SUPERBLOCK_OFFSET / bs) as u64 + 1;
        let count: usize = super_block.block_group_count as usize;
        let data = io::read_block(&block_device, table, bs);
        let mut block_groups: Vec<GroupDesc> = Vec::new();
        let mut i: usize = 0;
        while i < count
            invariant
                i <= count <= 64,
                count * 64 <= data@.len(),
                block_groups@.len() == i,
                forall|k: int|
                    0 <= k < i ==> #[trigger] block_groups@[k] == block_group::group_of(
                        block_group::desc_at(data@, 64 * k),
                    ),
            decreases count - i,
        {
            let desc = Ext4GroupDescDisk::read_from(data.as_slice(), i * GROUP_DESC_SIZE);
            block_groups.push(GroupDesc::new(&desc));
            i += 1;
        }
        let r = Ext4FileSystem { super_block, block_groups, block_device };
        assert(r@.groups =~= mounted(disk).groups);
        r
    }

    /// Block size.
    pub fn block_size(&self) -> (r: usize)
        ensures
            r == self@.bs(),
    {
        self.super_block.block_size as usize
    }

    /// Take an inode.
    pub fn alloc_inode(&mut self, is_dir: bool) -> (r: u64)
        requires
            old(self)@.wf(),
            inode_taken(old(self)@, 0, is_dir) is Some,
        ensures
            final(self)@.wf(),
            same_shape(old(self)@, final(self)@),
            inode_taken(old(self)@, 0, is_dir) == Some((final(self)@, r as int)),
    {
        let size: usize = self.super_block.inodes_per_group as usize / 8;
        let bs: usize = self.block_size();
        let mut i: usize = 0;
        loop
            invariant
                self@.wf(),
                size == self@.sb.inodes_per_group / 8,
                bs == self@.bs(),
                i <= self@.groups.len(),
                same_shape(old(self)@, self@),
                inode_taken(self@, i as int, is_dir) is Some,
                inode_taken(old(self)@, 0, is_dir) == inode_taken(self@, i as int, is_dir),
            decreases self@.groups.len() - i,
        {
            reveal(inode_taken);
            let mut group = self.block_groups[i];
            let got = group.alloc_inode(&mut self.block_device, bs, size, is_dir);
            self.block_groups.set(i, group);
            if got.is_some() {
                self.super_block.free_inodes_count = self.super_block.free_inodes_count - 1;
                assert(0 <= self.super_block.inodes_per_group * i <= 0xFFFF_FFFF * 64)
                    by (nonlinear_arith)
                    requires
                        i <= 64,
                        self.super_block.inodes_per_group <= 0xFFFF_FFFF,
                ;
                return got.unwrap() + self.super_block.inodes_per_group as u64 * i as u64 + 1;
            }
            i += 1;
        }
    }

    /// Give an inode back.
    pub fn dealloc_inode(&mut self, global_inode_num: u64, is_dir: bool)
        requires
            old(self)@.wf(),
            inode_freed(old(self)@, global_inode_num as int, is_dir) is Some,
        ensures
            final(self)@.wf(),
            same_shape(old(self)@, final(self)@),
            inode_freed(old(self)@, global_inode_num as int, is_dir) == Some(final(self)@),
    {
        let per: u64 = self.super_block.inodes_per_group as u64;
        let index: u64 = global_inode_num - 1;
        let gi: usize = (index / per) as usize;
        let local: u32 = (index % per) as u32;
        let size: usize = self.super_block.inodes_per_group as usize / 8;
        let bs: usize = self.block_size();
        let mut group = self.block_groups[gi];
        group.dealloc_inode(
            &mut self.block_device,
            local,
            is_dir,
            self.super_block.inode_size,
            bs,
            size,
        );
        self.block_groups.set(gi, group);
    }

    /// Remember an inode that has no name any more.
    pub fn add_orphan_inode(&mut self, inode_num: usize)
        ensures
            final(self)@ == (FsModel {
                sb: SuperModel {
                    orphan_inodes: old(self)@.sb.orphan_inodes.push(inode_num),
                    ..old(self)@.sb
                },
                ..old(self)@
            }),
    {
        self.super_block.orphan_inodes.push(inode_num);
    }

    /// Take a block and fill it with zeros.
    pub fn alloc_one_block(&mut self) -> (r: u64)
        requires
            old(self)@.wf(),
            block_taken(old(self)@, 0) is Some,
        ensures
            final(self)@.wf(),
            same_shape(old(self)@, final(self)@),
            block_taken(old(self)@, 0) == Some((final(self)@, r as int)),
    {
        let size: usize = self.super_block.blocks_per_group as usize / 8;
        let bs: usize = self.block_size();
        let mut i: usize = 0;
        loop
            invariant
                self@.wf(),
                size == self@.sb.blocks_per_group / 8,
                bs == self@.bs(),
                i <= self@.groups.len(),
                same_shape(old(self)@, self@),
                block_taken(self@, i as int) is Some,
                block_taken(old(self)@, 0) == block_taken(self@, i as int),
            decreases self@.groups.len() - i,
        {
            reveal(block_taken);
            let mut group = self.block_groups[i];
            let got = group.alloc_one_block(&mut self.block_device, bs, size);
            self.block_groups.set(i, group);
            if got.is_some() {
                self.super_block.free_blocks_count = self.super_block.free_blocks_count - 1;
                assert(0 <= self.super_block.blocks_per_group * i <= 0xFFFF_FFFF * 64)
                    by (nonlinear_arith)
                    requires
                        i <= 64,
                        self.super_block.blocks_per_group <= 0xFFFF_FFFF,
                ;
                let block: u64 = got.unwrap() + self.super_block.blocks_per_group as u64
                    * i as u64;
                let zeroes: Vec<u8> = vec![0u8;bs];
                assert(zeroes@ =~= bytes::zeros(bs as int));
                io::write_block(&mut self.block_device, block, zeroes.as_slice(), bs);
                return block;
            }
            i += 1;
        }
    }

    /// Give blocks back.
    pub fn dealloc_block(&mut self, block_num: u64, block_count: usize)
        requires
            old(self)@.wf(),
            blocks_freed(old(self)@, block_num as int, block_count as int) is Some,
        ensures
            final(self)@.wf(),
            same_shape(old(self)@, final(self)@),
            blocks_freed(old(self)@, block_num as int, block_count as int) == Some(final(self)@),
    {
        let per: u64 = self.super_block.blocks_per_group as u64;
        let gi: usize = (block_num / per) as usize;
        let local: u64 = block_num % per;
        let size: usize = self.super_block.blocks_per_group as usize / 8;
        let bs: usize = self.block_size();
        let mut group = self.block_groups[gi];
        group.dealloc_block(&mut self.block_device, local, block_count, bs, size);
        self.block_groups.set(gi, group);
        self.super_block.free_blocks_count = self.super_block.free_blocks_count
            + block_count as u64;
    }
}

impl<D: BlockDevice> Ext4FileSystem<D> {
    /// Fill blocks with zeros.
    fn zero_run(&mut self, start: u64, count: u32)
        requires
            old(self)@.wf(),
            (start + count) * old(self)@.bs() <= old(self)@.disk.len(),
        ensures
            final(self)@ == (FsModel {
                disk: bytes::splice(
                    old(self)@.disk,
                    start * old(self)@.bs(),
                    bytes::zeros(count * old(self)@.bs()),
                ),
                ..old(self)@
            }),
    {
        let bs: usize = self.block_size();
        let limit: usize = self.block_device.size();
        let ghost d0 = self@.disk;
        let zeroes: Vec<u8> = vec![0u8;bs];
        assert(zeroes@ =~= bytes::zeros(bs as int));
        let mut i: u32 = 0;
        assert(self@.disk =~= bytes::splice(d0, start * bs, bytes::zeros(0 * bs)));
        while i < count
            invariant
                i <= count,
                bs == self@.bs(),
                bs >= 1,
                limit == d0.len(),
                (start + count) * bs <= limit,
                zeroes@ == bytes::zeros(bs as int),
                self@ == (FsModel { disk: self@.disk, ..old(self)@ }),
                self@.disk == bytes::splice(d0, start * bs, bytes::zeros(i * bs)),
            decreases count - i,
        {
            proof {
                assert((start + i) * bs == start * bs + i * bs && (start + i) * bs + bs == (start
                    + i + 1) * bs && (start + i + 1) * bs <= (start + count) * bs && 0 <= start
                    * bs && 0 <= i * bs && (i + 1) * bs == i * bs + bs) by (nonlinear_arith)
                    requires
                        i < count,
                        bs >= 1,
                ;
                block_group::lemma_block_number(start + i, bs as int, limit as int);
            }
            io::write_block(&mut self.block_device, start + i as u64, zeroes.as_slice(), bs);
            proof {
                bytes::lemma_splice_join(
                    d0,
                    start * bs,
                    bytes::zeros(i * bs),
                    bytes::zeros(bs as int),
                );
                assert(bytes::zeros(i * bs) + bytes::zeros(bs as int) =~= bytes::zeros(
                    (i + 1) * bs,
                ));
            }
            i += 1;
        }
    }

    /// Take blocks and fill them with zeros: up to `block_count`, in runs.
    pub fn alloc_block(&mut self, block_count: usize) -> (r: Vec<(u64, u32)>)
        requires
            old(self)@.wf(),
            blocks_taken(old(self)@, 0, block_count as int) is Some,
        ensures
            final(self)@.wf(),
            same_shape(old(self)@, final(self)@),
            blocks_taken(old(self)@, 0, block_count as int) == Some(
                (final(self)@, block_group::runs_of(r@)),
            ),
    {
        let size: usize = self.super_block.blocks_per_group as usize / 8;
        let bs: usize = self.block_size();
        let limit: usize = self.block_device.size();
        let ghost whole = blocks_taken(self@, 0, block_count as int)->0;
        let mut result: Vec<(u64, u32)> = Vec::new();
        let mut remaining: usize = block_count;
        let mut i: usize = 0;
        assert(block_group::runs_of(result@) + whole.1 =~= whole.1);
        while i < self.block_groups.len() && remaining > 0
            invariant
                self@.wf(),
                size == self@.sb.blocks_per_group / 8,
                bs == self@.bs(),
                limit == self@.disk.len(),
                same_shape(old(self)@, self@),
                i <= self@.groups.len(),
                ({
                    let t = blocks_taken(self@, i as int, remaining as int);
                    &&& t is Some
                    &&& whole.0 == (t->0).0
                    &&& whole.1 == block_group::runs_of(result@) + (t->0).1
                }),
            decreases self@.groups.len() - i,
        {
            reveal(blocks_taken);
            let ghost before = self@;
            let ghost out0 = block_group::runs_of(result@);
            let mut group = self.block_groups[i];
            let allocated = group.alloc_block(&mut self.block_device, bs, size, remaining);
            self.block_groups.set(i, group);
            let per: u64 = self.super_block.blocks_per_group as u64;
            let ghost local = block_group::runs_of(allocated@);
            let ghost by = self@.sb.blocks_per_group * i;
            let ghost runs = block_group::shifted(local, by);
            proof {
                block_group::lemma_blocks_taken(
                    before.disk,
                    before.groups[i as int],
                    bs as int,
                    size as int,
                    remaining as int,
                );
                assert(0 <= by <= 0xFFFF_FFFF * 64) by (nonlinear_arith)
                    requires
                        by == self.super_block.blocks_per_group * i,
                        i <= 64,
                        self.super_block.blocks_per_group <= 0xFFFF_FFFF,
                ;
            }
            let ghost goal = zeroed(self@, runs);
            let mut j: usize = 0;
            let ghost remaining0 = remaining as int;
            assert(runs.skip(0) =~= runs);
            assert(local.take(0) =~= seq![]);
            while j < allocated.len()
                invariant
                    j <= allocated@.len(),
                    local == block_group::runs_of(allocated@),
                    by == self@.sb.blocks_per_group * i,
                    0 <= by <= 0xFFFF_FFFF * 64,
                    runs == block_group::shifted(local, by),
                    per == self@.sb.blocks_per_group,
                    self@.wf(),
                    bs == self@.bs(),
                    size == self@.sb.blocks_per_group / 8,
                    limit == self@.disk.len(),
                    same_shape(old(self)@, self@),
                    self@.groups == before.groups.update(i as int, group),
                    goal is Some,
                    goal == zeroed(self@, runs.skip(j as int)),
                    block_group::runs_of(result@) == out0 + runs.take(j as int),
                    remaining == remaining0 - block_group::total(local.take(j as int)),
                    block_group::total(local) <= remaining0,
                    block_group::runs_ok(local),
                decreases allocated@.len() - j,
            {
                let (local_start, count) = allocated[j];
                let ghost p = runs[j as int];
                proof {
                    assert(local[j as int] == (local_start as int, count as int));
                    assert(p == (local_start + by, count as int));
                    assert(runs.skip(j as int)[0] == p);
                    assert(runs.skip(j as int).drop_first() =~= runs.skip(j + 1));
                    assert(local.take(j + 1) =~= local.take(j as int) + seq![local[j as int]]);
                    block_group::lemma_total_concat(local.take(j as int), seq![local[j as int]]);
                    assert(local =~= local.take(j + 1) + local.skip(j + 1));
                    block_group::lemma_total_concat(local.take(j + 1), local.skip(j + 1));
                    block_group::lemma_total_pos(local.skip(j + 1));
                    reveal_with_fuel(block_group::total, 2);
                }
                let global_start: u64 = local_start + per * i as u64;
                self.zero_run(global_start, count);
                self.super_block.free_blocks_count = self.super_block.free_blocks_count
                    - count as u64;
                let ghost result0 = result@;
                result.push((global_start, count));
                proof {
                    assert(block_group::runs_of(result@) =~= block_group::runs_of(result0).push(
                        p,
                    ));
                    assert(runs.take(j + 1) =~= runs.take(j as int).push(p));
                    assert(out0 + runs.take(j + 1) =~= (out0 + runs.take(j as int)).push(p));
                }
                remaining = remaining - count as usize;
                j += 1;
            }
            proof {
                assert(runs.skip(j as int) =~= seq![]);
                assert(runs.take(j as int) =~= runs);
                assert(local.take(j as int) =~= local);
                let rest = blocks_taken(self@, i + 1, remaining as int)->0;
                assert(out0 + (runs + rest.1) =~= block_group::runs_of(result@) + rest.1);
            }
            i += 1;
        }
        reveal(blocks_taken);
        assert(block_group::runs_of(result@) + Seq::<(int, int)>::empty()
            =~= block_group::runs_of(result@));
        result
    }
}

proof fn lemma_same_super(a: Seq<u8>, b: Seq<u8>, at: int)
    requires
        0 <= at,
        at + 1024 <= a.len() <= b.len(),
        a == b.subrange(0, a.len() as int),
    ensures
        super_block::super_at(a, at) == super_block::super_at(b, at),
{
    assert(forall|i: int| 0 <= i < a.len() ==> a[i] == b[i]);
}

} // verus!
