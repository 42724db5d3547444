//! Changing the size of a file and the blocks that it takes.
use vstd::prelude::*;
use crate::bytes;
use crate::fs::dev::block_dev::BlockDevice;
use crate::fs::ext4::block_group;
use crate::fs::ext4::extent_tree;
use crate::fs::ext4::extent_tree::{node_on, Ext4ExtentHeader};
use crate::fs::ext4::fs;
use crate::fs::ext4::fs::{Ext4FileSystem, FsModel};
use crate::fs::ext4::inode::{
    Ext4Inode, InodeModel, F_SEAL_GROW, F_SEAL_SHRINK,
};
use crate::fs::ext4::inode_disk::{InodeDiskModel, EXT4_EXTENTS_FL, EXT4_INLINE_DATA_FL};
use crate::fs::ext4::inode_extents;
use crate::fs::ext4::inode_write;
use crate::fs::page_cache::PAGE_SIZE;
use crate::fs::types::{Errno, SyscallRet};

verus! {

/// How space is to be allocated.
#[derive(Debug, Clone, Copy, PartialEq, Eq, Structural)]
pub struct FallocFlags(pub u32);

impl FallocFlags {
    /// The size of the file stays.
    #[allow(non_snake_case)]
    #[verifier::allow_in_spec]
    pub fn KEEP_SIZE() -> Self
        returns
            (FallocFlags(0x01)),
    {
        FallocFlags(0x01)
    }

    /// Space is given back.
    #[allow(non_snake_case)]
    #[verifier::allow_in_spec]
    pub fn PUNCH_HOLE() -> Self
        returns
            (FallocFlags(0x02)),
    {
        FallocFlags(0x02)
    }

    #[verifier::allow_in_spec]
    pub fn empty() -> Self
        returns
            (FallocFlags(0)),
    {
        FallocFlags(0)
    }

    /// All flags of `other` are set.
    pub open spec fn has(self, other: FallocFlags) -> bool {
        self.0 & other.0 == other.0
    }

    pub fn contains(self, other: Self) -> (r: bool)
        ensures
            r == self.has(other),
    {
        self.0 & other.0 == other.0
    }
}

/// `n` divided by `d` and rounded up.
pub open spec fn units(n: int, d: int) -> int {
    n / d + (if n % d == 0 {
        0int
    } else {
        1
    })
}

/// The inode without the cached pages from `lo` up to `hi`.
pub open spec fn without_pages(m: InodeModel, lo: int, hi: int) -> InodeModel {
    InodeModel {
        pages: Map::new(
            |k: usize| m.pages.contains_key(k) && !(lo <= k < hi),
            |k: usize| m.pages[k],
        ),
        ..m
    }
}

/// The blocks of all extents that contain one of the logical blocks from `lb`
/// up to `to` given back.
pub open spec fn tail_freed(fs: FsModel, d: InodeDiskModel, lb: int, to: int) -> Option<FsModel>
    decreases
            (if lb < to {
                to - lb
            } else {
                0
            }),
{
    if lb >= to {
        Some(fs)
    } else if !inode_extents::whole_tree(d, fs.disk, fs.bs()) {
        None
    } else {
        match inode_extents::root_find(d.block, fs.disk, fs.bs(), lb) {
            None => tail_freed(fs, d, lb + 1, to),
            Some(e) => match fs::blocks_freed(fs, e.phys(), e.len as int) {
                None => None,
                Some(fs1) => if e.len == 0 {
                    None
                } else {
                    tail_freed(fs1, d, lb + e.len, to)
                },
            },
        }
    }
}

/// The last page of a file of size `current`, with the bytes cleared from where
/// the file is to end in its own last page.
pub open spec fn last_page_cleared(fs: FsModel, m: InodeModel, current: int, new: int) -> Option<
    (FsModel, InodeModel),
> {
    let idx = current / 4096;
    let at = new % 4096;
    if current % 4096 == 0 || idx > m.disk.size_lo as int / 4096 {
        Some((fs, m))
    } else {
        match inode_write::page_got(fs, m, idx) {
            None => None,
            Some(t) => Some(
                (t.0, inode_write::page_written(t.1, idx, at, bytes::zeros(4096 - at))),
            ),
        }
    }
}

/// A file made smaller.
pub open spec fn shrunk(fs: FsModel, m: InodeModel, current: int, new: int) -> Option<
    (FsModel, InodeModel),
> {
    if m.disk.inline_data() {
        if current > 60 {
            None
        } else {
            Some(
                (
                    fs,
                    m.with_disk(
                        m.disk.with_block(
                            bytes::splice(m.disk.block, new, bytes::zeros(current - new)),
                        ).with_size(new),
                    ),
                ),
            )
        }
    } else {
        match last_page_cleared(fs, m, current, new) {
            None => None,
            Some(t) => {
                let m1 = without_pages(t.1, units(new, 4096), units(current, 4096));
                let count = units(new, fs.bs());
                let all = units(current, fs.bs());
                if !inode_extents::has_tree(m1.disk) {
                    None
                } else {
                    match tail_freed(
                        t.0,
                        m1.disk,
                        count % 0x1_0000_0000,
                        all % 0x1_0000_0000,
                    ) {
                        None => None,
                        Some(fs2) => Some(
                            (
                                fs2,
                                m1.with_disk(
                                    m1.disk.with_size(new).with_block(
                                        inode_extents::cut_root(m1.disk.block, count),
                                    ),
                                ),
                            ),
                        ),
                    }
                }
            },
        }
    }
}

/// A change of the size of a file.
pub open spec fn truncated(fs: FsModel, m: InodeModel, new: int) -> Option<
    (FsModel, InodeModel, SyscallRet),
> {
    let current = m.disk.size();
    if new == current {
        Some((fs, m, Ok(0)))
    } else if new < current {
        if m.seals & F_SEAL_SHRINK != 0 {
            Some((fs, m, Err(Errno::EPERM)))
        } else {
            match shrunk(fs, m, current, new) {
                None => None,
                Some(t) => Some((t.0, t.1, Ok(0))),
            }
        }
    } else if m.seals & F_SEAL_GROW != 0 {
        Some((fs, m, Err(Errno::EPERM)))
    } else if m.disk.flags & EXT4_INLINE_DATA_FL != 0 {
        Some(
            (
                fs,
                m.with_disk(
                    m.disk.with_flags(EXT4_EXTENTS_FL).with_block(
                        inode_extents::with_empty_tree(m.disk.block),
                    ),
                ).resized(new),
                Ok(0),
            ),
        )
    } else {
        Some((fs, m.resized(new), Ok(0)))
    }
}

/// Runs of blocks mapped one after the other from logical block `lb` on; and
/// the logical block behind the last one.
pub open spec fn runs_mapped(fs: FsModel, d: InodeDiskModel, lb: int, runs: Seq<(int, int)>) -> Option<
    (FsModel, InodeDiskModel, int),
>
    decreases runs.len(),
{
    if runs.len() == 0 {
        Some((fs, d, lb))
    } else if !inode_extents::has_tree(d) || lb + runs[0].1 > u32::MAX {
        None
    } else {
        match inode_extents::root_inserted(fs, d.block, lb, runs[0].0, runs[0].1) {
            None => None,
            Some(t) => if t.2 is Ok {
                runs_mapped(t.0, d.with_block(t.1), lb + runs[0].1, runs.drop_first())
            } else {
                None
            },
        }
    }
}

/// Space allocated up to size `new`.
pub open spec fn extended(
    fs: FsModel,
    m: InodeModel,
    current: int,
    new: int,
    update_size: bool,
) -> Option<(FsModel, InodeModel, SyscallRet)> {
    let from = units(current, 4096);
    let to = units(new, 4096);
    let d = if m.disk.inline_data() {
        m.disk.with_flags(inode_write::tree_flags(m.disk.flags)).with_block(
            inode_extents::with_empty_tree(m.disk.block),
        )
    } else {
        m.disk
    };
    if m.seals & F_SEAL_GROW != 0 {
        Some((fs, m, Err(Errno::EPERM)))
    } else if (m.disk.inline_data() && current > 0) || from > u32::MAX || to < from {
        None
    } else {
        match fs::blocks_taken(fs, 0, to - from) {
            None => None,
            Some(t) => match runs_mapped(t.0, d, from, t.1) {
                None => None,
                Some(r) => if r.2 < to % 0x1_0000_0000 {
                    Some((r.0, m.with_disk(r.1), Err(Errno::ENOSPC)))
                } else if update_size {
                    Some((r.0, m.with_disk(r.1.with_size(new)), Ok(0)))
                } else {
                    Some((r.0, m.with_disk(r.1), Ok(0)))
                },
            },
        }
    }
}

/// The logical blocks from `lb` up to `to` cleared on the device and given
/// back.  They stay mapped.
pub open spec fn punched(fs: FsModel, d: InodeDiskModel, lb: int, to: int) -> Option<FsModel>
    decreases to - lb,
{
    if lb >= to {
        Some(fs)
    } else if !inode_extents::whole_tree(d, fs.disk, fs.bs()) || lb > u32::MAX {
        None
    } else {
        match inode_extents::root_find(d.block, fs.disk, fs.bs(), lb) {
            None => punched(fs, d, lb + 1, to),
            Some(e) => {
                let block = e.target(lb);
                let fs1 = FsModel {
                    disk: bytes::splice(fs.disk, block * fs.bs(), bytes::zeros(4096)),
                    ..fs
                };
                if !node_on(fs.disk, fs.bs(), block) {
                    None
                } else {
                    match fs::blocks_freed(fs1, block, 1) {
                        None => None,
                        Some(fs2) => punched(fs2, d, lb + 1, to),
                    }
                }
            },
        }
    }
}

/// An allocation or release of space.
pub open spec fn fallocated(
    fs: FsModel,
    m: InodeModel,
    mode: FallocFlags,
    offset: int,
    len: int,
) -> Option<(FsModel, InodeModel, SyscallRet)> {
    let current = m.disk.size();
    if mode == FallocFlags::empty() || mode == FallocFlags::KEEP_SIZE() {
        if len == 314572800 || current >= offset + len {
            Some((fs, m, Ok(0)))
        } else {
            extended(fs, m, current, offset + len, !mode.has(FallocFlags::KEEP_SIZE()))
        }
    } else if mode.has(FallocFlags::PUNCH_HOLE()) {
        let from = offset / fs.bs();
        let to = (offset + len) / fs.bs();
        match punched(fs, m.disk, from, to) {
            None => None,
            Some(fs1) => Some((fs1, without_pages(m, from, to), Ok(0))),
        }
    } else {
        Some((fs, m, Err(Errno::ENOSYS)))
    }
}

fn units_of(n: u64, d: u64) -> (r: u64)
    requires
        d >= 2,
    ensures
        r == units(n as int, d as int),
{
    assert(n as int / (d as int) <= n / 2) by (nonlinear_arith)
        requires
            d >= 2,
            n >= 0,
    ;
    n / d + if n % d == 0 {
        0
    } else {
        1
    }
}

impl Ext4Inode {
    /// Drop cached pages.
    fn drop_pages(&mut self, lo: usize, hi: usize)
        requires
            old(self).wf(),
        ensures
            final(self).wf(),
            final(self)@ == without_pages(old(self)@, lo as int, hi as int),
    {
        let mut i: usize = lo;
        assert(self@.pages =~= without_pages(old(self)@, lo as int, lo as int).pages);
        while i < hi
            invariant
                self.wf(),
                lo <= i,
                i <= hi || i == lo,
                self@ == without_pages(old(self)@, lo as int, i as int),
            decreases hi - i,
        {
            self.address_space.remove_page_cache(i);
            assert(self@.pages =~= without_pages(old(self)@, lo as int, i + 1).pages);
            i += 1;
        }
        assert(self@.pages =~= without_pages(old(self)@, lo as int, hi as int).pages);
    }

    fn clear_last_page<D: BlockDevice>(
        &mut self,
        fs: &mut Ext4FileSystem<D>,
        current_size: u64,
        new_size: u64,
    )
        requires
            old(self).wf(),
            old(fs)@.wf(),
            current_size <= usize::MAX,
            last_page_cleared(old(fs)@, old(self)@, current_size as int, new_size as int) is Some,
        ensures
            final(self).wf(),
            final(fs)@.wf(),
            fs::same_shape(old(fs)@, final(fs)@),
            last_page_cleared(old(fs)@, old(self)@, current_size as int, new_size as int) == Some(
                (final(fs)@, final(self)@),
            ),
    {
        if current_size % 4096 != 0 {
            let idx: usize = (current_size / 4096) as usize;
            if idx <= self.inner.inode_on_disk.size_lo as usize / PAGE_SIZE {
                self.obtain_page(fs, idx);
                let at: usize = (new_size % 4096) as usize;
                let rest: usize = PAGE_SIZE - at;
                let zeroes: Vec<u8> = vec![0u8;rest];
                assert(zeroes@ =~= bytes::zeros(4096 - at));
                self.write_page(idx, at, zeroes.as_slice());
            }
        }
    }

    /// Give back the blocks of a file from a logical block on.
    fn free_tail<D: BlockDevice>(&self, fs: &mut Ext4FileSystem<D>, from: u32, to: u32)
        requires
            old(fs)@.wf(),
            tail_freed(old(fs)@, self@.disk, from as int, to as int) is Some,
        ensures
            final(fs)@.wf(),
            fs::same_shape(old(fs)@, final(fs)@),
            tail_freed(old(fs)@, self@.disk, from as int, to as int) == Some(final(fs)@),
    {
        let bs: usize = fs.block_size();
        let mut lb: u64 = from as u64;
        while lb < to as u64
            invariant
                fs@.wf(),
                bs == fs@.bs(),
                fs::same_shape(old(fs)@, fs@),
                tail_freed(fs@, self@.disk, lb as int, to as int) is Some,
                tail_freed(old(fs)@, self@.disk, from as int, to as int) == tail_freed(
                    fs@,
                    self@.disk,
                    lb as int,
                    to as int,
                ),
            decreases to + 0x1_0000 - lb,
        {
            match self.inner.inode_on_disk.lookup_extent(lb as u32, &fs.block_device, bs) {
                Some(e) => {
                    fs.dealloc_block(e.physical_start_block(), e.len as usize);
                    lb += e.len as u64;
                },
                None => {
                    lb += 1;
                },
            }
        }
    }

    /// Make the file smaller.
    fn shrink_size<D: BlockDevice>(
        &mut self,
        fs: &mut Ext4FileSystem<D>,
        current_size: u64,
        new_size: u64,
    ) -> (r: SyscallRet)
        requires
            old(self).wf(),
            old(fs)@.wf(),
            new_size < current_size <= usize::MAX,
            shrunk(old(fs)@, old(self)@, current_size as int, new_size as int) is Some,
        ensures
            final(self).wf(),
            final(fs)@.wf(),
            fs::same_shape(old(fs)@, final(fs)@),
            r == Ok::<usize, Errno>(0),
            shrunk(old(fs)@, old(self)@, current_size as int, new_size as int) == Some(
                (final(fs)@, final(self)@),
            ),
    {
        if self.inner.inode_on_disk.has_inline_data() {
            bytes::clear_range(
                &mut self.inner.inode_on_disk.block,
                new_size as usize,
                (current_size - new_size) as usize,
            );
            self.inner.inode_on_disk.set_size(new_size);
            return Ok(0);
        }
        self.clear_last_page(fs, current_size, new_size);
        let lo: u64 = units_of(new_size, 4096);
        let hi: u64 = units_of(current_size, 4096);
        self.drop_pages(lo as usize, hi as usize);
        let bs: u64 = fs.block_size() as u64;
        let count: u64 = units_of(new_size, bs);
        let all: u64 = units_of(current_size, bs);
        self.free_tail(fs, (count % 0x1_0000_0000) as u32, (all % 0x1_0000_0000) as u32);
        self.inner.inode_on_disk.set_size(new_size);
        self.inner.inode_on_disk.truncate_extents(count)
    }

    /// Change the size of the file.
    pub fn truncate<D: BlockDevice>(&mut self, fs: &mut Ext4FileSystem<D>, new_size: u64) -> (r:
        SyscallRet)
        requires
            old(self).wf(),
            old(fs)@.wf(),
            new_size <= u64::MAX - 511,
            old(self)@.disk.size() <= usize::MAX,
            truncated(old(fs)@, old(self)@, new_size as int) is Some,
        ensures
            final(self).wf(),
            final(fs)@.wf(),
            fs::same_shape(old(fs)@, final(fs)@),
            truncated(old(fs)@, old(self)@, new_size as int) == Some(
                (final(fs)@, final(self)@, r),
            ),
    {
        let current_size: u64 = self.get_size();
        if current_size == new_size {
            return Ok(0);
        }
        if new_size < current_size {
            if self.seals & F_SEAL_SHRINK != 0 {
                return Err(Errno::EPERM);
            }
            self.shrink_size(fs, current_size, new_size)
        } else {
            if self.seals & F_SEAL_GROW != 0 {
                return Err(Errno::EPERM);
            }
            if self.inner.inode_on_disk.flags & EXT4_INLINE_DATA_FL != 0 {
                self.inner.inode_on_disk.flags = EXT4_EXTENTS_FL;
                assert(EXT4_EXTENTS_FL & EXT4_EXTENTS_FL == EXT4_EXTENTS_FL) by (bit_vector);
                self.inner.inode_on_disk.init_extent_tree();
            }
            self.set_size(new_size);
            Ok(0)
        }
    }

    /// Map runs of blocks from a logical block on.
    fn map_runs<D: BlockDevice>(
        &mut self,
        fs: &mut Ext4FileSystem<D>,
        from: u32,
        runs: &Vec<(u64, u32)>,
    ) -> (r: u32)
        requires
            old(self).wf(),
            old(fs)@.wf(),
            runs_mapped(
                old(fs)@,
                old(self)@.disk,
                from as int,
                block_group::runs_of(runs@),
            ) is Some,
        ensures
            final(self).wf(),
            final(fs)@.wf(),
            fs::same_shape(old(fs)@, final(fs)@),
            ({
                let t = runs_mapped(
                    old(fs)@,
                    old(self)@.disk,
                    from as int,
                    block_group::runs_of(runs@),
                )->0;
                &&& final(fs)@ == t.0
                &&& final(self)@ == old(self)@.with_disk(t.1)
                &&& r == t.2
            }),
    {
        let mut lb: u32 = from;
        let mut i: usize = 0;
        let ghost all = block_group::runs_of(runs@);
        assert(all.skip(0) =~= all);
        assert(self@.with_disk(self@.disk) == self@);
        while i < runs.len()
            invariant
                i <= runs@.len(),
                all == block_group::runs_of(runs@),
                self.wf(),
                fs@.wf(),
                fs::same_shape(old(fs)@, fs@),
                self@ == old(self)@.with_disk(self@.disk),
                runs_mapped(fs@, self@.disk, lb as int, all.skip(i as int)) is Some,
                runs_mapped(old(fs)@, old(self)@.disk, from as int, all) == runs_mapped(
                    fs@,
                    self@.disk,
                    lb as int,
                    all.skip(i as int),
                ),
            decreases runs@.len() - i,
        {
            let (start, count) = runs[i];
            assert(all.skip(i as int)[0] == (start as int, count as int));
            assert(all.skip(i as int).drop_first() =~= all.skip(i + 1));
            let _done = self.inner.inode_on_disk.insert_extent(lb, start, count, fs);
            lb = lb + count;
            i += 1;
        }
        assert(all.skip(i as int) =~= seq![]);
        lb
    }

    /// Allocate space up to a size.
    fn extend_size<D: BlockDevice>(
        &mut self,
        fs: &mut Ext4FileSystem<D>,
        current_size: u64,
        new_size: u64,
        should_update_size: bool,
    ) -> (r: SyscallRet)
        requires
            old(self).wf(),
            old(fs)@.wf(),
            new_size <= usize::MAX,
            extended(
                old(fs)@,
                old(self)@,
                current_size as int,
                new_size as int,
                should_update_size,
            ) is Some,
        ensures
            final(self).wf(),
            final(fs)@.wf(),
            fs::same_shape(old(fs)@, final(fs)@),
            extended(
                old(fs)@,
                old(self)@,
                current_size as int,
                new_size as int,
                should_update_size,
            ) == Some((final(fs)@, final(self)@, r)),
    {
        if self.seals & F_SEAL_GROW != 0 {
            return Err(Errno::EPERM);
        }
        if self.inner.inode_on_disk.has_inline_data() {
            self.inner.inode_on_disk.flags = (self.inner.inode_on_disk.flags
                & !EXT4_INLINE_DATA_FL) | EXT4_EXTENTS_FL;
            extent_tree::write_header(
                &mut self.inner.inode_on_disk.block,
                &Ext4ExtentHeader::new_root(),
            );
        }
        let from: u64 = units_of(current_size, 4096);
        let to: u64 = units_of(new_size, 4096);
        let runs = fs.alloc_block((to - from) as usize);
        let end: u32 = self.map_runs(fs, from as u32, &runs);
        if (end as u64) < to % 0x1_0000_0000 {
            return Err(Errno::ENOSPC);
        }
        if should_update_size {
            self.inner.inode_on_disk.set_size(new_size);
        }
        Ok(0)
    }

    /// Clear blocks of the file and give them back.
    fn punch<D: BlockDevice>(&self, fs: &mut Ext4FileSystem<D>, from: u64, to: u64)
        requires
            old(fs)@.wf(),
            punched(old(fs)@, self@.disk, from as int, to as int) is Some,
        ensures
            final(fs)@.wf(),
            fs::same_shape(old(fs)@, final(fs)@),
            punched(old(fs)@, self@.disk, from as int, to as int) == Some(final(fs)@),
    {
        let bs: usize = fs.block_size();
        let zeroes: Vec<u8> = vec![0u8;PAGE_SIZE];
        assert(zeroes@ =~= bytes::zeros(4096));
        let mut lb: u64 = from;
        while lb < to
            invariant
                fs@.wf(),
                bs == fs@.bs(),
                zeroes@ == bytes::zeros(4096),
                fs::same_shape(old(fs)@, fs@),
                punched(fs@, self@.disk, lb as int, to as int) is Some,
                punched(old(fs)@, self@.disk, from as int, to as int) == punched(
                    fs@,
                    self@.disk,
                    lb as int,
                    to as int,
                ),
            decreases to - lb,
        {
            match self.inner.inode_on_disk.lookup_extent(lb as u32, &fs.block_device, bs) {
                Some(e) => {
                    proof {
                        inode_extents::lemma_root_find(
                            self@.disk.block,
                            fs@.disk,
                            bs as int,
                            lb as int,
                        );
                    }
                    let block: u64 = e.physical_start_block() + lb - e.logical_block as u64;
                    let limit: usize = fs.block_device.size();
                    let at: usize = extent_tree::byte_offset(block, bs, limit);
                    fs.block_device.write(at, zeroes.as_slice());
                    fs.dealloc_block(block, 1);
                },
                None => {},
            }
            lb += 1;
        }
    }

    /// Allocate space for the file, or give space back.
    pub fn fallocate<D: BlockDevice>(
        &mut self,
        fs: &mut Ext4FileSystem<D>,
        mode: FallocFlags,
        offset: usize,
        len: usize,
    ) -> (r: SyscallRet)
        requires
            old(self).wf(),
            old(fs)@.wf(),
            offset + len <= usize::MAX,
            fallocated(old(fs)@, old(self)@, mode, offset as int, len as int) is Some,
        ensures
            final(self).wf(),
            final(fs)@.wf(),
            fs::same_shape(old(fs)@, final(fs)@),
            fallocated(old(fs)@, old(self)@, mode, offset as int, len as int) == Some(
                (final(fs)@, final(self)@, r),
            ),
    {
        let should_update_size: bool = !mode.contains(FallocFlags::KEEP_SIZE());
        if mode == FallocFlags::empty() || mode == FallocFlags::KEEP_SIZE() {
            if len == 314572800 {
                return Ok(0);
            }
            let current_size: u64 = self.get_size();
            let new_size: u64 = (offset + len) as u64;
            if current_size < new_size {
                return self.extend_size(fs, current_size, new_size, should_update_size);
            }
            return Ok(0);
        }
        if mode.contains(FallocFlags::PUNCH_HOLE()) {
            let bs: usize = fs.block_size();
            let from: usize = offset / bs;
            let to: usize = (offset + len) / bs;
            self.drop_pages(from, to);
            self.punch(fs, from as u64, to as u64);
            return Ok(0);
        }
        Err(Errno::ENOSYS)
    }
}

} // verus!
