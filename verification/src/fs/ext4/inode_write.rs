//! Writing files.
use vstd::prelude::*;
use crate::bytes;
use crate::fs::dev::block_dev::BlockDevice;
use crate::fs::ext4::extent_tree;
use crate::fs::ext4::extent_tree::{
    enc_extent, enc_header, extent_of, node_at, node_on, Ext4Extent, Ext4ExtentHeader,
};
use crate::fs::ext4::fs;
use crate::fs::ext4::fs::{Ext4FileSystem, FsModel};
use crate::fs::ext4::inode;
use crate::fs::ext4::inode::{Ext4Inode, InodeModel};
use crate::fs::ext4::inode_disk::{
    InodeDiskModel, EXT4_EXTENTS_FL, EXT4_INLINE_DATA_FL, EXT4_MAX_INLINE_DATA,
};
use crate::fs::ext4::inode_extents;
use crate::fs::ext4::io;
use crate::fs::page_cache::{Page, PageModel, PAGE_SIZE};
use crate::fs::types::TimeSpec;

verus! {

/// The extent for logical block `lb`; where there is none, a block is taken and
/// inserted into the tree.  The file system, the inode and the extent; none when
/// the tree is not whole, no block is left or the tree has no room.
#[verifier::opaque]
pub open spec fn extent_for(fs: FsModel, d: InodeDiskModel, lb: int) -> Option<
    (FsModel, InodeDiskModel, Ext4Extent),
> {
    if !inode_extents::whole_tree(d, fs.disk, fs.bs()) {
        None
    } else {
        match inode_extents::root_find(d.block, fs.disk, fs.bs(), lb) {
            Some(e) => Some((fs, d, e)),
            None => match fs::block_taken(fs, 0) {
                None => None,
                Some(t) => {
                    let e = extent_of(lb, 1, t.1);
                    match inode_extents::root_inserted(t.0, d.block, lb, e.phys(), 1) {
                        None => None,
                        Some(r) => if r.2 is Ok {
                            Some((r.0, d.with_block(r.1), e))
                        } else {
                            None
                        },
                    }
                },
            },
        }
    }
}

/// A page of the file brought into the cache from its place on the device,
/// which is found or made.
#[verifier::opaque]
pub open spec fn fetched(fs: FsModel, m: InodeModel, idx: int) -> Option<(FsModel, InodeModel)> {
    let lb = idx * inode::blocks_per_page(fs.bs());
    if m.pages.contains_key(idx as usize) {
        Some((fs, m))
    } else if lb > u32::MAX {
        None
    } else {
        match extent_for(fs, m.disk, lb) {
            None => None,
            Some(t) => match inode::stored_page(t.0.disk, t.0.bs(), t.2.target(lb)) {
                None => None,
                Some(data) => Some(
                    (t.0, m.with_disk(t.1).with_page(idx, inode::clean(data))),
                ),
            },
        }
    }
}

/// A page of the file brought into the cache for reading and writing; data in
/// the inode is taken from there.
pub open spec fn page_got(fs: FsModel, m: InodeModel, idx: int) -> Option<(FsModel, InodeModel)> {
    if idx == 0 && m.disk.inline_data() && !m.pages.contains_key(0) {
        Some((fs, m.with_page(0, inode::clean(inode::inline_page(m.disk.block)))))
    } else {
        fetched(fs, m, idx)
    }
}

/// The inode after `part` was written to a cached page.
pub open spec fn page_written(m: InodeModel, idx: int, at: int, part: Seq<u8>) -> InodeModel {
    m.with_page(
        idx,
        PageModel { data: bytes::splice(m.pages[idx as usize].data, at, part), dirty: true },
    )
}

/// How much of `len` bytes from `offset` on lies in the first page.
pub open spec fn in_first_page(offset: int, len: int) -> int {
    if len <= 4096 - offset % 4096 {
        len
    } else {
        4096 - offset % 4096
    }
}

/// The file system and the inode after `buf` was written to the cached pages
/// from `offset` on, which are brought into the cache one after the other.
pub open spec fn pages_written(fs: FsModel, m: InodeModel, offset: int, buf: Seq<u8>) -> Option<
    (FsModel, InodeModel),
>
    decreases buf.len(),
{
    let n = in_first_page(offset, buf.len() as int);
    if buf.len() == 0 {
        Some((fs, m))
    } else if n <= 0 {
        None
    } else {
        match fetched(fs, m, offset / 4096) {
            None => None,
            Some(t) => pages_written(
                t.0,
                page_written(t.1, offset / 4096, offset % 4096, buf.take(n)),
                offset + n,
                buf.skip(n),
            ),
        }
    }
}

/// The inode after a write up to `end`: larger if need be, and modified now.
pub open spec fn grown_to(m: InodeModel, end: int) -> InodeModel {
    if end > m.disk.size() {
        m.resized(end).touched()
    } else {
        m.touched()
    }
}

/// A write to a file with an extent tree.
pub open spec fn tree_written(fs: FsModel, m: InodeModel, offset: int, buf: Seq<u8>) -> Option<
    (FsModel, InodeModel),
> {
    match pages_written(fs, m, offset, buf) {
        None => None,
        Some(t) => Some((t.0, grown_to(t.1, offset + buf.len()))),
    }
}

/// A root with one extent.
pub open spec fn with_one_extent(block: Seq<u8>, e: Ext4Extent) -> Seq<u8> {
    bytes::splice(
        bytes::splice(
            block,
            0,
            enc_header(Ext4ExtentHeader { entries: 1, ..Ext4ExtentHeader::new_root() }),
        ),
        12,
        enc_extent(e),
    )
}

/// The flags of a file that gets an extent tree.
pub open spec fn tree_flags(flags: u32) -> u32 {
    (flags & !EXT4_INLINE_DATA_FL) | EXT4_EXTENTS_FL
}

/// A file that outgrows the inode: a block is taken and mapped at the page of
/// `offset`, and the data that the inode held moves to the first page.
pub open spec fn moved_out(fs: FsModel, m: InodeModel, offset: int) -> Option<
    (FsModel, InodeModel),
> {
    match fs::block_taken(fs, 0) {
        None => None,
        Some(t) => {
            let e = extent_of(offset % 0x1_0000_0000 / 4096, 1, t.1);
            let filled = if m.disk.size() > 0 {
                match page_got(t.0, m, 0) {
                    None => None,
                    Some(g) => match inode::stored_page(g.0.disk, g.0.bs(), t.1) {
                        None => None,
                        Some(data) => Some(
                            (
                                g.0,
                                g.1.with_page(
                                    0,
                                    PageModel {
                                        data: bytes::splice(
                                            data,
                                            0,
                                            g.1.pages[0].data.take(60),
                                        ),
                                        dirty: true,
                                    },
                                ),
                            ),
                        ),
                    },
                }
            } else {
                Some((t.0, m))
            };
            match filled {
                None => None,
                Some(f) => Some(
                    (
                        f.0,
                        f.1.with_disk(
                            f.1.disk.with_flags(tree_flags(f.1.disk.flags)).with_block(
                                with_one_extent(f.1.disk.block, e),
                            ),
                        ),
                    ),
                ),
            }
        },
    }
}

/// A write that stays within the bytes that an inode can hold: only the first
/// page changes.
pub open spec fn small_written(fs: FsModel, m: InodeModel, offset: int, buf: Seq<u8>) -> Option<
    (FsModel, InodeModel),
> {
    match page_got(fs, m, 0) {
        None => None,
        Some(t) => Some((t.0, page_written(t.1, 0, offset, buf))),
    }
}

/// A write.
pub open spec fn written(fs: FsModel, m: InodeModel, offset: int, buf: Seq<u8>) -> Option<
    (FsModel, InodeModel),
> {
    let end = offset + buf.len();
    if end <= 60 {
        match small_written(fs, m, offset, buf) {
            None => None,
            Some(t) => if end > t.1.disk.size() {
                Some((t.0, t.1.with_disk(t.1.disk.with_size(end)).touched()))
            } else {
                Some((t.0, t.1.touched()))
            },
        }
    } else if m.disk.size() <= 60 {
        match moved_out(fs, m, offset) {
            None => None,
            Some(t) => tree_written(t.0, t.1, offset, buf),
        }
    } else {
        tree_written(fs, m, offset, buf)
    }
}

/// Memory limits of a write: its end is a size that a file can have.
pub open spec fn end_ok(offset: int, len: int) -> bool {
    offset + len <= usize::MAX && offset + len <= u64::MAX - 511
}

impl Ext4Inode {
    /// The extent for a block; where there is none, a block is taken.
    pub fn lookup_or_create_extent<D: BlockDevice>(
        &mut self,
        logical_start_block: u32,
        fs: &mut Ext4FileSystem<D>,
    ) -> (r: Ext4Extent)
        requires
            old(fs)@.wf(),
            extent_for(old(fs)@, old(self)@.disk, logical_start_block as int) is Some,
        ensures
            final(fs)@.wf(),
            fs::same_shape(old(fs)@, final(fs)@),
            final(self).address_space == old(self).address_space,
            r.maps(logical_start_block as int),
            ({
                let t = extent_for(old(fs)@, old(self)@.disk, logical_start_block as int)->0;
                &&& final(fs)@ == t.0
                &&& final(self)@ == old(self)@.with_disk(t.1)
                &&& r == t.2
            }),
    {
        reveal(extent_for);
        let bs: usize = fs.block_size();
        let found = self.inner.inode_on_disk.lookup_extent(
            logical_start_block,
            &fs.block_device,
            bs,
        );
        if found.is_some() {
            proof {
                inode_extents::lemma_root_find(
                    self@.disk.block,
                    fs@.disk,
                    bs as int,
                    logical_start_block as int,
                );
            }
            return found.unwrap();
        }
        let block: u64 = fs.alloc_one_block();
        let e = Ext4Extent::new(logical_start_block, 1, block);
        let _done = self.inner.inode_on_disk.insert_extent(
            logical_start_block,
            e.physical_start_block(),
            1,
            fs,
        );
        e
    }

    /// Bring a page into the cache from its place on the device.
    fn fetch_page<D: BlockDevice>(&mut self, fs: &mut Ext4FileSystem<D>, idx: usize)
        requires
            old(self).wf(),
            old(fs)@.wf(),
            fetched(old(fs)@, old(self)@, idx as int) is Some,
        ensures
            final(self).wf(),
            final(fs)@.wf(),
            fs::same_shape(old(fs)@, final(fs)@),
            fetched(old(fs)@, old(self)@, idx as int) == Some((final(fs)@, final(self)@)),
            final(self)@.pages.contains_key(idx),
    {
        reveal(fetched);
        if self.address_space.has_page(idx) {
            return ;
        }
        let bs: usize = fs.block_size();
        proof {
            inode::lemma_per_page(bs as int);
            assert(idx <= idx * inode::blocks_per_page(bs as int)) by (nonlinear_arith)
                requires
                    1 <= inode::blocks_per_page(bs as int),
                    idx >= 0,
            ;
        }
        let lb: u32 = idx as u32 * (PAGE_SIZE / bs) as u32;
        let e = self.lookup_or_create_extent(lb, fs);
        let block: u64 = e.physical_start_block() + lb as u64 - e.logical_block as u64;
        let mut page = Page::new(idx);
        inode::read_page(&mut page, block, &fs.block_device, bs);
        self.address_space.insert_page(page);
    }

    /// Bring a page into the cache, from the inode or from the device.
    pub(crate) fn obtain_page<D: BlockDevice>(&mut self, fs: &mut Ext4FileSystem<D>, idx: usize)
        requires
            old(self).wf(),
            old(fs)@.wf(),
            page_got(old(fs)@, old(self)@, idx as int) is Some,
        ensures
            final(self).wf(),
            final(fs)@.wf(),
            fs::same_shape(old(fs)@, final(fs)@),
            page_got(old(fs)@, old(self)@, idx as int) == Some((final(fs)@, final(self)@)),
            final(self)@.pages.contains_key(idx),
    {
        if idx == 0 && self.inner.inode_on_disk.has_inline_data() && !self.address_space.has_page(
            0,
        ) {
            let mut page = Page::new(0);
            bytes::copy_into(page.data.as_mut_slice(), 0, &self.inner.inode_on_disk.block);
            self.address_space.insert_page(page);
        } else {
            self.fetch_page(fs, idx);
        }
    }

    /// Bring a page of the file into the cache.  Returns its index in the
    /// address space; none when it lies behind the end of the file.
    pub fn get_page_cache<D: BlockDevice>(&mut self, fs: &mut Ext4FileSystem<D>, page_index: usize)
        -> (r: Option<usize>)
        requires
            old(self).wf(),
            old(fs)@.wf(),
            page_index <= old(self)@.disk.size_lo / 4096 ==> page_got(
                old(fs)@,
                old(self)@,
                page_index as int,
            ) is Some,
        ensures
            final(self).wf(),
            final(fs)@.wf(),
            fs::same_shape(old(fs)@, final(fs)@),
            if page_index <= old(self)@.disk.size_lo / 4096 {
                &&& r == Some(page_index)
                &&& page_got(old(fs)@, old(self)@, page_index as int) == Some(
                    (final(fs)@, final(self)@),
                )
                &&& final(self)@.pages.contains_key(page_index)
            } else {
                &&& r is None
                &&& final(fs)@ == old(fs)@
                &&& final(self)@ == old(self)@
            },
    {
        let size: usize = self.inner.inode_on_disk.size_lo as usize;
        if page_index > size / PAGE_SIZE {
            return None;
        }
        self.obtain_page(fs, page_index);
        Some(page_index)
    }

    /// Write to a cached page.
    pub(crate) fn write_page(&mut self, idx: usize, at: usize, part: &[u8])
        requires
            old(self).wf(),
            old(self)@.pages.contains_key(idx),
            at + part@.len() <= 4096,
        ensures
            final(self).wf(),
            final(self)@ == page_written(old(self)@, idx as int, at as int, part@),
    {
        let taken = self.address_space.remove_page_cache(idx);
        if taken.is_some() {
            let mut page = taken.unwrap();
            assert(part@.take(part@.len() as int) =~= part@);
            page.write_at(at, part);
            self.address_space.insert_page(page);
        }
        assert(self@.pages =~= page_written(old(self)@, idx as int, at as int, part@).pages);
    }

    /// Write through the page cache.
    pub fn write_extent_tree<D: BlockDevice>(
        &mut self,
        fs: &mut Ext4FileSystem<D>,
        offset: usize,
        buf: &[u8],
    ) -> (r: usize)
        requires
            old(self).wf(),
            old(fs)@.wf(),
            end_ok(offset as int, buf@.len() as int),
            tree_written(old(fs)@, old(self)@, offset as int, buf@) is Some,
        ensures
            final(self).wf(),
            final(fs)@.wf(),
            fs::same_shape(old(fs)@, final(fs)@),
            r == buf@.len(),
            tree_written(old(fs)@, old(self)@, offset as int, buf@) == Some(
                (final(fs)@, final(self)@),
            ),
    {
        let len: usize = buf.len();
        let mut current: usize = 0;
        assert(buf@.skip(0) =~= buf@);
        while current < len
            invariant
                len == buf@.len(),
                current <= len,
                end_ok(offset as int, buf@.len() as int),
                self.wf(),
                fs@.wf(),
                fs::same_shape(old(fs)@, fs@),
                pages_written(fs@, self@, offset + current, buf@.skip(current as int)) is Some,
                pages_written(old(fs)@, old(self)@, offset as int, buf@) == pages_written(
                    fs@,
                    self@,
                    offset + current,
                    buf@.skip(current as int),
                ),
            decreases len - current,
        {
            let pos: usize = offset + current;
            let idx: usize = pos / PAGE_SIZE;
            let at: usize = pos % PAGE_SIZE;
            let n: usize = if len - current <= PAGE_SIZE - at {
                len - current
            } else {
                PAGE_SIZE - at
            };
            self.fetch_page(fs, idx);
            let part = vstd::slice::slice_subrange(buf, current, current + n);
            assert(part@ =~= buf@.skip(current as int).take(n as int));
            assert(buf@.skip(current as int).skip(n as int) =~= buf@.skip(current + n));
            self.write_page(idx, at, part);
            current += n;
        }
        assert(buf@.skip(len as int) =~= seq![]);
        let end: usize = offset + current;
        if end as u64 > self.get_size() {
            self.set_size(end as u64);
        }
        self.touch();
        current
    }

    pub(crate) fn touch(&mut self)
        ensures
            final(self)@ == old(self)@.touched(),
            final(self).address_space == old(self).address_space,
    {
        let now = TimeSpec::new_wall_time();
        self.inner.inode_on_disk.set_mtime(now);
        self.inner.inode_on_disk.set_ctime(now);
    }

    /// Size of the file.
    pub fn get_size(&self) -> (r: u64)
        ensures
            r == self@.disk.size(),
    {
        self.inner.inode_on_disk.get_size()
    }

    /// Set the size of the file and the number of sectors that it takes.
    pub fn set_size(&mut self, size: u64)
        requires
            size <= u64::MAX - 511,
        ensures
            final(self)@ == old(self)@.resized(size as int),
            final(self).address_space == old(self).address_space,
    {
        self.inner.inode_on_disk.set_size(size);
        self.inner.inode_on_disk.set_blocks((size + 511) / 512);
    }
}

/// The pages from `idx` on, at most `count` and none behind page `last`,
/// brought into the cache; and how many they are.
pub open spec fn pages_got(fs: FsModel, m: InodeModel, idx: int, count: int, last: int) -> Option<
    (FsModel, InodeModel, int),
>
    decreases count,
{
    if count <= 0 || idx > last {
        Some((fs, m, 0))
    } else {
        match page_got(fs, m, idx) {
            None => None,
            Some(t) => match pages_got(t.0, t.1, idx + 1, count - 1, last) {
                None => None,
                Some(r) => Some((r.0, r.1, r.2 + 1)),
            },
        }
    }
}

/// Data written straight to the device from `offset` on, blocks being found or
/// made one after the other.
pub open spec fn direct_written(fs: FsModel, d: InodeDiskModel, offset: int, buf: Seq<u8>) -> Option<
    (FsModel, InodeDiskModel),
>
    decreases buf.len(),
{
    let n = in_first_page(offset, buf.len() as int);
    let idx = offset / 4096;
    if buf.len() == 0 {
        Some((fs, d))
    } else if n <= 0 || idx > u32::MAX {
        None
    } else {
        match extent_for(fs, d, idx) {
            None => None,
            Some(t) => {
                let block = t.2.target(idx);
                if !node_on(t.0.disk, 4096, block) {
                    None
                } else {
                    direct_written(
                        FsModel {
                            disk: bytes::splice(
                                t.0.disk,
                                block * 4096 + offset % 4096,
                                buf.take(n),
                            ),
                            ..t.0
                        },
                        t.1,
                        offset + n,
                        buf.skip(n),
                    )
                }
            },
        }
    }
}

/// A direct write to a file with an extent tree.
pub open spec fn tree_written_direct(fs: FsModel, m: InodeModel, offset: int, buf: Seq<u8>) -> Option<
    (FsModel, InodeModel),
> {
    if fs.bs() != 4096 {
        None
    } else {
        match direct_written(fs, m.disk, offset, buf) {
            None => None,
            Some(t) => Some((t.0, grown_to(m.with_disk(t.1), offset + buf.len()))),
        }
    }
}

/// A direct write.  Within the bytes that an inode can hold it goes to the
/// first page, and its end becomes the file's.
pub open spec fn direct(fs: FsModel, m: InodeModel, offset: int, buf: Seq<u8>) -> Option<
    (FsModel, InodeModel),
> {
    let end = offset + buf.len();
    if end <= 60 {
        match small_written(fs, m, offset, buf) {
            None => None,
            Some(t) => Some((t.0, t.1.with_disk(t.1.disk.with_size(end)).touched())),
        }
    } else if m.disk.size() <= 60 {
        match moved_out(fs, m, offset) {
            None => None,
            Some(t) => tree_written_direct(t.0, t.1, offset, buf),
        }
    } else {
        tree_written_direct(fs, m, offset, buf)
    }
}

impl Ext4Inode {
    /// Bring several pages of the file into the cache.  Returns their indices
    /// in the address space; pages behind the end of the file are left out.
    pub fn get_page_caches<D: BlockDevice>(
        &mut self,
        fs: &mut Ext4FileSystem<D>,
        page_index: usize,
        page_count: usize,
    ) -> (r: Vec<usize>)
        requires
            old(self).wf(),
            old(fs)@.wf(),
            page_index + page_count <= usize::MAX,
            pages_got(
                old(fs)@,
                old(self)@,
                page_index as int,
                page_count as int,
                old(self)@.disk.size_lo as int / 4096,
            ) is Some,
        ensures
            final(self).wf(),
            final(fs)@.wf(),
            fs::same_shape(old(fs)@, final(fs)@),
            pages_got(
                old(fs)@,
                old(self)@,
                page_index as int,
                page_count as int,
                old(self)@.disk.size_lo as int / 4096,
            ) == Some((final(fs)@, final(self)@, r@.len() as int)),
            forall|i: int| 0 <= i < r@.len() ==> #[trigger] r@[i] == page_index + i,
    {
        let last: usize = self.inner.inode_on_disk.size_lo as usize / PAGE_SIZE;
        let mut pages: Vec<usize> = Vec::new();
        let mut i: usize = 0;
        while i < page_count && page_index + i <= last
            invariant
                self.wf(),
                fs@.wf(),
                fs::same_shape(old(fs)@, fs@),
                i <= page_count,
                page_index + page_count <= usize::MAX,
                pages@.len() == i,
                forall|k: int| 0 <= k < i ==> #[trigger] pages@[k] == page_index + k,
                ({
                    let rest = pages_got(fs@, self@, page_index + i, page_count - i, last as int);
                    &&& rest is Some
                    &&& pages_got(
                        old(fs)@,
                        old(self)@,
                        page_index as int,
                        page_count as int,
                        last as int,
                    ) == Some(((rest->0).0, (rest->0).1, (rest->0).2 + i))
                }),
            decreases page_count - i,
        {
            self.obtain_page(fs, page_index + i);
            pages.push(page_index + i);
            i += 1;
        }
        pages
    }

    /// A write within the bytes that an inode can hold.
    fn write_small<D: BlockDevice>(&mut self, fs: &mut Ext4FileSystem<D>, offset: usize, buf: &[u8])
        requires
            old(self).wf(),
            old(fs)@.wf(),
            offset + buf@.len() <= 60,
            small_written(old(fs)@, old(self)@, offset as int, buf@) is Some,
        ensures
            final(self).wf(),
            final(fs)@.wf(),
            fs::same_shape(old(fs)@, final(fs)@),
            small_written(old(fs)@, old(self)@, offset as int, buf@) == Some(
                (final(fs)@, final(self)@),
            ),
    {
        self.obtain_page(fs, 0);
        self.write_page(0, offset, buf);
    }

    /// Let the file outgrow the inode.
    fn move_out<D: BlockDevice>(&mut self, fs: &mut Ext4FileSystem<D>, offset: usize)
        requires
            old(self).wf(),
            old(fs)@.wf(),
            moved_out(old(fs)@, old(self)@, offset as int) is Some,
        ensures
            final(self).wf(),
            final(fs)@.wf(),
            fs::same_shape(old(fs)@, final(fs)@),
            moved_out(old(fs)@, old(self)@, offset as int) == Some((final(fs)@, final(self)@)),
    {
        let bs: usize = fs.block_size();
        let block: u64 = fs.alloc_one_block();
        if self.get_size() > 0 {
            self.obtain_page(fs, 0);
            let mut page = Page::new(0);
            inode::read_page(&mut page, block, &fs.block_device, bs);
            match self.address_space.get_page_cache(0) {
                Some(inline) => {
                    let part = vstd::slice::slice_subrange(
                        inline.data.as_slice(),
                        0,
                        EXT4_MAX_INLINE_DATA,
                    );
                    assert(part@ =~= inline@.data.take(60));
                    assert(part@.take(60) =~= part@);
                    page.write_at(0, part);
                },
                None => {},
            }
            self.address_space.insert_page(page);
        }
        self.inner.inode_on_disk.flags = (self.inner.inode_on_disk.flags & !EXT4_INLINE_DATA_FL)
            | EXT4_EXTENTS_FL;
        let logical: u32 = ((offset as u64 % 0x1_0000_0000) / 4096) as u32;
        let e = Ext4Extent::new(logical, 1, block);
        let mut header = Ext4ExtentHeader::new_root();
        header.entries = 1;
        extent_tree::write_header(&mut self.inner.inode_on_disk.block, &header);
        extent_tree::write_extent(&mut self.inner.inode_on_disk.block, 12, &e);
    }

    /// Write bytes from `offset` on.  Returns how many were written: all.
    pub fn write<D: BlockDevice>(&mut self, fs: &mut Ext4FileSystem<D>, offset: usize, buf: &[u8])
        -> (r: usize)
        requires
            old(self).wf(),
            old(fs)@.wf(),
            end_ok(offset as int, buf@.len() as int),
            written(old(fs)@, old(self)@, offset as int, buf@) is Some,
        ensures
            final(self).wf(),
            final(fs)@.wf(),
            fs::same_shape(old(fs)@, final(fs)@),
            r == buf@.len(),
            written(old(fs)@, old(self)@, offset as int, buf@) == Some((final(fs)@, final(self)@)),
    {
        let len: usize = buf.len();
        if offset + len <= EXT4_MAX_INLINE_DATA {
            self.write_small(fs, offset, buf);
            let end: u64 = (offset + len) as u64;
            if end > self.get_size() {
                self.inner.inode_on_disk.set_size(end);
            }
            self.touch();
            return len;
        }
        if self.get_size() <= EXT4_MAX_INLINE_DATA as u64 {
            self.move_out(fs, offset);
        }
        self.write_extent_tree(fs, offset, buf)
    }

    /// Write straight to the device.
    #[verifier::rlimit(40)]
    pub fn write_extent_tree_direct<D: BlockDevice>(
        &mut self,
        fs: &mut Ext4FileSystem<D>,
        offset: usize,
        buf: &[u8],
    ) -> (r: usize)
        requires
            old(self).wf(),
            old(fs)@.wf(),
            end_ok(offset as int, buf@.len() as int),
            tree_written_direct(old(fs)@, old(self)@, offset as int, buf@) is Some,
        ensures
            final(self).wf(),
            final(fs)@.wf(),
            fs::same_shape(old(fs)@, final(fs)@),
            r == buf@.len(),
            tree_written_direct(old(fs)@, old(self)@, offset as int, buf@) == Some(
                (final(fs)@, final(self)@),
            ),
    {
        let len: usize = buf.len();
        let mut current: usize = 0;
        assert(buf@.skip(0) =~= buf@);
        assert(self@.with_disk(self@.disk) == self@);
        while current < len
            invariant
                len == buf@.len(),
                current <= len,
                end_ok(offset as int, buf@.len() as int),
                self.wf(),
                fs@.wf(),
                fs@.bs() == 4096,
                fs::same_shape(old(fs)@, fs@),
                self@ == old(self)@.with_disk(self@.disk),
                direct_written(fs@, self@.disk, offset + current, buf@.skip(current as int)) is Some,
                direct_written(old(fs)@, old(self)@.disk, offset as int, buf@) == direct_written(
                    fs@,
                    self@.disk,
                    offset + current,
                    buf@.skip(current as int),
                ),
            decreases len - current,
        {
            let pos: usize = offset + current;
            let idx: usize = pos / PAGE_SIZE;
            let at: usize = pos % PAGE_SIZE;
            let n: usize = if len - current <= PAGE_SIZE - at {
                len - current
            } else {
                PAGE_SIZE - at
            };
            let e = self.lookup_or_create_extent(idx as u32, fs);
            let block: u64 = e.physical_start_block() + idx as u64 - e.logical_block as u64;
            let ghost disk = fs@.disk;
            let mut data: Vec<u8> = vec![0u8;PAGE_SIZE];
            if n != PAGE_SIZE || at != 0 {
                data = extent_tree::read_node(&fs.block_device, block, PAGE_SIZE);
            }
            let part = vstd::slice::slice_subrange(buf, current, current + n);
            bytes::copy_into(data.as_mut_slice(), at, part);
            io::write_block(&mut fs.block_device, block, data.as_slice(), PAGE_SIZE);
            proof {
                assert(part@ =~= buf@.skip(current as int).take(n as int));
                assert(buf@.skip(current as int).skip(n as int) =~= buf@.skip(current + n));
                assert(data@ =~= bytes::splice(node_at(disk, 4096, block as int), at as int, part@));
                assert(fs@.disk =~= bytes::splice(disk, block * 4096 + at, part@));
            }
            current += n;
        }
        assert(buf@.skip(len as int) =~= seq![]);
        let end: usize = offset + current;
        if end as u64 > self.get_size() {
            self.set_size(end as u64);
        }
        self.touch();
        current
    }

    /// Write bytes from `offset` on straight to the device.
    pub fn write_direct<D: BlockDevice>(
        &mut self,
        fs: &mut Ext4FileSystem<D>,
        offset: usize,
        buf: &[u8],
    ) -> (r: usize)
        requires
            old(self).wf(),
            old(fs)@.wf(),
            end_ok(offset as int, buf@.len() as int),
            direct(old(fs)@, old(self)@, offset as int, buf@) is Some,
        ensures
            final(self).wf(),
            final(fs)@.wf(),
            fs::same_shape(old(fs)@, final(fs)@),
            r == buf@.len(),
            direct(old(fs)@, old(self)@, offset as int, buf@) == Some((final(fs)@, final(self)@)),
    {
        let len: usize = buf.len();
        if offset + len <= EXT4_MAX_INLINE_DATA {
            self.write_small(fs, offset, buf);
            self.inner.inode_on_disk.set_size((offset + len) as u64);
            self.touch();
            return len;
        }
        if self.get_size() <= EXT4_MAX_INLINE_DATA as u64 {
            self.move_out(fs, offset);
        }
        self.write_extent_tree_direct(fs, offset, buf)
    }
}

} // verus!
