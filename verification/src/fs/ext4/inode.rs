//! Inodes in memory: reading and writing files through the page cache.
use vstd::prelude::*;
use vstd::string::*;
use crate::bytes;
use crate::fs::dev::block_dev::BlockDevice;
use crate::fs::ext4::extent_tree;
use crate::fs::ext4::extent_tree::{node_at, node_on};
use crate::fs::ext4::fs;
use crate::fs::ext4::fs::{Ext4FileSystem, FsModel};
use crate::fs::ext4::inode_disk::{Ext4InodeDisk, InodeDiskModel};
use crate::fs::ext4::inode_extents;
use crate::fs::ext4::xattr;
use crate::fs::ext4::xattr::Xattrs;
use crate::fs::page_cache::{AddressSpace, Page, PageModel, PAGE_SIZE};
use crate::fs::types::{epoch, Errno};

verus! {

pub const PAGE_SIZE_BITS: usize = 12;

/// Marks block numbers that stand for a hole.
pub const MAX_FS_BLOCK_ID: u64 = 0xFFFF_F000;

/// Seals of a file.
pub const F_SEAL_SEAL: i32 = 0x0001;

pub const F_SEAL_SHRINK: i32 = 0x0002;

pub const F_SEAL_GROW: i32 = 0x0004;

/// The part of an inode that is stored.
pub struct Ext4InodeInner {
    pub inode_on_disk: Ext4InodeDisk,
}

impl Ext4InodeInner {
    pub fn new(inode_on_disk: Ext4InodeDisk) -> (r: Self)
        ensures
            r.inode_on_disk@ == inode_on_disk@,
    {
        Ext4InodeInner { inode_on_disk }
    }
}

/// An inode in memory.
pub struct Ext4Inode {
    pub address_space: AddressSpace,
    pub inode_num: u64,
    /// The target of a symbolic link, once it was read.
    pub link: Option<String>,
    pub inner: Ext4InodeInner,
    pub xattrs: Xattrs,
    pub seals: i32,
}

/// Mathematical content of an `Ext4Inode`.
#[verifier::ext_equal]
pub struct InodeModel {
    pub num: int,
    pub disk: InodeDiskModel,
    pub pages: Map<usize, PageModel>,
    pub link: Option<Seq<char>>,
    pub xattrs: Map<Seq<char>, Seq<u8>>,
    pub seals: i32,
}

impl View for Ext4Inode {
    type V = InodeModel;

    open spec fn view(&self) -> InodeModel {
        InodeModel {
            num: self.inode_num as int,
            disk: self.inner.inode_on_disk@,
            pages: self.address_space@,
            link: match self.link {
                Some(s) => Some(s@),
                None => None,
            },
            xattrs: xattr::attributes(self.xattrs),
            seals: self.seals,
        }
    }
}

impl InodeModel {
    pub open spec fn with_disk(self, disk: InodeDiskModel) -> InodeModel {
        InodeModel { disk, ..self }
    }

    pub open spec fn with_page(self, idx: int, page: PageModel) -> InodeModel {
        InodeModel { pages: self.pages.insert(idx as usize, page), ..self }
    }

    /// The inode with another size, and the number of sectors that it takes.
    pub open spec fn resized(self, n: int) -> InodeModel {
        self.with_disk(
            InodeDiskModel {
                blocks_lo: ((n + 511) / 512 % 0x1_0000_0000) as u32,
                ..self.disk.with_size(n)
            },
        )
    }

    /// The inode after a modification at the present time.
    pub open spec fn touched(self) -> InodeModel {
        self.with_disk(self.disk.with_mtime(epoch()).with_ctime(epoch()))
    }
}

/// Number of file system blocks in a page.
pub open spec fn blocks_per_page(bs: int) -> int {
    4096int / bs
}

/// The number stands for a hole.
pub open spec fn marks_hole(block: int) -> bool {
    block / 0x1000 % 0x10_0000 == 0xF_FFFF
}

/// The page of data that starts at a block of the device.  None when it does
/// not lie on the device.
pub open spec fn stored_page(disk: Seq<u8>, bs: int, block: int) -> Option<Seq<u8>> {
    if marks_hole(block) {
        Some(bytes::zeros(4096))
    } else if node_on(disk, bs, block) {
        Some(node_at(disk, bs, block))
    } else {
        None
    }
}

/// A page that begins with data from the inode itself.
pub open spec fn inline_page(block: Seq<u8>) -> Seq<u8> {
    bytes::splice(bytes::zeros(4096), 0, block)
}

pub open spec fn clean(data: Seq<u8>) -> PageModel {
    PageModel { data, dirty: false }
}

/// What a page of the file holds: the cached page; else data in the inode, data
/// on the device, or zeros where the file has a hole.
pub open spec fn page_of(fs: FsModel, m: InodeModel, idx: int) -> Option<PageModel> {
    let lb = idx * blocks_per_page(fs.bs());
    if m.pages.contains_key(idx as usize) {
        Some(m.pages[idx as usize])
    } else if idx == 0 && m.disk.inline_data() {
        Some(clean(inline_page(m.disk.block)))
    } else if !inode_extents::whole_tree(m.disk, fs.disk, fs.bs()) || lb > u32::MAX {
        None
    } else {
        match inode_extents::root_find(m.disk.block, fs.disk, fs.bs(), lb) {
            None => Some(clean(bytes::zeros(4096))),
            Some(e) => match stored_page(fs.disk, fs.bs(), e.target(lb)) {
                Some(data) => Some(clean(data)),
                None => None,
            },
        }
    }
}

/// How many bytes a read of `len` bytes gives.
pub open spec fn read_count(m: InodeModel, offset: int, len: int) -> int {
    if offset >= m.disk.size_lo {
        0
    } else if len <= m.disk.size_lo - offset {
        len
    } else {
        m.disk.size_lo - offset
    }
}

/// Index of the last page that the `n` bytes from `offset` on touch.
pub open spec fn last_page(offset: int, n: int) -> int {
    (offset + n - 1) / 4096
}

/// The pages that a read needs can be had, and it does not go beyond the data
/// that an inode holds itself.
pub open spec fn readable(fs: FsModel, m: InodeModel, offset: int, len: int) -> bool {
    let n = read_count(m, offset, len);
    n > 0 ==> {
        &&& forall|idx: int|
            offset / 4096 <= idx <= last_page(offset, n) ==> (#[trigger] page_of(fs, m, idx)) is Some
        &&& (offset < 4096 && m.disk.inline_data() && !m.pages.contains_key(0)) ==> offset + n <= 60
    }
}

/// The byte of the file at position `p`.
pub open spec fn byte_of(fs: FsModel, m: InodeModel, p: int) -> u8 {
    page_of(fs, m, p / 4096)->0.data[p % 4096]
}

/// The bytes of the file from `offset` on.
pub open spec fn bytes_of(fs: FsModel, m: InodeModel, offset: int, n: int) -> Seq<u8> {
    Seq::new(n as nat, |i: int| byte_of(fs, m, offset + i))
}

/// The inode with the pages from `lo` up to `hi` in the cache.
pub open spec fn with_loaded(fs: FsModel, m: InodeModel, lo: int, hi: int) -> InodeModel {
    InodeModel {
        pages: Map::new(
            |k: usize| m.pages.contains_key(k) || lo <= k < hi,
            |k: usize| page_of(fs, m, k as int)->0,
        ),
        ..m
    }
}

/// The inode after `n` bytes from `offset` on were read.
pub open spec fn after_read(fs: FsModel, m: InodeModel, offset: int, n: int) -> InodeModel {
    if n <= 0 {
        m
    } else {
        with_loaded(fs, m, offset / 4096, last_page(offset, n) + 1)
    }
}

/// The cached pages are whole.
pub open spec fn pages_whole(m: InodeModel) -> bool {
    forall|k: usize| #[trigger] m.pages.contains_key(k) ==> m.pages[k].data.len() == 4096
}

impl Ext4Inode {
    pub open spec fn wf(self) -> bool {
        self.address_space.wf()
    }

    /// Bring a page into the cache.
    pub(crate) fn load_page<D: BlockDevice>(&mut self, fs: &Ext4FileSystem<D>, idx: usize)
        requires
            old(self).wf(),
            fs@.wf(),
            page_of(fs@, old(self)@, idx as int) is Some,
        ensures
            final(self).wf(),
            final(self)@ == old(self)@.with_page(
                idx as int,
                page_of(fs@, old(self)@, idx as int)->0,
            ),
    {
        if self.address_space.has_page(idx) {
            assert(self@.pages =~= self@.pages.insert(idx, self@.pages[idx]));
            return ;
        }
        let bs: usize = fs.block_size();
        let ghost m = self@;
        let mut page = Page::new(idx);
        if idx == 0 && self.inner.inode_on_disk.has_inline_data() {
            bytes::copy_into(page.data.as_mut_slice(), 0, &self.inner.inode_on_disk.block);
        } else {
            proof {
                assert(1 <= blocks_per_page(bs as int) <= 4) by {
                    lemma_per_page(bs as int);
                }
                assert(idx <= idx * blocks_per_page(bs as int)) by (nonlinear_arith)
                    requires
                        1 <= blocks_per_page(bs as int),
                        idx >= 0,
                ;
            }
            let lb: u32 = idx as u32 * (PAGE_SIZE / bs) as u32;
            match self.inner.inode_on_disk.lookup_extent(lb, &fs.block_device, bs) {
                None => {},
                Some(e) => {
                    proof {
                        inode_extents::lemma_root_find(m.disk.block, fs@.disk, bs as int, lb as int);
                    }
                    let block: u64 = e.physical_start_block() + lb as u64 - e.logical_block as u64;
                    read_page(&mut page, block, &fs.block_device, bs);
                },
            }
        }
        self.address_space.insert_page(page);
    }
}

proof fn lemma_loaded_step(fs: FsModel, m: InodeModel, lo: int, idx: int)
    requires
        0 <= lo <= idx <= usize::MAX,
        page_of(fs, m, idx) is Some,
    ensures
        ({
            let l = with_loaded(fs, m, lo, idx);
            &&& page_of(fs, l, idx) == page_of(fs, m, idx)
            &&& l.with_page(idx, page_of(fs, m, idx)->0) == with_loaded(fs, m, lo, idx + 1)
        }),
{
    let l = with_loaded(fs, m, lo, idx);
    assert(l.pages.contains_key(idx as usize) <==> m.pages.contains_key(idx as usize));
    assert(l.pages.insert(idx as usize, page_of(fs, m, idx)->0) =~= with_loaded(
        fs,
        m,
        lo,
        idx + 1,
    ).pages);
}

/// Pages have a page's size.
pub proof fn lemma_page_len(fs: FsModel, m: InodeModel, idx: int)
    requires
        pages_whole(m),
        m.disk.block.len() == 60,
        page_of(fs, m, idx) is Some,
    ensures
        page_of(fs, m, idx)->0.data.len() == 4096,
{
    if m.pages.contains_key(idx as usize) {
    }
}

/// Bytes that were read, extended by a part of the page that holds the next ones.
proof fn lemma_bytes_step(
    fs: FsModel,
    m: InodeModel,
    b0: Seq<u8>,
    offset: int,
    current: int,
    len: int,
    idx: int,
    at: int,
)
    requires
        0 <= offset,
        0 <= current,
        0 <= len,
        current + len <= b0.len(),
        idx == (offset + current) / 4096,
        at == (offset + current) % 4096,
        at + len <= 4096,
        page_of(fs, m, idx) is Some,
        page_of(fs, m, idx)->0.data.len() == 4096,
    ensures
        bytes::splice(
            bytes::splice(b0, 0, bytes_of(fs, m, offset, current)),
            current,
            page_of(fs, m, idx)->0.data.subrange(at, at + len),
        ) == bytes::splice(b0, 0, bytes_of(fs, m, offset, current + len)),
{
    let pos = offset + current;
    let got = bytes_of(fs, m, offset, current);
    let part = page_of(fs, m, idx)->0.data.subrange(at, at + len);
    assert forall|i: int| 0 <= i < len implies #[trigger] part[i] == byte_of(fs, m, pos + i) by {
        assert((pos + i) / 4096 == idx && (pos + i) % 4096 == at + i);
    }
    assert(bytes_of(fs, m, offset, current + len) =~= got + part);
    bytes::lemma_splice_join(b0, 0, got, part);
}

impl Ext4Inode {
    /// Bring a page into the cache and copy a part of it.
    fn copy_page<D: BlockDevice>(
        &mut self,
        fs: &Ext4FileSystem<D>,
        idx: usize,
        at: usize,
        len: usize,
        buf: &mut [u8],
        to: usize,
    )
        requires
            old(self).wf(),
            fs@.wf(),
            page_of(fs@, old(self)@, idx as int) is Some,
            page_of(fs@, old(self)@, idx as int)->0.data.len() == 4096,
            at + len <= 4096,
            to + len <= old(buf)@.len(),
        ensures
            final(self).wf(),
            final(self)@ == old(self)@.with_page(
                idx as int,
                page_of(fs@, old(self)@, idx as int)->0,
            ),
            final(buf)@ == bytes::splice(
                old(buf)@,
                to as int,
                page_of(fs@, old(self)@, idx as int)->0.data.subrange(at as int, at + len),
            ),
    {
        self.load_page(fs, idx);
        match self.address_space.get_page_cache(idx) {
            Some(page) => {
                let part = vstd::slice::slice_subrange(page.data.as_slice(), at, at + len);
                bytes::copy_into(buf, to, part);
            },
            None => {},
        }
    }

    /// Read bytes from `offset` on.  Returns how many were read: fewer than
    /// asked for at the end of the file.
    pub fn read<D: BlockDevice>(&mut self, fs: &Ext4FileSystem<D>, offset: usize, buf: &mut [u8])
        -> (r: Result<usize, Errno>)
        requires
            old(self).wf(),
            fs@.wf(),
            readable(fs@, old(self)@, offset as int, old(buf)@.len() as int),
        ensures
            final(self).wf(),
            ({
                let n = read_count(old(self)@, offset as int, old(buf)@.len() as int);
                &&& r == Ok::<usize, Errno>(n as usize)
                &&& final(self)@ == after_read(fs@, old(self)@, offset as int, n)
                &&& final(buf)@ == bytes::splice(
                    old(buf)@,
                    0,
                    bytes_of(fs@, old(self)@, offset as int, n),
                )
            }),
    {
        let size: usize = self.inner.inode_on_disk.size_lo as usize;
        let buf_len: usize = buf.len();
        let ghost m = self@;
        let ghost b0 = buf@;
        if offset >= size {
            assert(buf@ =~= bytes::splice(b0, 0, bytes_of(fs@, m, offset as int, 0)));
            return Ok(0);
        }
        let n: usize = if buf_len <= size - offset {
            buf_len
        } else {
            size - offset
        };
        let lo: usize = offset / PAGE_SIZE;
        let mut current: usize = 0;
        let mut page_index: usize = lo;
        let mut at: usize = offset % PAGE_SIZE;
        proof {
            self.address_space.lemma_whole();
            assert(pages_whole(m));
            assert(buf@ =~= bytes::splice(b0, 0, bytes_of(fs@, m, offset as int, 0)));
            assert(with_loaded(fs@, m, lo as int, lo as int).pages =~= m.pages);
            assert(self@ == with_loaded(fs@, m, lo as int, lo as int));
        }
        while current < n
            invariant
                self.wf(),
                fs@.wf(),
                m.disk.block.len() == 60,
                pages_whole(m),
                n == read_count(m, offset as int, b0.len() as int),
                n <= b0.len(),
                offset + n <= size <= u32::MAX,
                readable(fs@, m, offset as int, b0.len() as int),
                lo == offset / PAGE_SIZE,
                current <= n,
                current == 0 ==> page_index == lo && at == offset % PAGE_SIZE,
                current > 0 ==> page_index == last_page(offset as int, current as int) + 1,
                0 < current < n ==> (offset + current) % 4096 == 0 && at == 0,
                buf@.len() == b0.len(),
                buf@ == bytes::splice(b0, 0, bytes_of(fs@, m, offset as int, current as int)),
                self@ == with_loaded(fs@, m, lo as int, page_index as int),
            decreases n - current,
        {
            let ghost pos = offset + current;
            assert(page_index == pos / 4096 && at == pos % 4096);
            assert(pos <= offset + n - 1);
            assert(page_of(fs@, m, page_index as int) is Some);
            proof {
                lemma_loaded_step(fs@, m, lo as int, page_index as int);
                lemma_page_len(fs@, m, page_index as int);
            }
            let copy_len: usize = if n - current <= PAGE_SIZE - at {
                n - current
            } else {
                PAGE_SIZE - at
            };
            self.copy_page(fs, page_index, at, copy_len, buf, current);
            proof {
                lemma_bytes_step(
                    fs@,
                    m,
                    b0,
                    offset as int,
                    current as int,
                    copy_len as int,
                    page_index as int,
                    at as int,
                );
            }
            current += copy_len;
            page_index += 1;
            at = 0;
        }
        Ok(n)
    }
}

/// Fill a page from the device.
pub(crate) fn read_page<D: BlockDevice>(page: &mut Page, block: u64, device: &D, bs: usize)
    requires
        old(page).wf(),
        old(page)@ == clean(bytes::zeros(4096)),
        stored_page(device.contents(), bs as int, block as int) is Some,
    ensures
        final(page).wf(),
        final(page).page_index == old(page).page_index,
        final(page)@ == clean(stored_page(device.contents(), bs as int, block as int)->0),
{
    if block / 0x1000 % 0x10_0000 != 0xF_FFFF {
        page.data = extent_tree::read_node(device, block, bs);
    }
}

pub proof fn lemma_per_page(bs: int)
    requires
        1024 <= bs <= 4096,
    ensures
        1 <= blocks_per_page(bs) <= 4,
{
    assert(1 <= 4096int / bs <= 4) by (nonlinear_arith)
        requires
            1024 <= bs <= 4096,
    ;
}

} // verus!
