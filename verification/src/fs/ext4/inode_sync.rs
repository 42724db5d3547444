//! Flushing the cached pages of a file to the device.
use vstd::prelude::*;
use crate::bytes;
use crate::fs::dev::block_dev::BlockDevice;
use crate::fs::ext4::extent_tree;
use crate::fs::ext4::extent_tree::byte_offset;
use crate::fs::ext4::fs;
use crate::fs::ext4::fs::{Ext4FileSystem, FsModel};
use crate::fs::ext4::inode;
use crate::fs::ext4::inode::{Ext4Inode, InodeModel};
use crate::fs::ext4::inode_disk::EXT4_MAX_INLINE_DATA;
use crate::fs::ext4::inode_extents;
use crate::fs::ext4::inode_table;
use crate::fs::ext4::inode_table::{inode_place, with_stored, write_inode};
use crate::fs::ext4::inode_write;
use crate::fs::page_cache::PAGE_SIZE;
use crate::fs::types::{Errno, SyscallRet};

verus! {

/// Page `idx` of the file is cached and has changed since it was read.
pub open spec fn is_dirty(m: InodeModel, idx: int) -> bool {
    m.pages.contains_key(idx as usize) && m.pages[idx as usize].dirty
}

/// A page of the file flushed: a page that has changed is written to its place
/// on the device, which is found or made, or into the inode where that holds the
/// data itself; then it counts as unchanged.  None when the page has no place.
pub open spec fn page_flushed(fs: FsModel, m: InodeModel, idx: int) -> Option<
    (FsModel, InodeModel),
> {
    let data = m.pages[idx as usize].data;
    let lb = idx * inode::blocks_per_page(fs.bs());
    if !is_dirty(m, idx) {
        Some((fs, m))
    } else if idx == 0 && m.disk.inline_data() {
        Some((fs, m.with_disk(m.disk.with_block(data.take(60))).with_page(0, inode::clean(data))))
    } else if lb > u32::MAX {
        None
    } else {
        match inode_write::extent_for(fs, m.disk, lb) {
            None => None,
            Some(t) => {
                let block = t.2.target(lb);
                if inode::marks_hole(block) || !extent_tree::node_on(t.0.disk, t.0.bs(), block) {
                    None
                } else {
                    Some(
                        (
                            FsModel {
                                disk: bytes::splice(t.0.disk, block * t.0.bs(), data),
                                ..t.0
                            },
                            m.with_disk(t.1).with_page(idx, inode::clean(data)),
                        ),
                    )
                }
            },
        }
    }
}

/// The pages below index `n` flushed, one after the other.
pub open spec fn pages_flushed(fs: FsModel, m: InodeModel, n: nat) -> Option<(FsModel, InodeModel)>
    decreases n,
{
    if n == 0 {
        Some((fs, m))
    } else {
        match pages_flushed(fs, m, (n - 1) as nat) {
            None => None,
            Some(t) => page_flushed(t.0, t.1, n - 1),
        }
    }
}

/// All cached pages have an index below `n`.
pub open spec fn all_below(m: InodeModel, n: nat) -> bool {
    forall|k: usize| #[trigger] m.pages.contains_key(k) ==> k < n
}

/// The file system and the inode after the pages below index `n` were flushed
/// and the inode was stored.
pub open spec fn synced(fs: FsModel, m: InodeModel, n: nat) -> Option<(FsModel, InodeModel)> {
    match pages_flushed(fs, m, n) {
        None => None,
        Some(t) => if inode_place(t.0, m.num) is None {
            None
        } else {
            Some((with_stored(t.0, m.num, t.1.disk), t.1))
        },
    }
}

/// The file can be flushed: every page that has changed gets a place.
pub open spec fn syncable(fs: FsModel, m: InodeModel) -> bool {
    forall|n: nat| #[trigger] synced(fs, m, n) is Some
}

impl Ext4Inode {
    /// Flush one page.
    fn flush_page<D: BlockDevice>(&mut self, fs: &mut Ext4FileSystem<D>, idx: usize)
        requires
            old(self).wf(),
            old(fs)@.wf(),
            page_flushed(old(fs)@, old(self)@, idx as int) is Some,
        ensures
            final(self).wf(),
            final(fs)@.wf(),
            page_flushed(old(fs)@, old(self)@, idx as int) == Some((final(fs)@, final(self)@)),
            final(self)@.pages.dom() == old(self)@.pages.dom(),
    {
        let ghost m0 = self@;
        let mut page = match self.address_space.get_page_cache(idx) {
            None => {
                return ;
            },
            Some(p) => {
                if !p.dirty {
                    return ;
                }
                p.copy()
            },
        };
        page.dirty = false;
        let ghost data = page@.data;
        if idx == 0 && self.inner.inode_on_disk.has_inline_data() {
            let part = vstd::slice::slice_subrange(page.data.as_slice(), 0, EXT4_MAX_INLINE_DATA);
            bytes::copy_into(&mut self.inner.inode_on_disk.block, 0, part);
            assert(self.inner.inode_on_disk.block@ =~= data.take(60));
            self.address_space.insert_page(page);
            assert(self@.pages.dom() =~= m0.pages.dom());
            return ;
        }
        let bs: usize = fs.block_size();
        proof {
            inode::lemma_per_page(bs as int);
            assert(idx <= idx * inode::blocks_per_page(bs as int)) by (nonlinear_arith)
                requires
                    1 <= inode::blocks_per_page(bs as int),
                    idx >= 0,
            ;
        }
        let lb: u32 = idx as u32 * (PAGE_SIZE / bs) as u32;
        let e = self.lookup_or_create_extent(lb, fs);
        let block: u64 = e.physical_start_block() + lb as u64 - e.logical_block as u64;
        let limit: usize = fs.block_device.size();
        let offset: usize = byte_offset(block, bs, limit);
        fs.block_device.write(offset, page.data.as_slice());
        self.address_space.insert_page(page);
        assert(self@.pages.dom() =~= m0.pages.dom());
    }

    /// Flush the file: the cached pages that have changed, and the inode.
    pub fn fsync<D: BlockDevice>(&mut self, fs: &mut Ext4FileSystem<D>) -> (r: SyscallRet)
        requires
            old(self).wf(),
            old(fs)@.wf(),
            syncable(old(fs)@, old(self)@),
        ensures
            r == Ok::<usize, Errno>(0),
            final(self).wf(),
            final(fs)@.wf(),
            exists|n: nat| #[trigger]
                synced(old(fs)@, old(self)@, n) == Some((final(fs)@, final(self)@)) && all_below(
                    old(self)@,
                    n,
                ) && n <= usize::MAX + 1,
    {
        let ghost m0 = self@;
        let ghost fs0 = fs@;
        let mut left: usize = self.address_space.page_count();
        let mut idx: usize = 0;
        let ghost mut done: nat = 0;
        proof {
            self.address_space.lemma_finite();
            lemma_left_all(m0);
        }
        while left > 0
            invariant
                self.wf(),
                fs@.wf(),
                syncable(fs0, m0),
                m0.pages.dom().finite(),
                self@.pages.dom() == m0.pages.dom(),
                pages_flushed(fs0, m0, done) == Some((fs@, self@)),
                left > 0 ==> idx == done,
                done <= idx + 1,
                left == pages_from(m0, done as int),
                self@.num == m0.num,
            decreases left, usize::MAX - idx,
        {
            proof {
                assert(synced(fs0, m0, done + 1) is Some);
                assert(pages_flushed(fs0, m0, done + 1) == page_flushed(fs@, self@, done as int));
                lemma_left_step(m0, idx);
            }
            let has: bool = self.address_space.has_page(idx);
            self.flush_page(fs, idx);
            proof {
                done = done + 1;
            }
            if has {
                left -= 1;
            }
            if left > 0 {
                proof {
                    lemma_left_some(m0, done as int);
                }
                idx += 1;
            }
        }
        proof {
            lemma_left_none(m0, done as int);
            assert(synced(fs0, m0, done) is Some);
        }
        write_inode(self, self.inode_num, fs);
        Ok(0)
    }
}

/// Number of cached pages from index `from` on.
spec fn pages_from(m: InodeModel, from: int) -> nat {
    m.pages.dom().filter(|k: usize| k >= from).len()
}

proof fn lemma_left_all(m: InodeModel)
    requires
        m.pages.dom().finite(),
    ensures
        pages_from(m, 0) == m.pages.len(),
{
    assert(m.pages.dom().filter(|k: usize| k >= 0) =~= m.pages.dom());
}

proof fn lemma_left_step(m: InodeModel, at: usize)
    requires
        m.pages.dom().finite(),
    ensures
        pages_from(m, at as int) == pages_from(m, at + 1) + (if m.pages.contains_key(at) {
            1nat
        } else {
            0
        }),
{
    let a = m.pages.dom().filter(|k: usize| k >= at);
    let b = m.pages.dom().filter(|k: usize| k >= at + 1);
    m.pages.dom().lemma_len_filter(|k: usize| k >= at + 1);
    if m.pages.contains_key(at) {
        assert(a =~= b.insert(at));
    } else {
        assert(a =~= b);
    }
}

proof fn lemma_left_none(m: InodeModel, from: int)
    requires
        m.pages.dom().finite(),
        0 <= from,
        pages_from(m, from) == 0,
    ensures
        all_below(m, from as nat),
{
    let a = m.pages.dom().filter(|k: usize| k >= from);
    assert(a =~= Set::empty()) by {
        a.lemma_len0_is_empty();
    }
    assert forall|k: usize| #[trigger] m.pages.contains_key(k) implies k < from by {
        if k >= from {
            assert(a.contains(k));
        }
    }
}

proof fn lemma_left_some(m: InodeModel, from: int)
    requires
        m.pages.dom().finite(),
        pages_from(m, from) > 0,
    ensures
        from <= usize::MAX,
{
    let a = m.pages.dom().filter(|k: usize| k >= from);
    if from > usize::MAX {
        assert(a =~= Set::empty());
    }
}

/// Once a file was flushed no cached page counts as changed, and every page holds
/// what it held.
pub proof fn law_nothing_is_dirty_after_a_flush(fs: FsModel, m: InodeModel, n: nat, k: usize)
    requires
        pages_flushed(fs, m, n) is Some,
    ensures
        ({
            let after = (pages_flushed(fs, m, n)->0).1;
            &&& after.pages.contains_key(k) == m.pages.contains_key(k)
            &&& m.pages.contains_key(k) ==> after.pages[k].data == m.pages[k].data
            &&& m.pages.contains_key(k) && k < n ==> !after.pages[k].dirty
            &&& m.pages.contains_key(k) && k >= n ==> after.pages[k] == m.pages[k]
        }),
    decreases n,
{
    if n > 0 {
        law_nothing_is_dirty_after_a_flush(fs, m, (n - 1) as nat, k);
        if n - 1 <= usize::MAX {
            law_nothing_is_dirty_after_a_flush(fs, m, (n - 1) as nat, (n - 1) as usize);
        }
        assert(n - 1 > usize::MAX ==> k < n - 1);
        lemma_page_flushed_pages(
            (pages_flushed(fs, m, (n - 1) as nat)->0).0,
            (pages_flushed(fs, m, (n - 1) as nat)->0).1,
            n - 1,
            k,
        );
    }
}

proof fn lemma_page_flushed_pages(fs: FsModel, m: InodeModel, idx: int, k: usize)
    requires
        page_flushed(fs, m, idx) is Some,
    ensures
        ({
            let after = (page_flushed(fs, m, idx)->0).1;
            &&& after.pages.contains_key(k) == m.pages.contains_key(k)
            &&& m.pages.contains_key(k) ==> after.pages[k].data == m.pages[k].data
            &&& m.pages.contains_key(k) && k == idx as usize ==> !after.pages[k].dirty
            &&& m.pages.contains_key(k) && k != idx as usize ==> after.pages[k] == m.pages[k]
            &&& m.pages.contains_key(k) && !m.pages[k].dirty ==> !after.pages[k].dirty
        }),
{
}

/// A page that has changed stands at its place on the device once it was
/// flushed.
pub proof fn law_flushed_page_is_on_the_device(fs: FsModel, m: InodeModel, idx: int)
    requires
        is_dirty(m, idx),
        !(idx == 0 && m.disk.inline_data()),
        m.pages[idx as usize].data.len() == 4096,
        page_flushed(fs, m, idx) is Some,
    ensures
        ({
            let lb = idx * inode::blocks_per_page(fs.bs());
            let t = inode_write::extent_for(fs, m.disk, lb)->0;
            let after = (page_flushed(fs, m, idx)->0).0;
            &&& extent_tree::node_at(after.disk, t.0.bs(), t.2.target(lb))
                == m.pages[idx as usize].data
            &&& after.disk.len() == t.0.disk.len()
        }),
{
    let lb = idx * inode::blocks_per_page(fs.bs());
    let t = inode_write::extent_for(fs, m.disk, lb)->0;
    let after = (page_flushed(fs, m, idx)->0).0;
    assert(extent_tree::node_at(after.disk, t.0.bs(), t.2.target(lb))
        =~= m.pages[idx as usize].data);
}

/// The block on the device at which page `idx` starts.
pub open spec fn page_place(fs: FsModel, m: InodeModel, idx: int) -> Option<int> {
    let lb = idx * inode::blocks_per_page(fs.bs());
    match inode_extents::root_find(m.disk.block, fs.disk, fs.bs(), lb) {
        Some(e) => Some(e.target(lb)),
        None => None,
    }
}

/// A page that has changed has a place of its own on the device.
pub open spec fn well_placed(fs: FsModel, m: InodeModel, idx: int) -> bool {
    &&& m.pages[idx as usize].data.len() == 4096
    &&& idx * inode::blocks_per_page(fs.bs()) <= u32::MAX
    &&& page_place(fs, m, idx) is Some
    &&& !inode::marks_hole(page_place(fs, m, idx)->0)
    &&& extent_tree::node_on(fs.disk, fs.bs(), page_place(fs, m, idx)->0)
    &&& forall|other: int|
        0 <= other <= usize::MAX && other != idx && #[trigger] is_dirty(m, other) ==> {
            let a = page_place(fs, m, idx)->0 * fs.bs();
            let b = page_place(fs, m, other)->0 * fs.bs();
            a + 4096 <= b || b + 4096 <= a
        }
}

/// A file with its extents in the inode, whose changed pages all have places.
pub open spec fn all_placed(fs: FsModel, m: InodeModel) -> bool {
    &&& inode_extents::has_tree(m.disk)
    &&& extent_tree::header_of(m.disk.block).depth == 0
    &&& forall|idx: int| 0 <= idx <= usize::MAX && #[trigger] is_dirty(m, idx) ==> well_placed(fs, m, idx)
}

spec fn flushed_so_far(fs: FsModel, m: InodeModel, n: nat, now: FsModel, after: InodeModel) -> bool {
    &&& now == (FsModel { disk: now.disk, ..fs })
    &&& now.disk.len() == fs.disk.len()
    &&& after.disk == m.disk
    &&& after.num == m.num
    &&& forall|idx: int|
        0 <= idx < n && idx <= usize::MAX && #[trigger] is_dirty(m, idx) ==> extent_tree::node_at(
            now.disk,
            fs.bs(),
            page_place(fs, m, idx)->0,
        ) == m.pages[idx as usize].data
}

proof fn lemma_flushed_so_far(fs: FsModel, m: InodeModel, n: nat)
    requires
        all_placed(fs, m),
        n <= usize::MAX + 1,
    ensures
        pages_flushed(fs, m, n) is Some,
        flushed_so_far(fs, m, n, (pages_flushed(fs, m, n)->0).0, (pages_flushed(fs, m, n)->0).1),
    decreases n,
{
    if n > 0 {
        let i = n - 1;
        lemma_flushed_so_far(fs, m, i as nat);
        let (fs1, m1) = pages_flushed(fs, m, i as nat)->0;
        law_nothing_is_dirty_after_a_flush(fs, m, i as nat, i as usize);
        if is_dirty(m, i) {
            let lb = i * inode::blocks_per_page(fs.bs());
            let data = m.pages[i as usize].data;
            let block = page_place(fs, m, i)->0;
            assert(well_placed(fs, m, i));
            reveal(inode_write::extent_for);
            assert(inode_write::extent_for(fs1, m1.disk, lb) is Some);
            let (fs2, m2) = page_flushed(fs1, m1, i)->0;
            law_flushed_page_is_on_the_device(fs1, m1, i);
            assert forall|idx: int| 0 <= idx < n && idx <= usize::MAX && #[trigger] is_dirty(m, idx)
                implies extent_tree::node_at(fs2.disk, fs.bs(), page_place(fs, m, idx)->0)
                == m.pages[idx as usize].data by {
                if idx != i {
                    assert(well_placed(fs, m, idx));
                    assert(extent_tree::node_at(fs2.disk, fs.bs(), page_place(fs, m, idx)->0)
                        =~= extent_tree::node_at(fs1.disk, fs.bs(), page_place(fs, m, idx)->0));
                }
            }
        } else {
            assert(page_flushed(fs1, m1, i) == Some((fs1, m1)));
        }
    }
}

/// After a file was flushed and its inode is loaded anew, every page that had
/// changed reads as it was in the cache.  The file's extents stand in its inode,
/// its changed pages have places apart from each other and from the inode's.
pub proof fn law_synced_pages_are_read_back(fs: FsModel, m: InodeModel, n: nat, idx: int)
    requires
        fs.wf(),
        all_placed(fs, m),
        m.disk.wf(),
        n <= usize::MAX + 1,
        0 <= idx < n,
        idx <= usize::MAX,
        is_dirty(m, idx),
        inode_place(fs, m.num) is Some,
        ({
            let p = inode_place(fs, m.num)->0;
            let at = p.0 * fs.bs() + p.1;
            let b = page_place(fs, m, idx)->0 * fs.bs();
            b + 4096 <= at || at + 160 <= b
        }),
    ensures
        synced(fs, m, n) is Some,
        ({
            let after = (synced(fs, m, n)->0).0;
            let again = inode_table::fresh(m.num, inode_table::stored_inode(after, m.num), m.seals);
            inode::page_of(after, again, idx) == Some(inode::clean(m.pages[idx as usize].data))
        }),
{
    lemma_flushed_so_far(fs, m, n);
    let (fs1, m1) = pages_flushed(fs, m, n)->0;
    lemma_same_place(fs, fs1, m.num);
    inode_table::law_stored_inode_is_loaded(fs1, m.num, m.disk);
    assert(well_placed(fs, m, idx));
    let block = page_place(fs, m, idx)->0;
    lemma_stored_apart(fs1, m.num, m.disk, block);
    let after = with_stored(fs1, m.num, m.disk);
    assert(synced(fs, m, n) == Some((after, m1)));
    assert(page_place(after, m, idx) == Some(block));
    lemma_uncached_page(after, m, idx);
}

proof fn lemma_same_place(fs: FsModel, now: FsModel, num: int)
    requires
        now == (FsModel { disk: now.disk, ..fs }),
        now.disk.len() == fs.disk.len(),
    ensures
        inode_place(now, num) == inode_place(fs, num),
{
}

/// What is read of a page that is not cached.
proof fn lemma_uncached_page(fs: FsModel, m: InodeModel, idx: int)
    requires
        inode_extents::has_tree(m.disk),
        extent_tree::header_of(m.disk.block).depth == 0,
        idx * inode::blocks_per_page(fs.bs()) <= u32::MAX,
        page_place(fs, m, idx) is Some,
        !inode::marks_hole(page_place(fs, m, idx)->0),
        extent_tree::node_on(fs.disk, fs.bs(), page_place(fs, m, idx)->0),
    ensures
        inode::page_of(fs, inode_table::fresh(m.num, m.disk, m.seals), idx) == Some(
            inode::clean(extent_tree::node_at(fs.disk, fs.bs(), page_place(fs, m, idx)->0)),
        ),
{
    assert(inode_extents::whole_tree(m.disk, fs.disk, fs.bs()));
}

/// Storing an inode changes nothing outside its place.
proof fn lemma_stored_apart(
    fs: FsModel,
    num: int,
    d: crate::fs::ext4::inode_disk::InodeDiskModel,
    block: int,
)
    requires
        d.wf(),
        inode_place(fs, num) is Some,
        extent_tree::node_on(fs.disk, fs.bs(), block),
        ({
            let p = inode_place(fs, num)->0;
            let at = p.0 * fs.bs() + p.1;
            let b = block * fs.bs();
            b + 4096 <= at || at + 160 <= b
        }),
    ensures
        extent_tree::node_at(with_stored(fs, num, d).disk, fs.bs(), block) == extent_tree::node_at(
            fs.disk,
            fs.bs(),
            block,
        ),
        with_stored(fs, num, d).disk.len() == fs.disk.len(),
{
    crate::fs::ext4::inode_disk::lemma_enc_len(d);
    assert(extent_tree::node_at(with_stored(fs, num, d).disk, fs.bs(), block)
        =~= extent_tree::node_at(fs.disk, fs.bs(), block));
}

} // verus!
