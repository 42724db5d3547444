//! Inode tables: loading, storing, creating and releasing inodes.
use vstd::prelude::*;
use crate::bytes;
use crate::fs::dev::block_dev::BlockDevice;
use crate::fs::ext4::block_group::GroupDesc;
use crate::fs::ext4::block_group;
use crate::fs::ext4::extent_tree;
use crate::fs::ext4::extent_tree::Ext4Extent;
use crate::fs::ext4::fs;
use crate::fs::ext4::fs::{Ext4FileSystem, FsModel};
use crate::fs::ext4::inode::{Ext4Inode, Ext4InodeInner, InodeModel, F_SEAL_SEAL};
use crate::fs::ext4::inode_disk;
use crate::fs::ext4::inode_disk::{Ext4InodeDisk, InodeDiskModel, EXT4_MAX_INLINE_DATA};
use crate::fs::ext4::inode_extents;
use crate::fs::ext4::io;
use crate::fs::ext4::xattr::Xattrs;
use crate::fs::page_cache::AddressSpace;
use crate::fs::types::TimeSpec;

verus! {

/// Where an inode is stored: its block, and its place in it.  None when the
/// number belongs to no group, or the place is not on the device.
pub open spec fn inode_place(fs: FsModel, num: int) -> Option<(int, int)> {
    let gi = (num - 1) / fs.sb.inodes_per_group;
    let index = (num - 1) % fs.sb.inodes_per_group;
    let block = fs.groups[gi].inode_table + index * fs.sb.inode_size / fs.bs();
    let at = index * fs.sb.inode_size % fs.bs();
    if num < 1 || gi >= fs.groups.len() || !io::block_on(fs.disk, fs.bs(), block) || at + 160
        > fs.bs() {
        None
    } else {
        Some((block, at))
    }
}

/// An inode in memory that nothing was done with yet.
pub open spec fn fresh(num: int, disk: InodeDiskModel, seals: i32) -> InodeModel {
    InodeModel {
        num,
        disk,
        pages: Map::empty(),
        link: None,
        xattrs: Map::empty(),
        seals,
    }
}

/// An inode as it is stored.
pub open spec fn stored_inode(fs: FsModel, num: int) -> InodeDiskModel {
    let p = inode_place(fs, num)->0;
    inode_disk::inode_at(io::block_at(fs.disk, fs.bs(), p.0), p.1)
}

/// The file system after an inode was stored.
pub open spec fn with_stored(fs: FsModel, num: int, d: InodeDiskModel) -> FsModel {
    let p = inode_place(fs, num)->0;
    FsModel {
        disk: bytes::splice(fs.disk, p.0 * fs.bs() + p.1, inode_disk::enc_inode(d)),
        ..fs
    }
}

/// A new inode.
pub open spec fn new_inode(
    mode: u16,
    flags: u32,
    num: int,
    uid: u16,
    gid: u16,
    seals: i32,
) -> InodeModel {
    let d = InodeDiskModel { mode, uid, gid, flags, ..inode_disk::blank_inode() };
    fresh(
        num,
        if d.uses_extents() {
            d.with_block(inode_extents::with_empty_tree(d.block))
        } else {
            d
        },
        seals,
    )
}

/// The block map of a new inode has its size.
pub proof fn lemma_new_inode(mode: u16, flags: u32, num: int, uid: u16, gid: u16, seals: i32)
    ensures
        new_inode(mode, flags, num, uid, gid, seals).disk.wf(),
{
}

/// An inode that was stored is loaded as it was, and its place stays.
#[verifier::rlimit(40)]
pub proof fn law_stored_inode_is_loaded(fs: FsModel, num: int, d: InodeDiskModel)
    requires
        fs.wf(),
        inode_place(fs, num) is Some,
        d.wf(),
    ensures
        inode_place(with_stored(fs, num, d), num) == inode_place(fs, num),
        stored_inode(with_stored(fs, num, d), num) == d,
{
    let p = inode_place(fs, num)->0;
    let e = inode_disk::enc_inode(d);
    let b = io::block_at(fs.disk, fs.bs(), p.0);
    let b2 = io::block_at(with_stored(fs, num, d).disk, fs.bs(), p.0);
    vstd::arithmetic::div_mod::lemma_mod_bound(
        (num - 1) % fs.sb.inodes_per_group * fs.sb.inode_size,
        fs.bs(),
    );
    inode_disk::lemma_enc_len(d);
    assert(b2 =~= bytes::splice(b, p.1, e));
    inode_disk::law_stored_inode_is_read(b, p.1, d);
}

/// Storing an inode leaves the other inodes as they are.
#[verifier::rlimit(40)]
pub proof fn law_other_inodes_stay(fs: FsModel, num: int, other: int, d: InodeDiskModel)
    requires
        fs.wf(),
        inode_place(fs, num) is Some,
        inode_place(fs, other) is Some,
        d.wf(),
        ({
            let p = inode_place(fs, num)->0;
            let q = inode_place(fs, other)->0;
            q.0 * fs.bs() + q.1 + 160 <= p.0 * fs.bs() + p.1 || p.0 * fs.bs() + p.1 + 160 <= q.0
                * fs.bs() + q.1
        }),
    ensures
        inode_place(with_stored(fs, num, d), other) == inode_place(fs, other),
        stored_inode(with_stored(fs, num, d), other) == stored_inode(fs, other),
{
    let q = inode_place(fs, other)->0;
    let fs2 = with_stored(fs, num, d);
    inode_disk::lemma_enc_len(d);
    vstd::arithmetic::div_mod::lemma_mod_bound(
        (other - 1) % fs.sb.inodes_per_group * fs.sb.inode_size,
        fs.bs(),
    );
    let a = io::block_at(fs.disk, fs.bs(), q.0);
    let b = io::block_at(fs2.disk, fs.bs(), q.0);
    assert forall|i: int| q.1 <= i < q.1 + 160 implies #[trigger] a[i] == b[i] by {
        let k = q.0 * fs.bs() + i;
        assert(a[i] == fs.disk[k]);
        assert(b[i] == fs2.disk[k]);
    }
    inode_disk::lemma_same_inode(b, a, q.1);
}

/// Where an inode is stored.
fn find_place<D: BlockDevice>(fs: &Ext4FileSystem<D>, inode_num: u64) -> (r: (u64, usize))
    requires
        fs@.wf(),
        inode_place(fs@, inode_num as int) is Some,
    ensures
        inode_place(fs@, inode_num as int) == Some((r.0 as int, r.1 as int)),
{
    let per: u64 = fs.super_block.inodes_per_group as u64;
    let gi: usize = ((inode_num - 1) / per) as usize;
    let index: u64 = (inode_num - 1) % per;
    let size: u64 = fs.super_block.inode_size as u64;
    let bs: u64 = fs.super_block.block_size as u64;
    let limit: usize = fs.block_device.size();
    assert(0 <= index * size <= 0xFFFF_FFFF * 0xFFFF) by (nonlinear_arith)
        requires
            index <= 0xFFFF_FFFF,
            size <= 0xFFFF,
    ;
    let table: u64 = fs.block_groups[gi].inode_table();
    proof {
        block_group::lemma_block_number(
            table + (index * size) / (bs as int),
            bs as int,
            limit as int,
        );
    }
    let block: u64 = table + index * size / bs;
    (block, (index * size % bs) as usize)
}

/// Load an inode.
pub fn load_inode<D: BlockDevice>(inode_num: u64, fs: &Ext4FileSystem<D>) -> (r: Ext4Inode)
    requires
        fs@.wf(),
        inode_place(fs@, inode_num as int) is Some,
    ensures
        r.wf(),
        r@ == fresh(inode_num as int, stored_inode(fs@, inode_num as int), F_SEAL_SEAL),
{
    let (block, at) = find_place(fs, inode_num);
    let data = io::read_block(&fs.block_device, block, fs.block_size());
    let disk = Ext4InodeDisk::read_from(data.as_slice(), at);
    Ext4Inode::wrap(disk, inode_num, F_SEAL_SEAL)
}

/// Store an inode.
pub fn write_inode_on_disk<D: BlockDevice>(
    fs: &mut Ext4FileSystem<D>,
    inode_on_disk: &Ext4InodeDisk,
    inode_num: u64,
)
    requires
        old(fs)@.wf(),
        inode_place(old(fs)@, inode_num as int) is Some,
    ensures
        final(fs)@.wf(),
        fs::same_shape(old(fs)@, final(fs)@),
        final(fs)@ == with_stored(old(fs)@, inode_num as int, inode_on_disk@),
{
    let bs: usize = fs.block_size();
    let (block, at) = find_place(fs, inode_num);
    let ghost disk = fs@.disk;
    let mut data = io::read_block(&fs.block_device, block, bs);
    inode_on_disk.write_to(data.as_mut_slice(), at);
    io::write_block(&mut fs.block_device, block, data.as_slice(), bs);
    proof {
        inode_disk::lemma_enc_len(inode_on_disk@);
        bytes::lemma_splice_within(
            disk,
            block * bs,
            bs as int,
            at as int,
            inode_disk::enc_inode(inode_on_disk@),
        );
    }
}

/// Store an inode under a number.
pub fn write_inode<D: BlockDevice>(
    inode: &Ext4Inode,
    inode_num: u64,
    fs: &mut Ext4FileSystem<D>,
)
    requires
        old(fs)@.wf(),
        inode_place(old(fs)@, inode_num as int) is Some,
    ensures
        final(fs)@.wf(),
        fs::same_shape(old(fs)@, final(fs)@),
        final(fs)@ == with_stored(old(fs)@, inode_num as int, inode@.disk),
{
    write_inode_on_disk(fs, &inode.inner.inode_on_disk, inode_num);
}

/// Blocks of several extents given back, one extent after the other.
pub open spec fn extents_freed(fs: FsModel, es: Seq<Ext4Extent>) -> Option<FsModel>
    decreases es.len(),
{
    if es.len() == 0 {
        Some(fs)
    } else {
        match fs::blocks_freed(fs, es[0].phys(), es[0].len as int) {
            None => None,
            Some(fs1) => extents_freed(fs1, es.drop_first()),
        }
    }
}

/// The inode that is stored when an inode is released: data that belongs into
/// the inode is taken from the first page.
pub open spec fn settled(m: InodeModel) -> InodeDiskModel {
    if m.disk.inline_data() && m.pages.contains_key(0) {
        m.disk.with_block(m.pages[0].data.take(60))
    } else {
        m.disk
    }
}

/// The file system after an inode was released: it is stored, and a file
/// without links gives its blocks back.
pub open spec fn released(fs: FsModel, m: InodeModel) -> Option<FsModel> {
    let d = settled(m);
    let fs1 = with_stored(fs, m.num, d);
    if inode_place(fs, m.num) is None {
        None
    } else if d.links_count == 0 && d.uses_extents() {
        if !inode_extents::whole_tree(d, fs1.disk, fs1.bs()) {
            None
        } else {
            extents_freed(
                fs1,
                extent_tree::all_extents(
                    d.block,
                    fs1.disk,
                    fs1.bs(),
                    extent_tree::header_of(d.block).depth as nat,
                ),
            )
        }
    } else {
        Some(fs1)
    }
}

impl Ext4Inode {
    fn wrap(disk: Ext4InodeDisk, inode_num: u64, seals: i32) -> (r: Self)
        ensures
            r.wf(),
            r@ == fresh(inode_num as int, disk@, seals),
    {
        let r = Ext4Inode {
            address_space: AddressSpace::new(),
            inode_num,
            link: None,
            inner: Ext4InodeInner::new(disk),
            xattrs: Xattrs::new(),
            seals,
        };
        assert(r@.xattrs =~= Map::empty());
        r
    }

    /// A new inode.
    pub fn new(
        inode_mode: u16,
        flags: u32,
        ino: u64,
        uid: u16,
        gid: u16,
        seals: i32,
    ) -> (r: Self)
        ensures
            r.wf(),
            r@ == new_inode(inode_mode, flags, ino as int, uid, gid, seals),
    {
        let now = TimeSpec::new_wall_time();
        let mut disk = Ext4InodeDisk::default();
        disk.mode = inode_mode;
        disk.uid = uid;
        disk.gid = gid;
        disk.flags = flags;
        disk.set_atime(now);
        disk.set_mtime(now);
        disk.set_ctime(now);
        if disk.use_extent_tree() {
            disk.init_extent_tree();
        }
        Self::wrap(disk, ino, seals)
    }

    /// A new inode of a device file.
    pub fn new_device(disk: Ext4InodeDisk, ino: u64) -> (r: Self)
        ensures
            r.wf(),
            r@ == fresh(ino as int, disk@, 0),
    {
        Self::wrap(disk, ino, 0)
    }

    /// The root directory: the second inode of a group's table.
    pub fn new_root<D: BlockDevice>(fs: &Ext4FileSystem<D>, group_desc: &GroupDesc) -> (r: Self)
        requires
            fs@.wf(),
            io::block_on(fs@.disk, fs@.bs(), group_desc.inode_table as int),
            fs@.sb.inode_size + 160 <= fs@.bs(),
        ensures
            r.wf(),
            r@ == fresh(
                2,
                inode_disk::inode_at(
                    io::block_at(fs@.disk, fs@.bs(), group_desc.inode_table as int),
                    fs@.sb.inode_size,
                ),
                F_SEAL_SEAL,
            ),
    {
        let disk = Ext4InodeDisk::new_root(
            &fs.block_device,
            fs.block_size(),
            fs.super_block.inode_size,
            group_desc,
        );
        Self::wrap(disk, 2, F_SEAL_SEAL)
    }

    /// The block that holds this inode, and its place in it.
    pub fn ino_2_blockid_and_offset<D: BlockDevice>(&self, fs: &Ext4FileSystem<D>) -> (r: (
        u64,
        usize,
    ))
        requires
            fs@.wf(),
            inode_place(fs@, self@.num) is Some,
        ensures
            inode_place(fs@, self@.num) == Some((r.0 as int, r.1 as int)),
    {
        find_place(fs, self.inode_num)
    }

    /// Give the inode up: it is stored, and if no name is left for the file its
    /// blocks are given back.
    pub fn release<D: BlockDevice>(self, fs: &mut Ext4FileSystem<D>)
        requires
            self.wf(),
            old(fs)@.wf(),
            released(old(fs)@, self@) is Some,
        ensures
            final(fs)@.wf(),
            released(old(fs)@, self@) == Some(final(fs)@),
    {
        let mut disk = self.inner.inode_on_disk;
        if disk.has_inline_data() {
            match self.address_space.get_page_cache(0) {
                Some(page) => {
                    let part = vstd::slice::slice_subrange(
                        page.data.as_slice(),
                        0,
                        EXT4_MAX_INLINE_DATA,
                    );
                    bytes::copy_into(&mut disk.block, 0, part);
                    assert(disk.block@ =~= page@.data.take(60));
                },
                None => {},
            }
        }
        assert(disk@ == settled(self@));
        write_inode_on_disk(fs, &disk, self.inode_num);
        if disk.get_nlinks() == 0 && disk.use_extent_tree() {
            let bs: usize = fs.block_size();
            let mut extents: Vec<Ext4Extent> = Vec::new();
            disk.iter_all_extents(&fs.block_device, bs, &mut extents);
            assert(extents@.skip(0) =~= extents@);
            let ghost all = extents@;
            assert(all =~= extent_tree::all_extents(
                disk@.block,
                fs@.disk,
                fs@.bs(),
                extent_tree::header_of(disk@.block).depth as nat,
            ));
            let ghost goal = extents_freed(fs@, all);
            let mut i: usize = 0;
            while i < extents.len()
                invariant
                    fs@.wf(),
                    i <= extents@.len(),
                    goal is Some,
                    goal == extents_freed(fs@, extents@.skip(i as int)),
                decreases extents@.len() - i,
            {
                let e = extents[i];
                assert(extents@.skip(i as int)[0] == e);
                assert(extents@.skip(i as int).drop_first() =~= extents@.skip(i + 1));
                fs.dealloc_block(e.physical_start_block(), e.len as usize);
                i += 1;
            }
            assert(extents@.skip(i as int) =~= seq![]);
        }
    }
}

impl Ext4InodeDisk {
    /// The inode of the root directory, as it is stored.
    pub fn new_root<D: BlockDevice>(
        block_device: &D,
        block_size: usize,
        inode_size: u16,
        group_desc: &GroupDesc,
    ) -> (r: Self)
        requires
            io::block_on(
                block_device.contents(),
                block_size as int,
                group_desc.inode_table as int,
            ),
            inode_size + 160 <= block_size,
        ensures
            r@ == inode_disk::inode_at(
                io::block_at(
                    block_device.contents(),
                    block_size as int,
                    group_desc.inode_table as int,
                ),
                inode_size as int,
            ),
    {
        let data = io::read_block(block_device, group_desc.inode_table(), block_size);
        Ext4InodeDisk::read_from(data.as_slice(), inode_size as usize)
    }
}

} // verus!
