//! The root of a file's extent tree, which is stored in the inode itself.
use vstd::prelude::*;
use crate::bytes;
use crate::fs::dev::block_dev::BlockDevice;
use crate::fs::ext4::extent_tree;
use crate::fs::ext4::extent_tree::{
    enc_extent, enc_header, enc_idx, entries_fit, extent_of, extents_of, header_of, idx_of, idxs_of,
    node_at, node_on, tree_ok, with_extents, Ext4Extent, Ext4ExtentBlock, Ext4ExtentHeader,
    Ext4ExtentIdx, EXTENT_MAGIC,
};
use crate::fs::ext4::fs;
use crate::fs::ext4::fs::{Ext4FileSystem, FsModel};
use crate::fs::ext4::inode_disk::{Ext4InodeDisk, InodeDiskModel};
use crate::fs::ext4::io;
use crate::fs::types::{Errno, SyscallRet};
use crate::search;

verus! {

/// The inode's data is mapped by an extent tree with its root in the inode.
pub open spec fn has_tree(m: InodeDiskModel) -> bool {
    &&& m.block.len() == 60
    &&& m.uses_extents()
    &&& !m.inline_data()
    &&& header_of(m.block).magic == EXTENT_MAGIC
    &&& entries_fit(m.block)
}

/// The inode's extent tree lies on the device as a whole.
pub open spec fn whole_tree(m: InodeDiskModel, disk: Seq<u8>, bs: int) -> bool {
    has_tree(m) && tree_ok(m.block, disk, bs, header_of(m.block).depth as nat)
}

/// The extent for logical block `lb`.
pub open spec fn root_find(block: Seq<u8>, disk: Seq<u8>, bs: int, lb: int) -> Option<Ext4Extent> {
    extent_tree::find_extent(block, disk, bs, lb, header_of(block).depth as nat)
}

/// The root of an empty tree in place of the first bytes of the block map.
pub open spec fn with_empty_tree(block: Seq<u8>) -> Seq<u8> {
    bytes::splice(block, 0, enc_header(Ext4ExtentHeader::new_root()))
}

/// The root with fewer extents: those from the first one that starts at or
/// behind logical block `count` on are left out.  What stands first behind the
/// remaining ones is the left out extent with its length counted down to
/// `count`, in 16 bits.
pub open spec fn cut_root(block: Seq<u8>, count: int) -> Seq<u8> {
    let h = header_of(block);
    let es = extents_of(block);
    let low = count % 0x1_0000_0000;
    if h.depth > 0 {
        block
    } else if count == 0 {
        bytes::splice(block, 0, enc_header(Ext4ExtentHeader { entries: 0, ..h }))
    } else {
        match search::first_index(es, extent_tree::starts_at_or_after(low), 0) {
            None => block,
            Some(i) => bytes::splice(
                bytes::splice(
                    block,
                    0,
                    enc_header(Ext4ExtentHeader { entries: i as u16, ..h }),
                ),
                12 + 12 * i,
                enc_extent(
                    Ext4Extent {
                        len: ((low - es[i].logical_block) % 0x1_0000) as u16,
                        ..es[i]
                    },
                ),
            ),
        }
    }
}

/// Extents in the order of their logical blocks; those that start at the same
/// block keep their order.
pub open spec fn sorted(es: Seq<Ext4Extent>) -> Seq<Ext4Extent>
    decreases es.len(),
{
    if es.len() == 0 {
        es
    } else {
        put_in_order(sorted(es.drop_last()), es.last())
    }
}

/// `e` before the first extent that starts behind it.
pub open spec fn put_in_order(es: Seq<Ext4Extent>, e: Ext4Extent) -> Seq<Ext4Extent> {
    match search::first_index(es, extent_tree::starts_after(e.logical_block as int), 0) {
        Some(i) => es.insert(i, e),
        None => es.push(e),
    }
}

/// An insertion below an inner root goes to the first child that starts at or
/// below `lb`: its result, or none when the child is not on the device or has no
/// room.  The child is changed in memory only, and is not written back.
pub open spec fn child_inserted(
    block: Seq<u8>,
    disk: Seq<u8>,
    bs: int,
    lb: int,
    pb: int,
    count: int,
) -> Option<Result<(), Seq<char>>> {
    match search::first_index(idxs_of(block), extent_tree::starts_below(lb), 0) {
        None => Some(Err("No valid extent index found"@)),
        Some(i) => {
            let leaf = idxs_of(block)[i].leaf();
            let child = node_at(disk, bs, leaf);
            if node_on(disk, bs, leaf) && entries_fit(child) && extent_tree::inserted_block(
                child,
                lb,
                pb,
                count,
            ) is Some {
                Some(Ok(()))
            } else {
                None
            }
        },
    }
}

/// A root with two children, one level higher.
pub open spec fn with_two_children(
    block: Seq<u8>,
    left: Ext4ExtentIdx,
    right: Ext4ExtentIdx,
) -> Seq<u8> {
    let h = header_of(block);
    let higher = Ext4ExtentHeader { entries: 2, depth: (h.depth + 1) as u16, ..h };
    bytes::splice(
        bytes::splice(bytes::splice(block, 0, enc_header(higher)), 12, enc_idx(left)),
        24,
        enc_idx(right),
    )
}

/// A full root split in two: its extents move to two new leaf blocks, and the
/// root holds the indices of these.
pub open spec fn split_root(fs: FsModel, block: Seq<u8>) -> Option<(FsModel, Seq<u8>)> {
    let es = extents_of(block);
    match fs::block_taken(fs, 0) {
        None => None,
        Some(l) => match fs::block_taken(l.0, 0) {
            None => None,
            Some(r) => {
                let d0 = r.0.disk;
                let d1 = io::put_block(
                    d0,
                    fs.bs(),
                    l.1,
                    extent_tree::leaf_block(es.take(2)),
                );
                let d2 = io::put_block(
                    d1,
                    fs.bs(),
                    r.1,
                    extent_tree::leaf_block(es.skip(2)),
                );
                if es.len() != 4 || !node_on(d0, fs.bs(), l.1) || !node_on(d1, fs.bs(), r.1) {
                    None
                } else {
                    Some(
                        (
                            FsModel { disk: d2, ..r.0 },
                            with_two_children(
                                block,
                                idx_of(es[0].logical_block as int, l.1),
                                idx_of(es[2].logical_block as int, r.1),
                            ),
                        ),
                    )
                }
            },
        },
    }
}

/// `count` blocks from logical block `lb` on mapped to device blocks from `pb`
/// on: the file system and the root afterwards, and the result.
pub open spec fn root_inserted(fs: FsModel, block: Seq<u8>, lb: int, pb: int, count: int) -> Option<
    (FsModel, Seq<u8>, Result<(), Seq<char>>),
> {
    let h = header_of(block);
    let es = extents_of(block);
    if h.depth > 0 {
        match child_inserted(block, fs.disk, fs.bs(), lb, pb, count) {
            None => None,
            Some(r) => Some((fs, block, r)),
        }
    } else {
        match search::first_index(es, extent_tree::joins(lb, pb), 0) {
            Some(i) => match extent_tree::grown(es, i, count) {
                None => None,
                Some(es2) => Some((fs, with_extents(block, es2), Ok(()))),
            },
            None => if h.entries == h.max {
                match split_root(fs, block) {
                    None => None,
                    Some(s) => match child_inserted(s.1, s.0.disk, fs.bs(), lb, pb, count) {
                        None => None,
                        Some(r) => Some((s.0, s.1, r)),
                    },
                }
            } else if es.len() >= 4 {
                None
            } else {
                Some(
                    (
                        fs,
                        with_extents(
                            block,
                            sorted(es.push(extent_of(lb, count % 0x1_0000, pb))),
                        ),
                        Ok(()),
                    ),
                )
            },
        }
    }
}

/// An extent that is found contains the block that was asked for.
pub proof fn lemma_root_find(block: Seq<u8>, disk: Seq<u8>, bs: int, lb: int)
    ensures
        match root_find(block, disk, bs, lb) {
            Some(e) => e.maps(lb),
            None => true,
        },
{
    extent_tree::lemma_find_extent(block, disk, bs, lb, header_of(block).depth as nat);
}

proof fn lemma_sorted_len(es: Seq<Ext4Extent>)
    ensures
        sorted(es).len() == es.len(),
    decreases es.len(),
{
    if es.len() > 0 {
        lemma_sorted_len(es.drop_last());
        search::lemma_first_index(
            sorted(es.drop_last()),
            extent_tree::starts_after(es.last().logical_block as int),
            0,
        );
    }
}

/// In ascending order of logical blocks.
pub open spec fn in_order(es: Seq<Ext4Extent>) -> bool {
    forall|i: int, j: int|
        0 <= i <= j < es.len() ==> #[trigger] es[i].logical_block
            <= #[trigger] es[j].logical_block
}

/// Sorting orders the extents and loses none.
pub proof fn law_sorted(es: Seq<Ext4Extent>)
    ensures
        in_order(sorted(es)),
        sorted(es).to_multiset() == es.to_multiset(),
    decreases es.len(),
{
    broadcast use vstd::seq_lib::group_to_multiset_ensures;

    if es.len() > 0 {
        let init = sorted(es.drop_last());
        let e = es.last();
        law_sorted(es.drop_last());
        search::lemma_first_index(
            init,
            extent_tree::starts_after(e.logical_block as int),
            0,
        );
        let out = sorted(es);
        assert(es =~= es.drop_last().push(e));
        assert(es.to_multiset() == es.drop_last().to_multiset().insert(e));
        match search::first_index(init, extent_tree::starts_after(e.logical_block as int), 0) {
            Some(i) => {
                assert forall|a: int, b: int| 0 <= a <= b < out.len() implies #[trigger] out[a].logical_block
                    <= #[trigger] out[b].logical_block by {
                    let a0 = if a < i {
                        a
                    } else {
                        a - 1
                    };
                    let b0 = if b < i {
                        b
                    } else {
                        b - 1
                    };
                    if a != i && b != i {
                        assert(init[a0].logical_block <= init[b0].logical_block);
                    } else if a == i && b != i {
                        assert(init[i].logical_block <= init[b0].logical_block);
                    }
                }
            },
            None => {},
        }
    }
}

/// Put an extent in its place.
fn insert_in_order(es: &mut Vec<Ext4Extent>, e: Ext4Extent)
    ensures
        final(es)@ == put_in_order(old(es)@, e),
{
    let n: usize = es.len();
    let mut i: usize = 0;
    while i < n
        invariant
            i <= n == es@.len(),
            *es == *old(es),
            search::first_index(es@, extent_tree::starts_after(e.logical_block as int), 0)
                == search::first_index(
                es@,
                extent_tree::starts_after(e.logical_block as int),
                i as int,
            ),
        decreases n - i,
    {
        if es[i].logical_block > e.logical_block {
            es.insert(i, e);
            return ;
        }
        i += 1;
    }
    es.push(e);
}

/// The extents in order.
fn sort_extents(es: &Vec<Ext4Extent>) -> (r: Vec<Ext4Extent>)
    ensures
        r@ == sorted(es@),
{
    let mut out: Vec<Ext4Extent> = Vec::new();
    let mut i: usize = 0;
    assert(es@.take(0) =~= seq![]);
    while i < es.len()
        invariant
            i <= es@.len(),
            out@ == sorted(es@.take(i as int)),
        decreases es@.len() - i,
    {
        assert(es@.take(i + 1).drop_last() =~= es@.take(i as int));
        insert_in_order(&mut out, es[i]);
        i += 1;
    }
    assert(es@.take(es@.len() as int) =~= es@);
    out
}

fn first_at_or_after(es: &Vec<Ext4Extent>, lb: u32) -> (r: Option<usize>)
    ensures
        match r {
            Some(i) => i < es@.len() && es@[i as int].logical_block >= lb && search::first_index(
                es@,
                extent_tree::starts_at_or_after(lb as int),
                0,
            ) == Some(i as int),
            None => search::first_index(es@, extent_tree::starts_at_or_after(lb as int), 0) is None,
        },
{
    let mut i: usize = 0;
    while i < es.len()
        invariant
            i <= es@.len(),
            search::first_index(es@, extent_tree::starts_at_or_after(lb as int), 0)
                == search::first_index(es@, extent_tree::starts_at_or_after(lb as int), i as int),
        decreases es@.len() - i,
    {
        if es[i].logical_block >= lb {
            return Some(i);
        }
        i += 1;
    }
    None
}

impl Ext4InodeDisk {
    /// Start with an empty extent tree.
    pub fn init_extent_tree(&mut self)
        requires
            old(self)@.uses_extents(),
        ensures
            final(self)@ == old(self)@.with_block(with_empty_tree(old(self)@.block)),
    {
        extent_tree::write_header(&mut self.block, &Ext4ExtentHeader::new_root());
    }

    /// The extent for a logical block.
    pub fn lookup_extent<D: BlockDevice>(
        &self,
        logical_start_block: u32,
        block_device: &D,
        ext4_block_size: usize,
    ) -> (r: Option<Ext4Extent>)
        requires
            whole_tree(self@, block_device.contents(), ext4_block_size as int),
        ensures
            r == root_find(
                self@.block,
                block_device.contents(),
                ext4_block_size as int,
                logical_start_block as int,
            ),
    {
        let header = extent_tree::read_header(&self.block);
        if header.depth > 0 {
            let idxs = extent_tree::read_idxs(&self.block);
            match extent_tree::pick_best(&idxs, logical_start_block) {
                Some(i) => {
                    assert(idxs@[i as int] == idxs_of(self@.block)[i as int]);
                    let child = Ext4ExtentBlock::new(
                        extent_tree::read_node(
                            block_device,
                            idxs[i].physical_leaf_block(),
                            ext4_block_size,
                        ),
                    );
                    child.lookup_extent(logical_start_block, block_device, ext4_block_size)
                },
                None => None,
            }
        } else {
            let extents = extent_tree::read_extents(&self.block);
            extent_tree::scan_extents(&extents, logical_start_block)
        }
    }

    /// Append all extents of the file to `result`.
    pub fn iter_all_extents<D: BlockDevice>(
        &self,
        block_device: &D,
        ext4_block_size: usize,
        result: &mut Vec<Ext4Extent>,
    )
        requires
            whole_tree(self@, block_device.contents(), ext4_block_size as int),
        ensures
            final(result)@ == old(result)@ + extent_tree::all_extents(
                self@.block,
                block_device.contents(),
                ext4_block_size as int,
                header_of(self@.block).depth as nat,
            ),
    {
        let header = extent_tree::read_header(&self.block);
        if header.depth > 0 {
            let idxs = extent_tree::read_idxs(&self.block);
            extent_tree::collect_below(
                &idxs,
                block_device,
                ext4_block_size,
                result,
                Ghost(self@.block),
                Ghost(header.depth as nat),
            );
        } else {
            let mut extents = extent_tree::read_extents(&self.block);
            result.append(&mut extents);
        }
    }

    /// Leave out the extents that start at or behind a block.  An inner root
    /// stays as it is.
    pub fn truncate_extents(&mut self, new_block_count: u64) -> (r: SyscallRet)
        requires
            has_tree(old(self)@),
        ensures
            r == Ok::<usize, Errno>(0),
            final(self)@ == old(self)@.with_block(
                cut_root(old(self)@.block, new_block_count as int),
            ),
    {
        let mut header = extent_tree::read_header(&self.block);
        if header.depth > 0 {
            return Ok(0);
        }
        if new_block_count == 0 {
            header.entries = 0;
            extent_tree::write_header(&mut self.block, &header);
            return Ok(0);
        }
        let extents = extent_tree::read_extents(&self.block);
        let low: u32 = (new_block_count % 0x1_0000_0000) as u32;
        match first_at_or_after(&extents, low) {
            None => {},
            Some(i) => {
                let mut e = extents[i];
                let over: u32 = (e.logical_block - low) % 0x1_0000;
                e.len = ((0x1_0000u32 - over) % 0x1_0000) as u16;
                proof {
                    lemma_negated(low as int, e.logical_block as int);
                }
                header.entries = i as u16;
                extent_tree::write_header(&mut self.block, &header);
                extent_tree::write_extent(&mut self.block, 12 + 12 * i, &e);
            },
        }
        Ok(0)
    }

    /// Map blocks in the first child that starts at or below them, in memory only.
    fn insert_in_child<D: BlockDevice>(
        &self,
        logical_block_num: u32,
        physical_block_num: u64,
        blocks_count: u32,
        device: &D,
        bs: usize,
    ) -> (r: Result<(), &'static str>)
        requires
            self@.block.len() == 60,
            entries_fit(self@.block),
            child_inserted(
                self@.block,
                device.contents(),
                bs as int,
                logical_block_num as int,
                physical_block_num as int,
                blocks_count as int,
            ) is Some,
        ensures
            same_result(
                r,
                child_inserted(
                    self@.block,
                    device.contents(),
                    bs as int,
                    logical_block_num as int,
                    physical_block_num as int,
                    blocks_count as int,
                )->0,
            ),
    {
        let idxs = extent_tree::read_idxs(&self.block);
        match extent_tree::pick_first(&idxs, logical_block_num) {
            Some(i) => {
                assert(idxs@[i as int] == idxs_of(self@.block)[i as int]);
                let mut child = Ext4ExtentBlock::new(
                    extent_tree::read_node(device, idxs[i].physical_leaf_block(), bs),
                );
                child.insert_extent(logical_block_num, physical_block_num, blocks_count)
            },
            None => Err("No valid extent index found"),
        }
    }

    /// Map blocks of the file to blocks of the device.
    pub fn insert_extent<D: BlockDevice>(
        &mut self,
        logical_block_num: u32,
        physical_block_num: u64,
        blocks_count: u32,
        ext4_fs: &mut Ext4FileSystem<D>,
    ) -> (r: Result<(), &'static str>)
        requires
            old(ext4_fs)@.wf(),
            has_tree(old(self)@),
            root_inserted(
                old(ext4_fs)@,
                old(self)@.block,
                logical_block_num as int,
                physical_block_num as int,
                blocks_count as int,
            ) is Some,
        ensures
            final(ext4_fs)@.wf(),
            fs::same_shape(old(ext4_fs)@, final(ext4_fs)@),
            ({
                let t = root_inserted(
                    old(ext4_fs)@,
                    old(self)@.block,
                    logical_block_num as int,
                    physical_block_num as int,
                    blocks_count as int,
                )->0;
                &&& final(ext4_fs)@ == t.0
                &&& final(self)@ == old(self)@.with_block(t.1)
                &&& same_result(r, t.2)
            }),
    {
        let bs: usize = ext4_fs.block_size();
        let header = extent_tree::read_header(&self.block);
        if header.depth > 0 {
            return self.insert_in_child(
                logical_block_num,
                physical_block_num,
                blocks_count,
                &ext4_fs.block_device,
                bs,
            );
        }
        let mut extents = extent_tree::read_extents(&self.block);
        match extent_tree::find_join(&extents, logical_block_num, physical_block_num) {
            Some(i) => {
                extent_tree::grow(&mut extents, i, blocks_count);
                extent_tree::write_extents(&mut self.block, &extents);
                return Ok(());
            },
            None => {},
        }
        if header.entries == header.max {
            self.split_leaf_block(ext4_fs);
            return self.insert_in_child(
                logical_block_num,
                physical_block_num,
                blocks_count,
                &ext4_fs.block_device,
                bs,
            );
        }
        extents.push(
            Ext4Extent::new(
                logical_block_num,
                (blocks_count % 0x1_0000) as u16,
                physical_block_num,
            ),
        );
        let ordered = sort_extents(&extents);
        proof {
            lemma_sorted_len(extents@);
        }
        extent_tree::write_extents(&mut self.block, &ordered);
        Ok(())
    }

    /// Move the extents of a full root to two new leaf blocks.
    fn split_leaf_block<D: BlockDevice>(&mut self, ext4_fs: &mut Ext4FileSystem<D>)
        requires
            old(ext4_fs)@.wf(),
            has_tree(old(self)@),
            header_of(old(self)@.block).depth == 0,
            split_root(old(ext4_fs)@, old(self)@.block) is Some,
        ensures
            final(ext4_fs)@.wf(),
            fs::same_shape(old(ext4_fs)@, final(ext4_fs)@),
            ({
                let t = split_root(old(ext4_fs)@, old(self)@.block)->0;
                &&& final(ext4_fs)@ == t.0
                &&& final(self)@ == old(self)@.with_block(t.1)
                &&& entries_fit(final(self)@.block)
            }),
    {
        let bs: usize = ext4_fs.block_size();
        let left: u64 = ext4_fs.alloc_one_block();
        let right: u64 = ext4_fs.alloc_one_block();
        let extents = extent_tree::read_extents(&self.block);
        let ghost es = extents@;
        let mut left_part: Vec<Ext4Extent> = Vec::new();
        left_part.push(extents[0]);
        left_part.push(extents[1]);
        let mut right_part: Vec<Ext4Extent> = Vec::new();
        right_part.push(extents[2]);
        right_part.push(extents[3]);
        assert(left_part@ =~= es.take(2));
        assert(right_part@ =~= es.skip(2));
        write_leaf(&mut ext4_fs.block_device, left, &left_part, bs);
        write_leaf(&mut ext4_fs.block_device, right, &right_part, bs);
        self.set_two_children(
            Ext4ExtentIdx::new(extents[0].logical_block, left),
            Ext4ExtentIdx::new(extents[2].logical_block, right),
        );
    }

    fn set_two_children(&mut self, left: Ext4ExtentIdx, right: Ext4ExtentIdx)
        requires
            has_tree(old(self)@),
            header_of(old(self)@.block).depth == 0,
        ensures
            final(self)@ == old(self)@.with_block(
                with_two_children(old(self)@.block, left, right),
            ),
            entries_fit(final(self)@.block),
    {
        let mut header = extent_tree::read_header(&self.block);
        header.entries = 2;
        header.depth = header.depth + 1;
        extent_tree::write_header(&mut self.block, &header);
        extent_tree::write_idx(&mut self.block, 12, &left);
        extent_tree::write_idx(&mut self.block, 24, &right);
        proof {
            lemma_header_stays(old(self)@.block, header, left, right);
        }
    }
}

proof fn lemma_header_stays(
    b: Seq<u8>,
    h: Ext4ExtentHeader,
    left: Ext4ExtentIdx,
    right: Ext4ExtentIdx,
)
    requires
        b.len() == 60,
    ensures
        header_of(
            bytes::splice(
                bytes::splice(bytes::splice(b, 0, enc_header(h)), 12, enc_idx(left)),
                24,
                enc_idx(right),
            ),
        ) == h,
{
    let b1 = bytes::splice(b, 0, enc_header(h));
    let b3 = bytes::splice(bytes::splice(b1, 12, enc_idx(left)), 24, enc_idx(right));
    bytes::lemma_splice_stands(b, 0, enc_header(h));
    assert forall|k: int| 0 <= k < enc_header(h).len() implies b3[0 + k] == #[trigger] enc_header(
        h,
    )[k] by {
        assert(b1[0 + k] == enc_header(h)[k]);
    }
    assert(bytes::stands_at(b3, 0, enc_header(h)));
    extent_tree::lemma_decode_header(b3, h);
}

/// Make a block a leaf with these extents.
fn write_leaf<D: BlockDevice>(device: &mut D, block: u64, extents: &Vec<Ext4Extent>, bs: usize)
    requires
        node_on(old(device).contents(), bs as int, block as int),
        bs <= 4096,
        extents@.len() <= 4,
    ensures
        final(device).contents() == io::put_block(
            old(device).contents(),
            bs as int,
            block as int,
            extent_tree::leaf_block(extents@),
        ),
{
    let mut leaf = Ext4ExtentBlock::new(extent_tree::read_node(device, block, bs));
    leaf.init_as_leaf(extents);
    io::write_ext4_block(device, block, &leaf.into_block(), bs);
}

/// An executable result says the same as its model.
pub open spec fn same_result(r: Result<(), &'static str>, m: Result<(), Seq<char>>) -> bool {
    match m {
        Ok(_) => r is Ok,
        Err(e) => r is Err && r->Err_0@ == e,
    }
}

proof fn lemma_negated(low: int, start: int)
    requires
        0 <= low <= start <= u32::MAX,
    ensures
        (0x1_0000 - (start - low) % 0x1_0000) % 0x1_0000 == (low - start) % 0x1_0000,
{
}

/// A root that was given two children refers to these, one level above the
/// leaves.
#[verifier::rlimit(40)]
pub proof fn law_two_children(block: Seq<u8>, left: Ext4ExtentIdx, right: Ext4ExtentIdx)
    requires
        block.len() == 60,
        header_of(block).depth == 0,
    ensures
        ({
            let b = with_two_children(block, left, right);
            &&& b.len() == 60
            &&& header_of(b) == (Ext4ExtentHeader { entries: 2, depth: 1, ..header_of(block) })
            &&& idxs_of(b) == seq![left, right]
        }),
{
    let h = header_of(block);
    let higher = Ext4ExtentHeader { entries: 2, depth: (h.depth + 1) as u16, ..h };
    lemma_header_stays(block, higher, left, right);
    let b1 = bytes::splice(block, 0, enc_header(higher));
    let b2 = bytes::splice(b1, 12, enc_idx(left));
    let b = with_two_children(block, left, right);
    bytes::lemma_splice_stands(b1, 12, enc_idx(left));
    bytes::lemma_splice_stands(b2, 24, enc_idx(right));
    assert(bytes::stands_at(b, 12, enc_idx(left))) by {
        assert forall|k: int| 0 <= k < enc_idx(left).len() implies b[12 + k]
            == #[trigger] enc_idx(left)[k] by {
            assert(b2[12 + k] == enc_idx(left)[k]);
        }
    }
    extent_tree::lemma_decode_idx(b, 12, left);
    extent_tree::lemma_decode_idx(b, 24, right);
    assert(idxs_of(b) =~= seq![left, right]);
}

/// Below an inner root an extent has no place exactly where every child begins
/// behind it.
pub proof fn law_no_child_for_an_extent(
    block: Seq<u8>,
    disk: Seq<u8>,
    bs: int,
    lb: int,
    pb: int,
    count: int,
)
    ensures
        child_inserted(block, disk, bs, lb, pb, count) matches Some(r) ==> (r is Err <==> forall|i: int|
            0 <= i < idxs_of(block).len() ==> (#[trigger] idxs_of(block)[i]).block > lb),
{
    let xs = idxs_of(block);
    search::lemma_first_index(xs, extent_tree::starts_below(lb), 0);
    match search::first_index(xs, extent_tree::starts_below(lb), 0) {
        Some(i) => {
            assert(extent_tree::starts_below(lb)(xs[i]));
        },
        None => {
            assert forall|i: int| 0 <= i < xs.len() implies (#[trigger] xs[i]).block > lb by {
                assert(!extent_tree::starts_below(lb)(xs[i]));
            }
        },
    }
}

} // verus!
