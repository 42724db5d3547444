//! Extent trees: how a file's logical blocks map to blocks of the device.
//!
//! A node holds a 12-byte header and entries of 12 bytes each: extents in a
//! leaf (depth 0), indices of child blocks elsewhere.
use vstd::prelude::*;
use crate::bytes;
use crate::fs::dev::block_dev::BlockDevice;
use crate::search;

verus! {

/// Magic number of a node header.
pub const EXTENT_MAGIC: u16 = 0xF30A;

/// Bytes read for a node that is stored in a block of its own.
pub const NODE_SIZE: usize = 4096;

/// Header of a node.
#[derive(Debug, Clone, Copy, PartialEq, Eq, Structural)]
pub struct Ext4ExtentHeader {
    pub magic: u16,
    /// Number of entries.
    pub entries: u16,
    /// Room for so many entries.
    pub max: u16,
    /// Distance from the leaves.
    pub depth: u16,
    pub generation: u32,
}

impl Ext4ExtentHeader {
    /// Header of an empty tree inside an inode, which has room for four entries.
    #[verifier::allow_in_spec]
    pub fn new_root() -> Self
        returns
            (Ext4ExtentHeader { magic: 0xF30A, entries: 0, max: 4, depth: 0, generation: 0 }),
    {
        Ext4ExtentHeader { magic: 0xF30A, entries: 0, max: 4, depth: 0, generation: 0 }
    }
}

/// A run of consecutive blocks.
#[derive(Debug, Clone, Copy, PartialEq, Eq, Structural)]
pub struct Ext4Extent {
    /// First logical block.
    pub logical_block: u32,
    /// Number of blocks.
    pub len: u16,
    /// Upper 16 bits of the first block on the device.
    pub start_hi: u16,
    /// Lower 32 bits of the first block on the device.
    pub start_lo: u32,
}

/// Refers to a child node.
#[derive(Debug, Clone, Copy, PartialEq, Eq, Structural)]
pub struct Ext4ExtentIdx {
    /// First logical block below the child.
    pub block: u32,
    /// Lower 32 bits of the child's block number.
    pub leaf_lo: u32,
    /// Upper 16 bits of the child's block number.
    pub leaf_hi: u16,
    pub unused: u16,
}

/// The extent that maps `len` blocks from `logical` on to blocks from
/// `physical` on; block numbers have 48 bits.
pub open spec fn extent_of(logical: int, len: int, physical: int) -> Ext4Extent {
    Ext4Extent {
        logical_block: logical as u32,
        len: len as u16,
        start_hi: (physical / 0x1_0000_0000 % 0x1_0000) as u16,
        start_lo: (physical % 0x1_0000_0000) as u32,
    }
}

/// The index entry for a child node at block `leaf`.
pub open spec fn idx_of(block: int, leaf: int) -> Ext4ExtentIdx {
    Ext4ExtentIdx {
        block: block as u32,
        leaf_lo: (leaf % 0x1_0000_0000) as u32,
        leaf_hi: (leaf / 0x1_0000_0000 % 0x1_0000) as u16,
        unused: 0,
    }
}

impl Ext4Extent {
    pub fn new(logical_block: u32, len: u16, physical: u64) -> (r: Self)
        ensures
            r == extent_of(logical_block as int, len as int, physical as int),
    {
        Ext4Extent {
            logical_block,
            len,
            start_hi: (physical / 0x1_0000_0000 % 0x1_0000) as u16,
            start_lo: (physical % 0x1_0000_0000) as u32,
        }
    }

    /// First block on the device.
    pub open spec fn phys(self) -> int {
        self.start_hi * 0x1_0000_0000 + self.start_lo
    }

    /// First block on the device.
    pub fn physical_start_block(&self) -> (r: u64)
        ensures
            r == self.phys(),
            r < 0x1_0000_0000_0000,
    {
        self.start_hi as u64 * 0x1_0000_0000 + self.start_lo as u64
    }

    /// Logical block `lb` lies in the extent.
    pub open spec fn maps(self, lb: int) -> bool {
        self.logical_block <= lb < self.logical_block + self.len
    }

    /// The block on the device for logical block `lb`.
    pub open spec fn target(self, lb: int) -> int {
        self.phys() + lb - self.logical_block
    }
}

impl Ext4ExtentIdx {
    pub fn new(block: u32, leaf: u64) -> (r: Self)
        ensures
            r == idx_of(block as int, leaf as int),
    {
        Ext4ExtentIdx {
            block,
            leaf_lo: (leaf % 0x1_0000_0000) as u32,
            leaf_hi: (leaf / 0x1_0000_0000 % 0x1_0000) as u16,
            unused: 0,
        }
    }

    /// Block number of the child.
    pub open spec fn leaf(self) -> int {
        self.leaf_hi * 0x1_0000_0000 + self.leaf_lo
    }

    /// Block number of the child.
    pub fn physical_leaf_block(&self) -> (r: u64)
        ensures
            r == self.leaf(),
            r < 0x1_0000_0000_0000,
    {
        self.leaf_hi as u64 * 0x1_0000_0000 + self.leaf_lo as u64
    }
}

/// A block number of 48 bits survives being stored in an extent.
pub proof fn law_extent_round_trip(logical: int, len: int, physical: int)
    requires
        0 <= logical <= u32::MAX,
        0 <= len <= u16::MAX,
        0 <= physical < 0x1_0000_0000_0000,
    ensures
        extent_of(logical, len, physical).phys() == physical,
        idx_of(logical, physical).leaf() == physical,
{
}

// ---------------------------------------------------------------------------
// Nodes as bytes
// ---------------------------------------------------------------------------

pub open spec fn enc_header(h: Ext4ExtentHeader) -> Seq<u8> {
    bytes::enc16(h.magic as int) + bytes::enc16(h.entries as int) + bytes::enc16(h.max as int)
        + bytes::enc16(h.depth as int) + bytes::enc32(h.generation as int)
}

pub open spec fn enc_extent(e: Ext4Extent) -> Seq<u8> {
    bytes::enc32(e.logical_block as int) + bytes::enc16(e.len as int) + bytes::enc16(
        e.start_hi as int,
    ) + bytes::enc32(e.start_lo as int)
}

pub open spec fn enc_idx(x: Ext4ExtentIdx) -> Seq<u8> {
    bytes::enc32(x.block as int) + bytes::enc32(x.leaf_lo as int) + bytes::enc16(x.leaf_hi as int)
        + bytes::enc16(x.unused as int)
}

/// The encodings of several extents, one after the other.
pub open spec fn enc_extents(es: Seq<Ext4Extent>) -> Seq<u8>
    decreases es.len(),
{
    if es.len() == 0 {
        seq![]
    } else {
        enc_extents(es.drop_last()) + enc_extent(es.last())
    }
}

/// The header of node `b`.
pub open spec fn header_of(b: Seq<u8>) -> Ext4ExtentHeader {
    Ext4ExtentHeader {
        magic: bytes::le16(b, 0) as u16,
        entries: bytes::le16(b, 2) as u16,
        max: bytes::le16(b, 4) as u16,
        depth: bytes::le16(b, 6) as u16,
        generation: bytes::le32(b, 8) as u32,
    }
}

/// The extent stored at byte `at`.
pub open spec fn extent_at(b: Seq<u8>, at: int) -> Ext4Extent {
    Ext4Extent {
        logical_block: bytes::le32(b, at) as u32,
        len: bytes::le16(b, at + 4) as u16,
        start_hi: bytes::le16(b, at + 6) as u16,
        start_lo: bytes::le32(b, at + 8) as u32,
    }
}

/// The index entry stored at byte `at`.
pub open spec fn idx_at(b: Seq<u8>, at: int) -> Ext4ExtentIdx {
    Ext4ExtentIdx {
        block: bytes::le32(b, at) as u32,
        leaf_lo: bytes::le32(b, at + 4) as u32,
        leaf_hi: bytes::le16(b, at + 8) as u16,
        unused: bytes::le16(b, at + 10) as u16,
    }
}

/// The entries of node `b` lie inside it.
pub open spec fn entries_fit(b: Seq<u8>) -> bool {
    12 <= b.len() && 12 + 12 * header_of(b).entries <= b.len()
}

/// The extents of a leaf.
pub open spec fn extents_of(b: Seq<u8>) -> Seq<Ext4Extent> {
    Seq::new(header_of(b).entries as nat, |i: int| extent_at(b, 12 + 12 * i))
}

/// The index entries of an inner node.
pub open spec fn idxs_of(b: Seq<u8>) -> Seq<Ext4ExtentIdx> {
    Seq::new(header_of(b).entries as nat, |i: int| idx_at(b, 12 + 12 * i))
}

/// Node `b` once it holds the extents `es` instead of its own.
pub open spec fn with_extents(b: Seq<u8>, es: Seq<Ext4Extent>) -> Seq<u8> {
    bytes::splice(bytes::splice(b, 2, bytes::enc16(es.len() as int)), 12, enc_extents(es))
}

pub fn read_header(b: &[u8]) -> (r: Ext4ExtentHeader)
    requires
        b@.len() >= 12,
    ensures
        r == header_of(b@),
{
    Ext4ExtentHeader {
        magic: bytes::get_u16(b, 0),
        entries: bytes::get_u16(b, 2),
        max: bytes::get_u16(b, 4),
        depth: bytes::get_u16(b, 6),
        generation: bytes::get_u32(b, 8),
    }
}

pub fn read_extent(b: &[u8], at: usize) -> (r: Ext4Extent)
    requires
        at + 12 <= b@.len(),
    ensures
        r == extent_at(b@, at as int),
{
    let _len: usize = b.len();
    Ext4Extent {
        logical_block: bytes::get_u32(b, at),
        len: bytes::get_u16(b, at + 4),
        start_hi: bytes::get_u16(b, at + 6),
        start_lo: bytes::get_u32(b, at + 8),
    }
}

pub fn read_idx(b: &[u8], at: usize) -> (r: Ext4ExtentIdx)
    requires
        at + 12 <= b@.len(),
    ensures
        r == idx_at(b@, at as int),
{
    let _len: usize = b.len();
    Ext4ExtentIdx {
        block: bytes::get_u32(b, at),
        leaf_lo: bytes::get_u32(b, at + 4),
        leaf_hi: bytes::get_u16(b, at + 8),
        unused: bytes::get_u16(b, at + 10),
    }
}

/// The extents of a leaf.
pub fn read_extents(b: &[u8]) -> (r: Vec<Ext4Extent>)
    requires
        entries_fit(b@),
    ensures
        r@ == extents_of(b@),
{
    let n: usize = read_header(b).entries as usize;
    let mut out: Vec<Ext4Extent> = Vec::new();
    let mut i: usize = 0;
    while i < n
        invariant
            i <= n,
            n == header_of(b@).entries,
            entries_fit(b@),
            out@ == extents_of(b@).take(i as int),
        decreases n - i,
    {
        out.push(read_extent(b, 12 + 12 * i));
        assert(out@ =~= extents_of(b@).take(i + 1));
        i += 1;
    }
    assert(out@ =~= extents_of(b@));
    out
}

/// The index entries of an inner node.
pub fn read_idxs(b: &[u8]) -> (r: Vec<Ext4ExtentIdx>)
    requires
        entries_fit(b@),
    ensures
        r@ == idxs_of(b@),
{
    let n: usize = read_header(b).entries as usize;
    let mut out: Vec<Ext4ExtentIdx> = Vec::new();
    let mut i: usize = 0;
    while i < n
        invariant
            i <= n,
            n == header_of(b@).entries,
            entries_fit(b@),
            out@ == idxs_of(b@).take(i as int),
        decreases n - i,
    {
        out.push(read_idx(b, 12 + 12 * i));
        assert(out@ =~= idxs_of(b@).take(i + 1));
        i += 1;
    }
    assert(out@ =~= idxs_of(b@));
    out
}

pub fn write_header(b: &mut [u8], h: &Ext4ExtentHeader)
    requires
        old(b)@.len() >= 12,
    ensures
        final(b)@ == bytes::splice(old(b)@, 0, enc_header(*h)),
{
    bytes::put_u16(b, 0, h.magic);
    bytes::put_u16(b, 2, h.entries);
    bytes::put_u16(b, 4, h.max);
    bytes::put_u16(b, 6, h.depth);
    bytes::put_u32(b, 8, h.generation);
    proof {
        let s = old(b)@;
        let e0 = bytes::enc16(h.magic as int);
        let e1 = bytes::enc16(h.entries as int);
        let e2 = bytes::enc16(h.max as int);
        let e3 = bytes::enc16(h.depth as int);
        let e4 = bytes::enc32(h.generation as int);
        bytes::lemma_splice_join(s, 0, e0, e1);
        bytes::lemma_splice_join(s, 0, e0 + e1, e2);
        bytes::lemma_splice_join(s, 0, e0 + e1 + e2, e3);
        bytes::lemma_splice_join(s, 0, e0 + e1 + e2 + e3, e4);
    }
}

pub fn write_extent(b: &mut [u8], at: usize, e: &Ext4Extent)
    requires
        at + 12 <= old(b)@.len(),
    ensures
        final(b)@ == bytes::splice(old(b)@, at as int, enc_extent(*e)),
{
    let _len: usize = b.len();
    bytes::put_u32(b, at, e.logical_block);
    bytes::put_u16(b, at + 4, e.len);
    bytes::put_u16(b, at + 6, e.start_hi);
    bytes::put_u32(b, at + 8, e.start_lo);
    proof {
        let s = old(b)@;
        let e0 = bytes::enc32(e.logical_block as int);
        let e1 = bytes::enc16(e.len as int);
        let e2 = bytes::enc16(e.start_hi as int);
        let e3 = bytes::enc32(e.start_lo as int);
        bytes::lemma_splice_join(s, at as int, e0, e1);
        bytes::lemma_splice_join(s, at as int, e0 + e1, e2);
        bytes::lemma_splice_join(s, at as int, e0 + e1 + e2, e3);
    }
}

pub fn write_idx(b: &mut [u8], at: usize, x: &Ext4ExtentIdx)
    requires
        at + 12 <= old(b)@.len(),
    ensures
        final(b)@ == bytes::splice(old(b)@, at as int, enc_idx(*x)),
{
    let _len: usize = b.len();
    bytes::put_u32(b, at, x.block);
    bytes::put_u32(b, at + 4, x.leaf_lo);
    bytes::put_u16(b, at + 8, x.leaf_hi);
    bytes::put_u16(b, at + 10, x.unused);
    proof {
        let s = old(b)@;
        let e0 = bytes::enc32(x.block as int);
        let e1 = bytes::enc32(x.leaf_lo as int);
        let e2 = bytes::enc16(x.leaf_hi as int);
        let e3 = bytes::enc16(x.unused as int);
        bytes::lemma_splice_join(s, at as int, e0, e1);
        bytes::lemma_splice_join(s, at as int, e0 + e1, e2);
        bytes::lemma_splice_join(s, at as int, e0 + e1 + e2, e3);
    }
}

pub proof fn lemma_enc_extents_len(es: Seq<Ext4Extent>)
    ensures
        enc_extents(es).len() == 12 * es.len(),
    decreases es.len(),
{
    if es.len() > 0 {
        lemma_enc_extents_len(es.drop_last());
    }
}

/// Store extents in a node.
pub fn write_extents(b: &mut [u8], es: &Vec<Ext4Extent>)
    requires
        12 + 12 * es@.len() <= old(b)@.len(),
        es@.len() <= u16::MAX,
    ensures
        final(b)@ == with_extents(old(b)@, es@),
{
    bytes::put_u16(b, 2, es.len() as u16);
    let ghost s = b@;
    let len: usize = b.len();
    let mut i: usize = 0;
    assert(b@ =~= bytes::splice(s, 12, enc_extents(es@.take(0))));
    while i < es.len()
        invariant
            i <= es@.len(),
            len == b@.len(),
            b@.len() == s.len(),
            12 + 12 * es@.len() <= s.len(),
            b@ == bytes::splice(s, 12, enc_extents(es@.take(i as int))),
        decreases es@.len() - i,
    {
        write_extent(b, 12 + 12 * i, &es[i]);
        proof {
            lemma_enc_extents_len(es@.take(i as int));
            assert(es@.take(i + 1).drop_last() =~= es@.take(i as int));
            bytes::lemma_splice_join(
                s,
                12,
                enc_extents(es@.take(i as int)),
                enc_extent(es@[i as int]),
            );
        }
        i += 1;
    }
    assert(es@.take(es@.len() as int) =~= es@);
}

// ---------------------------------------------------------------------------
// Reading back what was stored
// ---------------------------------------------------------------------------

pub proof fn lemma_decode_extent(b: Seq<u8>, at: int, e: Ext4Extent)
    requires
        bytes::stands_at(b, at, enc_extent(e)),
    ensures
        extent_at(b, at) == e,
{
    let e0 = bytes::enc32(e.logical_block as int);
    let e1 = bytes::enc16(e.len as int);
    let e2 = bytes::enc16(e.start_hi as int);
    let e3 = bytes::enc32(e.start_lo as int);
    bytes::lemma_stands_parts(b, at, e0 + e1 + e2, e3);
    bytes::lemma_stands_parts(b, at, e0 + e1, e2);
    bytes::lemma_stands_parts(b, at, e0, e1);
    bytes::lemma_decode(b, at, e.logical_block as int);
    bytes::lemma_decode(b, at + 4, e.len as int);
    bytes::lemma_decode(b, at + 6, e.start_hi as int);
    bytes::lemma_decode(b, at + 8, e.start_lo as int);
}

pub proof fn lemma_decode_idx(b: Seq<u8>, at: int, x: Ext4ExtentIdx)
    requires
        bytes::stands_at(b, at, enc_idx(x)),
    ensures
        idx_at(b, at) == x,
{
    let e0 = bytes::enc32(x.block as int);
    let e1 = bytes::enc32(x.leaf_lo as int);
    let e2 = bytes::enc16(x.leaf_hi as int);
    let e3 = bytes::enc16(x.unused as int);
    bytes::lemma_stands_parts(b, at, e0 + e1 + e2, e3);
    bytes::lemma_stands_parts(b, at, e0 + e1, e2);
    bytes::lemma_stands_parts(b, at, e0, e1);
    bytes::lemma_decode(b, at, x.block as int);
    bytes::lemma_decode(b, at + 4, x.leaf_lo as int);
    bytes::lemma_decode(b, at + 8, x.leaf_hi as int);
    bytes::lemma_decode(b, at + 10, x.unused as int);
}

pub proof fn lemma_decode_header(b: Seq<u8>, h: Ext4ExtentHeader)
    requires
        bytes::stands_at(b, 0, enc_header(h)),
    ensures
        header_of(b) == h,
{
    let e0 = bytes::enc16(h.magic as int);
    let e1 = bytes::enc16(h.entries as int);
    let e2 = bytes::enc16(h.max as int);
    let e3 = bytes::enc16(h.depth as int);
    let e4 = bytes::enc32(h.generation as int);
    bytes::lemma_stands_parts(b, 0, e0 + e1 + e2 + e3, e4);
    bytes::lemma_stands_parts(b, 0, e0 + e1 + e2, e3);
    bytes::lemma_stands_parts(b, 0, e0 + e1, e2);
    bytes::lemma_stands_parts(b, 0, e0, e1);
    bytes::lemma_decode(b, 0, h.magic as int);
    bytes::lemma_decode(b, 2, h.entries as int);
    bytes::lemma_decode(b, 4, h.max as int);
    bytes::lemma_decode(b, 6, h.depth as int);
    bytes::lemma_decode(b, 8, h.generation as int);
}

proof fn lemma_extents_stand(b: Seq<u8>, at: int, es: Seq<Ext4Extent>, i: int)
    requires
        bytes::stands_at(b, at, enc_extents(es)),
        0 <= i < es.len(),
    ensures
        extent_at(b, at + 12 * i) == es[i],
    decreases es.len(),
{
    let init = es.drop_last();
    lemma_enc_extents_len(init);
    bytes::lemma_stands_parts(b, at, enc_extents(init), enc_extent(es.last()));
    if i < es.len() - 1 {
        lemma_extents_stand(b, at, init, i);
    } else {
        lemma_decode_extent(b, at + 12 * i, es.last());
    }
}

/// The extents that were stored in a node are those that are read from it; the
/// rest of the header stays.
pub proof fn law_stored_extents_are_read(b: Seq<u8>, es: Seq<Ext4Extent>)
    requires
        12 + 12 * es.len() <= b.len(),
        es.len() <= u16::MAX,
    ensures
        extents_of(with_extents(b, es)) == es,
        header_of(with_extents(b, es)) == (Ext4ExtentHeader {
            entries: es.len() as u16,
            ..header_of(b)
        }),
        with_extents(b, es).len() == b.len(),
{
    let s1 = bytes::splice(b, 2, bytes::enc16(es.len() as int));
    let n = with_extents(b, es);
    lemma_enc_extents_len(es);
    bytes::lemma_splice_stands(s1, 12, enc_extents(es));
    bytes::lemma_splice_stands(b, 2, bytes::enc16(es.len() as int));
    assert forall|k: int| 0 <= k < 2 implies n[2 + k] == #[trigger] s1[2 + k] by {}
    bytes::lemma_same_int(n, s1, 2, 2, 2);
    bytes::lemma_decode(s1, 2, es.len() as int);
    assert forall|k: int| 0 <= k < 2 implies n[0 + k] == #[trigger] b[0 + k] by {}
    bytes::lemma_same_int(n, b, 0, 0, 2);
    assert forall|k: int| 0 <= k < 2 implies n[4 + k] == #[trigger] b[4 + k] by {}
    bytes::lemma_same_int(n, b, 4, 4, 2);
    assert forall|k: int| 0 <= k < 2 implies n[6 + k] == #[trigger] b[6 + k] by {}
    bytes::lemma_same_int(n, b, 6, 6, 2);
    assert forall|k: int| 0 <= k < 4 implies n[8 + k] == #[trigger] b[8 + k] by {}
    bytes::lemma_same_int(n, b, 8, 8, 4);
    assert forall|i: int| 0 <= i < es.len() implies extent_at(n, 12 + 12 * i) == es[i] by {
        lemma_extents_stand(n, 12, es, i);
    }
    assert(extents_of(n) =~= es);
}

// ---------------------------------------------------------------------------
// Trees on a device
// ---------------------------------------------------------------------------

/// The node in block `block` of a device with block size `bs`.
pub open spec fn node_at(disk: Seq<u8>, bs: int, block: int) -> Seq<u8> {
    disk.subrange(block * bs, block * bs + 4096)
}

/// The node in block `block` lies on the device.
pub open spec fn node_on(disk: Seq<u8>, bs: int, block: int) -> bool {
    0 <= block * bs && block * bs + 4096 <= disk.len()
}

/// Node `b` has depth `d`, its entries fit, and every child of an inner node
/// lies on the device and heads a tree of lesser depth.
pub open spec fn tree_ok(b: Seq<u8>, disk: Seq<u8>, bs: int, d: nat) -> bool
    decreases d,
{
    &&& entries_fit(b)
    &&& header_of(b).depth == d
    &&& d > 0 ==> forall|i: int|
        0 <= i < idxs_of(b).len() ==> {
            let leaf = (#[trigger] idxs_of(b)[i]).leaf();
            let child = node_at(disk, bs, leaf);
            &&& node_on(disk, bs, leaf)
            &&& header_of(child).depth < d
            &&& tree_ok(child, disk, bs, header_of(child).depth as nat)
        }
}

/// "Contains logical block `lb`", as a predicate on extents.
pub open spec fn mapping(lb: int) -> spec_fn(Ext4Extent) -> bool {
    |e: Ext4Extent| e.maps(lb)
}

/// "Starts at or below `lb`", as a predicate on index entries.
pub open spec fn starts_below(lb: int) -> spec_fn(Ext4ExtentIdx) -> bool {
    |x: Ext4ExtentIdx| x.block <= lb
}

/// The index entry with the largest start at or below `lb`; the last one of
/// several.
pub open spec fn best_idx(xs: Seq<Ext4ExtentIdx>, lb: int) -> Option<int>
    decreases xs.len(),
{
    if xs.len() == 0 {
        None
    } else {
        let rest = best_idx(xs.drop_last(), lb);
        if xs.last().block <= lb && (rest is None || xs.last().block >= xs[rest->0].block) {
            Some(xs.len() - 1)
        } else {
            rest
        }
    }
}

/// The extent for logical block `lb` below node `b` of depth `d`.
pub open spec fn find_extent(b: Seq<u8>, disk: Seq<u8>, bs: int, lb: int, d: nat) -> Option<
    Ext4Extent,
>
    decreases d,
{
    if d == 0 {
        match search::first_index(extents_of(b), mapping(lb), 0) {
            Some(i) => Some(extents_of(b)[i]),
            None => None,
        }
    } else {
        match best_idx(idxs_of(b), lb) {
            None => None,
            Some(i) => {
                let child = node_at(disk, bs, idxs_of(b)[i].leaf());
                if header_of(child).depth < d {
                    find_extent(child, disk, bs, lb, header_of(child).depth as nat)
                } else {
                    None
                }
            },
        }
    }
}

/// An extent that is found contains the block that was asked for.
pub proof fn lemma_find_extent(b: Seq<u8>, disk: Seq<u8>, bs: int, lb: int, d: nat)
    ensures
        match find_extent(b, disk, bs, lb, d) {
            Some(e) => e.maps(lb),
            None => true,
        },
    decreases d,
{
    if d == 0 {
        search::lemma_first_index(extents_of(b), mapping(lb), 0);
    } else {
        match best_idx(idxs_of(b), lb) {
            None => {},
            Some(i) => {
                let child = node_at(disk, bs, idxs_of(b)[i].leaf());
                if header_of(child).depth < d {
                    lemma_find_extent(child, disk, bs, lb, header_of(child).depth as nat);
                }
            },
        }
    }
}

/// All extents below node `b` of depth `d`, in tree order.
pub open spec fn all_extents(b: Seq<u8>, disk: Seq<u8>, bs: int, d: nat) -> Seq<Ext4Extent>
    decreases d, header_of(b).entries + 1,
{
    if d == 0 {
        extents_of(b)
    } else {
        extents_below(b, disk, bs, d, header_of(b).entries as nat)
    }
}

/// All extents below the first `n` children of node `b`.
pub open spec fn extents_below(b: Seq<u8>, disk: Seq<u8>, bs: int, d: nat, n: nat) -> Seq<
    Ext4Extent,
>
    decreases d, n,
{
    if n == 0 {
        seq![]
    } else {
        let child = node_at(disk, bs, idxs_of(b)[n - 1].leaf());
        extents_below(b, disk, bs, d, (n - 1) as nat) + (if header_of(child).depth < d {
            all_extents(child, disk, bs, header_of(child).depth as nat)
        } else {
            seq![]
        })
    }
}

/// Read the node in block `block`.
pub fn read_node<D: BlockDevice>(device: &D, block: u64, bs: usize) -> (r: Vec<u8>)
    requires
        node_on(device.contents(), bs as int, block as int),
    ensures
        r@ == node_at(device.contents(), bs as int, block as int),
        r@.len() == 4096,
{
    let _size: usize = device.size();
    let mut buf: Vec<u8> = vec![0u8;NODE_SIZE];
    let offset: usize = byte_offset(block, bs, _size);
    device.read(offset, buf.as_mut_slice());
    buf
}

/// Byte offset of a block that lies below `limit`.
pub fn byte_offset(block: u64, bs: usize, limit: usize) -> (r: usize)
    requires
        block * bs <= limit,
    ensures
        r == block * bs,
{
    if bs == 0 {
        return 0;
    }
    assert(block <= limit) by (nonlinear_arith)
        requires
            block * bs <= limit,
            bs >= 1,
    ;
    let b: usize = block as usize;
    b * bs
}

/// Position of the index entry with the largest start at or below `lb`.
pub fn pick_best(xs: &Vec<Ext4ExtentIdx>, lb: u32) -> (r: Option<usize>)
    ensures
        match r {
            Some(i) => best_idx(xs@, lb as int) == Some(i as int) && i < xs@.len(),
            None => best_idx(xs@, lb as int) is None,
        },
{
    let mut best: Option<usize> = None;
    let mut i: usize = 0;
    while i < xs.len()
        invariant
            i <= xs@.len(),
            match best {
                Some(k) => best_idx(xs@.take(i as int), lb as int) == Some(k as int) && k < i,
                None => best_idx(xs@.take(i as int), lb as int) is None,
            },
        decreases xs@.len() - i,
    {
        assert(xs@.take(i + 1).drop_last() =~= xs@.take(i as int));
        if xs[i].block <= lb {
            match best {
                None => {
                    best = Some(i);
                },
                Some(k) => {
                    if xs[i].block >= xs[k].block {
                        best = Some(i);
                    }
                },
            }
        }
        i += 1;
    }
    assert(xs@.take(xs@.len() as int) =~= xs@);
    best
}

/// Position of the first index entry that starts at or below `lb`.
pub fn pick_first(xs: &Vec<Ext4ExtentIdx>, lb: u32) -> (r: Option<usize>)
    ensures
        match r {
            Some(i) => search::first_index(xs@, starts_below(lb as int), 0) == Some(i as int) && i
                < xs@.len(),
            None => search::first_index(xs@, starts_below(lb as int), 0) is None,
        },
{
    let mut i: usize = 0;
    while i < xs.len()
        invariant
            i <= xs@.len(),
            search::first_index(xs@, starts_below(lb as int), 0) == search::first_index(
                xs@,
                starts_below(lb as int),
                i as int,
            ),
        decreases xs@.len() - i,
    {
        if xs[i].block <= lb {
            return Some(i);
        }
        i += 1;
    }
    None
}

/// The first of several extents that contains logical block `lb`.
pub fn scan_extents(es: &Vec<Ext4Extent>, lb: u32) -> (r: Option<Ext4Extent>)
    ensures
        r == (match search::first_index(es@, mapping(lb as int), 0) {
            Some(i) => Some(es@[i]),
            None => None,
        }),
{
    let mut i: usize = 0;
    while i < es.len()
        invariant
            i <= es@.len(),
            search::first_index(es@, mapping(lb as int), 0) == search::first_index(
                es@,
                mapping(lb as int),
                i as int,
            ),
        decreases es@.len() - i,
    {
        let e = es[i];
        if lb >= e.logical_block && (lb as u64) < e.logical_block as u64 + e.len as u64 {
            return Some(e);
        }
        i += 1;
    }
    None
}

// ---------------------------------------------------------------------------
// Nodes in blocks of their own
// ---------------------------------------------------------------------------

/// Most extents that a block holds.
pub const EXTENT_BLOCK_MAX_ENTRIES: usize = 340;

/// "Ends where the run from `lb` (logical) and `pb` (on the device) begins, and
/// may grow", as a predicate on extents.  Device blocks are compared in their
/// lower 32 bits.
pub open spec fn joins(lb: int, pb: int) -> spec_fn(Ext4Extent) -> bool {
    |e: Ext4Extent|
        e.logical_block + e.len == lb && e.start_lo + e.len == pb % 0x1_0000_0000 && e.len < 32768
}

/// "Starts behind `lb`", as a predicate on extents.
pub open spec fn starts_after(lb: int) -> spec_fn(Ext4Extent) -> bool {
    |e: Ext4Extent| e.logical_block > lb
}

/// "Starts at or behind `lb`", as a predicate on extents.
pub open spec fn starts_at_or_after(lb: int) -> spec_fn(Ext4Extent) -> bool {
    |e: Ext4Extent| e.logical_block >= lb
}

/// Extents with one of them grown by `count` blocks; none when its length would
/// not fit.
pub open spec fn grown(es: Seq<Ext4Extent>, i: int, count: int) -> Option<Seq<Ext4Extent>> {
    if es[i].len + count % 0x1_0000 <= u16::MAX {
        Some(
            es.update(i, Ext4Extent { len: (es[i].len + count % 0x1_0000) as u16, ..es[i] }),
        )
    } else {
        None
    }
}

/// The extents of a leaf block once `count` blocks from `lb` on map to blocks
/// from `pb` on: an extent that ends there grows, otherwise a new one comes
/// before the first that starts behind it.  None when the block is full.
pub open spec fn inserted(es: Seq<Ext4Extent>, lb: int, pb: int, count: int) -> Option<
    Seq<Ext4Extent>,
> {
    match search::first_index(es, joins(lb, pb), 0) {
        Some(i) => grown(es, i, count),
        None => if es.len() >= EXTENT_BLOCK_MAX_ENTRIES {
            None
        } else {
            let pos = match search::first_index(es, starts_after(lb), 0) {
                Some(i) => i,
                None => es.len() as int,
            };
            Some(es.insert(pos, extent_of(lb, count % 0x1_0000, pb)))
        },
    }
}

/// A leaf block after an insertion; an inner node stays as it is.
pub open spec fn inserted_block(b: Seq<u8>, lb: int, pb: int, count: int) -> Option<Seq<u8>> {
    if header_of(b).depth != 0 {
        Some(b)
    } else {
        match inserted(extents_of(b), lb, pb, count) {
            Some(es) => Some(with_extents(b, es)),
            None => None,
        }
    }
}

/// A block that holds these extents as a leaf and nothing else.
pub open spec fn leaf_block(es: Seq<Ext4Extent>) -> Seq<u8> {
    let h = Ext4ExtentHeader { magic: 0xF30A, entries: 0, max: 340, depth: 0, generation: 0 };
    with_extents(bytes::splice(bytes::zeros(4096), 0, enc_header(h)), es)
}

/// A new leaf block reads as the leaf with the extents that were stored.
pub proof fn law_leaf_block(es: Seq<Ext4Extent>)
    requires
        es.len() <= EXTENT_BLOCK_MAX_ENTRIES,
    ensures
        extents_of(leaf_block(es)) == es,
        header_of(leaf_block(es)) == (Ext4ExtentHeader {
            magic: 0xF30A,
            entries: es.len() as u16,
            max: 340,
            depth: 0,
            generation: 0,
        }),
        entries_fit(leaf_block(es)),
{
    let h = Ext4ExtentHeader { magic: 0xF30A, entries: 0, max: 340, depth: 0, generation: 0 };
    let b = bytes::splice(bytes::zeros(4096), 0, enc_header(h));
    bytes::lemma_splice_stands(bytes::zeros(4096), 0, enc_header(h));
    lemma_decode_header(b, h);
    law_stored_extents_are_read(b, es);
}

/// Position of the first extent that a run can be joined to.
pub fn find_join(es: &Vec<Ext4Extent>, lb: u32, pb: u64) -> (r: Option<usize>)
    ensures
        match r {
            Some(i) => search::first_index(es@, joins(lb as int, pb as int), 0) == Some(i as int)
                && i < es@.len(),
            None => search::first_index(es@, joins(lb as int, pb as int), 0) is None,
        },
{
    let mut i: usize = 0;
    while i < es.len()
        invariant
            i <= es@.len(),
            search::first_index(es@, joins(lb as int, pb as int), 0) == search::first_index(
                es@,
                joins(lb as int, pb as int),
                i as int,
            ),
        decreases es@.len() - i,
    {
        let e = es[i];
        if e.logical_block as u64 + e.len as u64 == lb as u64 && e.start_lo as u64 + e.len as u64
            == pb % 0x1_0000_0000 && e.len < 32768 {
            return Some(i);
        }
        i += 1;
    }
    None
}

/// Let an extent grow.
pub fn grow(es: &mut Vec<Ext4Extent>, i: usize, count: u32)
    requires
        i < old(es)@.len(),
        grown(old(es)@, i as int, count as int) is Some,
    ensures
        grown(old(es)@, i as int, count as int) == Some(final(es)@),
{
    let mut e = es[i];
    e.len = e.len + (count % 0x1_0000) as u16;
    es.set(i, e);
}

fn position_after(es: &Vec<Ext4Extent>, lb: u32) -> (r: usize)
    ensures
        r == (match search::first_index(es@, starts_after(lb as int), 0) {
            Some(i) => i,
            None => es@.len() as int,
        }),
        r <= es@.len(),
{
    let mut i: usize = 0;
    while i < es.len()
        invariant
            i <= es@.len(),
            search::first_index(es@, starts_after(lb as int), 0) == search::first_index(
                es@,
                starts_after(lb as int),
                i as int,
            ),
        decreases es@.len() - i,
    {
        if es[i].logical_block > lb {
            return i;
        }
        i += 1;
    }
    i
}

/// A node of an extent tree in a block of its own.
pub struct Ext4ExtentBlock {
    block: Vec<u8>,
}

impl View for Ext4ExtentBlock {
    type V = Seq<u8>;

    closed spec fn view(&self) -> Seq<u8> {
        self.block@
    }
}

impl Ext4ExtentBlock {
    /// One block.
    pub open spec fn wf(self) -> bool {
        self@.len() == 4096
    }

    pub fn new(block: Vec<u8>) -> (r: Self)
        requires
            block@.len() == 4096,
        ensures
            r.wf(),
            r@ == block@,
    {
        Ext4ExtentBlock { block }
    }

    /// The block.
    pub fn into_block(self) -> (r: Vec<u8>)
        ensures
            r@ == self@,
    {
        self.block
    }

    /// The extent for a logical block, found by going down the tree.
    pub fn lookup_extent<D: BlockDevice>(
        &self,
        logical_block: u32,
        block_device: &D,
        ext4_block_size: usize,
    ) -> (r: Option<Ext4Extent>)
        requires
            self.wf(),
            tree_ok(
                self@,
                block_device.contents(),
                ext4_block_size as int,
                header_of(self@).depth as nat,
            ),
        ensures
            r == find_extent(
                self@,
                block_device.contents(),
                ext4_block_size as int,
                logical_block as int,
                header_of(self@).depth as nat,
            ),
        decreases header_of(self@).depth,
    {
        let header = read_header(self.block.as_slice());
        if header.depth == 0 {
            let extents = read_extents(self.block.as_slice());
            scan_extents(&extents, logical_block)
        } else {
            let idxs = read_idxs(self.block.as_slice());
            match pick_best(&idxs, logical_block) {
                None => None,
                Some(i) => {
                    let child = Ext4ExtentBlock::new(
                        read_node(block_device, idxs[i].physical_leaf_block(), ext4_block_size),
                    );
                    assert(idxs@[i as int] == idxs_of(self@)[i as int]);
                    child.lookup_extent(logical_block, block_device, ext4_block_size)
                },
            }
        }
    }

    /// Append all extents below this node to `result`.
    pub fn iter_all_extents<D: BlockDevice>(
        &self,
        block_device: &D,
        ext4_block_size: usize,
        result: &mut Vec<Ext4Extent>,
    )
        requires
            self.wf(),
            tree_ok(
                self@,
                block_device.contents(),
                ext4_block_size as int,
                header_of(self@).depth as nat,
            ),
        ensures
            final(result)@ == old(result)@ + all_extents(
                self@,
                block_device.contents(),
                ext4_block_size as int,
                header_of(self@).depth as nat,
            ),
        decreases header_of(self@).depth, 1int,
    {
        let header = read_header(self.block.as_slice());
        if header.depth > 0 {
            let idxs = read_idxs(self.block.as_slice());
            collect_below(
                &idxs,
                block_device,
                ext4_block_size,
                result,
                Ghost(self@),
                Ghost(header.depth as nat),
            );
        } else {
            let mut extents = read_extents(self.block.as_slice());
            result.append(&mut extents);
        }
    }

    /// Map `blocks_count` blocks from `logical_block_num` on to device blocks
    /// from `physical_block_num` on.
    pub fn insert_extent(
        &mut self,
        logical_block_num: u32,
        physical_block_num: u64,
        blocks_count: u32,
    ) -> (r: Result<(), &'static str>)
        requires
            old(self).wf(),
            entries_fit(old(self)@),
            inserted_block(
                old(self)@,
                logical_block_num as int,
                physical_block_num as int,
                blocks_count as int,
            ) is Some,
        ensures
            r is Ok,
            final(self).wf(),
            inserted_block(
                old(self)@,
                logical_block_num as int,
                physical_block_num as int,
                blocks_count as int,
            ) == Some(final(self)@),
    {
        let header = read_header(self.block.as_slice());
        if header.depth == 0 {
            let mut extents = read_extents(self.block.as_slice());
            match find_join(&extents, logical_block_num, physical_block_num) {
                Some(i) => {
                    grow(&mut extents, i, blocks_count);
                },
                None => {
                    let pos: usize = position_after(&extents, logical_block_num);
                    let e = Ext4Extent::new(
                        logical_block_num,
                        (blocks_count % 0x1_0000) as u16,
                        physical_block_num,
                    );
                    extents.insert(pos, e);
                },
            }
            write_extents(self.block.as_mut_slice(), &extents);
            proof {
                lemma_enc_extents_len(extents@);
            }
        }
        Ok(())
    }

    /// Make the block a leaf with these extents.
    pub fn init_as_leaf(&mut self, extents: &Vec<Ext4Extent>)
        requires
            old(self).wf(),
            extents@.len() <= EXTENT_BLOCK_MAX_ENTRIES,
        ensures
            final(self).wf(),
            final(self)@ == leaf_block(extents@),
    {
        bytes::clear_range(self.block.as_mut_slice(), 0, NODE_SIZE);
        assert(self.block@ =~= bytes::zeros(4096));
        let header = Ext4ExtentHeader {
            magic: EXTENT_MAGIC,
            entries: 0,
            max: EXTENT_BLOCK_MAX_ENTRIES as u16,
            depth: 0,
            generation: 0,
        };
        write_header(self.block.as_mut_slice(), &header);
        write_extents(self.block.as_mut_slice(), extents);
    }
}

/// Append all extents below the children `idxs` of node `node`.
pub(crate) fn collect_below<D: BlockDevice>(
    idxs: &Vec<Ext4ExtentIdx>,
    block_device: &D,
    ext4_block_size: usize,
    result: &mut Vec<Ext4Extent>,
    node: Ghost<Seq<u8>>,
    d: Ghost<nat>,
)
    requires
        idxs@ == idxs_of(node@),
        d@ > 0,
        tree_ok(node@, block_device.contents(), ext4_block_size as int, d@),
    ensures
        final(result)@ == old(result)@ + extents_below(
            node@,
            block_device.contents(),
            ext4_block_size as int,
            d@,
            idxs@.len(),
        ),
    decreases d@, 0int,
{
    let mut i: usize = 0;
    assert(result@ =~= old(result)@ + seq![]);
    while i < idxs.len()
        invariant
            i <= idxs@.len(),
            idxs@ == idxs_of(node@),
            d@ > 0,
            tree_ok(node@, block_device.contents(), ext4_block_size as int, d@),
            result@ == old(result)@ + extents_below(
                node@,
                block_device.contents(),
                ext4_block_size as int,
                d@,
                i as nat,
            ),
        decreases idxs@.len() - i,
    {
        assert(idxs@[i as int] == idxs_of(node@)[i as int]);
        let child = Ext4ExtentBlock::new(
            read_node(block_device, idxs[i].physical_leaf_block(), ext4_block_size),
        );
        let ghost before = result@;
        child.iter_all_extents(block_device, ext4_block_size, result);
        assert(result@ =~= old(result)@ + extents_below(
            node@,
            block_device.contents(),
            ext4_block_size as int,
            d@,
            (i + 1) as nat,
        ));
        i += 1;
    }
}

} // verus!
