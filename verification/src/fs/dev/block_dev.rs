//! Block device abstraction: the interface between file systems and the
//! underlying storage hardware.
use vstd::prelude::*;
use crate::bytes;

verus! {

/// A fixed-size block storage device.
pub trait BlockDevice {
    /// What is stored on the device.  A verified device has to say what this is:
    /// of the default nothing is known, and no `write` can be shown to change it
    /// as its contract demands.
    open spec fn contents(&self) -> Seq<u8> {
        arbitrary()
    }

    /// Read bytes from byte-offset `offset` until `buf` is full.
    fn read(&self, offset: usize, buf: &mut [u8])
        requires
            offset + old(buf)@.len() <= self.contents().len(),
        ensures
            final(buf)@ == self.contents().subrange(offset as int, offset + old(buf)@.len()),
    ;

    /// Write all bytes of `buf` to byte-offset `offset`.
    fn write(&mut self, offset: usize, buf: &[u8])
        requires
            offset + buf@.len() <= old(self).contents().len(),
        ensures
            final(self).contents() == bytes::splice(old(self).contents(), offset as int, buf@),
    ;

    /// Total size of the device in bytes.
    fn size(&self) -> (r: usize)
        ensures
            r == self.contents().len(),
    ;

    /// Sector size in bytes (typically 512).
    fn sector_size(&self) -> usize;
}

/// A cached block.
pub struct BlockBuffer {
    pub data: Vec<u8>,
    pub dirty: bool,
}

impl BlockBuffer {
    /// A clean block of zeros.
    pub fn new(block_size: usize) -> (r: Self)
        ensures
            r.data@ == bytes::zeros(block_size as int),
            !r.dirty,
    {
        let r = BlockBuffer { data: vec![0u8;block_size], dirty: false };
        assert(r.data@ =~= bytes::zeros(block_size as int));
        r
    }
}

/// Most blocks that a cache holds.
pub const BLOCK_CACHE_CAP: usize = 64;

/// One block of a cache.
pub struct CachedBlock {
    pub num: usize,
    pub buf: BlockBuffer,
}

/// Cache for file system blocks.  The block that has not been asked for the
/// longest leaves first; what was not written back to the device is then lost.
pub struct BlockCache<D: BlockDevice> {
    device: D,
    block_size: usize,
    /// Least recently used first.
    blocks: Vec<CachedBlock>,
}

/// Mathematical content of a `CachedBlock`.
#[verifier::ext_equal]
pub struct CachedModel {
    pub num: int,
    pub data: Seq<u8>,
    pub dirty: bool,
}

impl View for CachedBlock {
    type V = CachedModel;

    open spec fn view(&self) -> CachedModel {
        CachedModel { num: self.num as int, data: self.buf.data@, dirty: self.buf.dirty }
    }
}

/// Mathematical content of a list of cached blocks.
pub open spec fn models(blocks: Seq<CachedBlock>) -> Seq<CachedModel> {
    blocks.map_values(|b: CachedBlock| b@)
}

/// "Is block `n`", as a predicate on cached blocks.
pub open spec fn is_block(n: int) -> spec_fn(CachedModel) -> bool {
    |b: CachedModel| b.num == n
}

/// The cache after block `n` has been asked for: it is now the most recent one;
/// if it had to be fetched, the oldest block makes room.
pub open spec fn after_get(
    blocks: Seq<CachedModel>,
    n: int,
    fetched: Seq<u8>,
) -> Seq<CachedModel> {
    match crate::search::first_index(blocks, is_block(n), 0) {
        Some(i) => blocks.remove(i).push(blocks[i]),
        None => {
            let all = blocks.push(CachedModel { num: n, data: fetched, dirty: false });
            if all.len() > BLOCK_CACHE_CAP {
                all.drop_first()
            } else {
                all
            }
        },
    }
}

impl<D: BlockDevice> BlockCache<D> {
    /// The cached blocks, least recently used first.
    pub closed spec fn cached(self) -> Seq<CachedModel> {
        models(self.blocks@)
    }

    /// What is stored on the device.
    pub closed spec fn stored(self) -> Seq<u8> {
        self.device.contents()
    }

    /// Block size in bytes.
    pub closed spec fn bs(self) -> int {
        self.block_size as int
    }

    /// At most so many blocks, none of them twice.
    pub open spec fn wf(self) -> bool {
        &&& self.cached().len() <= BLOCK_CACHE_CAP
        &&& forall|i: int, j: int|
            0 <= i < j < self.cached().len() ==> (#[trigger] self.cached()[i]).num != (
            #[trigger] self.cached()[j]).num
    }

    pub fn new(device: D, block_size: usize) -> (r: Self)
        ensures
            r.wf(),
            r.cached() == Seq::<CachedModel>::empty(),
            r.stored() == device.contents(),
            r.bs() == block_size,
    {
        let r = BlockCache { device, block_size, blocks: Vec::new() };
        assert(r.cached() =~= Seq::<CachedModel>::empty());
        r
    }

    pub fn block_size(&self) -> (r: usize)
        ensures
            r == self.bs(),
    {
        self.block_size
    }

    pub fn device(&self) -> (r: &D)
        ensures
            r.contents() == self.stored(),
    {
        &self.device
    }

    /// Position of block `n` in the cache.
    fn position(&self, n: usize) -> (r: Option<usize>)
        ensures
            match r {
                Some(i) => crate::search::first_index(self.cached(), is_block(n as int), 0) == Some(
                    i as int,
                ) && i < self.blocks@.len() && self.blocks@[i as int].num == n,
                None => crate::search::first_index(self.cached(), is_block(n as int), 0) is None,
            },
    {
        let mut i: usize = 0;
        while i < self.blocks.len()
            invariant
                i <= self.blocks@.len(),
                crate::search::first_index(self.cached(), is_block(n as int), 0)
                    == crate::search::first_index(self.cached(), is_block(n as int), i as int),
            decreases self.blocks@.len() - i,
        {
            assert(self.cached()[i as int] == self.blocks@[i as int]@);
            if self.blocks[i].num == n {
                return Some(i);
            }
            i += 1;
        }
        None
    }

    /// Get a cached block, reading it from the device if necessary.
    pub fn get_block(&mut self, block_num: usize) -> (r: &mut BlockBuffer)
        requires
            old(self).wf(),
            (block_num + 1) * old(self).bs() <= old(self).stored().len(),
            old(self).stored().len() <= usize::MAX,
        ensures
            ({
                let after = after_get(
                    old(self).cached(),
                    block_num as int,
                    old(self).stored().subrange(
                        block_num * old(self).bs(),
                        (block_num + 1) * old(self).bs(),
                    ),
                );
                &&& after.len() > 0
                &&& after.last().num == block_num
                &&& r.data@ == after.last().data
                &&& r.dirty == after.last().dirty
                &&& final(self).wf()
                &&& final(self).cached() == after.update(
                    after.len() - 1,
                    (CachedModel {
                        num: block_num as int,
                        data: final(r).data@,
                        dirty: final(r).dirty,
                    }),
                )
            }),
            final(self).stored() == old(self).stored(),
            final(self).bs() == old(self).bs(),
    {
        let ghost before = self.cached();
        let ghost fetched = self.stored().subrange(
            block_num * self.bs(),
            (block_num + 1) * self.bs(),
        );
        proof {
            crate::search::lemma_first_index(before, is_block(block_num as int), 0);
        }
        match self.position(block_num) {
            Some(i) => {
                let block = self.blocks.remove(i);
                self.blocks.push(block);
                assert(self.cached() =~= before.remove(i as int).push(before[i as int]));
            },
            None => {
                assert(block_num * self.block_size + self.block_size == (block_num + 1)
                    * self.block_size) by (nonlinear_arith);
                assert(block_num * self.block_size >= 0) by (nonlinear_arith);
                let mut buf = BlockBuffer::new(self.block_size);
                self.device.read(block_num * self.block_size, buf.data.as_mut_slice());
                assert(buf.data@ =~= fetched);
                self.blocks.push(CachedBlock { num: block_num, buf });
                assert(self.cached() =~= before.push(
                    CachedModel { num: block_num as int, data: fetched, dirty: false },
                ));
                let ghost all = self.cached();
                if self.blocks.len() > BLOCK_CACHE_CAP {
                    self.blocks.remove(0);
                    assert(self.cached() =~= all.drop_first());
                }
            },
        }
        let ghost after = self.cached();
        proof {
            assert(after == after_get(before, block_num as int, fetched));
            assert forall|i: int, j: int| 0 <= i < j < after.len() implies (#[trigger] after[i]).num != (
            #[trigger] after[j]).num by {
                match crate::search::first_index(before, is_block(block_num as int), 0) {
                    Some(k) => {
                        let oi = if i == after.len() - 1 { k } else if i < k { i } else { i + 1 };
                        let oj = if j == after.len() - 1 { k } else if j < k { j } else { j + 1 };
                        assert(after[i] == before[oi] && after[j] == before[oj]);
                        if oi < oj {
                            assert(before[oi].num != before[oj].num);
                        } else {
                            assert(before[oj].num != before[oi].num);
                        }
                    },
                    None => {
                        let d = if before.len() == BLOCK_CACHE_CAP { 1int } else { 0 };
                        assert(after[i] == before[i + d]);
                        if j < after.len() - 1 {
                            assert(after[j] == before[j + d]);
                        } else {
                            assert(!is_block(block_num as int)(before[i + d]));
                        }
                    },
                }
            }
        }
        let last: usize = self.blocks.len() - 1;
        let ghost blocks0 = self.blocks@;
        proof {
            assert(after.last() == blocks0[last as int]@);
            assert forall|b: BlockBuffer|
                #[trigger] models(
                    blocks0.update(last as int, CachedBlock { num: block_num, buf: b }),
                ) == after.update(
                    after.len() - 1,
                    CachedModel { num: block_num as int, data: b.data@, dirty: b.dirty },
                ) by {
                assert(models(
                    blocks0.update(last as int, CachedBlock { num: block_num, buf: b }),
                ) =~= after.update(
                    after.len() - 1,
                    CachedModel { num: block_num as int, data: b.data@, dirty: b.dirty },
                ));
            }
        }
        &mut self.blocks[last].buf
    }

    /// Write a specific block back to the device, if it is cached.
    pub fn write_block(&mut self, block_num: usize)
        requires
            old(self).wf(),
            forall|i: int|
                0 <= i < old(self).cached().len() && (#[trigger] old(self).cached()[i]).num
                    == block_num ==> block_num * old(self).bs() + old(self).cached()[i].data.len()
                    <= old(self).stored().len(),
            old(self).stored().len() <= usize::MAX,
        ensures
            final(self).wf(),
            final(self).cached() == old(self).cached(),
            final(self).bs() == old(self).bs(),
            final(self).stored() == (match crate::search::first_index(
                old(self).cached(),
                is_block(block_num as int),
                0,
            ) {
                Some(i) => bytes::splice(
                    old(self).stored(),
                    block_num * old(self).bs(),
                    old(self).cached()[i].data,
                ),
                None => old(self).stored(),
            }),
    {
        match self.position(block_num) {
            Some(i) => {
                assert(self.cached()[i as int] == self.blocks@[i as int]@);
                assert(block_num * self.block_size >= 0) by (nonlinear_arith);
                self.device.write(
                    block_num * self.block_size,
                    self.blocks[i].buf.data.as_slice(),
                );
            },
            None => {},
        }
    }
}

// ---------------------------------------------------------------------------
// Sectors
// ---------------------------------------------------------------------------

/// Sector size of a virtio block device.
pub const SECTOR_SIZE: usize = 512;

/// One step of an access at an arbitrary offset: part of one sector.
#[derive(Debug, Clone, Copy, PartialEq, Eq, Structural)]
pub struct SectorChunk {
    pub sector: usize,
    /// First byte within the sector.
    pub sector_off: usize,
    /// First byte within the caller's buffer.
    pub buf_off: usize,
    pub len: usize,
}

impl SectorChunk {
    /// The step covers the whole sector, so that a write need not read first.
    pub fn is_full(&self) -> (r: bool)
        ensures
            r == (self.sector_off == 0 && self.len == SECTOR_SIZE),
    {
        self.sector_off == 0 && self.len == SECTOR_SIZE
    }
}

/// Each step lies inside one sector, and the steps tile the range in order.
pub open spec fn tiles(chunks: Seq<SectorChunk>, offset: int, len: int) -> bool {
    &&& chunks.len() == 0 <==> len == 0
    &&& forall|i: int|
        0 <= i < chunks.len() ==> {
            let c = #[trigger] chunks[i];
            &&& c.len > 0
            &&& c.sector_off + c.len <= 512
            &&& c.sector * 512 + c.sector_off == offset + c.buf_off
            &&& i == 0 ==> c.buf_off == 0
            &&& c.buf_off + c.len <= len
            &&& i + 1 < chunks.len() ==> c.sector_off + c.len == 512
            &&& i + 1 == chunks.len() ==> c.buf_off + c.len == len
        }
    &&& forall|i: int, j: int|
        0 <= i && j == i + 1 && j < chunks.len() ==> (#[trigger] chunks[j]).buf_off == (
        #[trigger] chunks[i]).buf_off + chunks[i].len
}

/// Split an access of `len` bytes at `offset` into sector-sized steps.
pub fn sector_chunks(offset: usize, len: usize) -> (r: Vec<SectorChunk>)
    requires
        offset + len <= usize::MAX,
    ensures
        tiles(r@, offset as int, len as int),
{
    let mut out: Vec<SectorChunk> = Vec::new();
    let mut remaining: usize = len;
    let mut buf_offset: usize = 0;
    let mut current_offset: usize = offset;
    while remaining > 0
        invariant
            buf_offset + remaining == len,
            current_offset == offset + buf_offset,
            offset + len <= usize::MAX,
            remaining > 0 && out@.len() > 0 ==> current_offset % 512 == 0,
            out@.len() == 0 <==> buf_offset == 0,
            out@.len() > 0 ==> out@.last().buf_off + out@.last().len == buf_offset,
            remaining > 0 && out@.len() > 0 ==> out@.last().sector_off + out@.last().len == 512,
            forall|i: int|
                0 <= i < out@.len() ==> {
                    let c = #[trigger] out@[i];
                    &&& c.len > 0
                    &&& c.sector_off + c.len <= 512
                    &&& c.sector * 512 + c.sector_off == offset + c.buf_off
                    &&& i == 0 ==> c.buf_off == 0
                    &&& c.buf_off + c.len <= buf_offset
                    &&& i + 1 < out@.len() ==> c.sector_off + c.len == 512
                },
            forall|i: int, j: int|
                0 <= i && j == i + 1 && j < out@.len() ==> (#[trigger] out@[j]).buf_off == (
                #[trigger] out@[i]).buf_off + out@[i].len,
        decreases remaining,
    {
        let sector: usize = current_offset / SECTOR_SIZE;
        let sector_off: usize = current_offset % SECTOR_SIZE;
        let chunk: usize = if remaining < SECTOR_SIZE - sector_off {
            remaining
        } else {
            SECTOR_SIZE - sector_off
        };
        let ghost before = out@;
        out.push(SectorChunk { sector, sector_off, buf_off: buf_offset, len: chunk });
        remaining = remaining - chunk;
        buf_offset = buf_offset + chunk;
        current_offset = current_offset + chunk;
        proof {
            assert forall|i: int, j: int| 0 <= i && j == i + 1 && j < out@.len() implies (
            #[trigger] out@[j]).buf_off == (#[trigger] out@[i]).buf_off + out@[i].len by {
                if j < before.len() {
                    assert(out@[j] == before[j] && out@[i] == before[i]);
                } else {
                    assert(out@[i] == before.last());
                }
            }
        }
    }
    out
}

/// A block that is asked for stands last in the cache.  It is as the cache had
/// it, or else as the device has it.  The others stay as they are; only the one
/// that has not been asked for the longest leaves, and only where a full cache
/// needs its place.
pub proof fn law_cached_block(blocks: Seq<CachedModel>, n: int, fetched: Seq<u8>)
    requires
        blocks.len() <= BLOCK_CACHE_CAP,
        forall|i: int, j: int| 0 <= i < j < blocks.len() ==> blocks[i].num != blocks[j].num,
    ensures
        ({
            let after = after_get(blocks, n, fetched);
            let missing = forall|i: int| 0 <= i < blocks.len() ==> blocks[i].num != n;
            &&& 0 < after.len() <= BLOCK_CACHE_CAP
            &&& after.last().num == n
            &&& missing ==> after.last().data == fetched && !after.last().dirty
            &&& forall|i: int|
                0 <= i < blocks.len() && (#[trigger] blocks[i]).num == n ==> after.last()
                    == blocks[i]
            &&& forall|i: int|
                0 <= i < blocks.len() && (i > 0 || !missing || blocks.len() < BLOCK_CACHE_CAP)
                    ==> after.contains(#[trigger] blocks[i])
            &&& forall|k: int|
                0 <= k < after.len() - 1 ==> blocks.contains(#[trigger] after[k])
        }),
{
    let after = after_get(blocks, n, fetched);
    crate::search::lemma_first_index(blocks, is_block(n), 0);
    match crate::search::first_index(blocks, is_block(n), 0) {
        Some(at) => {
            assert(blocks[at].num == n);
            assert forall|i: int| 0 <= i < blocks.len() implies after.contains(
                #[trigger] blocks[i],
            ) by {
                let k = if i < at {
                    i
                } else if i > at {
                    i - 1
                } else {
                    after.len() - 1
                };
                assert(after[k] == blocks[i]);
            }
            assert forall|k: int| 0 <= k < after.len() - 1 implies blocks.contains(
                #[trigger] after[k],
            ) by {
                assert(after[k] == blocks[if k < at { k } else { k + 1 }]);
            }
        },
        None => {
            assert forall|i: int| 0 <= i < blocks.len() implies blocks[i].num != n by {
                assert(!is_block(n)(blocks[i]));
            }
            let d = if blocks.len() == BLOCK_CACHE_CAP {
                1int
            } else {
                0
            };
            assert forall|i: int|
                0 <= i < blocks.len() && (i > 0 || blocks.len() < BLOCK_CACHE_CAP) implies after.contains(
                #[trigger] blocks[i],
            ) by {
                assert(after[i - d] == blocks[i]);
            }
            assert forall|k: int| 0 <= k < after.len() - 1 implies blocks.contains(
                #[trigger] after[k],
            ) by {
                assert(after[k] == blocks[k + d]);
            }
        },
    }
}

/// Every byte of an access stands in a step, at its place on the device.
pub proof fn law_every_byte_has_a_sector(chunks: Seq<SectorChunk>, offset: int, len: int, k: int)
    requires
        tiles(chunks, offset, len),
        0 <= k < len,
        offset >= 0,
    ensures
        exists|i: int|
            0 <= i < chunks.len() && (#[trigger] chunks[i]).buf_off <= k < chunks[i].buf_off
                + chunks[i].len && chunks[i].sector == (offset + k) / 512
                && chunks[i].sector_off + (k - chunks[i].buf_off) == (offset + k) % 512,
{
    lemma_chunk_at(chunks, offset, len, k, 0);
}

proof fn lemma_chunk_at(chunks: Seq<SectorChunk>, offset: int, len: int, k: int, from: int)
    requires
        tiles(chunks, offset, len),
        0 <= from < chunks.len(),
        chunks[from].buf_off <= k < len,
        offset >= 0,
    ensures
        exists|i: int|
            0 <= i < chunks.len() && (#[trigger] chunks[i]).buf_off <= k < chunks[i].buf_off
                + chunks[i].len && chunks[i].sector == (offset + k) / 512
                && chunks[i].sector_off + (k - chunks[i].buf_off) == (offset + k) % 512,
    decreases chunks.len() - from,
{
    let c = chunks[from];
    if k < c.buf_off + c.len {
        assert(offset + k == c.sector * 512 + (c.sector_off + (k - c.buf_off)));
        assert(chunks[from].sector == (offset + k) / 512);
    } else {
        assert(chunks[from + 1].buf_off == c.buf_off + c.len);
        lemma_chunk_at(chunks, offset, len, k, from + 1);
    }
}

} // verus!
