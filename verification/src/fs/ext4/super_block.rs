//! The superblock: the geometry of a file system, and how much of it is free.
use vstd::prelude::*;
use crate::bytes;

verus! {

/// Magic number of an ext4 superblock.
pub const EXT4_MAGIC: u16 = 0xEF53;

/// Bytes of a superblock on the device.
pub const SUPERBLOCK_SIZE: usize = 1024;

/// The fields of a superblock on the device that matter here.
#[derive(Debug, Clone, Copy, PartialEq, Eq, Structural)]
pub struct Ext4SuperBlockDisk {
    pub inodes_count: u32,
    pub blocks_count_lo: u32,
    pub free_blocks_count_lo: u32,
    pub free_inodes_count: u32,
    /// The block size is 1024 shifted by this.
    pub log_block_size: u32,
    pub blocks_per_group: u32,
    pub inodes_per_group: u32,
    pub magic: u16,
    pub inode_size: u16,
    pub blocks_count_hi: u32,
    pub free_blocks_count_hi: u32,
}

/// The superblock stored at `at`.
pub open spec fn super_at(b: Seq<u8>, at: int) -> Ext4SuperBlockDisk {
    Ext4SuperBlockDisk {
        inodes_count: bytes::le32(b, at) as u32,
        blocks_count_lo: bytes::le32(b, at + 4) as u32,
        free_blocks_count_lo: bytes::le32(b, at + 12) as u32,
        free_inodes_count: bytes::le32(b, at + 16) as u32,
        log_block_size: bytes::le32(b, at + 24) as u32,
        blocks_per_group: bytes::le32(b, at + 32) as u32,
        inodes_per_group: bytes::le32(b, at + 40) as u32,
        magic: bytes::le16(b, at + 56) as u16,
        inode_size: bytes::le16(b, at + 88) as u16,
        blocks_count_hi: bytes::le32(b, at + 336) as u32,
        free_blocks_count_hi: bytes::le32(b, at + 344) as u32,
    }
}

/// Block size for a shift; only sizes up to that of a page are supported.
pub open spec fn block_size_of(log: u32) -> int {
    if log == 0 {
        1024
    } else if log == 1 {
        2048
    } else {
        4096
    }
}

impl Ext4SuperBlockDisk {
    /// Number of blocks.
    pub open spec fn blocks(self) -> int {
        self.blocks_count_hi * 0x1_0000_0000 + self.blocks_count_lo
    }

    /// The superblock of a file system whose geometry makes sense.
    pub open spec fn valid(self) -> bool {
        &&& self.magic == EXT4_MAGIC
        &&& self.log_block_size <= 2
        &&& self.blocks_per_group > 0
        &&& self.inodes_per_group > 0
        &&& self.inode_size > 0
    }

    /// Read the superblock stored at `at`.
    pub fn read_from(b: &[u8], at: usize) -> (r: Self)
        requires
            at + SUPERBLOCK_SIZE <= b@.len(),
        ensures
            r == super_at(b@, at as int),
    {
        let _len: usize = b.len();
        Ext4SuperBlockDisk {
            inodes_count: bytes::get_u32(b, at),
            blocks_count_lo: bytes::get_u32(b, at + 4),
            free_blocks_count_lo: bytes::get_u32(b, at + 12),
            free_inodes_count: bytes::get_u32(b, at + 16),
            log_block_size: bytes::get_u32(b, at + 24),
            blocks_per_group: bytes::get_u32(b, at + 32),
            inodes_per_group: bytes::get_u32(b, at + 40),
            magic: bytes::get_u16(b, at + 56),
            inode_size: bytes::get_u16(b, at + 88),
            blocks_count_hi: bytes::get_u32(b, at + 336),
            free_blocks_count_hi: bytes::get_u32(b, at + 344),
        }
    }

    /// Whether this is the superblock of a file system.
    pub fn is_valid(&self) -> (r: bool)
        ensures
            r == self.valid(),
    {
        self.magic == EXT4_MAGIC && self.log_block_size <= 2 && self.blocks_per_group > 0
            && self.inodes_per_group > 0 && self.inode_size > 0
    }
}

/// Geometry and counters of a mounted file system.
#[derive(Debug)]
pub struct Ext4SuperBlock {
    pub block_size: u32,
    pub block_group_count: u64,
    pub blocks_per_group: u32,
    pub inodes_per_group: u32,
    pub inode_size: u16,
    pub free_blocks_count: u64,
    pub free_inodes_count: u32,
    /// Inodes without a name that are still in use.
    pub orphan_inodes: Vec<usize>,
}

/// Mathematical content of an `Ext4SuperBlock`.
#[verifier::ext_equal]
pub struct SuperModel {
    pub block_size: int,
    pub block_group_count: int,
    pub blocks_per_group: int,
    pub inodes_per_group: int,
    pub inode_size: int,
    pub free_blocks_count: int,
    pub free_inodes_count: int,
    pub orphan_inodes: Seq<usize>,
}

impl View for Ext4SuperBlock {
    type V = SuperModel;

    open spec fn view(&self) -> SuperModel {
        SuperModel {
            block_size: self.block_size as int,
            block_group_count: self.block_group_count as int,
            blocks_per_group: self.blocks_per_group as int,
            inodes_per_group: self.inodes_per_group as int,
            inode_size: self.inode_size as int,
            free_blocks_count: self.free_blocks_count as int,
            free_inodes_count: self.free_inodes_count as int,
            orphan_inodes: self.orphan_inodes@,
        }
    }
}

/// What a superblock on the device says of its file system.
pub open spec fn super_of(d: Ext4SuperBlockDisk) -> SuperModel {
    SuperModel {
        block_size: block_size_of(d.log_block_size),
        block_group_count: (d.blocks() + d.blocks_per_group - 1) / (d.blocks_per_group as int),
        blocks_per_group: d.blocks_per_group as int,
        inodes_per_group: d.inodes_per_group as int,
        inode_size: d.inode_size as int,
        free_blocks_count: d.free_blocks_count_hi * 0x1_0000_0000 + d.free_blocks_count_lo,
        free_inodes_count: d.free_inodes_count as int,
        orphan_inodes: seq![],
    }
}

impl SuperModel {
    /// The geometry makes sense.
    pub open spec fn wf(self) -> bool {
        &&& 1024 <= self.block_size <= 4096
        &&& 0 < self.blocks_per_group <= u32::MAX
        &&& 0 < self.inodes_per_group <= u32::MAX
        &&& 0 < self.inode_size <= u16::MAX
    }
}

impl Ext4SuperBlock {
    pub fn new(d: &Ext4SuperBlockDisk) -> (r: Self)
        requires
            d.valid(),
        ensures
            r@ == super_of(*d),
            r@.wf(),
    {
        let blocks: u64 = d.blocks_count_hi as u64 * 0x1_0000_0000 + d.blocks_count_lo as u64;
        let per: u64 = d.blocks_per_group as u64;
        proof {
            lemma_div_up(blocks as int, per as int);
        }
        let groups: u64 = blocks / per + if blocks % per == 0 {
            0u64
        } else {
            1u64
        };
        let r = Ext4SuperBlock {
            block_size: if d.log_block_size == 0 {
                1024
            } else if d.log_block_size == 1 {
                2048
            } else {
                4096
            },
            block_group_count: groups,
            blocks_per_group: d.blocks_per_group,
            inodes_per_group: d.inodes_per_group,
            inode_size: d.inode_size,
            free_blocks_count: d.free_blocks_count_hi as u64 * 0x1_0000_0000
                + d.free_blocks_count_lo as u64,
            free_inodes_count: d.free_inodes_count,
            orphan_inodes: Vec::new(),
        };
        assert(r@ =~= super_of(*d));
        r
    }
}

/// Two ways to divide and round up.
pub proof fn lemma_div_up(a: int, b: int)
    requires
        0 <= a,
        0 < b,
    ensures
        (a + b - 1) / b == a / b + (if a % b == 0 {
            0int
        } else {
            1
        }),
        0 <= a / b <= a,
        a % b != 0 ==> a / b < a,
{
    let q = a / b;
    let r = a % b;
    vstd::arithmetic::div_mod::lemma_fundamental_div_mod(a, b);
    vstd::arithmetic::div_mod::lemma_mod_bound(a, b);
    vstd::arithmetic::div_mod::lemma_div_pos_is_pos(a, b);
    vstd::arithmetic::mul::lemma_mul_is_commutative(b, q);
    if r == 0 {
        vstd::arithmetic::div_mod::lemma_fundamental_div_mod_converse(a + b - 1, b, q, b - 1);
    } else {
        assert((q + 1) * b == q * b + b) by (nonlinear_arith);
        vstd::arithmetic::div_mod::lemma_fundamental_div_mod_converse(
            a + b - 1,
            b,
            q + 1,
            r - 1,
        );
    }
    assert(q <= q * b) by (nonlinear_arith)
        requires
            q >= 0,
            b >= 1,
    ;
}

} // verus!
