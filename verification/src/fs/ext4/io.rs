//! Reading and writing the blocks of a file system.
use vstd::prelude::*;
use crate::bytes;
use crate::fs::dev::block_dev::BlockDevice;
use crate::fs::ext4::extent_tree::byte_offset;

verus! {

/// Block `block` lies on the device.
pub open spec fn block_on(disk: Seq<u8>, bs: int, block: int) -> bool {
    0 <= block * bs && block * bs + bs <= disk.len()
}

/// What block `block` holds.
pub open spec fn block_at(disk: Seq<u8>, bs: int, block: int) -> Seq<u8> {
    disk.subrange(block * bs, block * bs + bs)
}

/// The device after the first `bs` bytes of `data` were written to a block.
pub open spec fn put_block(disk: Seq<u8>, bs: int, block: int, data: Seq<u8>) -> Seq<u8> {
    bytes::splice(disk, block * bs, data.take(bs))
}

/// Read a block.
pub fn read_block<D: BlockDevice>(device: &D, block: u64, bs: usize) -> (r: Vec<u8>)
    requires
        block_on(device.contents(), bs as int, block as int),
    ensures
        r@ == block_at(device.contents(), bs as int, block as int),
        r@.len() == bs,
{
    let size: usize = device.size();
    let mut buf: Vec<u8> = vec![0u8;bs];
    let offset: usize = byte_offset(block, bs, size);
    device.read(offset, buf.as_mut_slice());
    buf
}

/// Write a block.
pub fn write_block<D: BlockDevice>(device: &mut D, block: u64, data: &[u8], bs: usize)
    requires
        block_on(old(device).contents(), bs as int, block as int),
        data@.len() == bs,
    ensures
        final(device).contents() == bytes::splice(old(device).contents(), block * bs, data@),
{
    let size: usize = device.size();
    let offset: usize = byte_offset(block, bs, size);
    device.write(offset, data);
}

/// Write a block from a buffer that may be larger: only the block's own bytes
/// are written, so that its neighbours stay as they are.
pub fn write_ext4_block<D: BlockDevice>(device: &mut D, block: u64, data: &Vec<u8>, bs: usize)
    requires
        block_on(old(device).contents(), bs as int, block as int),
        bs <= data@.len(),
    ensures
        final(device).contents() == put_block(
            old(device).contents(),
            bs as int,
            block as int,
            data@,
        ),
{
    let part = vstd::slice::slice_subrange(data.as_slice(), 0, bs);
    assert(part@ =~= data@.take(bs as int));
    write_block(device, block, part, bs);
}

} // verus!
