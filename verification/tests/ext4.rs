use quackos::fs::dentry::{Dentry, DentryFlags};
use quackos::fs::dev::block_dev::BlockDevice;
use quackos::fs::ext4::bitmap::Ext4Bitmap;
use quackos::fs::ext4::block_op::{Ext4DirContentRO, Ext4DirContentWE, LinuxDirent64};
use quackos::fs::ext4::dentry::{EXT4_DT_DIR, EXT4_DT_LNK, EXT4_DT_REG};
use quackos::fs::ext4::extent_tree::{Ext4Extent, Ext4ExtentBlock, Ext4ExtentHeader, Ext4ExtentIdx};
use quackos::fs::ext4::fs::Ext4FileSystem;
use quackos::fs::ext4::inode::Ext4Inode;
use quackos::fs::ext4::inode_disk::{
    Ext4InodeDisk, EXT4_EXTENTS_FL, EXT4_INLINE_DATA_FL, S_IFBLK, S_IFCHR, S_IFDIR,
    S_IFREG, S_ISGID,
};
use quackos::fs::ext4::inode_size::FallocFlags;
use quackos::fs::ext4::inode_table::{load_inode, write_inode};
use quackos::fs::ext4::ops;
use quackos::fs::ext4::xattr::SetXattrFlags;
use quackos::fs::types::{Errno, FileType, TimeSpec};
use quackos::user::ls::{is_listing, ls_main};

const BS: usize = 4096;
const BLOCKS: usize = 64;

struct RamDisk {
    data: Vec<u8>,
}

impl BlockDevice for RamDisk {
    fn read(&self, offset: usize, buf: &mut [u8]) {
        let n = buf.len();
        buf.copy_from_slice(&self.data[offset..offset + n]);
    }

    fn write(&mut self, offset: usize, buf: &[u8]) {
        self.data[offset..offset + buf.len()].copy_from_slice(buf);
    }

    fn size(&self) -> usize {
        self.data.len()
    }

    fn sector_size(&self) -> usize {
        512
    }
}

fn put16(d: &mut [u8], at: usize, v: u16) {
    d[at..at + 2].copy_from_slice(&v.to_le_bytes());
}

fn put32(d: &mut [u8], at: usize, v: u32) {
    d[at..at + 4].copy_from_slice(&v.to_le_bytes());
}

/// One group of 64 blocks: block 1 holds the descriptors, blocks 2 and 3 the
/// bitmaps, blocks 4 to 11 the inode table and block 12 the root directory.
fn image() -> RamDisk {
    let mut d = vec![0u8; BS * BLOCKS];
    put32(&mut d, 1024, 128);
    put32(&mut d, 1024 + 4, BLOCKS as u32);
    put32(&mut d, 1024 + 12, 51);
    put32(&mut d, 1024 + 16, 117);
    put32(&mut d, 1024 + 24, 2);
    put32(&mut d, 1024 + 32, 32768);
    put32(&mut d, 1024 + 40, 128);
    put16(&mut d, 1024 + 56, 0xEF53);
    put16(&mut d, 1024 + 88, 256);
    put32(&mut d, BS, 2);
    put32(&mut d, BS + 4, 3);
    put32(&mut d, BS + 8, 4);
    put16(&mut d, BS + 12, 51);
    put16(&mut d, BS + 14, 117);
    put16(&mut d, BS + 16, 1);
    d[2 * BS] = 0xFF;
    d[2 * BS + 1] = 0x1F;
    for i in 8..BS {
        d[2 * BS + i] = 0xFF;
    }
    d[3 * BS] = 0xFF;
    d[3 * BS + 1] = 0x07;
    let mut root = Ext4InodeDisk::default();
    root.mode = S_IFDIR | 0o755;
    root.links_count = 2;
    root.flags = EXT4_EXTENTS_FL;
    root.set_size(BS as u64);
    root.init_extent_tree();
    root.block[2] = 1;
    root.block[16] = 1;
    root.block[20] = 12;
    let mut table = vec![0u8; BS];
    root.write_to(&mut table, 256);
    d[4 * BS..5 * BS].copy_from_slice(&table);
    let mut dir = Ext4DirContentWE::new(vec![0u8; BS]);
    dir.init_dot_dotdot(2, 2, BS);
    d[12 * BS..13 * BS].copy_from_slice(&dir.into_content());
    RamDisk { data: d }
}

fn mount() -> Ext4FileSystem<RamDisk> {
    Ext4FileSystem::open(image())
}

fn new_entry(name: &str) -> Dentry<Ext4Inode> {
    Dentry::negative(format!("//{}", name), Some(0))
}

#[test]
fn open_reads_superblock_and_groups() {
    let fs = mount();
    assert_eq!(fs.block_size(), 4096);
    assert_eq!(fs.super_block.block_group_count, 1);
    assert_eq!(fs.super_block.inodes_per_group, 128);
    assert_eq!(fs.super_block.inode_size, 256);
    assert_eq!(fs.super_block.free_blocks_count, 51);
    assert_eq!(fs.block_groups[0].inode_table(), 4);
    assert_eq!(fs.block_groups[0].block_bitmap, 2);
    assert_eq!(fs.block_groups[0].inner.used_dirs_count, 1);
}

#[test]
fn blocks_are_taken_and_given_back() {
    let mut fs = mount();
    fs.block_device.data[13 * BS] = 7;
    assert_eq!(fs.alloc_one_block(), 13);
    assert_eq!(fs.block_device.data[13 * BS], 0);
    assert_eq!(fs.block_device.data[2 * BS + 1], 0x3F);
    assert_eq!(fs.super_block.free_blocks_count, 50);
    assert_eq!(fs.block_groups[0].inner.free_blocks_count, 50);
    fs.dealloc_block(13, 1);
    assert_eq!(fs.block_device.data[2 * BS + 1], 0x1F);
    assert_eq!(fs.super_block.free_blocks_count, 51);
    assert_eq!(fs.alloc_one_block(), 13);
}

#[test]
fn runs_of_blocks_are_taken_widest_first() {
    let mut fs = mount();
    // Blocks 14 and 15 free between used ones, then a wide stretch from 17 on.
    fs.block_device.data[2 * BS + 1] = 0x3F;
    fs.block_device.data[2 * BS + 2] = 0x01;
    assert_eq!(fs.alloc_block(3), vec![(17, 3)]);
    assert_eq!(fs.super_block.free_blocks_count, 48);
    assert_eq!(fs.alloc_block(46), vec![(20, 44), (14, 2)]);
    assert!(fs.alloc_block(1).is_empty());
}

#[test]
fn inodes_are_taken_and_given_back() {
    let mut fs = mount();
    assert_eq!(fs.alloc_inode(true), 12);
    assert_eq!(fs.block_groups[0].inner.used_dirs_count, 2);
    assert_eq!(fs.super_block.free_inodes_count, 116);
    assert_eq!(fs.block_device.data[3 * BS + 1], 0x0F);
    let mut disk = Ext4InodeDisk::default();
    disk.mode = S_IFDIR;
    disk.set_size(5);
    disk.block[0] = 9;
    write_inode(&Ext4Inode::new_device(disk, 12), 12, &mut fs);
    fs.dealloc_inode(12, true);
    assert_eq!(fs.block_device.data[3 * BS + 1], 0x07);
    assert_eq!(fs.block_groups[0].inner.used_dirs_count, 1);
    let freed = load_inode(12, &fs);
    assert_eq!(freed.inner.inode_on_disk.mode, 0);
    assert_eq!(freed.inner.inode_on_disk.dtime, 66666666);
    assert_eq!(freed.inner.inode_on_disk.block[0], 0);
    assert_eq!(freed.get_size(), 0);
    fs.add_orphan_inode(12);
    assert_eq!(fs.super_block.orphan_inodes, vec![12]);
}

#[test]
fn stored_inode_is_loaded() {
    let mut fs = mount();
    let mut inode = Ext4Inode::new(S_IFREG | 0o644, EXT4_EXTENTS_FL, 20, 3, 4, 0);
    inode.set_size(0x1_2345_6789);
    write_inode(&inode, 20, &mut fs);
    let back = load_inode(20, &fs);
    assert_eq!(back.get_size(), 0x1_2345_6789);
    assert_eq!(back.inner.inode_on_disk.mode, S_IFREG | 0o644);
    assert_eq!(back.inner.inode_on_disk.uid, 3);
    assert_eq!(back.inner.inode_on_disk.gid, 4);
    assert_eq!(&back.inner.inode_on_disk.block[..12], &[0x0A, 0xF3, 0, 0, 4, 0, 0, 0, 0, 0, 0, 0]);
    assert_eq!(back.ino_2_blockid_and_offset(&fs), (5, 3 * 256));
}

#[test]
fn root_directory_has_its_own_entries() {
    let fs = mount();
    let mut root = load_inode(2, &fs);
    assert!(root.is_dir());
    assert!(root.can_lookup());
    assert_eq!(root.lookup(&fs, ".").unwrap().inode_num, 2);
    assert_eq!(root.lookup(&fs, "..").unwrap().file_type, EXT4_DT_DIR);
    assert!(root.lookup(&fs, "etc").is_none());
    let again = Ext4Inode::new_root(&fs, &fs.block_groups[0]);
    assert_eq!(again.get_size(), 4096);
    assert_eq!(again.inode_num, 2);
}

#[test]
fn created_file_is_found_written_and_read() {
    let mut fs = mount();
    let mut root = load_inode(2, &fs);
    let mut entry = new_entry("hello");
    ops::create(&mut root, &mut fs, &mut entry, 0o644);
    assert!(!entry.is_negative());
    assert!(entry.flags.contains(DentryFlags::REGULAR()));
    let found = root.lookup(&fs, "hello").unwrap();
    assert_eq!(found.inode_num, 12);
    assert_eq!(found.file_type, EXT4_DT_REG);
    let file = entry.inode.as_mut().unwrap();
    assert!(file.has_inline_data());
    // Within the inode.
    assert_eq!(file.write(&mut fs, 0, b"some words"), 10);
    assert_eq!(file.get_size(), 10);
    let mut buf = [0u8; 16];
    assert_eq!(file.read(&fs, 5, &mut buf).unwrap(), 5);
    assert_eq!(&buf[..5], b"words");
    assert_eq!(file.read(&fs, 10, &mut buf).unwrap(), 0);
    // Out of the inode, over a page boundary.
    let data: Vec<u8> = (0..5000).map(|i| (i % 251) as u8).collect();
    assert_eq!(file.write(&mut fs, 0, &data), 5000);
    assert!(!file.has_inline_data());
    assert_eq!(file.get_size(), 5000);
    assert_eq!(file.get_blocks(), 10);
    let mut back = vec![0u8; 6000];
    assert_eq!(file.read(&fs, 0, &mut back).unwrap(), 5000);
    assert_eq!(&back[..5000], &data[..]);
    assert!(back[5000..].iter().all(|&b| b == 0));
}

#[test]
fn lookup_through_the_cache_entry() {
    let mut fs = mount();
    let mut root = load_inode(2, &fs);
    let mut entry = new_entry("a");
    ops::mkdir(&mut root, &mut fs, &mut entry, 0o755);
    let d = ops::lookup(&mut root, &fs, "a", 7, "/").unwrap();
    assert_eq!(d.absolute_path, "//a");
    assert_eq!(d.get_last_name(), "a");
    assert_eq!(d.parent, Some(7));
    assert!(d.flags.contains(DentryFlags::DIRECTORY()));
    assert_eq!(d.inode.as_ref().unwrap().inode_num, 12);
    let n = ops::lookup(&mut root, &fs, "b", 7, "/").unwrap();
    assert!(n.is_negative());
    assert!(n.inode.is_none());
    // An entry that refers to an inode without a place.
    root.add_entry(&mut fs, "odd", 100000, EXT4_DT_REG);
    assert!(ops::lookup(&mut root, &fs, "odd", 7, "/").is_none());
    assert!(!ops::is_loadable(&fs, 0));
    assert!(ops::is_loadable(&fs, 128));
    assert!(!ops::is_loadable(&fs, 129));
}

#[test]
fn unlinked_name_is_not_found() {
    let mut fs = mount();
    let mut root = load_inode(2, &fs);
    let mut one = new_entry("one");
    ops::create(&mut root, &mut fs, &mut one, 0o600);
    let mut two = new_entry("two");
    ops::create(&mut root, &mut fs, &mut two, 0o600);
    assert_eq!(ops::unlink(&mut root, &mut fs, &one), Ok(0));
    assert!(root.lookup(&fs, "one").is_none());
    assert_eq!(root.lookup(&fs, "two").unwrap().inode_num, 13);
    assert_eq!(ops::unlink(&mut root, &mut fs, &one), Err(Errno::ENOENT));
    let none: Dentry<Ext4Inode> = new_entry("three");
    assert_eq!(ops::unlink(&mut root, &mut fs, &none), Err(Errno::ENOENT));
}

#[test]
fn entry_can_be_redirected() {
    let mut fs = mount();
    let mut root = load_inode(2, &fs);
    root.add_entry(&mut fs, "x", 30, EXT4_DT_REG);
    root.set_entry(&mut fs, "x", 31, EXT4_DT_LNK);
    let e = root.lookup(&fs, "x").unwrap();
    assert_eq!((e.inode_num, e.file_type), (31, EXT4_DT_LNK));
    assert!(root.set_entry_if_present(&mut fs, "x", 32, EXT4_DT_REG));
    assert!(!root.set_entry_if_present(&mut fs, "y", 33, EXT4_DT_REG));
    assert_eq!(root.lookup(&fs, "x").unwrap().inode_num, 32);
}

#[test]
fn full_directory_gets_a_page() {
    let mut fs = mount();
    let mut root = load_inode(2, &fs);
    for i in 0..250 {
        root.add_entry(&mut fs, &format!("file{:03}xx", i), 40 + i, EXT4_DT_REG);
    }
    assert_eq!(root.get_size(), 8192);
    assert_eq!(root.lookup(&fs, "file249xx").unwrap().inode_num, 289);
    assert_eq!(root.lookup(&fs, "file000xx").unwrap().inode_num, 40);
}

#[test]
fn directory_listing_can_be_printed() {
    let mut fs = mount();
    let mut root = load_inode(2, &fs);
    root.add_entry(&mut fs, "alpha", 20, EXT4_DT_REG);
    root.add_entry(&mut fs, "beta", 21, EXT4_DT_DIR);
    let mut buf = [0u8; 256];
    let (read, used) = root.getdents(&fs, &mut buf, 0).unwrap();
    assert_eq!(read, 4096);
    assert_eq!(used, 24 + 24 + 32 + 24);
    assert_eq!(ls_main(&buf), b"alpha  beta  \n");
    // No room for the third entry.
    let mut small = [0u8; 60];
    let (_, used) = root.getdents(&fs, &mut small, 0).unwrap();
    assert_eq!(used, 48);
    root.sub_nlinks();
    root.sub_nlinks();
    assert_eq!(root.getdents(&fs, &mut buf, 0), Err(Errno::ENOENT));
}

#[test]
fn links_are_short_or_long() {
    let mut fs = mount();
    let mut root = load_inode(2, &fs);
    let mut short = new_entry("s");
    ops::symlink(&mut root, &mut fs, &mut short, "/bin/sh");
    let mut reloaded = load_inode(12, &fs);
    assert_eq!(reloaded.read_link(&fs).unwrap(), "/bin/sh");
    assert_eq!(reloaded.read_link(&fs).unwrap(), "/bin/sh");
    let target = "d/".repeat(40);
    let mut long = new_entry("l");
    ops::symlink(&mut root, &mut fs, &mut long, &target);
    assert_eq!(long.inode.as_mut().unwrap().read_link(&fs).unwrap(), target);
    assert!(long.flags.contains(DentryFlags::SYMLINK()));
    let mut dir = load_inode(2, &fs);
    assert_eq!(dir.read_link(&fs), Err(Errno::EINVAL));
}

#[test]
fn device_nodes_keep_their_numbers() {
    let mut fs = mount();
    let mut root = load_inode(2, &fs);
    let mut chr = new_entry("tty");
    ops::mknod(&mut root, &mut fs, &mut chr, S_IFCHR | 0o600, (5 << 32) | 1);
    let back = load_inode(12, &fs);
    assert_eq!(back.inner.inode_on_disk.get_devt(), (5, 1));
    assert_eq!(back.getattr(&fs).file_type, FileType::ChrDev);
    let mut blk = new_entry("vda");
    ops::mknod(&mut root, &mut fs, &mut blk, S_IFBLK | 0o600, 7);
    assert_eq!(load_inode(13, &fs).getattr(&fs).file_type, FileType::BlkDev);
    assert!(blk.flags.contains(DentryFlags::SPECIAL()));
}

#[test]
fn direct_writes_go_to_the_device() {
    let mut fs = mount();
    let mut file = Ext4Inode::new(S_IFREG, EXT4_EXTENTS_FL, 20, 0, 0, 0);
    let data = vec![0x5Au8; 4096 + 100];
    assert_eq!(file.write_direct(&mut fs, 0, &data), 4196);
    assert_eq!(file.get_size(), 4196);
    assert!(fs.block_device.data[13 * BS..14 * BS].iter().all(|&b| b == 0x5A));
    assert_eq!(fs.block_device.data[14 * BS + 99], 0x5A);
    assert_eq!(fs.block_device.data[14 * BS + 100], 0);
    let mut back = vec![0u8; 4196];
    assert_eq!(file.read(&fs, 0, &mut back).unwrap(), 4196);
    assert_eq!(back, data);
    assert_eq!(file.lookup_extent(&fs, 1).unwrap().physical_start_block(), 13);
    assert_eq!(file.lookup_extent(&fs, 1).unwrap().len, 2);
    assert!(file.lookup_extent(&fs, 2).is_none());
}

#[test]
fn holes_read_as_zeros() {
    let mut fs = mount();
    let mut file = Ext4Inode::new(S_IFREG, EXT4_EXTENTS_FL, 20, 0, 0, 0);
    file.set_size(10000);
    let mut buf = vec![1u8; 10];
    assert_eq!(file.read(&fs, 9995, &mut buf).unwrap(), 5);
    assert_eq!(buf, [0, 0, 0, 0, 0, 1, 1, 1, 1, 1]);
    assert_eq!(file.get_page_cache(&mut fs, 3), None);
    assert_eq!(file.get_page_cache(&mut fs, 1), Some(1));
    assert_eq!(file.get_page_caches(&mut fs, 0, 9), vec![0, 1, 2]);
    assert_eq!(file.address_space.page_count(), 3);
}

#[test]
fn fifth_extent_splits_the_root() {
    let mut fs = mount();
    let mut file = Ext4Inode::new(S_IFREG, EXT4_EXTENTS_FL, 20, 0, 0, 0);
    for i in 0..4u32 {
        file.insert_extent(10 * i, 40 + 2 * i as u64, 1, &mut fs).unwrap();
    }
    assert_eq!(file.inner.inode_on_disk.block[6], 0);
    file.insert_extent(50, 60, 1, &mut fs).unwrap();
    let h = &file.inner.inode_on_disk.block;
    assert_eq!((h[2], h[6]), (2, 1));
    assert_eq!(file.lookup_extent(&fs, 0).unwrap().physical_start_block(), 40);
    assert_eq!(file.lookup_extent(&fs, 10).unwrap().physical_start_block(), 42);
    let mut all = Vec::new();
    file.inner.inode_on_disk.iter_all_extents(&fs.block_device, BS, &mut all);
    let starts: Vec<u32> = all.iter().map(|e| e.logical_block).collect();
    assert_eq!(starts, [0, 10, 20, 30]);
    // The leaves are on the device, and every block is found in its leaf; the
    // leaf that took the fifth extent was changed in memory only.
    assert_eq!(file.lookup_extent(&fs, 20).unwrap().physical_start_block(), 44);
    assert_eq!(file.lookup_extent(&fs, 30).unwrap().physical_start_block(), 46);
    assert!(file.lookup_extent(&fs, 50).is_none());
    let before = fs.block_device.data.clone();
    file.insert_extent(31, 47, 1, &mut fs).unwrap();
    assert!(fs.block_device.data == before);
    assert!(file.lookup_extent(&fs, 31).is_none());
}

#[test]
fn blocks_of_a_deep_tree_are_found() {
    let mut fs = mount();
    let mut file = Ext4Inode::new(S_IFREG, EXT4_EXTENTS_FL, 20, 0, 0, 0);
    let mut left = Ext4ExtentBlock::new(vec![0u8; 4096]);
    left.init_as_leaf(&vec![Ext4Extent::new(0, 2, 40)]);
    let mut right = Ext4ExtentBlock::new(vec![0u8; 4096]);
    right.init_as_leaf(&vec![Ext4Extent::new(10, 4, 50)]);
    fs.block_device.data[20 * BS..21 * BS].copy_from_slice(&left.into_block());
    fs.block_device.data[21 * BS..22 * BS].copy_from_slice(&right.into_block());
    let root = &mut file.inner.inode_on_disk.block;
    root[2] = 2;
    root[6] = 1;
    root[16] = 20;
    root[24] = 10;
    root[28] = 21;
    let e = file.lookup_extent(&fs, 12).unwrap();
    assert_eq!((e.logical_block, e.len), (10, 4));
    assert_eq!(file.lookup_extent(&fs, 1).unwrap().logical_block, 0);
    assert!(file.lookup_extent(&fs, 5).is_none());
    assert!(file.lookup_extent(&fs, 14).is_none());
    // No child starts at or below the block.
    file.inner.inode_on_disk.block[12] = 3;
    assert_eq!(file.insert_extent(2, 60, 1, &mut fs), Err("No valid extent index found"));
}

#[test]
fn flushed_pages_reach_the_device() {
    let mut fs = mount();
    let mut root = load_inode(2, &fs);
    let mut entry = new_entry("data");
    ops::create(&mut root, &mut fs, &mut entry, 0o644);
    let file = entry.inode.as_mut().unwrap();
    let data: Vec<u8> = (0..9000).map(|i| (i % 241) as u8).collect();
    file.write(&mut fs, 0, &data);
    assert_eq!(file.fsync(&mut fs), Ok(0));
    let mut again = load_inode(file.inode_num, &fs);
    assert_eq!(again.get_size(), 9000);
    let mut back = vec![0u8; 9000];
    assert_eq!(again.read(&fs, 0, &mut back), Ok(9000));
    assert_eq!(back, data);
    // Data that the inode holds itself is stored with it.
    let mut short = new_entry("short");
    ops::create(&mut root, &mut fs, &mut short, 0o644);
    let file = short.inode.as_mut().unwrap();
    file.write(&mut fs, 0, b"few bytes");
    file.fsync(&mut fs).unwrap();
    let mut again = load_inode(file.inode_num, &fs);
    let mut back = [0u8; 9];
    assert_eq!(again.read(&fs, 0, &mut back), Ok(9));
    assert_eq!(&back, b"few bytes");
    // A file that skips a page gets places for what it holds.
    let mut late = new_entry("late");
    ops::create(&mut root, &mut fs, &mut late, 0o644);
    let file = late.inode.as_mut().unwrap();
    file.write(&mut fs, 0, b"head");
    file.write(&mut fs, 8192, b"tail");
    file.fsync(&mut fs).unwrap();
    let mut again = load_inode(file.inode_num, &fs);
    let mut back = vec![0u8; 8196];
    assert_eq!(again.read(&fs, 0, &mut back), Ok(8196));
    assert_eq!(&back[..4], b"head");
    assert!(back[4..8192].iter().all(|b| *b == 0));
    assert_eq!(&back[8192..], b"tail");
}

#[test]
fn added_names_leave_the_others() {
    let mut dir = Ext4DirContentWE::new(vec![0u8; BS]);
    dir.init_dot_dotdot(2, 2, BS);
    for (i, name) in ["one", "two", "three"].iter().enumerate() {
        dir.add_entry(name, 20 + i as u32, EXT4_DT_REG).unwrap();
    }
    let content = dir.into_content();
    let ro = Ext4DirContentRO::new(&content);
    assert_eq!(ro.find("..").unwrap().inode_num, 2);
    assert_eq!(ro.find("one").unwrap().inode_num, 20);
    assert_eq!(ro.find("two").unwrap().inode_num, 21);
    assert_eq!(ro.find("three").unwrap().inode_num, 22);
    assert!(ro.find("four").is_none());
    let mut at = 0;
    while at < BS {
        at += u16::from_le_bytes([content[at + 4], content[at + 5]]) as usize;
    }
    assert_eq!(at, BS);
}

#[test]
fn extents_grow_and_keep_their_order() {
    let mut fs = mount();
    let mut file = Ext4Inode::new(S_IFREG, EXT4_EXTENTS_FL, 20, 0, 0, 0);
    file.insert_extent(5, 30, 2, &mut fs).unwrap();
    file.insert_extent(1, 50, 1, &mut fs).unwrap();
    file.insert_extent(7, 32, 3, &mut fs).unwrap();
    let mut all = Vec::new();
    file.inner.inode_on_disk.iter_all_extents(&fs.block_device, BS, &mut all);
    assert_eq!(all, vec![Ext4Extent::new(1, 1, 50), Ext4Extent::new(5, 5, 30)]);
}

#[test]
fn truncation_gives_blocks_back() {
    let mut fs = mount();
    let mut file = Ext4Inode::new(S_IFREG, EXT4_EXTENTS_FL, 20, 0, 0, 0);
    file.write(&mut fs, 0, &vec![7u8; 9000]);
    let free = fs.super_block.free_blocks_count;
    assert_eq!(file.truncate(&mut fs, 9000), Ok(0));
    assert_eq!(file.truncate(&mut fs, 0), Ok(0));
    assert_eq!(file.get_size(), 0);
    assert!(fs.super_block.free_blocks_count > free);
    assert!(file.lookup_extent(&fs, 0).is_none());
    assert_eq!(file.truncate(&mut fs, 600), Ok(0));
    assert_eq!((file.get_size(), file.get_blocks()), (600, 2));
}

#[test]
fn seals_forbid_truncation() {
    let mut fs = mount();
    let mut file = Ext4Inode::new(S_IFREG, EXT4_INLINE_DATA_FL, 20, 0, 0, 2 | 4);
    file.write(&mut fs, 0, b"abc");
    assert_eq!(file.get_seals(), 6);
    assert_eq!(file.truncate(&mut fs, 1), Err(Errno::EPERM));
    assert_eq!(file.truncate(&mut fs, 9), Err(Errno::EPERM));
    assert_eq!(file.fallocate(&mut fs, FallocFlags::empty(), 0, 9), Err(Errno::EPERM));
}

#[test]
fn inline_file_grows_and_shrinks() {
    let mut fs = mount();
    let mut file = Ext4Inode::new(S_IFREG, EXT4_INLINE_DATA_FL, 20, 0, 0, 0);
    assert_eq!(file.write_inline_data_dio(0, b"abcdef"), 6);
    assert_eq!(file.truncate(&mut fs, 4), Ok(0));
    let mut buf = [9u8; 6];
    assert_eq!(file.read_inline_data_dio(1, &mut buf), 3);
    assert_eq!(&buf, &[b'b', b'c', b'd', 9, 9, 9]);
    assert_eq!(file.inner.inode_on_disk.block[4], 0);
    assert_eq!(file.write_inline_data_dio(58, b"long"), 2);
    assert_eq!(file.get_size(), 60);
    assert_eq!(file.truncate(&mut fs, 5000), Ok(0));
    assert_eq!(file.get_flags(), EXT4_EXTENTS_FL);
}

#[test]
fn space_is_allocated_and_punched() {
    let mut fs = mount();
    let mut file = Ext4Inode::new(S_IFREG, EXT4_EXTENTS_FL, 20, 0, 0, 0);
    assert_eq!(file.fallocate(&mut fs, FallocFlags::KEEP_SIZE(), 0, 8192), Ok(0));
    assert_eq!(file.get_size(), 0);
    assert_eq!(file.fallocate(&mut fs, FallocFlags::empty(), 0, 12288), Ok(0));
    assert_eq!(file.get_size(), 12288);
    let free = fs.super_block.free_blocks_count;
    assert_eq!(file.fallocate(&mut fs, FallocFlags(3), 0, 4096), Ok(0));
    assert_eq!(fs.super_block.free_blocks_count, free + 1);
    assert_eq!(file.fallocate(&mut fs, FallocFlags(8), 0, 1), Err(Errno::ENOSYS));
    assert_eq!(file.fallocate(&mut fs, FallocFlags::empty(), 0, 314572800), Ok(0));
    assert_eq!(file.get_size(), 12288);
    assert_eq!(
        file.fallocate(&mut fs, FallocFlags::empty(), 0, 4096 * 200),
        Err(Errno::ENOSPC)
    );
}

#[test]
fn released_file_without_links_gives_its_blocks_back() {
    let mut fs = mount();
    let before = fs.super_block.free_blocks_count;
    let mut file = Ext4Inode::new(S_IFREG, EXT4_EXTENTS_FL, 20, 0, 0, 0);
    file.write_direct(&mut fs, 0, &vec![1u8; 8192]);
    assert!(fs.super_block.free_blocks_count < before);
    file.sub_nlinks();
    file.release(&mut fs);
    assert_eq!(fs.super_block.free_blocks_count, before);
    let mut small = Ext4Inode::new(S_IFREG, EXT4_INLINE_DATA_FL, 21, 0, 0, 0);
    small.write(&mut fs, 0, b"kept");
    small.release(&mut fs);
    let mut back = load_inode(21, &fs);
    assert_eq!(&back.inner.inode_on_disk.block[..4], b"kept");
    assert_eq!(back.fsync(&mut fs), Ok(0));
}

#[test]
fn attributes_are_kept_by_name() {
    let mut file = Ext4Inode::new(S_IFREG, 0, 20, 0, 0, 0);
    let create = SetXattrFlags::CREATE();
    let replace = SetXattrFlags::REPLACE();
    assert_eq!(file.setxattr("user.a".to_string(), vec![1], &create), Ok(0));
    assert_eq!(file.setxattr("user.a".to_string(), vec![2], &create), Err(Errno::EEXIST));
    assert_eq!(file.setxattr("user.b".to_string(), vec![3], &replace), Err(Errno::EINVAL));
    assert_eq!(file.setxattr("user.a".to_string(), vec![4, 5], &replace), Ok(0));
    assert_eq!(file.setxattr("user.b".to_string(), vec![6], &SetXattrFlags(0)), Ok(0));
    assert_eq!(file.getxattr("user.a"), Ok(vec![4, 5]));
    assert_eq!(file.getxattr("user.c"), Err(Errno::EINVAL));
    let mut names = file.listxattr().unwrap();
    names.sort();
    assert_eq!(names, vec!["user.a".to_string(), "user.b".to_string()]);
    assert_eq!(file.removexattr("user.a"), Ok(0));
    assert_eq!(file.removexattr("user.a"), Err(Errno::EINVAL));
    assert_eq!(file.listxattr().unwrap(), vec!["user.b".to_string()]);
}

#[test]
fn metadata_of_a_file() {
    let fs = mount();
    let root = load_inode(2, &fs);
    let st = root.getattr(&fs);
    assert_eq!((st.ino, st.mode, st.nlink, st.size), (2, 0x41ED, 2, 4096));
    assert_eq!((st.blksize, st.rdev, st.file_type), (4096, 0, FileType::Dir));
    let mut dir = Ext4Inode::new(S_IFDIR | S_ISGID, 0, 20, 0, 9, 0);
    assert_eq!(dir.child_uid_gid(), (0, 9));
    dir.set_mode(S_IFDIR);
    assert_eq!(dir.child_uid_gid(), (0, 0));
    dir.add_nlinks();
    assert_eq!(dir.get_nlinks(), 2);
}

#[test]
fn times_keep_their_seconds() {
    let mut d = Ext4InodeDisk::default();
    d.set_atime(TimeSpec { sec: 0x3_0000_0005, nsec: 7 });
    assert_eq!((d.atime, d.atime_extra), (5, 7 * 4 + 3));
    assert_eq!(d.get_atime(), TimeSpec { sec: 0x3_0000_0005, nsec: 31 });
    d.set_mtime(TimeSpec { sec: -1, nsec: -1 });
    assert_eq!((d.modify_file_time, d.modify_file_time_extra), (0xFFFF_FFFF, 0xFFFF_FFFF));
    d.set_ctime(TimeSpec { sec: 9, nsec: 0 });
    assert_eq!(d.get_ctime(), TimeSpec { sec: 9, nsec: 0 });
    d.set_perm(0o7777);
    assert_eq!(d.get_perm(), 0o7777);
    d.set_uid(0x1_0002);
    assert_eq!(d.get_uid(), 2);
}

#[test]
fn bitmap_takes_and_frees() {
    let mut bytes = vec![0xFFu8; 4096];
    bytes[1] = 0b1010_0111;
    bytes[2] = 0;
    let mut map = Ext4Bitmap::new(bytes);
    assert_eq!(map.alloc_bit(4096), Some(11));
    assert_eq!(map.alloc_contiguous(4096, 3), Some((16, 3)));
    assert_eq!(map.alloc_contiguous(4096, 100), Some((19, 5)));
    map.dealloc(11, 1);
    assert_eq!(map.alloc_contiguous(1, 1), None);
    assert_eq!(map.alloc_bit(4096), Some(12));
    map.dealloc(12, 4096);
    map.dealloc_contiguous(16, 8, 4096);
    assert_eq!(map.alloc_contiguous(4096, 0), Some((16, 8)));
    map.dealloc_contiguous(16, 8, 9);
    assert_eq!(map.alloc_bit(0), None);
    let bytes = map.into_block();
    assert_eq!(bytes[2], 0xFF);
}

#[test]
fn directory_content_errors() {
    let mut short = Ext4DirContentWE::new(vec![0u8; 6]);
    assert_eq!(short.add_entry("a", 1, 1), Err("Invalid directory entry"));
    let mut zero = Ext4DirContentWE::new(vec![0u8; 64]);
    assert_eq!(zero.add_entry("a", 1, 1), Err("Invalid rec_len"));
    let mut data = vec![0u8; 16];
    data[4] = 16;
    data[6] = 200;
    let mut bad = Ext4DirContentWE::new(data);
    assert_eq!(bad.add_entry("a", 1, 1), Err("Corrupted directory entry"));
    assert_eq!(bad.set_entry("a", 1, 1), Err("DirEntry::try_from failed"));
    let mut dir = Ext4DirContentWE::new(vec![0u8; 64]);
    dir.init_dot_dotdot(2, 5, 64);
    assert_eq!(
        dir.add_entry("012345678901234567890123456789012345", 9, 1),
        Err("No space left in directory block")
    );
    assert_eq!(dir.add_entry("name", 9, 1), Ok(()));
    assert_eq!(dir.set_entry("none", 9, 1), Err("Entry not found"));
    assert_eq!(dir.delete_entry("none", 9), Err(Errno::ENOENT));
    assert_eq!(dir.delete_entry(".", 5), Ok(()));
    let content = dir.into_content();
    let ro = Ext4DirContentRO::new(&content);
    assert_eq!(ro.find("name").unwrap().inode_num, 9);
    assert_eq!(ro.find(".").unwrap().inode_num, 0);
    assert_eq!(ro.find("..").unwrap().inode_num, 2);
}

#[test]
fn ill_formed_names_show_replacement_characters() {
    let mut data = vec![0u8; 16];
    data[0] = 3;
    data[4] = 16;
    data[6] = 2;
    data[8] = b'a';
    data[9] = 0xFF;
    let ro = Ext4DirContentRO::new(&data);
    assert_eq!(ro.find("a\u{FFFD}").unwrap().inode_num, 3);
    assert!(ro.find("a").is_none());
}

#[test]
fn dirent_layout() {
    let d = LinuxDirent64 { d_ino: 5, d_off: 32, d_reclen: 24, d_type: 4, d_name: b"ab".to_vec() };
    let mut buf = [0xEEu8; 26];
    d.write_to_mem(&mut buf, 1, 24);
    assert_eq!(&buf[1..9], &5u64.to_le_bytes());
    assert_eq!(&buf[9..17], &32u64.to_le_bytes());
    assert_eq!(&buf[17..23], &[24, 0, 4, b'a', b'b', 0]);
    assert_eq!((buf[0], buf[23]), (0xEE, 0xEE));
}

#[test]
fn extent_blocks_hold_leaves() {
    let mut b = Ext4ExtentBlock::new(vec![0xAAu8; 4096]);
    b.init_as_leaf(&vec![Ext4Extent::new(4, 2, 0x1_0000_0009)]);
    assert_eq!(b.insert_extent(6, 0x1_0000_000B, 1), Ok(()));
    assert_eq!(b.insert_extent(0, 77, 1), Ok(()));
    let disk = RamDisk { data: Vec::new() };
    let e = b.lookup_extent(6, &disk, 4096).unwrap();
    assert_eq!((e.logical_block, e.len, e.physical_start_block()), (4, 3, 0x1_0000_0009));
    assert!(b.lookup_extent(1, &disk, 4096).is_none());
    let mut all = Vec::new();
    b.iter_all_extents(&disk, 4096, &mut all);
    assert_eq!(all.len(), 2);
    assert_eq!(all[0].logical_block, 0);
    assert_eq!(Ext4ExtentIdx::new(3, 0x2_0000_0001).physical_leaf_block(), 0x2_0000_0001);
    assert_eq!(Ext4ExtentHeader::new_root().max, 4);
}

#[test]
fn inner_nodes_lead_to_their_leaves() {
    let mut d = vec![0u8; 4 * 4096];
    let mut left = Ext4ExtentBlock::new(vec![0u8; 4096]);
    left.init_as_leaf(&vec![Ext4Extent::new(0, 5, 100)]);
    let mut right = Ext4ExtentBlock::new(vec![0u8; 4096]);
    right.init_as_leaf(&vec![Ext4Extent::new(10, 5, 200)]);
    d[4096..8192].copy_from_slice(&left.into_block());
    d[8192..12288].copy_from_slice(&right.into_block());
    let disk = RamDisk { data: d };
    let mut node = vec![0u8; 4096];
    node[0] = 0x0A;
    node[1] = 0xF3;
    node[2] = 2;
    node[6] = 1;
    node[16] = 1;
    node[24] = 10;
    node[28] = 2;
    let b = Ext4ExtentBlock::new(node);
    assert_eq!(b.lookup_extent(12, &disk, 4096).unwrap().physical_start_block(), 200);
    assert_eq!(b.lookup_extent(3, &disk, 4096).unwrap().physical_start_block(), 100);
    assert!(b.lookup_extent(7, &disk, 4096).is_none());
    let mut all = Vec::new();
    b.iter_all_extents(&disk, 4096, &mut all);
    assert_eq!(all.len(), 2);
}

#[test]
fn allocations_never_repeat() {
    let mut fs = mount();
    let mut seen = vec![fs.alloc_one_block()];
    for _ in 0..5 {
        let b = fs.alloc_one_block();
        assert!(!seen.contains(&b));
        seen.push(b);
    }
    let dir = fs.alloc_inode(true);
    let file = fs.alloc_inode(false);
    assert_ne!(dir, file);
    fs.dealloc_block(seen[2], 1);
    assert_eq!(fs.alloc_one_block(), seen[2]);
}

#[test]
fn the_vfs_reads_lists_and_unlinks() {
    let mut fs = mount();
    let mut root = load_inode(2, &fs);
    let mut entry = new_entry("hello");
    ops::create(&mut root, &mut fs, &mut entry, 0o644);
    let file = entry.inode.as_mut().unwrap();
    file.write(&mut fs, 0, b"some words");
    let mut buf = [0u8; 8];
    assert_eq!(ops::read(file, &fs, 5, &mut buf), 5);
    assert_eq!(&buf, b"words\0\0\0");
    assert_eq!(ops::read(file, &fs, 10, &mut buf), 0);
    let mut list = [0u8; 256];
    assert!(is_listing(&list));
    assert_eq!(ops::getdents(&mut root, &fs, 0, &mut list), (24 + 24 + 32, 4096));
    assert!(is_listing(&list));
    assert_eq!(ls_main(&list), b"hello  \n");
    // A listing goes on from the offset that it returned.
    let mut first = [0u8; 24];
    let (n, next) = ops::getdents(&mut root, &fs, 0, &mut first);
    assert_eq!((n, next), (24, 24));
    let mut rest = [0u8; 64];
    assert_eq!(ops::getdents(&mut root, &fs, next, &mut rest), (32, 4096));
    assert_eq!(ops::getdents(&mut root, &fs, 4096, &mut rest), (0, 4096));
    assert_eq!(ops::unlink_name(&mut root, &mut fs, "hello", None), Err(Errno::ENOENT));
    assert_eq!(ops::unlink_name(&mut root, &mut fs, "gone", Some(12)), Err(Errno::ENOENT));
    assert_eq!(ops::unlink_name(&mut root, &mut fs, "hello", Some(12)), Ok(0));
    assert!(root.lookup(&fs, "hello").is_none());
    let mut bad = [0u8; 32];
    bad[16] = 18;
    assert!(!is_listing(&bad));
}

#[test]
fn writing_one_file_leaves_the_others() {
    let mut fs = mount();
    let mut root = load_inode(2, &fs);
    let mut a = new_entry("a");
    ops::create(&mut root, &mut fs, &mut a, 0o644);
    let mut b = new_entry("b");
    ops::create(&mut root, &mut fs, &mut b, 0o644);
    let other = b.inode.as_mut().unwrap();
    other.write_direct(&mut fs, 0, &[7u8; 5000]);
    write_inode(other, other.inode_num, &mut fs);
    let file = a.inode.as_mut().unwrap();
    assert_eq!(file.write(&mut fs, 0, &[9u8; 9000]), 9000);
    assert_eq!(file.write(&mut fs, 40960, &[9u8; 100]), 100);
    let mut again = load_inode(other.inode_num, &fs);
    let mut back = vec![0u8; 5000];
    assert_eq!(again.read(&fs, 0, &mut back), Ok(5000));
    assert!(back.iter().all(|x| *x == 7));
}

#[test]
fn a_write_changes_its_bytes_alone() {
    let mut fs = mount();
    let mut root = load_inode(2, &fs);
    let mut entry = new_entry("patched");
    ops::create(&mut root, &mut fs, &mut entry, 0o644);
    let file = entry.inode.as_mut().unwrap();
    let mut data: Vec<u8> = (0..20_000).map(|i| (i % 251) as u8).collect();
    file.write(&mut fs, 0, &data);
    file.fsync(&mut fs).unwrap();
    let num = file.inode_num;
    // Nothing is cached of the file that is loaded anew.
    let mut again = load_inode(num, &fs);
    assert_eq!(again.write(&mut fs, 4000, &[7; 200]), 200);
    assert_eq!(again.write(&mut fs, 30_000, b"far"), 3);
    data[4000..4200].copy_from_slice(&[7; 200]);
    data.resize(30_000, 0);
    data.extend_from_slice(b"far");
    assert_eq!(again.get_size(), 30_003);
    let mut back = vec![0u8; 30_003];
    assert_eq!(again.read(&fs, 0, &mut back), Ok(30_003));
    assert_eq!(back, data);
    again.fsync(&mut fs).unwrap();
    let mut last = load_inode(num, &fs);
    let mut back = vec![0u8; 30_003];
    assert_eq!(last.read(&fs, 0, &mut back), Ok(30_003));
    assert_eq!(back, data);
}
