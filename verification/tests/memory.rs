//! Physical memory, regions, page faults, and the caches of the file system.
use quackos::fs::dev::block_dev::{sector_chunks, BlockCache, BlockDevice, SectorChunk, BLOCK_CACHE_CAP};
use quackos::fs::page_cache::{AddressSpace, Page};
use quackos::fs::types::{Errno, FileType, OpenFlags};
use quackos::kernel::{AddressSpaceId, ChannelId, IpcPageFault, PageFaultCause};
use quackos::mm::allocator::{
    alloc_page, alloc_pages, free_count, free_page, free_pages, init, total_pages, BuddyAllocator,
    PhysMem,
};
use quackos::mm::page_fault::{resolve_page_fault, resolve_with_prefault};
use quackos::mm::server::{MmServer, MAX_PROCESSES};
use quackos::mm::types::{
    BatchMapping, BatchMappingArray, MmError, MmRequest, MmRequestOp, OomPolicy, VmPerms,
    VmRegionType, VmaEntry,
};
use quackos::mm::vma::{VmaManager, MAX_VMA_ENTRIES};

// ---------------------------------------------------------------------------
// Physical pages
// ---------------------------------------------------------------------------

#[test]
fn buddy_splits_and_merges() {
    let mut b = BuddyAllocator::new(0x4000_0000, 4 * 4096);
    assert_eq!((b.total_pages(), b.free_count(), b.used_pages()), (4, 4, 0));
    assert_eq!(b.alloc_block(0), Some(0));
    assert_eq!(b.alloc_block(0), Some(1));
    assert_eq!(b.alloc_block(2), None);
    assert_eq!(b.alloc_block(1), Some(2));
    assert_eq!(b.alloc_block(0), None);
    assert_eq!(b.alloc_block(11), None);
    assert_eq!((b.free_count(), b.used_pages()), (0, 4));
    b.free(2, 1);
    b.free(0, 0);
    assert_eq!(b.alloc_block(2), None);
    b.free(1, 0);
    assert_eq!(b.alloc_block(2), Some(0));
    // Freeing what was just allocated lets the same allocations succeed again.
    let mut b = BuddyAllocator::new(0, 1024 * 4096);
    assert_eq!(b.alloc_block(0), Some(0));
    b.free(0, 0);
    assert_eq!(b.free_count(), 1024);
    assert_eq!(b.alloc_block(10), Some(0));
}

#[test]
fn a_ragged_range_is_covered() {
    let mut b = BuddyAllocator::new(0, 7 * 4096 + 100);
    assert_eq!(b.total_pages(), 7);
    assert_eq!(b.alloc_block(2), Some(0));
    assert_eq!(b.alloc_block(1), Some(4));
    assert_eq!(b.alloc_page(), Some(6));
    assert_eq!(b.alloc_page(), None);
    b.free_page(6);
    assert_eq!(b.free_count(), 1);
}

#[test]
fn the_page_cache_refills_in_batches() {
    let mut mem = PhysMem::new();
    assert_eq!(alloc_page(&mut mem), None);
    assert_eq!((free_count(&mem), total_pages(&mem)), (0, 0));
    init(&mut mem, 0, 20 * 4096);
    assert_eq!((free_count(&mem), total_pages(&mem)), (20, 20));
    assert_eq!(alloc_page(&mut mem), Some(11));
    assert_eq!(free_count(&mem), 4);
    assert_eq!(alloc_page(&mut mem), Some(10));
    assert_eq!(free_count(&mem), 4);
    free_page(&mut mem, 11);
    assert_eq!(alloc_page(&mut mem), Some(11));
    assert_eq!(alloc_pages(&mut mem, 2), Some(12));
    assert_eq!(alloc_pages(&mut mem, 2), None);
    free_pages(&mut mem, 12, 2);
    assert_eq!(free_count(&mem), 4);
}

#[test]
fn every_page_is_handed_out_once() {
    let mut mem = PhysMem::new();
    init(&mut mem, 0, 100 * 4096);
    let mut seen = vec![false; 100];
    for _ in 0..100 {
        let p = alloc_page(&mut mem).unwrap();
        assert!(!seen[p]);
        seen[p] = true;
    }
    assert_eq!(alloc_page(&mut mem), None);
    for p in 0..100 {
        free_page(&mut mem, p);
    }
    // The cache holds at most 64 pages; it has drained 16 pages three times.
    assert_eq!(free_count(&mem), 48);
}

// ---------------------------------------------------------------------------
// Regions
// ---------------------------------------------------------------------------

#[test]
fn an_empty_region_is_refused() {
    let mut mgr = VmaManager::new();
    assert_eq!(mgr.insert(VmaEntry::new_data(0x2000, 0x2000)), Err(MmError::InvalidArgument));
    assert_eq!(mgr.remove(0x2000, 0x2000), Err(MmError::InvalidArgument));
    assert_eq!(mgr.split_at(0x2000), Err(MmError::NoVma));
    assert_eq!(mgr.extend_stack(0x1000), Err(MmError::NoVma));
}

#[test]
fn a_full_table_refuses_another_region() {
    let mut mgr = VmaManager::new();
    for i in 0..MAX_VMA_ENTRIES {
        let at = 0x10_0000 + i * 0x4000;
        assert_eq!(mgr.insert(VmaEntry::new_mmap(at, at + 0x3000, VmPerms::R())), Ok(()));
    }
    assert_eq!(mgr.insert(VmaEntry::new_data(0x1000, 0x2000)), Err(MmError::OutOfMemory));
    assert_eq!(mgr.split_at(0x10_1000), Err(MmError::OutOfMemory));
    assert_eq!(mgr.remove(0x10_1000, 0x10_2000), Err(MmError::OutOfMemory));
    assert_eq!(mgr.find(0x10_0000).unwrap().end_vaddr, 0x10_1000);
}

#[test]
fn the_stack_grows_down_to_its_neighbour() {
    let mut mgr = VmaManager::new();
    mgr.insert(VmaEntry::new_data(0x1000, 0x3000)).unwrap();
    mgr.insert(VmaEntry::new_stack(0x8000, 0x9000)).unwrap();
    assert_eq!(mgr.extend_stack(0x8000), Err(MmError::InvalidArgument));
    assert_eq!(mgr.extend_stack(0x2000), Err(MmError::VmaOverlap));
    assert_eq!(mgr.extend_stack(0x3000), Ok(()));
    assert_eq!(mgr.find(0x3000).unwrap().region_type, VmRegionType::Stack);
    let all = mgr.dump();
    assert_eq!(all.len(), 2);
    assert_eq!((all[1].start_vaddr, all[1].end_vaddr), (0x3000, 0x9000));
    assert_eq!(all[1].desc(), "stack");
}

#[test]
fn a_cut_through_several_regions() {
    let mut mgr = VmaManager::new();
    mgr.insert(VmaEntry::new_data(0x1000, 0x4000)).unwrap();
    mgr.insert(VmaEntry::new_code(0x4000, 0x5000)).unwrap();
    mgr.insert(VmaEntry::new_data(0x5000, 0x8000)).unwrap();
    mgr.remove(0x3000, 0x6000).unwrap();
    let all = mgr.dump();
    assert_eq!(all.len(), 2);
    assert_eq!((all[0].start_vaddr, all[0].end_vaddr), (0x1000, 0x3000));
    assert_eq!((all[1].start_vaddr, all[1].end_vaddr), (0x6000, 0x8000));
    assert!(!mgr.overlaps(0x3000, 0x6000));
    assert!(mgr.overlaps(0x5000, 0x6001));
}

#[test]
fn a_bridge_merges_both_sides() {
    let mut mgr = VmaManager::new();
    mgr.insert(VmaEntry::new_data(0x1000, 0x2000)).unwrap();
    mgr.insert(VmaEntry::new_data(0x3000, 0x4000)).unwrap();
    mgr.insert(VmaEntry::new_data(0x2000, 0x3000)).unwrap();
    assert_eq!(mgr.find(0x1000).unwrap().region_type, VmRegionType::Data);
    assert_eq!(mgr.len(), 1);
    let whole = mgr.find(0x2500).unwrap();
    assert_eq!((whole.start_vaddr, whole.end_vaddr), (0x1000, 0x4000));
    assert!(mgr.find(0x3FFF).is_some());
    assert!(mgr.is_valid_access(0x2800, VmPerms::RW()));
    assert!(!mgr.is_valid_access(0x2800, VmPerms::RX()));
}

#[test]
fn permission_bits() {
    assert_eq!(VmPerms::R().as_bits(), 9);
    assert_eq!(VmPerms::RW().as_bits(), 11);
    assert_eq!(VmPerms::RX().as_bits(), 13);
    assert_eq!(VmPerms::RWX().to_map_flags().0, 15);
    assert_eq!(VmPerms::NONE().as_bits(), 8);
}

// ---------------------------------------------------------------------------
// Page faults and the memory server
// ---------------------------------------------------------------------------

fn memory(pages: usize) -> PhysMem {
    let mut mem = PhysMem::new();
    init(&mut mem, 0, pages * 4096);
    mem
}

fn fault(vaddr: usize, cause: PageFaultCause) -> IpcPageFault {
    IpcPageFault { addr_space_id: AddressSpaceId(1), fault_vaddr: vaddr, cause }
}

#[test]
fn a_legitimate_fault_is_mapped() {
    let mut mem = memory(4);
    let mut mgr = VmaManager::new();
    mgr.insert(VmaEntry::new_code(0x1000, 0x2000)).unwrap();
    let r = resolve_page_fault(&fault(0x1234, PageFaultCause::Exec), &mut mgr, OomPolicy::Kill, &mut mem);
    assert_eq!(
        r,
        Ok(MmRequest::MapSingle { addr_space_id: AddressSpaceId(1), vaddr: 0x1234, paddr: 3, flags: 13 })
    );
}

#[test]
fn a_copy_on_write_page_becomes_writable() {
    let mut mem = memory(4);
    let mut mgr = VmaManager::new();
    let mut entry = VmaEntry::new_mmap(0x1000, 0x2000, VmPerms::RWX());
    entry.cow = true;
    mgr.insert(entry).unwrap();
    let load = fault(0x1000, PageFaultCause::Load);
    let r = resolve_page_fault(&load, &mut mgr, OomPolicy::Kill, &mut mem).unwrap();
    assert!(matches!(r, MmRequest::MapSingle { flags: 15, .. }));
    assert!(mgr.find(0x1000).unwrap().cow);
    let store = fault(0x1000, PageFaultCause::Store);
    let r = resolve_page_fault(&store, &mut mgr, OomPolicy::Kill, &mut mem).unwrap();
    assert!(matches!(r, MmRequest::MapSingle { flags: 11, .. }));
    assert!(!mgr.find(0x1000).unwrap().cow);
}

#[test]
fn copy_on_write_ends_for_the_page_alone() {
    let mut mem = memory(8);
    let mut mgr = VmaManager::new();
    let mut entry = VmaEntry::new_mmap(0x1000, 0x6000, VmPerms::RW());
    entry.cow = true;
    mgr.insert(entry).unwrap();
    let store = fault(0x3010, PageFaultCause::Store);
    resolve_page_fault(&store, &mut mgr, OomPolicy::Kill, &mut mem).unwrap();
    let all = mgr.dump();
    let parts: Vec<(usize, usize, bool)> =
        all.iter().map(|e| (e.start_vaddr, e.end_vaddr, e.cow)).collect();
    assert_eq!(
        parts,
        vec![(0x1000, 0x3000, true), (0x3000, 0x4000, false), (0x4000, 0x6000, true)]
    );
    // The next page joins the one before it.
    let store = fault(0x4000, PageFaultCause::Store);
    resolve_page_fault(&store, &mut mgr, OomPolicy::Kill, &mut mem).unwrap();
    assert_eq!(mgr.len(), 3);
    assert_eq!(mgr.find(0x3000).unwrap().end_vaddr, 0x5000);
    assert_eq!(mgr.end_cow(0x9000), Err(MmError::NoVma));
}

#[test]
fn a_full_table_ends_no_copy_on_write() {
    let mut mem = memory(8);
    let mut mgr = VmaManager::new();
    for i in 0..MAX_VMA_ENTRIES - 1 {
        let at = 0x10_0000 + i * 0x4000;
        let mut entry = VmaEntry::new_mmap(at, at + 0x3000, VmPerms::RW());
        entry.cow = true;
        mgr.insert(entry).unwrap();
    }
    let store = fault(0x10_1000, PageFaultCause::Store);
    let r = resolve_page_fault(&store, &mut mgr, OomPolicy::Kill, &mut mem).unwrap();
    assert!(matches!(r, MmRequest::MapSingle { vaddr: 0x10_1000, flags: 11, .. }));
    assert!(mgr.find(0x10_1000).unwrap().cow);
    assert_eq!(mgr.len(), MAX_VMA_ENTRIES - 1);
}

#[test]
fn a_heap_may_start_where_code_does() {
    let mut mm = MmServer::new(ChannelId(0));
    mm.register_process(1, AddressSpaceId(1)).unwrap();
    mm.init_process_vma(1, 0x20000, 0x30000, 0x10000, 0x20000, 0, 0, 0x20000).unwrap();
    let mgr = mm.vma_manager(1).unwrap();
    assert_eq!(mgr.len(), 4);
    assert_eq!(mgr.find(0x20000).unwrap().region_type, VmRegionType::Code);
    assert_eq!(mgr.find(0x1FFFF).unwrap().region_type, VmRegionType::Data);
    let kinds: Vec<VmRegionType> = mgr.dump().iter().map(|e| e.region_type).collect();
    assert_eq!(kinds[2], VmRegionType::Heap);
    // Inside another region there is no place for it.
    let mut mm = MmServer::new(ChannelId(0));
    mm.register_process(1, AddressSpaceId(1)).unwrap();
    let r = mm.init_process_vma(1, 0x20000, 0x30000, 0x10000, 0x20000, 0, 0, 0x21000);
    assert_eq!(r, Err(MmError::VmaOverlap));
}

#[test]
fn pages_freed_before_the_setup_are_handed_out_once() {
    let mut mem = PhysMem::new();
    free_page(&mut mem, 7);
    free_page(&mut mem, 9);
    assert_eq!(alloc_page(&mut mem), Some(9));
    assert_eq!(alloc_page(&mut mem), Some(7));
    assert_eq!(alloc_page(&mut mem), None);
}

#[test]
fn a_fault_far_below_the_stack_is_refused() {
    let mut mem = memory(4);
    let mut mgr = VmaManager::new();
    mgr.insert(VmaEntry::new_stack(0x10_0000, 0x20_0000)).unwrap();
    for vaddr in [0x1000, 0xF_EFFF] {
        let f = fault(vaddr, PageFaultCause::Store);
        let r = resolve_page_fault(&f, &mut mgr, OomPolicy::Kill, &mut mem);
        assert_eq!(r, Err(MmError::NoVma));
        assert_eq!(mgr.find(0x10_0000).unwrap().start_vaddr, 0x10_0000);
        assert!(mgr.find(vaddr).is_none());
    }
    let f = fault(0xF_F000, PageFaultCause::Store);
    assert!(resolve_page_fault(&f, &mut mgr, OomPolicy::Kill, &mut mem).is_ok());
    assert_eq!(mgr.find(0xF_F000).unwrap().start_vaddr, 0xF_F000);
}

#[test]
fn a_fault_below_the_stack_grows_it() {
    let mut mem = memory(4);
    let mut mgr = VmaManager::new();
    mgr.insert(VmaEntry::new_stack(0x8000, 0x9000)).unwrap();
    let f = fault(0x7F80, PageFaultCause::Store);
    assert!(resolve_page_fault(&f, &mut mgr, OomPolicy::Kill, &mut mem).is_ok());
    assert_eq!(mgr.find(0x7000).unwrap().start_vaddr, 0x7000);
}

#[test]
fn the_following_pages_come_along() {
    let mut mem = memory(16);
    let mut mgr = VmaManager::new();
    mgr.insert(VmaEntry::new_data(0x1000, 0x4000)).unwrap();
    let f = fault(0x1800, PageFaultCause::Load);
    let (first, batch) = resolve_with_prefault(&f, &mut mgr, OomPolicy::Kill, &mut mem).unwrap();
    assert!(matches!(first, MmRequest::MapSingle { vaddr: 0x1800, paddr: 15, .. }));
    let vaddrs: Vec<usize> = batch.iter().iter().map(|m| m.vaddr).collect();
    assert_eq!(vaddrs, vec![0x1800, 0x2000, 0x3000]);
    let mut long = VmaManager::new();
    long.insert(VmaEntry::new_data(0x10_0000, 0x20_0000)).unwrap();
    let f = fault(0x10_0000, PageFaultCause::Load);
    let (_, batch) = resolve_with_prefault(&f, &mut long, OomPolicy::Kill, &mut mem).unwrap();
    assert_eq!(batch.iter().len(), 5);
    let mut pages: Vec<usize> = batch.iter().iter().map(|m| m.paddr).collect();
    pages.sort();
    pages.dedup();
    assert_eq!(pages.len(), 5);
}

#[test]
fn a_full_batch_stays_as_it_is() {
    let mut b = BatchMappingArray::new();
    assert!(b.is_empty());
    for i in 0..6 {
        b.push(i, i, 1);
    }
    let all = b.iter();
    assert_eq!(all.len(), 5);
    assert_eq!(all[4], BatchMapping { vaddr: 4, paddr: 4, flags: 1 });
    assert_eq!(MmRequestOp::KillProcess.code(), 4);
}

#[test]
fn memory_requests_of_a_process() {
    let mut mm = MmServer::new(ChannelId(3));
    assert_eq!(mm.fault_channel(), ChannelId(3));
    assert_eq!(mm.handle_mmap(1, 0x1000, 0x2000, true, false, false), Err(MmError::NoVma));
    assert_eq!(mm.handle_munmap(1, 0x1000, 0x2000), Err(MmError::NoVma));
    assert_eq!(mm.handle_brk(1, 0x1000), Err(MmError::NoVma));
    mm.register_process(1, AddressSpaceId(1)).unwrap();
    assert_eq!(mm.process_count(), 1);
    assert_eq!(mm.handle_mmap(1, 0x2000, 0x2000, true, false, false), Err(MmError::InvalidArgument));
    assert_eq!(mm.handle_mmap(1, 0x1000, 0x3000, true, false, false), Ok(()));
    assert_eq!(mm.handle_mmap(1, 0x2000, 0x4000, true, false, false), Err(MmError::VmaOverlap));
    assert_eq!(mm.handle_munmap(1, 0x3000, 0x1000), Err(MmError::InvalidArgument));
    assert_eq!(mm.handle_brk(1, 0x1000), Err(MmError::NoVma));
    mm.vma_manager_mut(1).unwrap().insert(VmaEntry::new_heap(0x10000, 0x11000)).unwrap();
    assert_eq!(mm.handle_brk(1, 0x11000), Ok(0x11000));
    assert_eq!(mm.handle_brk(1, 0xF000), Err(MmError::InvalidArgument));
    assert_eq!(mm.handle_brk(1, 0x14000), Ok(0x14000));
    assert_eq!(mm.vma_manager(1).unwrap().find(0x13FFF).unwrap().region_type, VmRegionType::Heap);
    assert_eq!(mm.handle_brk(1, 0x10000), Ok(0x10000));
    assert!(mm.vma_manager(1).unwrap().find(0x10000).is_none());
}

#[test]
fn the_heap_grows_from_its_placeholder() {
    let mut mm = MmServer::new(ChannelId(0));
    mm.register_process(1, AddressSpaceId(1)).unwrap();
    mm.init_process_vma(1, 0x10000, 0x20000, 0x20000, 0x30000, 0x7F_0000, 0x80_0000, 0x30000)
        .unwrap();
    assert_eq!(mm.handle_brk(1, 0x32000), Ok(0x32000));
    assert!(mm.vma_manager(1).unwrap().find(0x31000).is_some());
    assert!(mm.vma_manager(1).unwrap().find_guard(0x10).is_some());
    assert!(mm.vma_manager(1).unwrap().find_guard(0x7E_F000).is_some());
}

#[test]
fn a_fault_registers_an_unknown_process() {
    let mut mm = MmServer::new(ChannelId(0));
    mm.set_prefault(false);
    mm.set_oom_policy(OomPolicy::Kill);
    let mut mem = memory(8);
    let r = mm.handle_page_fault(&fault(0x5000, PageFaultCause::Load), &mut mem);
    assert_eq!(r, Err(MmError::NoVma));
    assert!(mm.vma_manager(1).is_some());
    mm.handle_mmap(1, 0x5000, 0x9000, true, true, false).unwrap();
    let r = mm.handle_page_fault(&fault(0x5000, PageFaultCause::Store), &mut mem).unwrap();
    assert!(matches!(r, MmRequest::MapSingle { vaddr: 0x5000, flags: 11, .. }));
}

#[test]
fn a_full_memory_server_refuses_processes() {
    let mut mm = MmServer::new(ChannelId(0));
    for i in 0..MAX_PROCESSES as u32 {
        assert_eq!(mm.register_process(i, AddressSpaceId(i as usize)), Ok(()));
    }
    assert_eq!(mm.register_process(500, AddressSpaceId(500)), Err(500));
    mm.unregister_process(3);
    assert_eq!(mm.process_count(), MAX_PROCESSES - 1);
}

// ---------------------------------------------------------------------------
// Blocks and pages of files
// ---------------------------------------------------------------------------

struct Disk {
    data: Vec<u8>,
}

impl BlockDevice for Disk {
    fn read(&self, offset: usize, buf: &mut [u8]) {
        let n = buf.len();
        buf.copy_from_slice(&self.data[offset..offset + n]);
    }

    fn write(&mut self, offset: usize, buf: &[u8]) {
        self.data[offset..offset + buf.len()].copy_from_slice(buf);
    }

    fn size(&self) -> usize {
        self.data.len()
    }

    fn sector_size(&self) -> usize {
        512
    }
}

#[test]
fn blocks_are_cached_and_written_back() {
    let data: Vec<u8> = (0..(BLOCK_CACHE_CAP + 2) * 16).map(|i| (i / 16) as u8).collect();
    let mut cache = BlockCache::new(Disk { data }, 16);
    assert_eq!(cache.block_size(), 16);
    {
        let b = cache.get_block(3);
        assert_eq!(b.data, vec![3u8; 16]);
        assert!(!b.dirty);
        b.data[0] = 99;
        b.dirty = true;
    }
    assert_eq!(cache.get_block(3).data[0], 99);
    assert_eq!(cache.device().data[48], 3);
    cache.write_block(3);
    assert_eq!(cache.device().data[48], 99);
    cache.write_block(5);
    assert_eq!(cache.device().data[80], 5);
    cache.get_block(3).data[1] = 77;
    // Block 3 is the oldest once as many others have been fetched.
    for i in 4..BLOCK_CACHE_CAP + 2 {
        cache.get_block(i);
    }
    assert_eq!(cache.get_block(3).data[1], 77);
    for i in 0..BLOCK_CACHE_CAP + 2 {
        if i != 3 {
            cache.get_block(i);
        }
    }
    assert_eq!(cache.get_block(3).data[1], 3);
}

#[test]
fn accesses_are_cut_into_sectors() {
    assert_eq!(sector_chunks(100, 0), vec![]);
    let c = sector_chunks(500, 1000);
    assert_eq!(
        c,
        vec![
            SectorChunk { sector: 0, sector_off: 500, buf_off: 0, len: 12 },
            SectorChunk { sector: 1, sector_off: 0, buf_off: 12, len: 512 },
            SectorChunk { sector: 2, sector_off: 0, buf_off: 524, len: 476 },
        ]
    );
    assert!(c[1].is_full());
    assert!(!c[0].is_full());
    assert!(!c[2].is_full());
}

#[test]
fn pages_are_filed_by_index() {
    let mut space = AddressSpace::new();
    let mut page = Page::new(7);
    assert_eq!(page.write_at(4090, b"abcdefgh"), 6);
    assert!(page.dirty);
    space.insert_page(page);
    space.insert_page(Page::new(9));
    assert!(space.has_page(7));
    assert!(!space.has_page(8));
    let mut buf = [0u8; 4];
    assert_eq!(space.get_page_cache(7).unwrap().read_at(4092, &mut buf), 4);
    assert_eq!(&buf, b"cdef");
    let run: Vec<usize> = space.get_page_caches(7, 3).iter().map(|p| p.page_index).collect();
    assert_eq!(run, vec![7, 9]);
    assert!(space.remove_page_cache(7).is_some());
    assert!(space.remove_page_cache(7).is_none());
    assert_eq!(space.page_count(), 1);
}

#[test]
fn file_types_flags_and_error_numbers() {
    assert_eq!(FileType::from_mode(0o040755), FileType::Dir);
    assert_eq!(FileType::from_mode(0o100644), FileType::RegFile);
    assert_eq!(FileType::from_mode(0o120777), FileType::Symlink);
    assert_eq!(FileType::from_mode(0o020666), FileType::ChrDev);
    assert_eq!(FileType::from_mode(0o060660), FileType::BlkDev);
    assert_eq!(FileType::from_mode(0o010600), FileType::Fifo);
    assert_eq!(FileType::from_mode(0o140600), FileType::Socket);
    assert_eq!(FileType::from_mode(0o170000), FileType::RegFile);
    let f = OpenFlags::O_RDWR() | OpenFlags::O_CREAT();
    assert_eq!(f.bits(), 0x42);
    assert!(f.contains(OpenFlags::O_CREAT()));
    assert!(!f.contains(OpenFlags::O_EXCL()));
    assert!(f.is_writable() && f.is_readable());
    assert!(!OpenFlags::O_WRONLY().is_readable());
    assert!(!OpenFlags::empty().is_writable());
    assert!(OpenFlags::empty().is_readable());
    assert_eq!(Errno::ENOENT.code(), 2);
    assert_eq!(Errno::ENOSYS.code(), 38);
    assert_eq!(Errno::ENOTEMPTY.code(), 39);
    assert_eq!(Errno::ENOENT.message(), "No such file or directory");
}

#[test]
fn processes_do_not_see_each_other() {
    let mut mm = MmServer::new(ChannelId(0));
    mm.register_process(1, AddressSpaceId(1)).unwrap();
    mm.register_process(2, AddressSpaceId(2)).unwrap();
    mm.handle_mmap(2, 0x9000, 0xA000, true, false, false).unwrap();
    mm.handle_mmap(1, 0x1000, 0x2000, true, false, false).unwrap();
    assert!(mm.vma_manager(2).unwrap().find(0x1000).is_none());
    assert!(mm.vma_manager(2).unwrap().find(0x9000).is_some());
    mm.handle_munmap(1, 0x1000, 0xA000).unwrap();
    assert!(mm.vma_manager(2).unwrap().find(0x9000).is_some());
}
