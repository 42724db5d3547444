use quackos::kernel::{AddressSpaceId, ChannelId};
use quackos::mm::server::MmServer;

#[test]
fn register_and_lookup_process() {
    let mut server = MmServer::new(ChannelId(0));
    server.register_process(1, AddressSpaceId(1)).unwrap();
    assert!(server.vma_manager(1).is_some());
    assert!(server.vma_manager(2).is_none());
}

#[test]
fn init_process_vma_sets_up_regions() {
    let mut server = MmServer::new(ChannelId(0));
    server.register_process(1, AddressSpaceId(1)).unwrap();
    server
        .init_process_vma(
            1,
            0x10000, 0x20000, // code
            0x20000, 0x30000, // data
            0x7FFF_F000, 0x8000_0000, // stack
            0x30000, // heap
        )
        .unwrap();
    let mgr = server.vma_manager(1).unwrap();
    assert!(mgr.find(0x15000).is_some()); // code
    assert!(mgr.find(0x25000).is_some()); // data
    assert!(mgr.find(0x7FFF_F100).is_some()); // stack
    assert!(mgr.find_guard(0).is_some()); // null guard
}

#[test]
fn mmap_and_munmap() {
    let mut server = MmServer::new(ChannelId(0));
    server.register_process(2, AddressSpaceId(2)).unwrap();
    server.handle_mmap(2, 0x50000, 0x60000, true, true, false).unwrap();
    let mgr = server.vma_manager(2).unwrap();
    assert!(mgr.find(0x55000).is_some());
    server.handle_munmap(2, 0x50000, 0x60000).unwrap();
    assert!(server.vma_manager(2).unwrap().is_empty());
}

#[test]
fn unregister_removes_process() {
    let mut server = MmServer::new(ChannelId(0));
    server.register_process(3, AddressSpaceId(3)).unwrap();
    server.unregister_process(3);
    assert!(server.vma_manager(3).is_none());
}
