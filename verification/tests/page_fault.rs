use quackos::kernel::{AddressSpaceId, IpcPageFault, PageFaultCause};
use quackos::mm::allocator::PhysMem;
use quackos::mm::page_fault::resolve_page_fault;
use quackos::mm::types::{MmError, OomPolicy, VmPerms, VmRegionType, VmaEntry};
use quackos::mm::vma::VmaManager;

fn make_fault(vaddr: usize, cause: PageFaultCause) -> IpcPageFault {
    IpcPageFault { addr_space_id: AddressSpaceId(1), fault_vaddr: vaddr, cause }
}

#[test]
fn guard_page_causes_segv() {
    let mut mgr = VmaManager::new();
    let mut mem = PhysMem::new();
    mgr.insert(VmaEntry::new_guard(0x2000)).unwrap();
    // No physical memory is set up, but the guard check comes before that.
    let fault = make_fault(0x2000, PageFaultCause::Store);
    let result = resolve_page_fault(&fault, &mut mgr, OomPolicy::Kill, &mut mem);
    assert!(matches!(result, Err(MmError::PermissionDenied)));
}

#[test]
fn no_vma_causes_segv() {
    let mut mgr = VmaManager::new();
    let mut mem = PhysMem::new();
    let fault = make_fault(0x5000, PageFaultCause::Load);
    let result = resolve_page_fault(&fault, &mut mgr, OomPolicy::Kill, &mut mem);
    assert!(matches!(result, Err(MmError::NoVma)));
}

fn read_only_manager() -> VmaManager {
    let mut mgr = VmaManager::new();
    mgr.insert(VmaEntry {
        start_vaddr: 0x1000,
        end_vaddr: 0x2000,
        perms: VmPerms::R(),
        region_type: VmRegionType::Data,
        backing_offset: 0,
        cow: false,
    })
    .unwrap();
    mgr
}

#[test]
fn write_to_readonly_vma() {
    let mut mgr = read_only_manager();
    let mut mem = PhysMem::new();
    let fault = make_fault(0x1500, PageFaultCause::Store);
    let result = resolve_page_fault(&fault, &mut mgr, OomPolicy::Kill, &mut mem);
    assert!(matches!(result, Err(MmError::PermissionDenied)));
}

#[test]
fn read_from_readonly_vma_is_ok() {
    let mut mgr = read_only_manager();
    let mut mem = PhysMem::new();
    let fault = make_fault(0x1500, PageFaultCause::Load);
    // Fails for want of a page, not at the permission check.
    let result = resolve_page_fault(&fault, &mut mgr, OomPolicy::Kill, &mut mem);
    assert!(matches!(result, Err(MmError::OutOfMemory)));
}
