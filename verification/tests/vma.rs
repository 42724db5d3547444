use quackos::mm::types::{VmPerms, VmaEntry};
use quackos::mm::vma::VmaManager;

#[test]
fn empty_manager_finds_nothing() {
    let mgr = VmaManager::new();
    assert!(mgr.find(0x1000).is_none());
}

#[test]
fn insert_and_find() {
    let mut mgr = VmaManager::new();
    mgr.insert(VmaEntry::new_code(0x1000, 0x2000)).unwrap();
    assert!(mgr.find(0x1000).is_some());
    assert!(mgr.find(0x1FFF).is_some());
    assert!(mgr.find(0x2000).is_none());
    assert!(mgr.find(0x0FFF).is_none());
}

#[test]
fn overlap_rejected() {
    let mut mgr = VmaManager::new();
    mgr.insert(VmaEntry::new_code(0x1000, 0x3000)).unwrap();
    assert!(mgr.insert(VmaEntry::new_data(0x2000, 0x4000)).is_err());
}

#[test]
fn adjacent_merge() {
    let mut mgr = VmaManager::new();
    mgr.insert(VmaEntry::new_code(0x1000, 0x2000)).unwrap();
    // Adjacent code regions with same perms should merge.
    mgr.insert(VmaEntry::new_code(0x2000, 0x3000)).unwrap();
    assert_eq!(mgr.len(), 1);
    let entry = mgr.find(0x2500).unwrap();
    assert_eq!(entry.start_vaddr, 0x1000);
    assert_eq!(entry.end_vaddr, 0x3000);
}

#[test]
fn remove_full_entry() {
    let mut mgr = VmaManager::new();
    mgr.insert(VmaEntry::new_data(0x2000, 0x3000)).unwrap();
    mgr.remove(0x2000, 0x3000).unwrap();
    assert!(mgr.is_empty());
}

#[test]
fn remove_partial_left() {
    let mut mgr = VmaManager::new();
    mgr.insert(VmaEntry::new_data(0x2000, 0x5000)).unwrap();
    mgr.remove(0x2000, 0x3000).unwrap();
    let entry = mgr.find(0x4000).unwrap();
    assert_eq!(entry.start_vaddr, 0x3000);
    assert_eq!(entry.end_vaddr, 0x5000);
}

#[test]
fn remove_partial_right() {
    let mut mgr = VmaManager::new();
    mgr.insert(VmaEntry::new_data(0x2000, 0x5000)).unwrap();
    mgr.remove(0x4000, 0x5000).unwrap();
    let entry = mgr.find(0x3000).unwrap();
    assert_eq!(entry.start_vaddr, 0x2000);
    assert_eq!(entry.end_vaddr, 0x4000);
}

#[test]
fn remove_split() {
    let mut mgr = VmaManager::new();
    mgr.insert(VmaEntry::new_data(0x2000, 0x6000)).unwrap();
    mgr.remove(0x3000, 0x4000).unwrap();
    assert_eq!(mgr.len(), 2);
    let left = mgr.find(0x2500).unwrap();
    assert_eq!(left.start_vaddr, 0x2000);
    assert_eq!(left.end_vaddr, 0x3000);
    let right = mgr.find(0x5000).unwrap();
    assert_eq!(right.start_vaddr, 0x4000);
    assert_eq!(right.end_vaddr, 0x6000);
}

#[test]
fn split_at_mid() {
    let mut mgr = VmaManager::new();
    mgr.insert(VmaEntry::new_data(0x2000, 0x6000)).unwrap();
    let right_idx = mgr.split_at(0x4000).unwrap();
    assert_eq!(right_idx, 1);
    assert_eq!(mgr.len(), 2);
    let left = mgr.find(0x3000).unwrap();
    assert_eq!(left.end_vaddr, 0x4000);
    let right = mgr.find(0x5000).unwrap();
    assert_eq!(right.start_vaddr, 0x4000);
    assert_eq!(right.end_vaddr, 0x6000);
}

#[test]
fn guard_page_detected() {
    let mut mgr = VmaManager::new();
    mgr.insert(VmaEntry::new_code(0x1000, 0x2000)).unwrap();
    mgr.insert(VmaEntry::new_guard(0x2000)).unwrap();
    assert!(mgr.find_guard(0x2000).is_some());
    assert!(mgr.find_guard(0x1500).is_none());
}

#[test]
fn permission_check() {
    let mut mgr = VmaManager::new();
    mgr.insert(VmaEntry::new_code(0x1000, 0x2000)).unwrap(); // RX
    assert!(mgr.is_valid_access(0x1500, VmPerms::R()));
    assert!(mgr.is_valid_access(0x1500, VmPerms::RX()));
    assert!(!mgr.is_valid_access(0x1500, VmPerms::RW()));
}
