use quackos::kernel::{AddressSpaceId, ThreadId};
use quackos::proc::proc_table::{ProcessInfo, ProcessTable, MAX_THREADS_PER_PROCESS};
use quackos::proc::types::{ProcessId, ProcessPriority, ProcessState};
use quackos::task::types::TaskId;

fn dummy_info(pid_hint: u16) -> ProcessInfo {
    let pid = ProcessId::new(pid_hint, 1);
    ProcessInfo::new(
        pid,
        b"test-process",
        ProcessPriority::DEFAULT(),
        AddressSpaceId(pid_hint as usize),
        ProcessId::NULL(),
    )
}

#[test]
fn insert_and_lookup() {
    let mut table = ProcessTable::new();
    let info = dummy_info(0);
    let pid = table.insert(info).unwrap();
    assert!(!pid.is_null());
    assert_eq!(pid.generation(), 1);
    let found = table.get(pid).unwrap();
    assert_eq!(found.name_str(), "test-process");
    assert_eq!(found.state, ProcessState::Created);
}

#[test]
fn remove_frees_slot() {
    let mut table = ProcessTable::new();
    let info = dummy_info(0);
    let pid = table.insert(info).unwrap();
    assert_eq!(table.len(), 1);
    let removed = table.remove(pid).unwrap();
    assert_eq!(removed.pid, pid);
    assert_eq!(table.len(), 0);
    assert!(table.get(pid).is_none());
}

#[test]
fn generation_mismatch_rejected() {
    let mut table = ProcessTable::new();
    let info = dummy_info(0);
    let pid = table.insert(info).unwrap();
    assert_eq!(pid.generation(), 1);
    // Try to access with wrong generation.
    let wrong_pid = ProcessId::new(pid.index(), 99);
    assert!(table.get(wrong_pid).is_none());
}

#[test]
fn null_pid_always_returns_none() {
    let mut table = ProcessTable::new();
    assert!(table.get(ProcessId::NULL()).is_none());
    assert!(table.remove(ProcessId::NULL()).is_none());
}

#[test]
fn find_by_name_works() {
    let mut table = ProcessTable::new();
    let info = dummy_info(0);
    let _pid = table.insert(info).unwrap();
    assert!(table.find_by_name(b"test-process").is_some());
    assert!(table.find_by_name(b"nonexistent").is_none());
}

#[test]
fn thread_list_management() {
    let mut info = dummy_info(0);
    assert_eq!(info.thread_count, 0);
    // Add threads.
    for i in 0..MAX_THREADS_PER_PROCESS {
        let tid = TaskId(ThreadId::new(i as u16, 1));
        assert!(info.add_thread(tid).is_ok());
    }
    assert_eq!(info.thread_count as usize, MAX_THREADS_PER_PROCESS);
    // Should be full now.
    let extra = TaskId(ThreadId::new(99, 1));
    assert!(info.add_thread(extra).is_err());
    // Remove one.
    let first = TaskId(ThreadId::new(0, 1));
    assert!(info.remove_thread(first));
    assert_eq!(info.thread_count as usize, MAX_THREADS_PER_PROCESS - 1);
}
