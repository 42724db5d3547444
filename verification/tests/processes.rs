//! Tasks, processes and program files.
use quackos::kernel::{AddressSpaceId, ChannelId, MapFlags, ScheError, ThreadControl, ThreadId, ThreadState};
use quackos::linux::loader::{exec_image, flags_to_prot, is_executable, is_plannable, load_elf, NOT_A_PROGRAM};
use quackos::mm::server::MmServer;
use quackos::proc::elf_loader::{
    attach_thread, fill_segment_page, headers_readable, initial_context, is_loadable, load_elf_bytes,
    map_user_stack_at, program_headers, program_regions, register_program, register_regions,
    thread_frames, PageSource, SegmentKind,
};
use quackos::proc::program::{enter_process, plan_process};
use quackos::proc::proc_table::{ProcessInfo, ProcessTable, MAX_PROCESSES, MAX_THREADS_PER_PROCESS};
use quackos::proc::server::{ProcServer, ThreadOp};
use quackos::proc::types::{
    ProcError, ProcReplyOp, ProcRequest, ProcRequestOp, ProcessId, ProcessPriority, ProcessState,
    Signal, SignalAction,
};
use quackos::task::manager::TaskManager;
use quackos::task::types::{map_sche_error, TaskError, TaskId, TaskPriority, TaskState};

// ---------------------------------------------------------------------------
// Tasks
// ---------------------------------------------------------------------------

fn control(base: u8, donated: u8) -> ThreadControl {
    ThreadControl {
        priority: base,
        base_priority: base,
        donated_priority: donated,
        state: ThreadState::Blocked,
        asid: 7,
    }
}

#[test]
fn scheduler_errors_become_task_errors() {
    let pairs = [
        (ScheError::InvalidThread, TaskError::InvalidTask),
        (ScheError::ThreadTableFull, TaskError::TableFull),
        (ScheError::PriorityQueueFull, TaskError::TableFull),
        (ScheError::InvalidThreadState, TaskError::InvalidState),
        (ScheError::NoRunnableThread, TaskError::InvalidState),
        (ScheError::NullThreadId, TaskError::NullTaskId),
        (ScheError::InvalidArgument, TaskError::InvalidArgument),
        (ScheError::NotImplemented, TaskError::NotImplemented),
    ];
    let tm = TaskManager::new();
    for (e, t) in pairs {
        assert_eq!(map_sche_error(e), t);
        assert_eq!(tm.create_task(Err(e)), Err(t));
        assert_eq!(tm.destroy_task(Err(e)), Err(t));
        assert_eq!(tm.get_priority(Err(e)), Err(t));
        assert_eq!(tm.get_base_priority(Err(e)), Err(t));
        assert_eq!(tm.set_priority(Err(e), TaskPriority(1)), Err(t));
        assert!(matches!(tm.task_info(TaskId(ThreadId(1)), Err(e)), Err(x) if x == t));
    }
}

#[test]
fn donated_priority_wins_while_it_is_larger() {
    let tm = TaskManager::new();
    let raised = tm.set_priority(Ok(control(100, 180)), TaskPriority(120)).unwrap();
    assert_eq!((raised.base_priority, raised.priority), (120, 180));
    let above = tm.set_priority(Ok(control(100, 180)), TaskPriority(200)).unwrap();
    assert_eq!((above.base_priority, above.priority), (200, 200));
    let plain = tm.set_priority(Ok(control(100, 0)), TaskPriority(30)).unwrap();
    assert_eq!((plain.base_priority, plain.priority), (30, 30));
    assert_eq!(tm.get_priority(Ok(control(100, 180))), Ok(TaskPriority(180)));
    assert_eq!(tm.get_base_priority(Ok(control(100, 180))), Ok(TaskPriority(100)));
}

#[test]
fn task_info_shows_the_thread() {
    let tm = TaskManager::new();
    let id = tm.create_task(Ok(ThreadId::new(3, 2))).unwrap();
    assert_eq!(id, TaskId(ThreadId(0x2_0003)));
    let info = tm.task_info(id, Ok(control(10, 20))).unwrap();
    assert_eq!(info.id, id);
    assert_eq!(info.owner_pid, 0);
    assert_eq!(info.priority, TaskPriority(20));
    assert_eq!(info.base_priority, TaskPriority(10));
    assert_eq!(info.state, TaskState::Blocked);
    assert_eq!(info.asid, 7);
    assert_eq!(tm.current_task(ThreadId(9)), TaskId(ThreadId(9)));
}

#[test]
fn states_convert_both_ways() {
    let all = [
        (ThreadState::Free, TaskState::Free),
        (ThreadState::Ready, TaskState::Ready),
        (ThreadState::Running, TaskState::Running),
        (ThreadState::Blocked, TaskState::Blocked),
        (ThreadState::Dying, TaskState::Dying),
    ];
    for (thread, task) in all {
        assert_eq!(TaskState::from(thread), task);
        assert_eq!(ThreadState::from(task), thread);
    }
}

// ---------------------------------------------------------------------------
// Process identifiers, states and signals
// ---------------------------------------------------------------------------

#[test]
fn process_ids_show_index_and_generation() {
    assert_eq!(ProcessId::new(5, 12).label(), "P(5:12)");
    assert_eq!(ProcessId::NULL().label(), "P(NULL)");
    assert_eq!(ProcessId::new(0, 1).0, 0x1_0000);
    let pid = ProcessId::new(65535, 65535);
    assert_eq!((pid.index(), pid.generation()), (65535, 65535));
    assert_eq!(u32::from(pid), u32::MAX);
    assert_eq!(ProcessId::from(0x2_0003u32), ProcessId::new(3, 2));
}

#[test]
fn signals_have_their_numbers_and_actions() {
    assert_eq!(Signal::SIGINT.number(), 2);
    assert_eq!(Signal::SIGKILL.number(), 9);
    assert_eq!(Signal::SIGTERM.number(), 15);
    assert_eq!(Signal::SIGCHLD.number(), 17);
    assert_eq!(Signal::SIGSTOP.number(), 19);
    assert_eq!(Signal::SIGSTOP.default_action(), SignalAction::Stop);
    assert_eq!(Signal::SIGCONT.default_action(), SignalAction::Continue);
    assert_eq!(Signal::SIGCHLD.default_action(), SignalAction::Ignore);
    assert_eq!(Signal::SIGUSR1.default_action(), SignalAction::Terminate);
    assert!(!Signal::SIGKILL.is_catchable());
    assert!(!Signal::SIGSTOP.is_catchable());
    assert!(Signal::SIGTERM.is_catchable());
}

#[test]
fn opcodes_have_their_numbers() {
    assert_eq!(ProcRequestOp::Spawn.code(), 1);
    assert_eq!(ProcRequestOp::List.code(), 7);
    assert_eq!(ProcReplyOp::Success.code(), 0);
    assert_eq!(ProcReplyOp::ListResult.code(), 4);
}

// ---------------------------------------------------------------------------
// Process records
// ---------------------------------------------------------------------------

#[test]
fn long_names_are_cut_and_bad_names_are_marked() {
    let long = [b'x'; 40];
    let info = ProcessInfo::new(
        ProcessId::NULL(),
        &long,
        ProcessPriority::USER(),
        AddressSpaceId(1),
        ProcessId::NULL(),
    );
    assert_eq!(info.name_bytes(), &[b'x'; 32][..]);
    let bad = ProcessInfo::new(
        ProcessId::NULL(),
        &[0xC3, 0x28],
        ProcessPriority::USER(),
        AddressSpaceId(1),
        ProcessId::NULL(),
    );
    assert_eq!(bad.name_str(), "<invalid-utf8>");
}

#[test]
fn threads_of_a_process() {
    let mut info = ProcessInfo::new(
        ProcessId::NULL(),
        b"t",
        ProcessPriority::USER(),
        AddressSpaceId(1),
        ProcessId::NULL(),
    );
    for i in 0..MAX_THREADS_PER_PROCESS {
        assert!(info.can_add_thread());
        assert_eq!(info.add_thread(TaskId(ThreadId(i as u32 + 1))), Ok(()));
    }
    assert!(!info.can_add_thread());
    assert_eq!(info.add_thread(TaskId(ThreadId(99))), Err(()));
    assert!(!info.remove_thread(TaskId(ThreadId(99))));
    assert!(info.remove_thread(TaskId(ThreadId(1))));
    let ids = info.thread_ids();
    assert_eq!(ids.len(), MAX_THREADS_PER_PROCESS - 1);
    assert_eq!(ids[0], TaskId(ThreadId(2)));
    assert!(info.all_threads_blocked(|_t: TaskId| Some(TaskState::Blocked)));
    assert!(!info.all_threads_blocked(|t: TaskId| {
        if t == TaskId(ThreadId(3)) {
            Some(TaskState::Running)
        } else {
            Some(TaskState::Blocked)
        }
    }));
}

#[test]
fn a_full_table_refuses() {
    let mut table = ProcessTable::new();
    let info = ProcessInfo::new(
        ProcessId::NULL(),
        b"p",
        ProcessPriority::USER(),
        AddressSpaceId(1),
        ProcessId::NULL(),
    );
    for _ in 0..MAX_PROCESSES {
        assert!(table.insert(info).is_ok());
    }
    assert!(table.is_full());
    assert_eq!(table.insert(info), Err(ProcError::ProcessTableFull));
    assert_eq!(register_program(&mut table, ProcessId::NULL(), b"/x"), Err("Process table full"));
}

#[test]
fn a_stale_id_does_not_match_a_reused_slot() {
    let mut table = ProcessTable::new();
    let old = register_program(&mut table, ProcessId::NULL(), b"/bin/a").unwrap();
    assert!(table.remove(old).is_some());
    let new = register_program(&mut table, ProcessId::NULL(), b"/bin/b").unwrap();
    assert_eq!(old.index(), new.index());
    assert_eq!(new.generation(), 2);
    assert!(table.get(old).is_none());
    assert_eq!(table.get(new).unwrap().name_str(), "/bin/b");
    assert_eq!(table.find_by_name(b"/bin/b").unwrap().pid, new);
    assert!(table.find_by_name(b"/bin/a").is_none());
    assert_eq!(table.set_state(old, ProcessState::Stopped), Err(ProcError::InvalidProcess));
    assert_eq!(table.set_state(new, ProcessState::Stopped), Ok(()));
    assert_eq!(table.get(new).unwrap().state, ProcessState::Stopped);
}

#[test]
fn initial_threads_are_attached() {
    let mut table = ProcessTable::new();
    let pid = register_program(&mut table, ProcessId::NULL(), b"/bin/a").unwrap();
    assert_eq!(attach_thread(&mut table, pid, ThreadId(4)), Ok(()));
    assert_eq!(table.get(pid).unwrap().thread_ids(), vec![TaskId(ThreadId(4))]);
    for i in 1..MAX_THREADS_PER_PROCESS {
        assert_eq!(attach_thread(&mut table, pid, ThreadId(4 + i as u32)), Ok(()));
    }
    assert_eq!(attach_thread(&mut table, pid, ThreadId(90)), Err("Thread list full"));
    table.remove(pid);
    assert_eq!(attach_thread(&mut table, pid, ThreadId(4)), Err("Process vanished after insert"));
}

// ---------------------------------------------------------------------------
// The process server
// ---------------------------------------------------------------------------

fn booted() -> (ProcServer, ProcessId) {
    let mut s = ProcServer::new(ChannelId(1), ChannelId(2));
    s.bootstrap(
        AddressSpaceId(1),
        &[(AddressSpaceId(2), &b"mm-server"[..], ProcessPriority::SYSTEM())],
    )
    .unwrap();
    (s, ProcessId::new(0, 1))
}

#[test]
fn bootstrap_registers_init_and_the_servers() {
    let (mut s, init) = booted();
    assert_eq!(s.process_count(), 2);
    assert_eq!(s.process_info(init).unwrap().name_str(), "init");
    assert_eq!(s.list_processes(), vec![init, ProcessId::new(1, 1)]);
    assert_eq!(s.children_of(init), Ok(vec![ProcessId::new(1, 1)]));
    assert_eq!(s.children_of(ProcessId::new(9, 9)), Err(ProcError::InvalidProcess));
    assert_eq!(s.bootstrap(AddressSpaceId(1), &[]), Err(ProcError::InvalidState));
    assert_eq!(s.request_channel(), ChannelId(1));
    assert_eq!(s.mm_channel(), ChannelId(2));
}

#[test]
fn a_child_lives_exits_and_is_reaped() {
    let (mut s, init) = booted();
    s.set_default_priority(ProcessPriority(77));
    let child = s.spawn(init, b"shell", 0, 0, 0, 0, 0, 0, 0).unwrap();
    assert_eq!(s.process_info(child).unwrap().state, ProcessState::Running);
    assert_eq!(s.process_info(child).unwrap().priority, ProcessPriority(77));
    assert_eq!(s.reap(init, child), Err(ProcError::InvalidState));
    assert_eq!(s.exit(child, 3), Ok(()));
    assert_eq!(s.process_info(child).unwrap().state, ProcessState::Zombie);
    assert_eq!(s.exit(child, 3), Err(ProcError::InvalidState));
    assert_eq!(s.spawn(child, b"x", 0, 0, 0, 0, 0, 0, 0), Err(ProcError::InvalidState));
    assert_eq!(s.reap(child, child), Err(ProcError::PermissionDenied));
    assert_eq!(s.reap(init, child), Ok(3));
    assert_eq!(s.reap(init, child), Err(ProcError::InvalidProcess));
    assert!(s.process_info(child).is_err());
}

#[test]
fn an_orphan_leaves_at_once() {
    let (mut s, init) = booted();
    assert_eq!(s.exit(init, 0), Ok(()));
    assert!(s.process_info(init).is_err());
    assert_eq!(s.exit(init, 0), Err(ProcError::InvalidProcess));
    assert_eq!(s.spawn(init, b"x", 0, 0, 0, 0, 0, 0, 0), Err(ProcError::InvalidProcess));
}

#[test]
fn signals_stop_continue_and_kill() {
    let (mut s, init) = booted();
    let child = s.spawn(init, b"job", 0, 0, 0, 0, 0, 0, 0).unwrap();
    assert_eq!(s.send_signal(child, Signal::SIGCONT), Ok(()));
    assert_eq!(s.process_info(child).unwrap().state, ProcessState::Running);
    assert_eq!(s.send_signal(child, Signal::SIGSTOP), Ok(()));
    assert_eq!(s.process_info(child).unwrap().state, ProcessState::Stopped);
    assert_eq!(s.send_signal(child, Signal::SIGCONT), Ok(()));
    assert_eq!(s.process_info(child).unwrap().state, ProcessState::Running);
    assert_eq!(s.send_signal(child, Signal::SIGCHLD), Ok(()));
    assert_eq!(s.process_info(child).unwrap().state, ProcessState::Running);
    assert_eq!(s.send_signal(child, Signal::SIGTERM), Ok(()));
    assert_eq!(s.process_info(child).unwrap().exit_code, Some(-15));
    // A zombie drops further signals in silence.
    assert_eq!(s.send_signal(child, Signal::SIGTERM), Ok(()));
    assert_eq!(s.send_signal(ProcessId::new(30, 1), Signal::SIGTERM), Err(ProcError::InvalidProcess));
    let other = s.spawn(init, b"job", 0, 0, 0, 0, 0, 0, 0).unwrap();
    assert_eq!(s.kill(other), Ok(()));
    assert_eq!(s.reap(init, other), Ok(-9));
}

#[test]
fn requests_are_carried_out() {
    let (mut s, init) = booted();
    let mut name = [0u8; 32];
    name[..5].copy_from_slice(b"shell");
    let spawn = ProcRequest::Spawn {
        parent: init,
        name,
        name_len: 5,
        code_start: 0,
        code_end: 0,
        data_start: 0,
        data_end: 0,
        stack_start: 0,
        stack_end: 0,
        heap_start: 0,
    };
    assert_eq!(s.handle_request(&spawn), Ok(()));
    let child = ProcessId::new(2, 1);
    assert_eq!(s.process_info(child).unwrap().name_str(), "shell");
    let register = ProcRequest::Register {
        pid: ProcessId::NULL(),
        addr_space_id: AddressSpaceId(8),
        name,
        name_len: 2,
        priority: ProcessPriority(9),
        parent: ProcessId::NULL(),
    };
    assert_eq!(s.handle_request(&register), Ok(()));
    assert_eq!(s.process_info(ProcessId::new(3, 1)).unwrap().name_str(), "sh");
    let to = ProcessPriority(60);
    assert_eq!(s.handle_request(&ProcRequest::SetPriority { target: child, priority: to }), Ok(()));
    assert_eq!(s.process_info(child).unwrap().priority, to);
    assert_eq!(s.handle_request(&ProcRequest::Query { target: child }), Ok(()));
    assert_eq!(s.handle_request(&ProcRequest::List), Ok(()));
    assert_eq!(
        s.handle_request(&ProcRequest::Signal { target: child, signal: Signal::SIGSTOP }),
        Ok(())
    );
    assert_eq!(s.handle_request(&ProcRequest::Exit { pid: child, exit_code: 1 }), Ok(()));
    assert_eq!(
        s.handle_request(&ProcRequest::Query { target: ProcessId::new(60, 1) }),
        Err(ProcError::InvalidProcess)
    );
    // No process has had a thread, so nothing is left to do for the scheduler.
    assert_eq!(s.take_thread_ops(), Vec::<ThreadOp>::new());
}

#[test]
fn names_decide_the_default_priority() {
    let (s, _) = booted();
    assert_eq!(s.compute_default_priority(b"init"), ProcessPriority::SYSTEM());
    assert_eq!(s.compute_default_priority(b"mm-server"), ProcessPriority::SYSTEM());
    assert_eq!(s.compute_default_priority(b"proc-server"), ProcessPriority::SYSTEM());
    assert_eq!(s.compute_default_priority(b"cap-x"), ProcessPriority::SYSTEM());
    assert_eq!(s.compute_default_priority(b"fs-server"), ProcessPriority::SERVER());
    assert_eq!(s.compute_default_priority(b"net-server"), ProcessPriority::SERVER());
    assert_eq!(s.compute_default_priority(b"drv-uart"), ProcessPriority::SERVER());
    assert_eq!(s.compute_default_priority(b"shell"), ProcessPriority::USER());
    assert_eq!(s.compute_default_priority(b"fs"), ProcessPriority::USER());
}

// ---------------------------------------------------------------------------
// Program files
// ---------------------------------------------------------------------------

fn put(file: &mut [u8], at: usize, bytes: &[u8]) {
    file[at..at + bytes.len()].copy_from_slice(bytes);
}

fn put_header(file: &mut [u8], at: usize, kind: u32, flags: u32, words: [u64; 4]) {
    put(file, at, &kind.to_le_bytes());
    put(file, at + 4, &flags.to_le_bytes());
    put(file, at + 8, &words[0].to_le_bytes());
    put(file, at + 16, &words[1].to_le_bytes());
    put(file, at + 24, &words[1].to_le_bytes());
    put(file, at + 32, &words[2].to_le_bytes());
    put(file, at + 40, &words[3].to_le_bytes());
}

/// A program with a code segment, a data segment and thread-local storage.
fn program() -> Vec<u8> {
    let mut f = vec![0u8; 0x1018];
    put(&mut f, 0, &[0x7f, b'E', b'L', b'F', 2, 1, 1, 0]);
    put(&mut f, 16, &2u16.to_le_bytes());
    put(&mut f, 18, &183u16.to_le_bytes());
    put(&mut f, 20, &1u32.to_le_bytes());
    put(&mut f, 24, &0x40_0004u64.to_le_bytes());
    put(&mut f, 32, &64u64.to_le_bytes());
    put(&mut f, 52, &64u16.to_le_bytes());
    put(&mut f, 54, &56u16.to_le_bytes());
    put(&mut f, 56, &3u16.to_le_bytes());
    put_header(&mut f, 64, 1, 5, [0x1000, 0x40_0000, 0x10, 0x10]);
    put_header(&mut f, 120, 1, 6, [0x1010, 0x40_3010, 8, 0x2000]);
    put_header(&mut f, 176, 7, 4, [0x1010, 0x40_3010, 8, 0x1000]);
    for i in 0..0x18 {
        f[0x1000 + i] = 0xA0 + i as u8;
    }
    f
}

#[test]
fn program_headers_are_read() {
    let f = program();
    assert!(headers_readable(&f));
    let phs = program_headers(&f);
    assert_eq!(phs.len(), 3);
    assert_eq!(phs[0].kind, SegmentKind::Load);
    assert_eq!(phs[2].kind, SegmentKind::Tls);
    assert_eq!((phs[1].flags, phs[1].offset, phs[1].vaddr), (6, 0x1010, 0x40_3010));
    assert_eq!((phs[1].file_size, phs[1].mem_size), (8, 0x2000));
}

#[test]
fn a_program_is_planned_without_holes() {
    let f = program();
    assert!(is_loadable(&f));
    let plan = load_elf_bytes(&f).unwrap();
    assert_eq!(plan.loaded.entry, 0x40_0004);
    assert_eq!(plan.loaded.brk, 0x40_6000);
    assert_eq!(plan.loaded.phdr_addr, 0x40_0040);
    assert_eq!((plan.loaded.phent_size, plan.loaded.phnum), (56, 3));
    assert_eq!(plan.segments.len(), 2);
    assert_eq!(plan.segments[0].flags, MapFlags(15));
    assert_eq!(plan.segments[1].flags, MapFlags(11));
    let vaddrs: Vec<usize> = plan.pages.iter().map(|p| p.vaddr).collect();
    assert_eq!(
        vaddrs,
        vec![
            0x40_0000, 0x40_1000, 0x40_2000, 0x40_3000, 0x40_4000, 0x40_5000, 0x40_6000, 0x40_7000
        ]
    );
    let sources: Vec<PageSource> = plan.pages.iter().map(|p| p.source).collect();
    assert_eq!(sources[0], PageSource::Segment(0));
    assert_eq!(sources[1], PageSource::Gap);
    assert_eq!(sources[3], PageSource::Segment(1));
    assert_eq!(sources[6], PageSource::Break);
    assert_eq!(PageSource::Gap.oom_message(), "OOM filling segment gap");
    assert_eq!(PageSource::Segment(0).oom_message(), "OOM loading ELF segment");
    assert_eq!(PageSource::Break.oom_message(), "OOM mapping brk area");
}

#[test]
fn segment_pages_are_filled() {
    let f = program();
    let plan = load_elf_bytes(&f).unwrap();
    let mut page = vec![0xEEu8; 4096];
    fill_segment_page(&mut page, 0x40_3000, &plan.segments[1], &f);
    assert_eq!(page[0xF], 0xEE);
    assert_eq!(&page[0x10..0x18], &[0xB0, 0xB1, 0xB2, 0xB3, 0xB4, 0xB5, 0xB6, 0xB7]);
    assert!(page[0x18..].iter().all(|b| *b == 0));
    let mut next = vec![0xEEu8; 4096];
    fill_segment_page(&mut next, 0x40_4000, &plan.segments[1], &f);
    assert!(next.iter().all(|b| *b == 0));
}

#[test]
fn what_is_no_program_is_refused() {
    let mut f = program();
    f[0] = 0;
    assert!(is_loadable(&f));
    assert!(is_plannable(&f));
    assert_eq!(load_elf_bytes(&f).err(), Some("Invalid ELF magic"));
    assert_eq!(program_regions(&f).err(), Some("Invalid ELF format"));
    assert_eq!(load_elf(&f).err(), Some(NOT_A_PROGRAM));
    assert_eq!(load_elf(&f[..63]).err(), Some(-1));
    assert!(exec_image(&f).is_none());
    let mut overflow = program();
    put(&mut overflow, 120 + 16, &u64::MAX.to_le_bytes());
    assert!(!is_loadable(&overflow));
    assert!(!is_plannable(&overflow));
    assert!(!is_executable(&overflow));
    let mut short = program();
    short.truncate(0x90);
    assert!(!headers_readable(&short));
    assert!(!is_loadable(&short));
    assert!(!is_plannable(&short));
}

#[test]
fn regions_of_a_program() {
    let f = program();
    let r = program_regions(&f).unwrap();
    assert_eq!((r.code_start, r.code_end), (0x40_0000, 0x40_1000));
    assert_eq!((r.data_start, r.data_end), (0x40_3000, 0x40_6000));
    assert_eq!(r.heap_start, 0x40_6000);
    let mut mm = MmServer::new(ChannelId(0));
    assert_eq!(register_regions(&mut mm, &r), Ok(()));
    let mgr = mm.vma_manager(0).unwrap();
    assert!(mgr.find(0x40_0800).is_some());
    assert!(mgr.find(0x40_1000).is_none());
    assert!(mgr.find(0x40_3000).is_some());
    assert!(mgr.find(0x7FFF_FFF0_0000).is_some());
}

#[test]
fn a_full_memory_manager_refuses_the_program() {
    let mut mm = MmServer::new(ChannelId(0));
    let mut pid: u32 = 1;
    while mm.register_process(pid, AddressSpaceId(pid as usize)).is_ok() {
        pid += 1;
    }
    let r = program_regions(&program()).unwrap();
    assert_eq!(register_regions(&mut mm, &r), Err("Failed to register with MM"));
}

#[test]
fn linux_loads_the_same_program() {
    let f = program();
    assert!(is_plannable(&f));
    let plan = load_elf(&f).unwrap();
    assert_eq!((plan.entry, plan.brk), (0x40_0004, 0x40_6000));
    assert_eq!(plan.pages.len(), 4);
    let code = plan.pages[0];
    assert_eq!((code.va, code.prot), (0x40_0000, 5));
    assert_eq!((code.copy_start, code.file_pos, code.copy_len), (0x40_0000, 0x1000, 0x10));
    assert_eq!(code.zero_len, 0);
    let data = plan.pages[1];
    assert_eq!((data.va, data.prot), (0x40_3000, 3));
    assert_eq!((data.copy_start, data.file_pos, data.copy_len), (0x40_3010, 0x1010, 8));
    assert_eq!((data.zero_start, data.zero_len), (0x40_3018, 0xFE8));
    let last = plan.pages[3];
    assert_eq!((last.va, last.copy_len, last.zero_start, last.zero_len), (0x40_5000, 0, 0x40_5000, 0x10));
    assert!(is_executable(&f));
    let image = exec_image(&f).unwrap();
    assert_eq!((image.entry, image.brk, image.phdr_addr), (0x40_0004, 0x40_6000, 0x40_0040));
    assert_eq!((image.phent_size, image.phnum), (56, 3));
    assert_eq!(flags_to_prot(7), 7);
    assert_eq!(flags_to_prot(4), 1);
    assert_eq!(flags_to_prot(1), 4);
}

#[test]
fn stacks_and_frames_are_laid_out() {
    let pages = map_user_stack_at(0x10_0000, 2);
    assert_eq!(pages.len(), 2);
    assert_eq!((pages[1].vaddr, pages[1].flags), (0x10_1000, MapFlags(11)));
    let frames = thread_frames(0x8_0000, 0x20_0000);
    assert_eq!((frames.ctx_addr, frames.tf_addr, frames.user_sp), (0x8_7F80, 0x8_7E60, 0x1F_FFF0));
    let words = initial_context(1, 2, 3, 4, 5);
    assert_eq!(words, [(0, 1), (8, 2), (16, 3), (0x70, 4), (0x78, 5)]);
}

#[test]
fn a_process_is_planned_and_entered() {
    let f = program();
    let plan = plan_process(&f).unwrap();
    assert_eq!(plan.regions.code_end, 0x40_1000);
    assert_eq!(plan.load.loaded.entry, 0x40_0004);
    assert_eq!(plan_process(&f[..40]).err(), Some("Invalid ELF format"));
    let mut mm = MmServer::new(ChannelId(0));
    let mut table = ProcessTable::new();
    let init = enter_process(None, &mut table, ProcessId::NULL(), b"init", &plan.regions).unwrap();
    assert!(mm.vma_manager(0).is_none());
    let pid = enter_process(Some(&mut mm), &mut table, init, b"/bin/a", &plan.regions).unwrap();
    assert_eq!(table.get(pid).unwrap().name_str(), "/bin/a");
    assert_eq!(table.children_of(init), vec![pid]);
    assert!(mm.vma_manager(0).unwrap().find(0x40_3000).is_some());
    // A second time the regions of process 0 are there already.
    assert_eq!(
        enter_process(Some(&mut mm), &mut table, init, b"/bin/b", &plan.regions),
        Err("Failed to init VMAs")
    );
    assert_eq!(table.len(), 2);
}

#[test]
fn a_program_may_stand_at_any_address() {
    let f = program();
    for shift in 1..9 {
        let mut room = vec![0u8; shift];
        room.extend_from_slice(&f);
        let file = &room[shift..];
        assert!(is_loadable(file));
        assert_eq!(load_elf_bytes(file).unwrap().loaded.entry, 0x40_0004);
        assert_eq!(program_headers(file), program_headers(&f));
    }
}

#[test]
fn segments_on_one_page_keep_the_order_of_the_exchanges() {
    let mut f = program();
    // Two segments on the page of the first, and one below it.
    put_header(&mut f, 64, 1, 5, [0x1000, 0x40_0000, 0x10, 0x10]);
    put_header(&mut f, 120, 1, 6, [0x1010, 0x40_0800, 8, 8]);
    put_header(&mut f, 176, 1, 6, [0x1010, 0x3F_F000, 8, 8]);
    let plan = load_elf_bytes(&f).unwrap();
    let vaddrs: Vec<usize> = plan.segments.iter().map(|s| s.vaddr).collect();
    assert_eq!(vaddrs, vec![0x3F_F000, 0x40_0800, 0x40_0000]);
}

#[test]
fn as_many_servers_as_there_are_slots_are_registered() {
    let entry = (AddressSpaceId(2), &b"srv"[..], ProcessPriority::SERVER());
    let servers = vec![entry; MAX_PROCESSES - 1];
    let mut s = ProcServer::new(ChannelId(1), ChannelId(2));
    assert_eq!(s.bootstrap(AddressSpaceId(1), &servers), Ok(()));
    assert_eq!(s.process_count(), MAX_PROCESSES);
    assert_eq!(s.process_info(ProcessId::new(127, 1)).unwrap().parent, ProcessId::new(0, 1));
    assert_eq!(s.bootstrap(AddressSpaceId(1), &servers), Err(ProcError::InvalidState));
    assert_eq!(s.process_count(), MAX_PROCESSES);
    let mut full = ProcServer::new(ChannelId(1), ChannelId(2));
    let servers = vec![entry; MAX_PROCESSES];
    assert_eq!(full.bootstrap(AddressSpaceId(1), &servers), Err(ProcError::ProcessTableFull));
}

#[test]
fn ids_of_a_slot_do_not_come_back() {
    let mut table = ProcessTable::new();
    let mut seen = Vec::new();
    for _ in 0..300 {
        let pid = register_program(&mut table, ProcessId::NULL(), b"/x").unwrap();
        assert!(!seen.contains(&pid));
        seen.push(pid);
        table.remove(pid);
    }
    assert!(seen.iter().all(|p| p.index() == 0 && table.get(*p).is_none()));
}
