//! ProcServer: the user-space process manager.
//!
//! The kernel only sees threads; `ProcServer` builds processes on top: their
//! lifecycle, priority policy, signal delivery and parentage.  It runs as a
//! single-threaded event loop.  What has to be done to kernel threads on the
//! way is queued as `ThreadOp`s, which the loop carries out after each request.
use vstd::prelude::*;
use crate::kernel::{AddressSpaceId, ChannelId};
use crate::proc::proc_table;
use crate::proc::proc_table::{
    InfoModel, ProcessInfo, ProcessTable, TableModel, MAX_PROCESSES, MAX_THREADS_PER_PROCESS,
};
use crate::proc::types;
use crate::proc::types::{
    ProcError, ProcRequest, ProcResult, ProcessId, ProcessPriority, ProcessState, Signal,
    SignalAction,
};
use crate::search;
use crate::task::types::{TaskId, TaskPriority};
use crate::text;

verus! {

/// An operation on a kernel thread that the event loop carries out.
#[derive(Debug, Clone, Copy, PartialEq, Eq, Structural)]
pub enum ThreadOp {
    /// Destroy the thread if it still exists.
    Destroy(TaskId),
    /// Set the thread's base priority.
    SetPriority(TaskId, TaskPriority),
}

/// The operations that destroy `threads`.
pub open spec fn destroy_ops(threads: Seq<TaskId>) -> Seq<ThreadOp> {
    threads.map_values(|t: TaskId| ThreadOp::Destroy(t))
}

/// The operations that give `threads` the priority `p`.
pub open spec fn priority_ops(threads: Seq<TaskId>, p: TaskPriority) -> Seq<ThreadOp> {
    threads.map_values(|t: TaskId| ThreadOp::SetPriority(t, p))
}

/// Mathematical content of a `ProcServer`.
#[verifier::ext_equal]
pub struct ProcModel {
    pub table: TableModel,
    pub request_channel: ChannelId,
    pub mm_channel: ChannelId,
    pub default_priority: ProcessPriority,
    pub initialised: bool,
    /// Thread operations that have not been carried out yet, oldest first.
    pub ops: Seq<ThreadOp>,
}

/// Outcome of adding a process record below `parent`, which must exist unless
/// it is null.
pub open spec fn register_outcome(
    t: TableModel,
    parent: ProcessId,
    addr_space_id: AddressSpaceId,
    name: Seq<u8>,
    priority: ProcessPriority,
) -> (ProcResult<ProcessId>, TableModel) {
    if parent != ProcessId::NULL() && t.lookup(parent) is None {
        (Err(ProcError::InvalidProcess), t)
    } else if t.free_slot() is None {
        (Err(ProcError::ProcessTableFull), t)
    } else {
        (
            Ok(t.next_pid()),
            t.inserted(
                proc_table::created(ProcessId::NULL(), name, priority, addr_space_id, parent),
            ),
        )
    }
}

/// A server that was running before the process server: its address space, its
/// name and its priority.
pub type ServerEntry<'a> = (AddressSpaceId, &'a [u8], ProcessPriority);

/// Outcome of adding the servers from `i` on below `parent`, stopping at the
/// first error.
pub open spec fn register_all(
    t: TableModel,
    parent: ProcessId,
    servers: Seq<ServerEntry>,
    i: int,
) -> (ProcResult<()>, TableModel)
    decreases servers.len() - i,
{
    if i >= servers.len() {
        (Ok(()), t)
    } else {
        let (r, t2) = register_outcome(t, parent, servers[i].0, servers[i].1@, servers[i].2);
        match r {
            Ok(_) => register_all(t2, parent, servers, i + 1),
            Err(e) => (Err(e), t2),
        }
    }
}

/// The record of the first process.
pub open spec fn init_record(addr_space_id: AddressSpaceId) -> InfoModel {
    proc_table::created(
        types::pid_of(0, 1),
        seq![105u8, 110u8, 105u8, 116u8],
        ProcessPriority::SYSTEM(),
        addr_space_id,
        ProcessId::NULL(),
    )
}

/// Outcome of spawning a child of `parent`.
pub open spec fn spawn_outcome(
    t: TableModel,
    parent: ProcessId,
    name: Seq<u8>,
    priority: ProcessPriority,
) -> (ProcResult<ProcessId>, TableModel) {
    match t.lookup(parent) {
        None => (Err(ProcError::InvalidProcess), t),
        Some(info) => if !info.state.alive() {
            (Err(ProcError::InvalidState), t)
        } else if t.free_slot() is None {
            (Err(ProcError::ProcessTableFull), t)
        } else {
            (
                Ok(t.next_pid()),
                t.inserted(
                    InfoModel {
                        state: ProcessState::Running,
                        ..proc_table::created(
                            ProcessId::NULL(),
                            name,
                            priority,
                            AddressSpaceId(0),
                            parent,
                        )
                    },
                ),
            )
        },
    }
}

/// What an exited process leaves behind for its parent.
pub open spec fn zombie_of(info: InfoModel, exit_code: i32) -> InfoModel {
    InfoModel {
        state: ProcessState::Zombie,
        exit_code: Some(exit_code),
        threads: Seq::empty(),
        ..info
    }
}

/// Outcome of the exit of `pid`: its threads are to be destroyed; it stays as a
/// zombie while its parent is alive to reap it, and leaves the table otherwise.
pub open spec fn exit_outcome(t: TableModel, pid: ProcessId, exit_code: i32) -> (
    ProcResult<()>,
    TableModel,
    Seq<ThreadOp>,
) {
    match t.lookup(pid) {
        None => (Err(ProcError::InvalidProcess), t, seq![]),
        Some(info) => if !info.state.alive() {
            (Err(ProcError::InvalidState), t, seq![])
        } else {
            let reaper = t.lookup(info.parent);
            let reaped_later = info.parent != pid && reaper is Some && reaper->0.state.alive();
            (
                Ok(()),
                if reaped_later {
                    t.with_info(pid, zombie_of(info, exit_code))
                } else {
                    t.without(pid)
                },
                destroy_ops(info.threads),
            )
        },
    }
}

/// Outcome of a signal.
pub open spec fn signal_outcome(t: TableModel, target: ProcessId, signal: Signal) -> (
    ProcResult<()>,
    TableModel,
    Seq<ThreadOp>,
) {
    match t.lookup(target) {
        None => (Err(ProcError::InvalidProcess), t, seq![]),
        Some(info) => if !info.state.signalable() {
            // Dropped in silence.
            (Ok(()), t, seq![])
        } else {
            match signal.action() {
                SignalAction::Terminate => exit_outcome(t, target, (-signal.num()) as i32),
                SignalAction::Stop => (
                    Ok(()),
                    t.with_info(target, InfoModel { state: ProcessState::Stopped, ..info }),
                    seq![],
                ),
                SignalAction::Continue => (
                    Ok(()),
                    if info.state == ProcessState::Stopped {
                        t.with_info(target, InfoModel { state: ProcessState::Running, ..info })
                    } else {
                        t
                    },
                    seq![],
                ),
                SignalAction::Ignore => (Ok(()), t, seq![]),
            }
        },
    }
}

/// Outcome of a priority change.
pub open spec fn priority_outcome(t: TableModel, target: ProcessId, priority: ProcessPriority) -> (
    ProcResult<()>,
    TableModel,
    Seq<ThreadOp>,
) {
    match t.lookup(target) {
        None => (Err(ProcError::InvalidProcess), t, seq![]),
        Some(info) => (
            Ok(()),
            t.with_info(target, InfoModel { priority, ..info }),
            priority_ops(info.threads, TaskPriority(priority.0)),
        ),
    }
}

/// A result without its value.
pub open spec fn only_error<T>(r: ProcResult<T>) -> ProcResult<()> {
    match r {
        Ok(_) => Ok(()),
        Err(e) => Err(e),
    }
}

/// The part of a request's name buffer that counts.
pub open spec fn request_name(name: Seq<u8>, name_len: u8) -> Seq<u8> {
    name.take(
        if name_len <= 32 {
            name_len as int
        } else {
            32
        },
    )
}

/// Outcome of a client's request.
pub open spec fn request_outcome(t: TableModel, default_priority: ProcessPriority, q: ProcRequest) -> (
    ProcResult<()>,
    TableModel,
    Seq<ThreadOp>,
) {
    match q {
        ProcRequest::Spawn { parent, name, name_len, .. } => {
            let (r, t2) = spawn_outcome(t, parent, request_name(name@, name_len), default_priority);
            (only_error(r), t2, seq![])
        },
        ProcRequest::Exit { pid, exit_code } => exit_outcome(t, pid, exit_code),
        ProcRequest::Signal { target, signal } => signal_outcome(t, target, signal),
        ProcRequest::SetPriority { target, priority } => priority_outcome(t, target, priority),
        ProcRequest::Query { target } => (
            if t.lookup(target) is Some {
                Ok(())
            } else {
                Err(ProcError::InvalidProcess)
            },
            t,
            seq![],
        ),
        ProcRequest::Register { addr_space_id, name, name_len, priority, parent, .. } => {
            let (r, t2) = register_outcome(
                t,
                parent,
                addr_space_id,
                request_name(name@, name_len),
                priority,
            );
            (only_error(r), t2, seq![])
        },
        ProcRequest::List => (Ok(()), t, seq![]),
    }
}

/// The priority that a process of this name starts with: system services are
/// named `init...`, `mm-...`, `proc-...` or `cap-...`, other servers `fs-...`,
/// `net-...` or `drv-...`.
pub open spec fn default_priority_for(name: Seq<u8>) -> ProcessPriority {
    // "init", "mm-", "proc-", "cap-"
    if text::has_prefix(name, seq![105u8, 110u8, 105u8, 116u8]) || text::has_prefix(
        name,
        seq![109u8, 109u8, 45u8],
    ) || text::has_prefix(name, seq![112u8, 114u8, 111u8, 99u8, 45u8]) || text::has_prefix(
        name,
        seq![99u8, 97u8, 112u8, 45u8],
    ) {
        ProcessPriority::SYSTEM()
    }
    // "fs-", "net-", "drv-"
     else if text::has_prefix(name, seq![102u8, 115u8, 45u8]) || text::has_prefix(
        name,
        seq![110u8, 101u8, 116u8, 45u8],
    ) || text::has_prefix(name, seq![100u8, 114u8, 118u8, 45u8]) {
        ProcessPriority::SERVER()
    } else {
        ProcessPriority::USER()
    }
}

/// The process manager server.
pub struct ProcServer {
    /// Process table: the single source of truth for all processes.
    processes: ProcessTable,
    /// IPC channel on which clients send requests to us.
    request_channel: ChannelId,
    /// IPC channel to the memory manager.
    mm_channel: ChannelId,
    /// Thread operations that wait to be carried out.
    ops: Vec<ThreadOp>,
    /// Default priority assigned to newly spawned processes.
    default_priority: ProcessPriority,
    /// Whether this server has been initialised (bootstrapped with init).
    initialised: bool,
}

impl View for ProcServer {
    type V = ProcModel;

    closed spec fn view(&self) -> ProcModel {
        ProcModel {
            table: self.processes@,
            request_channel: self.request_channel,
            mm_channel: self.mm_channel,
            default_priority: self.default_priority,
            initialised: self.initialised,
            ops: self.ops@,
        }
    }
}

impl ProcServer {
    /// The table is in order.
    pub closed spec fn table_ok(self) -> bool {
        self.processes.wf()
    }

    /// Well-formed.
    pub open spec fn wf(self) -> bool {
        &&& self.table_ok()
        &&& self@.table.inv()
    }

    /// Create a new process server.
    pub fn new(request_channel: ChannelId, mm_channel: ChannelId) -> (r: Self)
        ensures
            r.wf(),
            r@ == (ProcModel {
                table: (TableModel {
                    slots: Seq::new(MAX_PROCESSES as nat, |i: int| None::<InfoModel>),
                    generations: Seq::new(MAX_PROCESSES as nat, |i: int| 0u16),
                }),
                request_channel,
                mm_channel,
                default_priority: ProcessPriority::DEFAULT(),
                initialised: false,
                ops: Seq::empty(),
            }),
    {
        ProcServer {
            processes: ProcessTable::new(),
            request_channel,
            mm_channel,
            ops: Vec::new(),
            default_priority: ProcessPriority::DEFAULT(),
            initialised: false,
        }
    }

    /// Return the request channel ID (for the IPC dispatch loop).
    pub fn request_channel(&self) -> (r: ChannelId)
        ensures
            r == self@.request_channel,
    {
        self.request_channel
    }

    /// Return the mm channel ID.
    pub fn mm_channel(&self) -> (r: ChannelId)
        ensures
            r == self@.mm_channel,
    {
        self.mm_channel
    }

    /// Set the default priority for new processes.
    pub fn set_default_priority(&mut self, priority: ProcessPriority)
        requires
            old(self).wf(),
        ensures
            final(self).wf(),
            final(self)@ == (ProcModel { default_priority: priority, ..old(self)@ }),
    {
        self.default_priority = priority;
    }

    /// Hand over the thread operations that have been queued, oldest first.
    pub fn take_thread_ops(&mut self) -> (r: Vec<ThreadOp>)
        requires
            old(self).wf(),
        ensures
            final(self).wf(),
            r@ == old(self)@.ops,
            final(self)@ == (ProcModel { ops: Seq::empty(), ..old(self)@ }),
    {
        let mut out: Vec<ThreadOp> = Vec::new();
        std::mem::swap(&mut out, &mut self.ops);
        out
    }

    /// Register the init process (index 0, generation 1) and any pre-created
    /// system servers.
    ///
    /// Must be called before any other process operations: init gets the first
    /// slot.  After a successful call the server counts as initialised and
    /// refuses to be bootstrapped again.
    pub fn bootstrap(
        &mut self,
        init_addr_space_id: AddressSpaceId,
        system_servers: &[ServerEntry],
    ) -> (r: ProcResult<()>)
        requires
            old(self).wf(),
            !old(self)@.initialised && old(self)@.table.free_slot() is Some ==> old(self)@.table.next_pid() == types::pid_of(0, 1),
        ensures
            final(self).wf(),
            ({
                let t = old(self)@.table;
                if old(self)@.initialised {
                    r == Err::<(), ProcError>(ProcError::InvalidState) && final(self)@ == old(self)@
                } else if t.free_slot() is None {
                    r == Err::<(), ProcError>(ProcError::ProcessTableFull) && final(self)@ == old(self)@
                } else {
                    let (outcome, t2) = register_all(
                        t.inserted(init_record(init_addr_space_id)),
                        types::pid_of(0, 1),
                        system_servers@,
                        0,
                    );
                    r == outcome && final(self)@ == (ProcModel {
                        table: t2,
                        initialised: outcome is Ok,
                        ..old(self)@
                    })
                }
            }),
    {
        if self.initialised {
            return Err(ProcError::InvalidState);
        }
        // 1. Register init in the first slot.
        let init_pid = ProcessId::new(0, 1);
        let init_name: [u8; 4] = [105u8, 110u8, 105u8, 116u8];
        let init_info = ProcessInfo::new(
            init_pid,
            init_name.as_slice(),
            ProcessPriority::SYSTEM(),
            init_addr_space_id,
            ProcessId::NULL(),
        );
        assert(init_name@ =~= seq![105u8, 110u8, 105u8, 116u8]);
        match self.processes.insert(init_info) {
            Ok(_) => {},
            Err(e) => return Err(e),
        }
        // 2. Register pre-existing system servers.
        let ghost t1 = self@.table;
        let mut i: usize = 0;
        while i < system_servers.len()
            invariant
                self.wf(),
                i <= system_servers@.len(),
                init_pid == types::pid_of(0, 1),
                self@ == (ProcModel { table: self@.table, ..old(self)@ }),
                !old(self)@.initialised,
                old(self)@.table.free_slot() is Some,
                t1 == old(self)@.table.inserted(init_record(init_addr_space_id)),
                register_all(self@.table, init_pid, system_servers@, i as int) == register_all(
                    t1,
                    init_pid,
                    system_servers@,
                    0,
                ),
            decreases system_servers@.len() - i,
        {
            let entry = system_servers[i];
            match self.register_process(init_pid, entry.0, entry.1, entry.2) {
                Ok(_) => {},
                Err(e) => return Err(e),
            }
            i += 1;
        }
        self.initialised = true;
        Ok(())
    }

    /// Register an already-running process (used at boot time and when
    /// a server that started earlier connects).
    pub fn register_process(
        &mut self,
        parent: ProcessId,
        addr_space_id: AddressSpaceId,
        name: &[u8],
        priority: ProcessPriority,
    ) -> (r: ProcResult<ProcessId>)
        requires
            old(self).wf(),
        ensures
            final(self).wf(),
            ({
                let (outcome, t) = register_outcome(
                    old(self)@.table,
                    parent,
                    addr_space_id,
                    name@,
                    priority,
                );
                r == outcome && final(self)@ == (ProcModel { table: t, ..old(self)@ })
            }),
    {
        // The parent must exist unless it is null.
        if !parent.is_null() && self.processes.get(parent).is_none() {
            return Err(ProcError::InvalidProcess);
        }
        let info = ProcessInfo::new(ProcessId::NULL(), name, priority, addr_space_id, parent);
        self.processes.insert(info)
    }

    /// Spawn a new process as a child of `parent`.
    ///
    /// The parent must exist and be alive.  The child gets the default priority
    /// and counts as running: its address space, stacks and threads are set up
    /// by the caller.
    pub fn spawn(
        &mut self,
        parent: ProcessId,
        name: &[u8],
        _code_start: usize,
        _code_end: usize,
        _data_start: usize,
        _data_end: usize,
        _stack_start: usize,
        _stack_end: usize,
        _heap_start: usize,
    ) -> (r: ProcResult<ProcessId>)
        requires
            old(self).wf(),
        ensures
            final(self).wf(),
            ({
                let (outcome, t) = spawn_outcome(
                    old(self)@.table,
                    parent,
                    name@,
                    old(self)@.default_priority,
                );
                r == outcome && final(self)@ == (ProcModel { table: t, ..old(self)@ })
            }),
    {
        // 1. The parent must exist and be alive.
        match self.processes.get(parent) {
            None => return Err(ProcError::InvalidProcess),
            Some(info) => {
                if !info.state.is_alive() {
                    return Err(ProcError::InvalidState);
                }
            },
        }
        // 2. Create the process record.
        let ghost t0 = self@.table;
        let info = ProcessInfo::new(
            ProcessId::NULL(),
            name,
            self.default_priority,
            AddressSpaceId(0),
            parent,
        );
        let child_pid = match self.processes.insert(info) {
            Ok(pid) => pid,
            Err(e) => return Err(e),
        };
        proof {
            proc_table::law_insert_then_lookup(t0, info@, child_pid);
            lemma_spawned(t0, info@, ProcessState::Running);
        }
        // 3. The caller has set up its address space and threads.
        match self.processes.set_state(child_pid, ProcessState::Running) {
            Ok(()) => {},
            Err(e) => return Err(e),
        }
        Ok(child_pid)
    }

    /// Handle a process exit.
    ///
    /// The process must be alive.  Its threads are destroyed.  While its parent
    /// is alive the process stays as a zombie with its exit code until it is
    /// reaped; otherwise it leaves the table at once.
    pub fn exit(&mut self, pid: ProcessId, exit_code: i32) -> (r: ProcResult<()>)
        requires
            old(self).wf(),
        ensures
            final(self).wf(),
            ({
                let (outcome, t, ops) = exit_outcome(old(self)@.table, pid, exit_code);
                r == outcome && final(self)@ == (ProcModel {
                    table: t,
                    ops: old(self)@.ops + ops,
                    ..old(self)@
                })
            }),
    {
        let info: ProcessInfo = match self.processes.get(pid) {
            Some(info) => *info,
            None => {
                assert(self.ops@ + seq![] =~= self.ops@);
                return Err(ProcError::InvalidProcess);
            },
        };
        if !info.state.is_alive() {
            assert(self.ops@ + seq![] =~= self.ops@);
            return Err(ProcError::InvalidState);
        }
        let ghost t0 = self@.table;
        // 1. Transition to Dying.
        match self.processes.set_state(pid, ProcessState::Dying) {
            Ok(()) => {},
            Err(e) => return Err(e),
        }
        let ghost t1 = self@.table;
        proof {
            lemma_lookup_after_update(t0, pid, InfoModel { state: ProcessState::Dying, ..info@ });
        }
        // 2. Destroy all threads.
        let thread_ids = info.thread_ids();
        self.queue_destroy(&thread_ids);
        // 3. Leave a zombie for a living parent, or go at once.
        let parent_pid = info.parent;
        let is_zombie = if parent_pid.is_null() {
            false
        } else {
            match self.processes.get(parent_pid) {
                Some(p) => p.state.is_alive(),
                None => false,
            }
        };
        if is_zombie {
            match self.processes.get_mut(pid) {
                Some(record) => {
                    record.state = ProcessState::Zombie;
                    record.exit_code = Some(exit_code);
                    // Clear the thread list.
                    record.threads = [None;MAX_THREADS_PER_PROCESS];
                    record.thread_count = 0;
                    assert(record@ =~= zombie_of(info@, exit_code));
                },
                None => {},
            }
            assert(self@.table =~= t0.with_info(pid, zombie_of(info@, exit_code)));
        } else {
            self.processes.remove(pid);
            assert(self@.table =~= t0.without(pid));
        }
        Ok(())
    }

    /// Queue the destruction of each thread.
    fn queue_destroy(&mut self, threads: &Vec<TaskId>)
        ensures
            final(self)@ == (ProcModel {
                ops: old(self)@.ops + destroy_ops(threads@),
                ..old(self)@
            }),
            final(self).processes == old(self).processes,
    {
        let mut i: usize = 0;
        assert(self.ops@ =~= old(self)@.ops + destroy_ops(threads@.take(0)));
        while i < threads.len()
            invariant
                i <= threads@.len(),
                self.processes == old(self).processes,
                self@ == (ProcModel {
                    ops: old(self)@.ops + destroy_ops(threads@.take(i as int)),
                    ..old(self)@
                }),
            decreases threads@.len() - i,
        {
            self.ops.push(ThreadOp::Destroy(threads[i]));
            assert(self.ops@ =~= old(self)@.ops + destroy_ops(threads@.take(i + 1)));
            i += 1;
        }
        assert(threads@.take(threads@.len() as int) =~= threads@);
    }

    /// Queue a priority change for each thread.
    fn queue_priority(&mut self, threads: &Vec<TaskId>, priority: TaskPriority)
        ensures
            final(self)@ == (ProcModel {
                ops: old(self)@.ops + priority_ops(threads@, priority),
                ..old(self)@
            }),
            final(self).processes == old(self).processes,
    {
        let mut i: usize = 0;
        assert(self.ops@ =~= old(self)@.ops + priority_ops(threads@.take(0), priority));
        while i < threads.len()
            invariant
                i <= threads@.len(),
                self.processes == old(self).processes,
                self@ == (ProcModel {
                    ops: old(self)@.ops + priority_ops(threads@.take(i as int), priority),
                    ..old(self)@
                }),
            decreases threads@.len() - i,
        {
            self.ops.push(ThreadOp::SetPriority(threads[i], priority));
            assert(self.ops@ =~= old(self)@.ops + priority_ops(threads@.take(i + 1), priority));
            i += 1;
        }
        assert(threads@.take(threads@.len() as int) =~= threads@);
    }

    /// Force-kill a process: an exit with code -9.
    pub fn kill(&mut self, pid: ProcessId) -> (r: ProcResult<()>)
        requires
            old(self).wf(),
        ensures
            final(self).wf(),
            ({
                let (outcome, t, ops) = exit_outcome(old(self)@.table, pid, (-9int) as i32);
                r == outcome && final(self)@ == (ProcModel {
                    table: t,
                    ops: old(self)@.ops + ops,
                    ..old(self)@
                })
            }),
    {
        self.exit(pid, -9)
    }

    /// Reap a zombie process (called by its parent).
    ///
    /// Returns the exit code of the reaped child.
    pub fn reap(&mut self, parent: ProcessId, child: ProcessId) -> (r: ProcResult<i32>)
        requires
            old(self).wf(),
        ensures
            final(self).wf(),
            match old(self)@.table.lookup(child) {
                None => r == Err::<i32, ProcError>(ProcError::InvalidProcess) && final(self)@ == old(self)@,
                Some(info) => if info.state != ProcessState::Zombie {
                    r == Err::<i32, ProcError>(ProcError::InvalidState) && final(self)@ == old(self)@
                } else if info.parent != parent {
                    r == Err::<i32, ProcError>(ProcError::PermissionDenied) && final(self)@ == old(self)@
                } else {
                    r == Ok::<i32, ProcError>(
                        match info.exit_code {
                            Some(c) => c,
                            None => 0,
                        },
                    ) && final(self)@ == (ProcModel {
                        table: old(self)@.table.without(child),
                        ..old(self)@
                    })
                },
            },
    {
        let exit_code: i32 = match self.processes.get(child) {
            None => return Err(ProcError::InvalidProcess),
            Some(info) => {
                if info.state != ProcessState::Zombie {
                    return Err(ProcError::InvalidState);
                }
                if info.parent != parent {
                    return Err(ProcError::PermissionDenied);
                }
                match info.exit_code {
                    Some(c) => c,
                    None => 0,
                }
            },
        };
        self.processes.remove(child);
        Ok(exit_code)
    }

    /// Send a signal to a process.
    ///
    /// A process that cannot receive signals drops it in silence.  Otherwise
    /// the default action is taken: terminate (exit with the negated signal
    /// number), stop, continue (if stopped), or nothing.
    pub fn send_signal(&mut self, target: ProcessId, signal: Signal) -> (r: ProcResult<()>)
        requires
            old(self).wf(),
        ensures
            final(self).wf(),
            ({
                let (outcome, t, ops) = signal_outcome(old(self)@.table, target, signal);
                r == outcome && final(self)@ == (ProcModel {
                    table: t,
                    ops: old(self)@.ops + ops,
                    ..old(self)@
                })
            }),
    {
        assert(self.ops@ + seq![] =~= self.ops@);
        let state = match self.processes.get(target) {
            Some(info) => info.state,
            None => return Err(ProcError::InvalidProcess),
        };
        if !state.can_receive_signal() {
            return Ok(());
        }
        match signal.default_action() {
            SignalAction::Terminate => {
                let sig_num: i32 = signal.number() as i32;
                assert((-signal.num()) as i32 == -sig_num);
                self.exit(target, -sig_num)
            },
            SignalAction::Stop => {
                self.processes.set_state(target, ProcessState::Stopped)?;
                Ok(())
            },
            SignalAction::Continue => {
                if state == ProcessState::Stopped {
                    self.processes.set_state(target, ProcessState::Running)?;
                }
                Ok(())
            },
            SignalAction::Ignore => Ok(()),
        }
    }

    /// Set the priority of a process and propagate it to all its threads.
    pub fn set_priority(&mut self, target: ProcessId, priority: ProcessPriority) -> (r: ProcResult<()>)
        requires
            old(self).wf(),
        ensures
            final(self).wf(),
            ({
                let (outcome, t, ops) = priority_outcome(old(self)@.table, target, priority);
                r == outcome && final(self)@ == (ProcModel {
                    table: t,
                    ops: old(self)@.ops + ops,
                    ..old(self)@
                })
            }),
    {
        assert(self.ops@ + seq![] =~= self.ops@);
        let thread_ids: Vec<TaskId> = match self.processes.get_mut(target) {
            Some(info) => {
                info.priority = priority;
                info.thread_ids()
            },
            None => return Err(ProcError::InvalidProcess),
        };
        self.queue_priority(&thread_ids, TaskPriority(priority.0));
        Ok(())
    }

    /// Compute the default priority for a process based on its name.
    ///
    /// * Names starting with `mm-`, `proc-`, `init`, `cap-` are system services.
    /// * Names starting with `fs-`, `net-`, `drv-` are servers.
    /// * Everything else is a user process.
    pub fn compute_default_priority(&self, name: &[u8]) -> (r: ProcessPriority)
        ensures
            r == default_priority_for(name@),
    {
        let init: [u8; 4] = [105u8, 110u8, 105u8, 116u8];
        let mm: [u8; 3] = [109u8, 109u8, 45u8];
        let proc: [u8; 5] = [112u8, 114u8, 111u8, 99u8, 45u8];
        let cap: [u8; 4] = [99u8, 97u8, 112u8, 45u8];
        let fs: [u8; 3] = [102u8, 115u8, 45u8];
        let net: [u8; 4] = [110u8, 101u8, 116u8, 45u8];
        let drv: [u8; 4] = [100u8, 114u8, 118u8, 45u8];
        proof {
            assert(init@ =~= seq![105u8, 110u8, 105u8, 116u8]);
            assert(mm@ =~= seq![109u8, 109u8, 45u8]);
            assert(proc@ =~= seq![112u8, 114u8, 111u8, 99u8, 45u8]);
            assert(cap@ =~= seq![99u8, 97u8, 112u8, 45u8]);
            assert(fs@ =~= seq![102u8, 115u8, 45u8]);
            assert(net@ =~= seq![110u8, 101u8, 116u8, 45u8]);
            assert(drv@ =~= seq![100u8, 114u8, 118u8, 45u8]);
        }
        if text::starts_with(name, init.as_slice()) || text::starts_with(name, mm.as_slice())
            || text::starts_with(name, proc.as_slice()) || text::starts_with(name, cap.as_slice()) {
            ProcessPriority::SYSTEM()
        } else if text::starts_with(name, fs.as_slice()) || text::starts_with(name, net.as_slice())
            || text::starts_with(name, drv.as_slice()) {
            ProcessPriority::SERVER()
        } else {
            ProcessPriority::USER()
        }
    }

    /// Get process information.
    pub fn process_info(&self, pid: ProcessId) -> (r: ProcResult<&ProcessInfo>)
        requires
            self.wf(),
        ensures
            match self@.table.lookup(pid) {
                Some(info) => r is Ok && r->Ok_0.wf() && r->Ok_0@ == info,
                None => r is Err && r->Err_0 == ProcError::InvalidProcess,
            },
    {
        match self.processes.get(pid) {
            Some(info) => Ok(info),
            None => Err(ProcError::InvalidProcess),
        }
    }

    /// Return the total number of processes.
    pub fn process_count(&self) -> (r: usize)
        requires
            self.wf(),
        ensures
            r == search::count(self@.table.slots, proc_table::occupied()),
    {
        self.processes.len()
    }

    /// List all process IDs in slot order.
    pub fn list_processes(&self) -> (r: Vec<ProcessId>)
        requires
            self.wf(),
        ensures
            r@ == proc_table::pids(
                search::collected(self@.table.slots, proc_table::any_process()),
            ),
    {
        let infos = self.processes.iter();
        let mut out: Vec<ProcessId> = Vec::new();
        let ghost models = infos@.map_values(|p: ProcessInfo| p@);
        let mut i: usize = 0;
        while i < infos.len()
            invariant
                i <= infos@.len(),
                models == infos@.map_values(|p: ProcessInfo| p@),
                out@ == proc_table::pids(models).take(i as int),
            decreases infos@.len() - i,
        {
            out.push(infos[i].pid);
            assert(out@ =~= proc_table::pids(models).take(i + 1));
            i += 1;
        }
        assert(out@ =~= proc_table::pids(models));
        out
    }

    /// Return the children of a process.
    pub fn children_of(&self, parent: ProcessId) -> (r: ProcResult<Vec<ProcessId>>)
        requires
            self.wf(),
        ensures
            if parent != ProcessId::NULL() && self@.table.lookup(parent) is None {
                r is Err && r->Err_0 == ProcError::InvalidProcess
            } else {
                r is Ok && r->Ok_0@ == proc_table::pids(
                    search::collected(self@.table.slots, proc_table::child_of(parent)),
                )
            },
    {
        if !parent.is_null() && self.processes.get(parent).is_none() {
            return Err(ProcError::InvalidProcess);
        }
        Ok(self.processes.children_of(parent))
    }

    /// Dispatch a single request.
    ///
    /// After processing, the caller can query `process_info()` or
    /// `list_processes()` to build a reply message.
    pub fn handle_request(&mut self, request: &ProcRequest) -> (r: ProcResult<()>)
        requires
            old(self).wf(),
        ensures
            final(self).wf(),
            ({
                let (outcome, t, ops) = request_outcome(
                    old(self)@.table,
                    old(self)@.default_priority,
                    *request,
                );
                r == outcome && final(self)@ == (ProcModel {
                    table: t,
                    ops: old(self)@.ops + ops,
                    ..old(self)@
                })
            }),
    {
        assert(self.ops@ + seq![] =~= self.ops@);
        match *request {
            ProcRequest::Spawn {
                parent,
                name,
                name_len,
                code_start,
                code_end,
                data_start,
                data_end,
                stack_start,
                stack_end,
                heap_start,
            } => {
                let n: usize = if name_len <= 32 {
                    name_len as usize
                } else {
                    32
                };
                let valid = vstd::slice::slice_subrange(name.as_slice(), 0, n);
                assert(valid@ =~= request_name(name@, name_len));
                match self.spawn(
                    parent,
                    valid,
                    code_start,
                    code_end,
                    data_start,
                    data_end,
                    stack_start,
                    stack_end,
                    heap_start,
                ) {
                    Ok(_) => Ok(()),
                    Err(e) => Err(e),
                }
            },
            ProcRequest::Exit { pid, exit_code } => self.exit(pid, exit_code),
            ProcRequest::Signal { target, signal } => self.send_signal(target, signal),
            ProcRequest::SetPriority { target, priority } => self.set_priority(target, priority),
            ProcRequest::Query { target } => match self.process_info(target) {
                Ok(_) => Ok(()),
                Err(e) => Err(e),
            },
            ProcRequest::Register { addr_space_id, name, name_len, priority, parent, .. } => {
                let n: usize = if name_len <= 32 {
                    name_len as usize
                } else {
                    32
                };
                let valid = vstd::slice::slice_subrange(name.as_slice(), 0, n);
                assert(valid@ =~= request_name(name@, name_len));
                match self.register_process(parent, addr_space_id, valid, priority) {
                    Ok(_) => Ok(()),
                    Err(e) => Err(e),
                }
            },
            ProcRequest::List => Ok(()),
        }
    }
}

proof fn lemma_spawned(t: TableModel, info: InfoModel, state: ProcessState)
    requires
        t.inv(),
        t.free_slot() is Some,
    ensures
        t.inserted(info).with_info(
            t.next_pid(),
            InfoModel { state, pid: t.next_pid(), ..info },
        ) == t.inserted(InfoModel { state, ..info }),
{
    search::lemma_first_index(t.slots, proc_table::vacant(), 0);
    let i = t.free_slot()->0;
    types::law_process_id_round_trip(
        i,
        proc_table::next_generation(t.generations[i]) as int,
        t.next_pid(),
    );
    assert(t.inserted(info).with_info(
        t.next_pid(),
        InfoModel { state, pid: t.next_pid(), ..info },
    ) =~= t.inserted(InfoModel { state, ..info }));
}

pub proof fn lemma_lookup_after_update(t: TableModel, pid: ProcessId, info: InfoModel)
    requires
        t.inv(),
        t.valid(pid),
    ensures
        t.with_info(pid, info).lookup(pid) == Some(info),
        forall|q: ProcessId| q != pid ==> #[trigger] t.with_info(pid, info).lookup(q) == t.lookup(q),
{
    types::law_process_id_round_trip(0, 0, pid);
    assert forall|q: ProcessId| q != pid implies #[trigger] t.with_info(pid, info).lookup(q)
        == t.lookup(q) by {
        types::law_process_id_round_trip(0, 0, q);
    }
}

// ---------------------------------------------------------------------------
// Laws
// ---------------------------------------------------------------------------

/// A process that exits is not alive afterwards, keeps no thread, and can be
/// told to exit only once.
pub proof fn law_exit_is_final(t: TableModel, pid: ProcessId, code: i32, again: i32)
    requires
        t.inv(),
        exit_outcome(t, pid, code).0 is Ok,
    ensures
        ({
            let t2 = exit_outcome(t, pid, code).1;
            &&& t2.lookup(pid) is Some ==> !t2.lookup(pid)->0.state.alive() && t2.lookup(
                pid,
            )->0.threads.len() == 0
            &&& exit_outcome(t2, pid, again).0 is Err
            &&& forall|q: ProcessId| q != pid ==> #[trigger] t2.lookup(q) == t.lookup(q)
        }),
{
    let info = t.lookup(pid)->0;
    lemma_lookup_after_update(t, pid, zombie_of(info, code));
    assert forall|q: ProcessId| q != pid implies #[trigger] exit_outcome(t, pid, code).1.lookup(q)
        == t.lookup(q) by {
        proc_table::law_remove_then_lookup(t, pid, q);
    }
    proc_table::law_remove_then_lookup(t, pid, pid);
}

/// What a child leaves when it exits under a living parent is what the parent
/// reaps: the exit code.
pub proof fn law_reap_returns_the_exit_code(t: TableModel, pid: ProcessId, code: i32)
    requires
        t.inv(),
        t.lookup(pid) is Some,
        t.lookup(pid)->0.state.alive(),
        t.lookup(pid)->0.parent != pid,
        t.lookup(t.lookup(pid)->0.parent) is Some,
        t.lookup(t.lookup(pid)->0.parent)->0.state.alive(),
    ensures
        ({
            let child = exit_outcome(t, pid, code).1.lookup(pid);
            &&& child is Some
            &&& child->0.state == ProcessState::Zombie
            &&& child->0.exit_code == Some(code)
            &&& child->0.parent == t.lookup(pid)->0.parent
        }),
{
    lemma_lookup_after_update(t, pid, zombie_of(t.lookup(pid)->0, code));
}

/// A stop signal followed by a continue signal leaves a running process as it
/// was.
pub proof fn law_continue_undoes_stop(t: TableModel, pid: ProcessId)
    requires
        t.inv(),
        t.lookup(pid) is Some,
        t.lookup(pid)->0.state == ProcessState::Running,
    ensures
        ({
            let stopped = signal_outcome(t, pid, Signal::SIGSTOP);
            &&& stopped.0 is Ok
            &&& signal_outcome(stopped.1, pid, Signal::SIGCONT).0 is Ok
            &&& signal_outcome(stopped.1, pid, Signal::SIGCONT).1 == t
        }),
{
    let info = t.lookup(pid)->0;
    let stopped = InfoModel { state: ProcessState::Stopped, ..info };
    lemma_lookup_after_update(t, pid, stopped);
    assert(signal_outcome(t.with_info(pid, stopped), pid, Signal::SIGCONT).1 =~= t);
}

/// A process that cannot receive signals is changed by none.
pub proof fn law_unsignalable_process_drops_signals(t: TableModel, pid: ProcessId, s: Signal)
    requires
        t.lookup(pid) is Some,
        !t.lookup(pid)->0.state.signalable(),
    ensures
        signal_outcome(t, pid, s) == (Ok::<(), ProcError>(()), t, Seq::<ThreadOp>::empty()),
{
}

/// The first `k` slots are taken, each for the first time, and no other.
spec fn filled_to(t: TableModel, k: int) -> bool {
    &&& t.inv()
    &&& search::count(t.slots, proc_table::occupied()) == k
    &&& forall|j: int|
        0 <= j < MAX_PROCESSES ==> ((#[trigger] t.slots[j]) is Some) == (j < k)
    &&& forall|j: int|
        0 <= j < MAX_PROCESSES ==> #[trigger] t.generations[j] == (if j < k {
            1u16
        } else {
            0
        })
}

/// One more process goes to slot `k`.
proof fn lemma_next_slot(t: TableModel, k: int, info: InfoModel)
    requires
        filled_to(t, k),
        0 <= k < MAX_PROCESSES,
    ensures
        t.free_slot() == Some(k),
        t.next_pid() == types::pid_of(k, 1),
        filled_to(t.inserted(info), k + 1),
        forall|j: int|
            0 <= j < MAX_PROCESSES && j != k ==> #[trigger] t.inserted(info).slots[j] == t.slots[j],
        t.inserted(info).lookup(types::pid_of(k, 1)) == Some(
            InfoModel { pid: types::pid_of(k, 1), ..info },
        ),
{
    search::lemma_first_index_is(t.slots, proc_table::vacant(), 0, k);
    proc_table::law_insert_counts(t, info);
    proc_table::law_insert_then_lookup(t, info, ProcessId::NULL());
}

proof fn lemma_register_all(t: TableModel, servers: Seq<ServerEntry>, i: int)
    requires
        filled_to(t, i + 1),
        0 <= i <= servers.len() <= 127,
        t.lookup(types::pid_of(0, 1)) is Some,
    ensures
        ({
            let (r, t2) = register_all(t, types::pid_of(0, 1), servers, i);
            &&& r is Ok
            &&& filled_to(t2, servers.len() as int + 1)
            &&& forall|j: int| 0 <= j <= i ==> #[trigger] t2.slots[j] == t.slots[j]
            &&& forall|j: int|
                i <= j < servers.len() ==> #[trigger] t2.slots[j + 1] == Some(
                    server_record(servers[j], j + 1),
                )
        }),
    decreases servers.len() - i,
{
    let init = types::pid_of(0, 1);
    if i < servers.len() {
        let e = servers[i];
        let info = proc_table::created(ProcessId::NULL(), e.1@, e.2, e.0, init);
        lemma_next_slot(t, i + 1, info);
        let t1 = t.inserted(info);
        proc_table::law_insert_then_lookup(t, info, init);
        types::law_process_id_round_trip(0, 1, init);
        types::law_process_id_round_trip(i + 1, 1, init);
        assert(t1.lookup(init) is Some);
        lemma_register_all(t1, servers, i + 1);
        let t2 = register_all(t1, init, servers, i + 1).1;
        assert(register_all(t, init, servers, i) == register_all(t1, init, servers, i + 1));
        assert(t1.slots[i + 1] == Some(server_record(e, i + 1)));
        assert forall|j: int| i <= j < servers.len() implies #[trigger] t2.slots[j + 1] == Some(
            server_record(servers[j], j + 1),
        ) by {
            if j == i {
                assert(t2.slots[i + 1] == t1.slots[i + 1]);
            }
        }
        assert forall|j: int| 0 <= j <= i implies #[trigger] t2.slots[j] == t.slots[j] by {
            assert(t2.slots[j] == t1.slots[j]);
        }
    }
}

/// The record of a server that was running before, in slot `slot`.
pub open spec fn server_record(e: ServerEntry, slot: int) -> InfoModel {
    InfoModel {
        pid: types::pid_of(slot, 1),
        ..proc_table::created(ProcessId::NULL(), e.1@, e.2, e.0, types::pid_of(0, 1))
    }
}

/// With at most 127 servers a new process server registers them all at its
/// bootstrap, below the first process, and counts them.
pub proof fn law_bootstrap_registers_all(
    t: TableModel,
    addr_space_id: AddressSpaceId,
    servers: Seq<ServerEntry>,
)
    requires
        servers.len() <= 127,
        t.slots == Seq::new(MAX_PROCESSES as nat, |i: int| None::<InfoModel>),
        t.generations == Seq::new(MAX_PROCESSES as nat, |i: int| 0u16),
    ensures
        t.free_slot() is Some,
        t.next_pid() == types::pid_of(0, 1),
        ({
            let (r, t2) = register_all(
                t.inserted(init_record(addr_space_id)),
                types::pid_of(0, 1),
                servers,
                0,
            );
            &&& r is Ok
            &&& search::count(t2.slots, proc_table::occupied()) == servers.len() + 1
            &&& t2.slots[0] == Some(init_record(addr_space_id))
            &&& forall|j: int|
                0 <= j < servers.len() ==> #[trigger] t2.slots[j + 1] == Some(
                    server_record(servers[j], j + 1),
                )
        }),
{
    search::lemma_count_bounds(t.slots, proc_table::occupied());
    assert(filled_to(t, 0));
    let info = init_record(addr_space_id);
    lemma_next_slot(t, 0, info);
    let t1 = t.inserted(info);
    assert(t1.slots[0] == Some(info));
    lemma_register_all(t1, servers, 0);
}

} // verus!
