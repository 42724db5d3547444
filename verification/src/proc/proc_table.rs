//! Process table: the central data structure of the process server.
//!
//! A fixed-size array of slots indexed by the lower half of a `ProcessId`.
//! Each slot has a generation counter that is bumped on every allocation and
//! not reset on removal, so that a stale `ProcessId` that refers to a reused
//! slot fails the generation check.
use vstd::prelude::*;
use vstd::string::*;
use crate::kernel::AddressSpaceId;
use crate::proc::types;
use crate::proc::types::{
    ProcError, ProcResult, ProcessId, ProcessPriority, ProcessState,
};
use crate::search;
use crate::task::types::{TaskId, TaskState};
use crate::text;

verus! {

/// Maximum number of processes the table can hold.
pub const MAX_PROCESSES: usize = 128;

/// Maximum number of threads a single process can own.
pub const MAX_THREADS_PER_PROCESS: usize = 8;

/// Longest process name in bytes.
const MAX_NAME: usize = 32;

// ---------------------------------------------------------------------------
// ProcessInfo
// ---------------------------------------------------------------------------

/// Everything the process server knows about one process.
#[derive(Debug, Clone, Copy)]
pub struct ProcessInfo {
    /// Process identifier (generational).
    pub pid: ProcessId,
    /// Human-readable name (e.g. "init", "mm-server", "shell").
    /// Not null-terminated: `name_len` gives the valid prefix.
    pub name: [u8; 32],
    /// Number of valid bytes in `name`.
    pub name_len: u8,
    /// Current lifecycle state.
    pub state: ProcessState,
    /// Process-level priority: base priority for all threads in this process.
    pub priority: ProcessPriority,
    /// Address-space identifier.
    pub addr_space_id: AddressSpaceId,
    /// Parent process (null for init).
    pub parent: ProcessId,
    /// Threads owned by this process.
    /// The first `thread_count` entries are valid.
    pub threads: [Option<TaskId>; MAX_THREADS_PER_PROCESS],
    /// Number of valid entries in `threads`.
    pub thread_count: u8,
    /// Exit code, meaningful only for a zombie.
    pub exit_code: Option<i32>,
}

/// Mathematical content of a `ProcessInfo`.
#[verifier::ext_equal]
pub struct InfoModel {
    pub pid: ProcessId,
    pub name: Seq<u8>,
    pub state: ProcessState,
    pub priority: ProcessPriority,
    pub addr_space_id: AddressSpaceId,
    pub parent: ProcessId,
    pub threads: Seq<TaskId>,
    pub exit_code: Option<i32>,
}

impl View for ProcessInfo {
    type V = InfoModel;

    open spec fn view(&self) -> InfoModel {
        InfoModel {
            pid: self.pid,
            name: self.name@.take(self.name_len as int),
            state: self.state,
            priority: self.priority,
            addr_space_id: self.addr_space_id,
            parent: self.parent,
            threads: Seq::new(self.thread_count as nat, |i: int| self.threads@[i]->0),
            exit_code: self.exit_code,
        }
    }
}

/// The first 32 bytes of a name: what a process record keeps of it.
pub open spec fn kept_name(name: Seq<u8>) -> Seq<u8> {
    if name.len() <= 32 {
        name
    } else {
        name.take(32)
    }
}

/// A process record as it is first made.
pub open spec fn created(
    pid: ProcessId,
    name: Seq<u8>,
    priority: ProcessPriority,
    addr_space_id: AddressSpaceId,
    parent: ProcessId,
) -> InfoModel {
    InfoModel {
        pid,
        name: kept_name(name),
        state: ProcessState::Created,
        priority,
        addr_space_id,
        parent,
        threads: Seq::empty(),
        exit_code: None,
    }
}

/// "Equals `tid`", as a predicate on tasks.
pub open spec fn same_task(tid: TaskId) -> spec_fn(TaskId) -> bool {
    |t: TaskId| t == tid
}

/// Blocked or dying.
pub open spec fn inactive(s: Option<TaskState>) -> bool {
    s == Some(TaskState::Blocked) || s == Some(TaskState::Dying)
}

/// `state_of` answers for task `t` with a state that is inactive, or with one
/// that is not, as `blocked` says.
pub open spec fn reports<F: Fn(TaskId) -> Option<TaskState>>(
    state_of: F,
    t: TaskId,
    blocked: bool,
) -> bool {
    exists|s: Option<TaskState>| #[trigger]
        call_ensures(state_of, (t,), s) && inactive(s) == blocked
}

impl ProcessInfo {
    /// The counts stay within the arrays and the threads come first.
    pub open spec fn wf(self) -> bool {
        &&& self.name_len <= 32
        &&& self.thread_count <= MAX_THREADS_PER_PROCESS
        &&& forall|i: int| 0 <= i < self.thread_count ==> (#[trigger] self.threads@[i]) is Some
        &&& forall|i: int|
            self.thread_count <= i < MAX_THREADS_PER_PROCESS ==> (#[trigger] self.threads@[i]) is None
    }

    /// Create a new `ProcessInfo` in `Created` state.
    pub fn new(
        pid: ProcessId,
        name: &[u8],
        priority: ProcessPriority,
        addr_space_id: AddressSpaceId,
        parent: ProcessId,
    ) -> (r: Self)
        ensures
            r.wf(),
            r@ == created(pid, name@, priority, addr_space_id, parent),
            forall|i: int| r.name_len <= i < 32 ==> r.name@[i] == 0,
    {
        let mut name_buf: [u8; 32] = [0u8;32];
        let name_len: usize = if name.len() <= MAX_NAME {
            name.len()
        } else {
            MAX_NAME
        };
        let mut i: usize = 0;
        while i < name_len
            invariant
                i <= name_len <= 32,
                name_len <= name@.len(),
                forall|j: int| 0 <= j < i ==> name_buf@[j] == name@[j],
                forall|j: int| i <= j < 32 ==> name_buf@[j] == 0,
            decreases name_len - i,
        {
            name_buf[i] = name[i];
            i += 1;
        }
        let r = ProcessInfo {
            pid,
            name: name_buf,
            name_len: name_len as u8,
            state: ProcessState::Created,
            priority,
            addr_space_id,
            parent,
            threads: [None;MAX_THREADS_PER_PROCESS],
            thread_count: 0,
            exit_code: None,
        };
        assert(r@.name =~= kept_name(name@));
        assert(r@ =~= created(pid, name@, priority, addr_space_id, parent));
        r
    }

    /// The valid bytes of the name.
    pub fn name_bytes(&self) -> (r: &[u8])
        requires
            self.wf(),
        ensures
            r@ == self@.name,
    {
        vstd::slice::slice_subrange(self.name.as_slice(), 0, self.name_len as usize)
    }

    /// Return the process name as text; a name that is not UTF-8 shows as
    /// `<invalid-utf8>`.
    pub fn name_str(&self) -> (r: &str)
        requires
            self.wf(),
        ensures
            vstd::utf8::valid_utf8(self@.name) ==> r.spec_bytes() == self@.name,
            !vstd::utf8::valid_utf8(self@.name) ==> r@ == "<invalid-utf8>"@,
    {
        text::text_or(self.name_bytes(), "<invalid-utf8>")
    }

    /// Return `true` if this process can accept another thread.
    pub fn can_add_thread(&self) -> (r: bool)
        requires
            self.wf(),
        ensures
            r == (self@.threads.len() < MAX_THREADS_PER_PROCESS),
    {
        (self.thread_count as usize) < MAX_THREADS_PER_PROCESS
    }

    /// Add a thread to this process's thread list.
    ///
    /// Returns `Err(())` if the thread list is full.
    pub fn add_thread(&mut self, tid: TaskId) -> (r: Result<(), ()>)
        requires
            old(self).wf(),
        ensures
            final(self).wf(),
            r is Ok <==> old(self)@.threads.len() < MAX_THREADS_PER_PROCESS,
            final(self)@ == (if r is Ok {
                InfoModel { threads: old(self)@.threads.push(tid), ..old(self)@ }
            } else {
                old(self)@
            }),
    {
        if !self.can_add_thread() {
            return Err(());
        }
        let n: usize = self.thread_count as usize;
        self.threads[n] = Some(tid);
        self.thread_count = self.thread_count + 1;
        assert(self@ =~= InfoModel { threads: old(self)@.threads.push(tid), ..old(self)@ });
        Ok(())
    }

    /// Remove a thread from this process's thread list; the later threads move
    /// up.
    ///
    /// Returns `true` if the thread was found and removed.
    pub fn remove_thread(&mut self, tid: TaskId) -> (r: bool)
        requires
            old(self).wf(),
        ensures
            final(self).wf(),
            r == old(self)@.threads.contains(tid),
            final(self)@ == (match search::first_index(old(self)@.threads, same_task(tid), 0) {
                Some(i) => InfoModel { threads: old(self)@.threads.remove(i), ..old(self)@ },
                None => old(self)@,
            }),
    {
        let n: usize = self.thread_count as usize;
        let ghost ts = self@.threads;
        proof {
            search::lemma_first_index(ts, same_task(tid), 0);
        }
        let mut i: usize = 0;
        while i < n
            invariant
                *self == *old(self),
                self.wf(),
                n == self.thread_count,
                i <= n,
                ts == self@.threads,
                search::first_index(ts, same_task(tid), 0) == search::first_index(
                    ts,
                    same_task(tid),
                    i as int,
                ),
                forall|j: int| 0 <= j < i ==> ts[j] != tid,
            decreases n - i,
        {
            assert(self.threads@[i as int] is Some);
            assert(ts[i as int] == self.threads@[i as int]->0);
            if self.threads[i].unwrap() == tid {
                assert(ts.contains(tid));
                self.close_gap(i);
                assert(self@ =~= InfoModel { threads: ts.remove(i as int), ..old(self)@ });
                return true;
            }
            i += 1;
        }
        assert(!ts.contains(tid));
        false
    }

    /// Move the threads after position `at` one place up and drop the last.
    fn close_gap(&mut self, at: usize)
        requires
            old(self).wf(),
            at < old(self).thread_count,
        ensures
            final(self).wf(),
            final(self)@.threads == old(self)@.threads.remove(at as int),
            *final(self) == (ProcessInfo {
                threads: final(self).threads,
                thread_count: final(self).thread_count,
                ..*old(self)
            }),
    {
        let n: usize = self.thread_count as usize;
        let mut i: usize = at;
        while i + 1 < n
            invariant
                at <= i < n,
                n == old(self).thread_count,
                n <= MAX_THREADS_PER_PROCESS,
                old(self).wf(),
                *self == (ProcessInfo { threads: self.threads, ..*old(self) }),
                forall|j: int| 0 <= j < at ==> self.threads@[j] == old(self).threads@[j],
                forall|j: int|
                    at <= j < i ==> #[trigger] self.threads@[j] == old(self).threads@[j + 1],
                forall|j: int|
                    i <= j < MAX_THREADS_PER_PROCESS ==> self.threads@[j] == old(self).threads@[j],
            decreases n - i,
        {
            self.threads[i] = self.threads[i + 1];
            i += 1;
        }
        self.threads[n - 1] = None;
        self.thread_count = self.thread_count - 1;
        assert(self@.threads =~= old(self)@.threads.remove(at as int));
    }

    /// This process's threads.
    pub fn thread_ids(&self) -> (r: Vec<TaskId>)
        requires
            self.wf(),
        ensures
            r@ == self@.threads,
    {
        let mut out: Vec<TaskId> = Vec::new();
        let mut i: usize = 0;
        while i < self.thread_count as usize
            invariant
                self.wf(),
                i <= self.thread_count,
                out@ == self@.threads.take(i as int),
            decreases self.thread_count - i,
        {
            assert(self.threads@[i as int] is Some);
            out.push(self.threads[i].unwrap());
            assert(self@.threads.take(i as int).push(self@.threads[i as int]) =~= self@.threads.take(
                i + 1,
            ));
            i += 1;
        }
        assert(self@.threads.take(self@.threads.len() as int) =~= self@.threads);
        out
    }

    /// Return `true` if every thread is blocked or dying, that is if the
    /// process as a whole is blocked.
    ///
    /// `state_of` resolves a task to its current state.
    pub fn all_threads_blocked<F: Fn(TaskId) -> Option<TaskState>>(&self, state_of: F) -> (r: bool)
        requires
            self.wf(),
            forall|t: TaskId| #[trigger] call_requires(state_of, (t,)),
        ensures
            r ==> forall|i: int|
                0 <= i < self@.threads.len() ==> reports(
                    state_of,
                    #[trigger] self@.threads[i],
                    true,
                ),
            !r ==> exists|i: int|
                0 <= i < self@.threads.len() && reports(
                    state_of,
                    #[trigger] self@.threads[i],
                    false,
                ),
    {
        let ids = self.thread_ids();
        let mut i: usize = 0;
        while i < ids.len()
            invariant
                ids@ == self@.threads,
                i <= ids@.len(),
                forall|t: TaskId| #[trigger] call_requires(state_of, (t,)),
                forall|j: int|
                    0 <= j < i ==> reports(state_of, #[trigger] self@.threads[j], true),
            decreases ids@.len() - i,
        {
            let s = state_of(ids[i]);
            let blocked = match s {
                Some(TaskState::Blocked) | Some(TaskState::Dying) => true,
                _ => false,
            };
            assert(reports(state_of, self@.threads[i as int], blocked)) by {
                assert(call_ensures(state_of, (self@.threads[i as int],), s));
                assert(inactive(s) == blocked);
            }
            if !blocked {
                return false;
            }
            i += 1;
        }
        true
    }
}

// ---------------------------------------------------------------------------
// ProcessTable
// ---------------------------------------------------------------------------

/// Mathematical content of a `ProcessTable`.
#[verifier::ext_equal]
pub struct TableModel {
    pub slots: Seq<Option<InfoModel>>,
    pub generations: Seq<u16>,
}

/// "Is free", as a predicate on slots.
pub open spec fn vacant() -> spec_fn(Option<InfoModel>) -> bool {
    |s: Option<InfoModel>| s is None
}

/// "Is in use", as a predicate on slots.
pub open spec fn occupied() -> spec_fn(Option<InfoModel>) -> bool {
    |s: Option<InfoModel>| s is Some
}

/// "Holds a process of this name", as a predicate on slots.
pub open spec fn named(name: Seq<u8>) -> spec_fn(Option<InfoModel>) -> bool {
    |s: Option<InfoModel>| s is Some && s->0.name == name
}

/// "Is a child of `parent`", as a predicate on processes.
pub open spec fn child_of(parent: ProcessId) -> spec_fn(InfoModel) -> bool {
    |i: InfoModel| i.parent == parent
}

/// Any process at all.
pub open spec fn any_process() -> spec_fn(InfoModel) -> bool {
    |i: InfoModel| true
}

/// The IDs of a list of processes.
pub open spec fn pids(infos: Seq<InfoModel>) -> Seq<ProcessId> {
    infos.map_values(|i: InfoModel| i.pid)
}

/// The generation that follows `g` at a slot; it is never 0.
pub open spec fn next_generation(g: u16) -> u16 {
    if g == 0xFFFF {
        1
    } else {
        (g + 1) as u16
    }
}

impl TableModel {
    /// Every occupied slot holds the process whose ID points at it.
    pub open spec fn inv(self) -> bool {
        &&& self.slots.len() == MAX_PROCESSES
        &&& self.generations.len() == MAX_PROCESSES
        &&& forall|i: int|
            0 <= i < MAX_PROCESSES && (#[trigger] self.slots[i]) is Some ==> self.generations[i] != 0
                && self.slots[i]->0.pid == types::pid_of(i, self.generations[i] as int)
    }

    /// `pid` refers to an occupied slot of the right generation.
    pub open spec fn valid(self, pid: ProcessId) -> bool {
        &&& pid != ProcessId::NULL()
        &&& pid.slot() < MAX_PROCESSES
        &&& self.generations[pid.slot()] == pid.gen()
        &&& self.slots[pid.slot()] is Some
    }

    /// The process that `pid` refers to.
    pub open spec fn lookup(self, pid: ProcessId) -> Option<InfoModel> {
        if self.valid(pid) {
            self.slots[pid.slot()]
        } else {
            None
        }
    }

    /// The table after the record of `pid` has become `info`.
    pub open spec fn with_info(self, pid: ProcessId, info: InfoModel) -> TableModel {
        TableModel { slots: self.slots.update(pid.slot(), Some(info)), ..self }
    }

    /// The table after `pid` has left it.
    pub open spec fn without(self, pid: ProcessId) -> TableModel {
        TableModel { slots: self.slots.update(pid.slot(), None), ..self }
    }

    /// The first free slot.
    pub open spec fn free_slot(self) -> Option<int> {
        search::first_index(self.slots, vacant(), 0)
    }

    /// The ID that the next process gets.
    pub open spec fn next_pid(self) -> ProcessId {
        types::pid_of(
            self.free_slot()->0,
            next_generation(self.generations[self.free_slot()->0]) as int,
        )
    }

    /// The table after `info` has been put into the first free slot.
    pub open spec fn inserted(self, info: InfoModel) -> TableModel {
        let i = self.free_slot()->0;
        TableModel {
            slots: self.slots.update(i, Some(InfoModel { pid: self.next_pid(), ..info })),
            generations: self.generations.update(i, next_generation(self.generations[i])),
        }
    }
}

/// Fixed-size process table with generational protection.
///
/// The generation of a slot is not reset when it is freed: a stale `ProcessId`
/// that refers to a freed and reused slot has a different generation and fails
/// the lookup.
pub struct ProcessTable {
    /// Process slots; `None` means free.
    slots: [Option<ProcessInfo>; MAX_PROCESSES],
    /// Number of currently occupied slots.
    len: usize,
    /// Generation counter per slot, incremented on every allocation at it.
    generations: [u16; MAX_PROCESSES],
}

spec fn slot_view(s: Option<ProcessInfo>) -> Option<InfoModel> {
    match s {
        Some(p) => Some(p@),
        None => None,
    }
}

impl View for ProcessTable {
    type V = TableModel;

    closed spec fn view(&self) -> TableModel {
        TableModel {
            slots: Seq::new(MAX_PROCESSES as nat, |i: int| slot_view(self.slots@[i])),
            generations: self.generations@,
        }
    }
}

impl ProcessTable {
    /// The count is right and every record is in order.
    pub closed spec fn rep_ok(self) -> bool {
        &&& self.len == search::count(self@.slots, occupied())
        &&& forall|i: int|
            0 <= i < MAX_PROCESSES && (#[trigger] self.slots@[i]) is Some ==> self.slots@[i]->0.wf()
    }

    /// Well-formed.
    pub open spec fn wf(self) -> bool {
        &&& self.rep_ok()
        &&& self@.inv()
    }

    /// Create an empty process table.
    pub fn new() -> (r: Self)
        ensures
            r.wf(),
            r@ == (TableModel {
                slots: Seq::new(MAX_PROCESSES as nat, |i: int| None::<InfoModel>),
                generations: Seq::new(MAX_PROCESSES as nat, |i: int| 0u16),
            }),
    {
        let r = ProcessTable {
            slots: [None;MAX_PROCESSES],
            len: 0,
            generations: [0u16;MAX_PROCESSES],
        };
        proof {
            assert(r@.slots =~= Seq::new(MAX_PROCESSES as nat, |i: int| None::<InfoModel>));
            assert(r@.generations =~= Seq::new(MAX_PROCESSES as nat, |i: int| 0u16));
            search::lemma_count_bounds(r@.slots, occupied());
        }
        r
    }

    /// Number of occupied slots.
    pub fn len(&self) -> (r: usize)
        requires
            self.wf(),
        ensures
            r == search::count(self@.slots, occupied()),
    {
        self.len
    }

    /// `true` when the table is empty.
    pub fn is_empty(&self) -> (r: bool)
        requires
            self.wf(),
        ensures
            r == (forall|i: int| 0 <= i < MAX_PROCESSES ==> (#[trigger] self@.slots[i]) is None),
    {
        proof {
            search::lemma_count_bounds(self@.slots, occupied());
            if self.len == 0 {
                assert forall|i: int| 0 <= i < MAX_PROCESSES implies (#[trigger] self@.slots[i]) is None by {
                    assert(!occupied()(self@.slots[i]));
                }
            }
        }
        self.len == 0
    }

    /// `true` when the table is full.
    pub fn is_full(&self) -> (r: bool)
        requires
            self.wf(),
        ensures
            r == (self@.free_slot() is None),
    {
        proof {
            search::lemma_count_bounds(self@.slots, occupied());
            search::lemma_first_index(self@.slots, vacant(), 0);
            if self@.free_slot() is None {
                assert forall|i: int| 0 <= i < self@.slots.len() implies occupied()(
                    #[trigger] self@.slots[i],
                ) by {
                    assert(!vacant()(self@.slots[i]));
                }
            } else {
                assert(!occupied()(self@.slots[self@.free_slot()->0]));
            }
        }
        self.len >= MAX_PROCESSES
    }

    /// Find a free slot, advance its generation and return the new ID.
    ///
    /// Returns `None` if the table is full.
    fn alloc_slot(&mut self) -> (r: Option<ProcessId>)
        requires
            old(self).wf(),
        ensures
            final(self).slots == old(self).slots,
            final(self).len == old(self).len,
            match r {
                None => old(self)@.free_slot() is None && final(self)@ == old(self)@,
                Some(pid) => {
                    let i = old(self)@.free_slot();
                    &&& i is Some
                    &&& 0 <= i->0 < MAX_PROCESSES
                    &&& pid == old(self)@.next_pid()
                    &&& pid.slot() == i->0
                    &&& pid.gen() == next_generation(old(self)@.generations[i->0])
                    &&& old(self).slots@[i->0] is None
                    &&& final(self)@ == (TableModel {
                        generations: old(self)@.generations.update(
                            i->0,
                            next_generation(old(self)@.generations[i->0]),
                        ),
                        ..old(self)@
                    })
                },
            },
    {
        let mut i: usize = 0;
        while i < MAX_PROCESSES
            invariant
                *self == *old(self),
                self.wf(),
                i <= MAX_PROCESSES,
                self@.free_slot() == search::first_index(self@.slots, vacant(), i as int),
            decreases MAX_PROCESSES - i,
        {
            assert(self@.slots[i as int] == slot_view(self.slots@[i as int]));
            if self.slots[i].is_none() {
                // Generation 0 is never handed out, so no ID is null.
                let g: u16 = self.generations[i];
                let next: u16 = if g == 0xFFFF {
                    1
                } else {
                    g + 1
                };
                self.generations[i] = next;
                assert(self@ =~= TableModel {
                    generations: old(self)@.generations.update(i as int, next),
                    ..old(self)@
                });
                return Some(ProcessId::new(i as u16, next));
            }
            i += 1;
        }
        None
    }

    /// Insert a `ProcessInfo` into the table.
    ///
    /// The record gets the allocated `ProcessId`, which is returned.
    ///
    /// # Errors
    ///
    /// * `ProcError::ProcessTableFull`: no free slots.
    pub fn insert(&mut self, info: ProcessInfo) -> (r: ProcResult<ProcessId>)
        requires
            old(self).wf(),
            info.wf(),
        ensures
            final(self).wf(),
            old(self)@.free_slot() is None ==> r == Err::<ProcessId, ProcError>(
                ProcError::ProcessTableFull,
            ) && final(self)@ == old(self)@,
            old(self)@.free_slot() is Some ==> r == Ok::<ProcessId, ProcError>(
                old(self)@.next_pid(),
            ) && final(self)@ == old(self)@.inserted(info@),
    {
        let ghost t0 = self@;
        proof {
            search::lemma_count_bounds(t0.slots, occupied());
        }
        let pid = match self.alloc_slot() {
            Some(pid) => pid,
            None => return Err(ProcError::ProcessTableFull),
        };
        let i: usize = pid.index() as usize;
        let mut record = info;
        record.pid = pid;
        assert(record@ =~= InfoModel { pid, ..info@ });
        proof {
            search::lemma_count_update(t0.slots, occupied(), i as int, Some(record@));
            assert(t0.slots[i as int] == slot_view(old(self).slots@[i as int]));
        }
        self.slots[i] = Some(record);
        self.len = self.len + 1;
        assert(self@ =~= t0.inserted(info@));
        Ok(pid)
    }

    /// Remove a process and return its `ProcessInfo`.
    ///
    /// The generation check ensures this `ProcessId` has not been reused
    /// since it was issued.
    pub fn remove(&mut self, pid: ProcessId) -> (r: Option<ProcessInfo>)
        requires
            old(self).wf(),
        ensures
            final(self).wf(),
            match old(self)@.lookup(pid) {
                Some(info) => r is Some && r->0.wf() && r->0@ == info && final(self)@ == old(self)@.without(pid),
                None => r is None && final(self)@ == old(self)@,
            },
    {
        if !self.is_current(pid) {
            return None;
        }
        let i: usize = pid.index() as usize;
        let ghost t0 = self@;
        assert(t0.slots[i as int] == slot_view(self.slots@[i as int]));
        let info = self.slots[i].take();
        if info.is_some() {
            proof {
                search::lemma_count_bounds(t0.slots, occupied());
                search::lemma_count_update(t0.slots, occupied(), i as int, None);
                assert(occupied()(t0.slots[i as int]));
            }
            self.len = self.len - 1;
        }
        assert(info is Some ==> self@ =~= t0.without(pid));
        assert(info is None ==> self@ =~= t0);
        info
    }

    /// The slot of `pid` exists and has its generation.
    fn is_current(&self, pid: ProcessId) -> (r: bool)
        requires
            self.wf(),
        ensures
            r == (pid != ProcessId::NULL() && pid.slot() < MAX_PROCESSES
                && self@.generations[pid.slot()] == pid.gen()),
    {
        if pid.is_null() {
            return false;
        }
        let i: usize = pid.index() as usize;
        i < MAX_PROCESSES && self.generations[i] == pid.generation()
    }

    /// Look up a process by `ProcessId` (immutable).
    ///
    /// Returns `None` if the ID is invalid, the generation mismatches, or
    /// the slot is free.
    pub fn get(&self, pid: ProcessId) -> (r: Option<&ProcessInfo>)
        requires
            self.wf(),
        ensures
            match r {
                Some(info) => info.wf() && self@.lookup(pid) == Some(info@),
                None => self@.lookup(pid) is None,
            },
    {
        if !self.is_current(pid) {
            return None;
        }
        let i: usize = pid.index() as usize;
        assert(self@.slots[i as int] == slot_view(self.slots@[i as int]));
        self.slots[i].as_ref()
    }

    /// Look up a process by `ProcessId` (mutable).
    ///
    /// The table stays well-formed as long as the record does and its ID is
    /// left alone.
    pub fn get_mut(&mut self, pid: ProcessId) -> (r: Option<&mut ProcessInfo>)
        requires
            old(self).wf(),
        ensures
            match r {
                Some(info) => {
                    &&& info.wf()
                    &&& old(self)@.lookup(pid) == Some(info@)
                    &&& info.pid == pid
                    &&& final(self)@ == old(self)@.with_info(pid, final(info)@)
                    &&& final(info).wf() && final(info).pid == pid ==> final(self).wf()
                },
                None => old(self)@.lookup(pid) is None && final(self).wf() && final(self)@ == old(self)@,
            },
    {
        if !self.is_current(pid) {
            return None;
        }
        let i: usize = pid.index() as usize;
        let ghost t0 = self@;
        let ghost slots0 = self.slots@;
        assert(t0.slots[i as int] == slot_view(slots0[i as int]));
        if self.slots[i].is_none() {
            return None;
        }
        proof {
            types::law_process_id_round_trip(0, 0, pid);
            assert forall|p: ProcessInfo|
                p.pid == pid implies #[trigger] t0.with_info(pid, p@).inv() by {
                lemma_with_info_inv(t0, pid, p@);
            }
            assert forall|p: ProcessInfo|
                search::count(
                    t0.slots.update(i as int, Some(#[trigger] p@)),
                    occupied(),
                ) == search::count(t0.slots, occupied()) by {
                search::lemma_count_update(t0.slots, occupied(), i as int, Some(p@));
            }
            assert forall|p: ProcessInfo|
                Seq::new(
                    MAX_PROCESSES as nat,
                    |k: int| slot_view(slots0.update(i as int, Some(p))[k]),
                ) == t0.slots.update(i as int, Some(#[trigger] p@)) by {
                assert(Seq::new(
                    MAX_PROCESSES as nat,
                    |k: int| slot_view(slots0.update(i as int, Some(p))[k]),
                ) =~= t0.slots.update(i as int, Some(p@)));
            }
        }
        self.slots[i].as_mut()
    }

    /// Find a process by name (exact match on the first 32 bytes).
    pub fn find_by_name(&self, name: &[u8]) -> (r: Option<&ProcessInfo>)
        requires
            self.wf(),
        ensures
            match search::first_index(self@.slots, named(kept_name(name@)), 0) {
                Some(i) => r is Some && r->0.wf() && self@.slots[i] == Some(r->0@),
                None => r is None,
            },
    {
        let name_len: usize = if name.len() <= MAX_NAME {
            name.len()
        } else {
            MAX_NAME
        };
        let wanted = vstd::slice::slice_subrange(name, 0, name_len);
        assert(wanted@ =~= kept_name(name@));
        let mut i: usize = 0;
        while i < MAX_PROCESSES
            invariant
                self.wf(),
                i <= MAX_PROCESSES,
                wanted@ == kept_name(name@),
                search::first_index(self@.slots, named(kept_name(name@)), 0) == search::first_index(
                    self@.slots,
                    named(kept_name(name@)),
                    i as int,
                ),
            decreases MAX_PROCESSES - i,
        {
            assert(self@.slots[i as int] == slot_view(self.slots@[i as int]));
            match &self.slots[i] {
                Some(info) => {
                    if text::same_bytes(info.name_bytes(), wanted) {
                        return Some(info);
                    }
                },
                None => {},
            }
            i += 1;
        }
        None
    }

    /// Return the IDs of all children of `parent`, in slot order.
    pub fn children_of(&self, parent: ProcessId) -> (r: Vec<ProcessId>)
        requires
            self.wf(),
        ensures
            r@ == pids(search::collected(self@.slots, child_of(parent))),
    {
        let mut out: Vec<ProcessId> = Vec::new();
        let mut i: usize = 0;
        assert(out@ =~= pids(search::collected(self@.slots.take(0), child_of(parent))));
        while i < MAX_PROCESSES
            invariant
                self.wf(),
                i <= MAX_PROCESSES,
                out@ == pids(search::collected(self@.slots.take(i as int), child_of(parent))),
            decreases MAX_PROCESSES - i,
        {
            assert(self@.slots[i as int] == slot_view(self.slots@[i as int]));
            proof {
                search::lemma_collected_step(self@.slots, child_of(parent), i as int);
            }
            match &self.slots[i] {
                Some(info) => {
                    if info.parent == parent {
                        out.push(info.pid);
                    }
                },
                None => {},
            }
            assert(out@ =~= pids(search::collected(self@.slots.take(i + 1), child_of(parent))));
            i += 1;
        }
        assert(self@.slots.take(MAX_PROCESSES as int) =~= self@.slots);
        out
    }

    /// Return all records in slot order.
    pub fn iter(&self) -> (r: Vec<ProcessInfo>)
        requires
            self.wf(),
        ensures
            r@.map_values(|p: ProcessInfo| p@) == search::collected(self@.slots, any_process()),
            forall|i: int| 0 <= i < r@.len() ==> (#[trigger] r@[i]).wf(),
    {
        let mut out: Vec<ProcessInfo> = Vec::new();
        let mut i: usize = 0;
        assert(out@.map_values(|p: ProcessInfo| p@) =~= search::collected(
            self@.slots.take(0),
            any_process(),
        ));
        while i < MAX_PROCESSES
            invariant
                self.wf(),
                i <= MAX_PROCESSES,
                out@.map_values(|p: ProcessInfo| p@) == search::collected(
                    self@.slots.take(i as int),
                    any_process(),
                ),
                forall|k: int| 0 <= k < out@.len() ==> (#[trigger] out@[k]).wf(),
            decreases MAX_PROCESSES - i,
        {
            assert(self@.slots[i as int] == slot_view(self.slots@[i as int]));
            proof {
                search::lemma_collected_step(self@.slots, any_process(), i as int);
            }
            match self.slots[i] {
                Some(info) => {
                    out.push(info);
                },
                None => {},
            }
            assert(out@.map_values(|p: ProcessInfo| p@) =~= search::collected(
                self@.slots.take(i + 1),
                any_process(),
            ));
            i += 1;
        }
        assert(self@.slots.take(MAX_PROCESSES as int) =~= self@.slots);
        out
    }

    /// Transition a process's state (with generation check).
    ///
    /// Returns `ProcError::InvalidProcess` if the process doesn't exist.
    pub fn set_state(&mut self, pid: ProcessId, new_state: ProcessState) -> (r: ProcResult<()>)
        requires
            old(self).wf(),
        ensures
            final(self).wf(),
            match old(self)@.lookup(pid) {
                None => r == Err::<(), ProcError>(ProcError::InvalidProcess) && final(self)@ == old(self)@,
                Some(info) => r is Ok && final(self)@ == old(self)@.with_info(
                    pid,
                    (InfoModel { state: new_state, ..info }),
                ),
            },
    {
        match self.get_mut(pid) {
            Some(info) => {
                info.state = new_state;
                Ok(())
            },
            None => Err(ProcError::InvalidProcess),
        }
    }
}

proof fn lemma_with_info_inv(t: TableModel, pid: ProcessId, info: InfoModel)
    requires
        t.inv(),
        t.valid(pid),
        info.pid == pid,
    ensures
        t.with_info(pid, info).inv(),
{
    types::law_process_id_round_trip(0, 0, pid);
    let u = t.with_info(pid, info);
    assert forall|k: int| 0 <= k < MAX_PROCESSES && (#[trigger] u.slots[k]) is Some implies u.generations[k]
        != 0 && u.slots[k]->0.pid == types::pid_of(k, u.generations[k] as int) by {
        assert(t.slots[k] is Some);
    }
}

// ---------------------------------------------------------------------------
// Laws
// ---------------------------------------------------------------------------

/// A freshly inserted process is found under its ID, which is not null, and no
/// other ID refers to anything else than before.
pub proof fn law_insert_then_lookup(t: TableModel, info: InfoModel, other: ProcessId)
    requires
        t.inv(),
        t.free_slot() is Some,
    ensures
        t.inserted(info).inv(),
        t.next_pid() != ProcessId::NULL(),
        t.inserted(info).lookup(t.next_pid()) == Some(InfoModel { pid: t.next_pid(), ..info }),
        other != t.next_pid() ==> t.inserted(info).lookup(other) == t.lookup(other),
{
    search::lemma_first_index(t.slots, vacant(), 0);
    let i = t.free_slot()->0;
    let g = next_generation(t.generations[i]) as int;
    types::law_process_id_round_trip(i, g, other);
    let u = t.inserted(info);
    assert forall|k: int| 0 <= k < MAX_PROCESSES && (#[trigger] u.slots[k]) is Some implies u.generations[k]
        != 0 && u.slots[k]->0.pid == types::pid_of(k, u.generations[k] as int) by {
        if k != i {
            assert(u.slots[k] == t.slots[k]);
        }
    }
    if other != t.next_pid() && other.slot() == i {
        assert(vacant()(t.slots[i]));
        assert(other.gen() != g);
    }
}

/// A removed process is gone, and every other lookup stays as it was.
pub proof fn law_remove_then_lookup(t: TableModel, pid: ProcessId, other: ProcessId)
    requires
        t.inv(),
        t.valid(pid),
    ensures
        t.without(pid).inv(),
        t.without(pid).lookup(pid) is None,
        other != pid ==> t.without(pid).lookup(other) == t.lookup(other),
{
    let u = t.without(pid);
    assert forall|k: int| 0 <= k < MAX_PROCESSES && (#[trigger] u.slots[k]) is Some implies u.generations[k]
        != 0 && u.slots[k]->0.pid == types::pid_of(k, u.generations[k] as int) by {
        if k != pid.slot() {
            assert(u.slots[k] == t.slots[k]);
        }
    }
    types::law_process_id_round_trip(0, 0, pid);
    types::law_process_id_round_trip(0, 0, other);
}

/// Once the slot of a removed process has been reused, the old ID still refers
/// to nothing.
pub proof fn law_stale_id_is_rejected(t: TableModel, pid: ProcessId, info: InfoModel)
    requires
        t.inv(),
        t.valid(pid),
        t.without(pid).free_slot() == Some(pid.slot()),
    ensures
        t.without(pid).inserted(info).lookup(pid) is None,
        t.without(pid).next_pid() != pid,
{
    law_remove_then_lookup(t, pid, pid);
    let u = t.without(pid);
    let g = next_generation(u.generations[pid.slot()]) as int;
    types::law_process_id_round_trip(pid.slot(), g, pid);
    assert(g != pid.gen());
    law_insert_then_lookup(u, info, pid);
}

/// An insertion counts one process more; it is refused exactly when all slots
/// are taken.
pub proof fn law_insert_counts(t: TableModel, info: InfoModel)
    requires
        t.inv(),
    ensures
        t.free_slot() is None <==> search::count(t.slots, occupied()) == MAX_PROCESSES,
        t.free_slot() is Some ==> search::count(t.inserted(info).slots, occupied())
            == search::count(t.slots, occupied()) + 1,
{
    search::lemma_first_index(t.slots, vacant(), 0);
    search::lemma_count_bounds(t.slots, occupied());
    match t.free_slot() {
        Some(i) => {
            assert(!occupied()(t.slots[i]));
            search::lemma_count_update(
                t.slots,
                occupied(),
                i,
                Some(InfoModel { pid: t.next_pid(), ..info }),
            );
        },
        None => {
            assert forall|j: int| 0 <= j < t.slots.len() implies occupied()(#[trigger] t.slots[j]) by {
                assert(!vacant()(t.slots[j]));
            }
        },
    }
}

// ---------------------------------------------------------------------------
// Histories
// ---------------------------------------------------------------------------

/// One change of a process table.
pub enum TableStep {
    Insert(InfoModel),
    Remove(ProcessId),
}

/// The table after one change; a change that is refused leaves it as it is.
pub open spec fn after_step(t: TableModel, step: TableStep) -> TableModel {
    match step {
        TableStep::Insert(info) => if t.free_slot() is Some {
            t.inserted(info)
        } else {
            t
        },
        TableStep::Remove(pid) => if t.lookup(pid) is Some {
            t.without(pid)
        } else {
            t
        },
    }
}

/// The table after several changes.
pub open spec fn after_steps(t: TableModel, steps: Seq<TableStep>) -> TableModel
    decreases steps.len(),
{
    if steps.len() == 0 {
        t
    } else {
        after_step(after_steps(t, steps.drop_last()), steps.last())
    }
}

/// The IDs that were handed out on the way, oldest first.
pub open spec fn issued(t: TableModel, steps: Seq<TableStep>) -> Seq<ProcessId>
    decreases steps.len(),
{
    if steps.len() == 0 {
        seq![]
    } else {
        let before = after_steps(t, steps.drop_last());
        let ids = issued(t, steps.drop_last());
        if steps.last() is Insert && before.free_slot() is Some {
            ids.push(before.next_pid())
        } else {
            ids
        }
    }
}

/// How many of the first `n` IDs are of slot `slot`.
pub open spec fn count_at(ids: Seq<ProcessId>, slot: int, n: int) -> int
    decreases n,
{
    if n <= 0 {
        0
    } else {
        count_at(ids, slot, n - 1) + (if ids[n - 1].slot() == slot {
            1int
        } else {
            0
        })
    }
}

/// The generation of a slot after `k` processes were put there.
pub open spec fn gen_after(g: u16, k: int) -> u16
    decreases k,
{
    if k <= 0 {
        g
    } else {
        next_generation(gen_after(g, k - 1))
    }
}

proof fn lemma_gen_after(g: u16, k: int)
    requires
        0 <= k,
    ensures
        k > 0 ==> gen_after(g, k) == (g - 1 + k) % 0xFFFF + 1,
    decreases k,
{
    if k > 0 {
        lemma_gen_after(g, k - 1);
        let x = g - 1 + k - 1;
        if k == 1 {
            assert(gen_after(g, 0) == g);
            assert(g < 0xFFFF ==> g as int % 0xFFFF == g);
        } else {
            assert(x % 0xFFFF == 0xFFFE ==> (x + 1) % 0xFFFF == 0);
            assert(x % 0xFFFF != 0xFFFE ==> (x + 1) % 0xFFFF == x % 0xFFFF + 1);
        }
    }
}

proof fn lemma_count_push(ids: Seq<ProcessId>, p: ProcessId, slot: int, n: int)
    requires
        0 <= n <= ids.len(),
    ensures
        count_at(ids.push(p), slot, n) == count_at(ids, slot, n),
    decreases n,
{
    if n > 0 {
        lemma_count_push(ids, p, slot, n - 1);
    }
}

proof fn lemma_count_order(ids: Seq<ProcessId>, slot: int, a: int, b: int)
    requires
        0 <= a <= b,
    ensures
        0 <= count_at(ids, slot, a) <= count_at(ids, slot, b) <= count_at(ids, slot, a) + b - a,
    decreases b,
{
    if a < b {
        lemma_count_order(ids, slot, a, b - 1);
    } else if a > 0 {
        lemma_count_order(ids, slot, a - 1, a - 1);
    }
}

/// Each ID carries the generation that its slot has by then, and so does the
/// slot in the end.
proof fn lemma_history(t: TableModel, steps: Seq<TableStep>)
    requires
        t.inv(),
    ensures
        after_steps(t, steps).inv(),
        forall|s: int|
            0 <= s < MAX_PROCESSES ==> #[trigger] after_steps(t, steps).generations[s] == gen_after(
                t.generations[s],
                count_at(issued(t, steps), s, issued(t, steps).len() as int),
            ),
        forall|i: int|
            0 <= i < issued(t, steps).len() ==> {
                let p = #[trigger] issued(t, steps)[i];
                &&& 0 <= p.slot() < MAX_PROCESSES
                &&& p != ProcessId::NULL()
                &&& p.gen() == gen_after(
                    t.generations[p.slot()],
                    count_at(issued(t, steps), p.slot(), i + 1),
                )
            },
    decreases steps.len(),
{
    if steps.len() > 0 {
        let init = steps.drop_last();
        lemma_history(t, init);
        let before = after_steps(t, init);
        let ids = issued(t, init);
        match steps.last() {
            TableStep::Remove(pid) => {
                if before.lookup(pid) is Some {
                    law_remove_then_lookup(before, pid, pid);
                }
            },
            TableStep::Insert(info) => {
                if before.free_slot() is Some {
                    let p = before.next_pid();
                    let all = ids.push(p);
                    law_insert_then_lookup(before, info, p);
                    search::lemma_first_index(before.slots, vacant(), 0);
                    let at = before.free_slot()->0;
                    types::law_process_id_round_trip(
                        at,
                        next_generation(before.generations[at]) as int,
                        p,
                    );
                    assert(p.slot() == at);
                    assert forall|s: int| 0 <= s < MAX_PROCESSES implies #[trigger] after_steps(
                        t,
                        steps,
                    ).generations[s] == gen_after(
                        t.generations[s],
                        count_at(all, s, all.len() as int),
                    ) by {
                        assert(before.generations[s] == gen_after(
                            t.generations[s],
                            count_at(ids, s, ids.len() as int),
                        ));
                        lemma_count_push(ids, p, s, ids.len() as int);
                        lemma_count_order(ids, s, 0, ids.len() as int);
                        assert(all[ids.len() as int] == p);
                    }
                    assert forall|i: int| 0 <= i < all.len() implies {
                        let q = #[trigger] all[i];
                        &&& 0 <= q.slot() < MAX_PROCESSES
                        &&& q != ProcessId::NULL()
                        &&& q.gen() == gen_after(
                            t.generations[q.slot()],
                            count_at(all, q.slot(), i + 1),
                        )
                    } by {
                        if i < ids.len() {
                            assert(all[i] == ids[i]);
                            lemma_count_push(ids, p, ids[i].slot(), i + 1);
                        } else {
                            assert(after_steps(t, steps).generations[at] == gen_after(
                                t.generations[at],
                                count_at(all, at, all.len() as int),
                            ));
                        }
                    }
                }
            },
        }
    }
}

/// An ID differs from every ID that was handed out for its slot before, as long
/// as the slot was reused fewer than 65535 times in between; the earlier ones
/// then refer to nothing.  No ID is null.
pub proof fn law_ids_are_not_reused(t: TableModel, steps: Seq<TableStep>, i: int, j: int)
    requires
        t.inv(),
        0 <= i < j < issued(t, steps).len(),
        ({
            let ids = issued(t, steps);
            &&& ids[i].slot() == ids[j].slot()
            &&& count_at(ids, ids[i].slot(), ids.len() as int) - count_at(
                ids,
                ids[i].slot(),
                i + 1,
            ) < 0xFFFF
        }),
    ensures
        issued(t, steps)[i] != issued(t, steps)[j],
        issued(t, steps)[j] != ProcessId::NULL(),
        after_steps(t, steps).lookup(issued(t, steps)[i]) is None,
{
    let ids = issued(t, steps);
    let s = ids[i].slot();
    let n = ids.len() as int;
    lemma_history(t, steps);
    lemma_count_order(ids, s, i + 1, j);
    lemma_count_order(ids, s, j + 1, n);
    lemma_count_order(ids, s, 0, i);
    let a = count_at(ids, s, i + 1);
    let b = count_at(ids, s, j + 1);
    let c = count_at(ids, s, n);
    let g = t.generations[s];
    assert(1 <= a < b <= c < a + 0xFFFF);
    lemma_gen_after(g, a);
    lemma_gen_after(g, b);
    lemma_gen_after(g, c);
    lemma_apart(g - 1 + a, g - 1 + b);
    lemma_apart(g - 1 + a, g - 1 + c);
    assert(after_steps(t, steps).generations[s] == gen_after(g, c));
}

proof fn lemma_apart(x: int, y: int)
    requires
        0 <= x < y < x + 0xFFFF,
    ensures
        x % 0xFFFF != y % 0xFFFF,
{
}

/// A thread that is removed is gone, if it was there once; all others stay, in
/// order.
pub proof fn law_removed_thread_is_gone(threads: Seq<TaskId>, tid: TaskId)
    ensures
        match search::first_index(threads, same_task(tid), 0) {
            Some(i) => {
                &&& threads.contains(tid)
                &&& threads.no_duplicates() ==> !threads.remove(i).contains(tid)
                &&& threads.remove(i).len() == threads.len() - 1
                &&& forall|k: int|
                    0 <= k < threads.len() && threads[k] != tid ==> threads.remove(i).contains(
                        #[trigger] threads[k],
                    )
            },
            None => !threads.contains(tid),
        },
{
    search::lemma_first_index(threads, same_task(tid), 0);
    match search::first_index(threads, same_task(tid), 0) {
        Some(i) => {
            let rest = threads.remove(i);
            assert(same_task(tid)(threads[i]));
            assert forall|k: int| 0 <= k < threads.len() && threads[k] != tid implies rest.contains(
                #[trigger] threads[k],
            ) by {
                assert(rest[if k < i { k } else { k - 1 }] == threads[k]);
            }
            if threads.no_duplicates() && rest.contains(tid) {
                let k = choose|k: int| 0 <= k < rest.len() && rest[k] == tid;
                assert(threads[if k < i { k } else { k + 1 }] == tid);
            }
        },
        None => {
            if threads.contains(tid) {
                let k = choose|k: int| 0 <= k < threads.len() && threads[k] == tid;
                assert(!same_task(tid)(threads[k]));
            }
        },
    }
}

/// A process is found by its name exactly where there is one of that name; of
/// names, the first 32 bytes count.
pub proof fn law_found_by_name(t: TableModel, name: Seq<u8>)
    ensures
        kept_name(name).len() <= 32,
        kept_name(name) == name.take(kept_name(name).len() as int),
        name.len() >= 32 ==> kept_name(name).len() == 32,
        match search::first_index(t.slots, named(kept_name(name)), 0) {
            Some(i) => 0 <= i < t.slots.len() && t.slots[i] is Some && t.slots[i]->0.name
                == kept_name(name),
            None => forall|i: int|
                0 <= i < t.slots.len() ==> (#[trigger] t.slots[i] matches Some(p) ==> p.name
                    != kept_name(name)),
        },
{
    search::lemma_first_index(t.slots, named(kept_name(name)), 0);
    assert(kept_name(name) =~= name.take(kept_name(name).len() as int));
    match search::first_index(t.slots, named(kept_name(name)), 0) {
        Some(i) => {
            assert(named(kept_name(name))(t.slots[i]));
        },
        None => {
            assert forall|i: int| 0 <= i < t.slots.len() implies (#[trigger] t.slots[i] matches Some(p)
                ==> p.name != kept_name(name)) by {
                assert(!named(kept_name(name))(t.slots[i]));
            }
        },
    }
}

} // verus!
