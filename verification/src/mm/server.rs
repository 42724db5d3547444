//! Memory-manager server: the policy side of the memory system.
//!
//! `MmServer` keeps one VMA manager per process, answers `mmap`, `munmap` and
//! `brk` requests, and resolves the page faults that the kernel reports.
use vstd::prelude::*;
use crate::kernel::{AddressSpaceId, ChannelId, IpcPageFault, ProcessId};
use crate::mm::allocator::PhysMem;
use crate::mm::page_fault;
use crate::mm::page_fault::{resolve_page_fault, resolve_with_prefault};
use crate::mm::types::{
    MmError, MmRequest, MmResult, OomPolicy, VmPerms, VmRegionType, VmaEntry,
};
use crate::mm::vma;
use crate::mm::vma::VmaManager;
use crate::search;

verus! {

/// Maximum number of processes the mm server can track simultaneously.
pub const MAX_PROCESSES: usize = 128;

/// Everything the mm server knows about one user process.
pub struct ProcessMmState {
    pub pid: ProcessId,
    pub vma_manager: VmaManager,
    pub addr_space_id: AddressSpaceId,
}

/// Mathematical content of a `ProcessMmState`.
#[verifier::ext_equal]
pub struct ProcessModel {
    pub pid: ProcessId,
    pub regions: Seq<VmaEntry>,
    pub addr_space_id: AddressSpaceId,
}

impl View for ProcessMmState {
    type V = ProcessModel;

    open spec fn view(&self) -> ProcessModel {
        ProcessModel {
            pid: self.pid,
            regions: self.vma_manager@,
            addr_space_id: self.addr_space_id,
        }
    }
}

impl ProcessMmState {
    pub fn new(pid: ProcessId, addr_space_id: AddressSpaceId) -> (r: Self)
        ensures
            r@ == fresh_process(pid, addr_space_id),
            r.vma_manager.wf(),
    {
        ProcessMmState { pid, vma_manager: VmaManager::new(), addr_space_id }
    }
}

/// A process with no region yet.
pub open spec fn fresh_process(pid: ProcessId, addr_space_id: AddressSpaceId) -> ProcessModel {
    ProcessModel { pid, regions: Seq::empty(), addr_space_id }
}

/// "Holds process `pid`", as a predicate on slots.
pub open spec fn holds(pid: ProcessId) -> spec_fn(Option<ProcessModel>) -> bool {
    |s: Option<ProcessModel>| s is Some && s->0.pid == pid
}

/// "Is free", as a predicate on slots.
pub open spec fn vacant() -> spec_fn(Option<ProcessModel>) -> bool {
    |s: Option<ProcessModel>| s is None
}

/// "Is in use", as a predicate on slots.
pub open spec fn occupied() -> spec_fn(Option<ProcessModel>) -> bool {
    |s: Option<ProcessModel>| s is Some
}

/// The slot that a lookup of `pid` finds.
pub open spec fn slot_of(slots: Seq<Option<ProcessModel>>, pid: ProcessId) -> Option<int> {
    search::first_index(slots, holds(pid), 0)
}

/// The slots after `p` has been put into the first free one, if there is one.
pub open spec fn registered(
    slots: Seq<Option<ProcessModel>>,
    p: ProcessModel,
) -> Seq<Option<ProcessModel>> {
    match search::first_index(slots, vacant(), 0) {
        Some(i) => slots.update(i, Some(p)),
        None => slots,
    }
}

/// The slots after the regions of slot `i` have become `regions`.
pub open spec fn with_regions(
    slots: Seq<Option<ProcessModel>>,
    i: int,
    regions: Seq<VmaEntry>,
) -> Seq<Option<ProcessModel>> {
    slots.update(i, Some(ProcessModel { regions, ..slots[i]->0 }))
}

/// The regions that a newly loaded process starts with, in the order in which
/// they are placed.
pub open spec fn initial_regions(
    code_start: usize,
    code_end: usize,
    data_start: usize,
    data_end: usize,
    stack_start: usize,
    stack_end: usize,
    heap_start: usize,
) -> Seq<VmaEntry> {
    let guard = |at: usize|
        vma::plain_entry(at, (at + 0x1000) as usize, VmPerms::NONE(), VmRegionType::Guard);
    let code = vma::plain_entry(code_start, code_end, VmPerms::RX(), VmRegionType::Code);
    let data = vma::plain_entry(data_start, data_end, VmPerms::RW(), VmRegionType::Data);
    let stack = vma::plain_entry(stack_start, stack_end, VmPerms::RW(), VmRegionType::Stack);
    seq![guard(0)] + only_if(code_end > code_start, code) + only_if(data_end > data_start, data)
        + only_if(heap_start > 0, vma::heap_entry(heap_start, heap_start)) + only_if(
        stack_start > 0x1000,
        guard((stack_start - 0x1000) as usize),
    ) + only_if(stack_end > stack_start, stack)
}

/// `e` alone, or nothing.
pub open spec fn only_if(wanted: bool, e: VmaEntry) -> Seq<VmaEntry> {
    if wanted {
        seq![e]
    } else {
        seq![]
    }
}

/// Outcome of moving the end of the heap to `new_brk`: the heap is taken out
/// and put back with its new end, or left out when nothing remains of it.
pub open spec fn brk_outcome(es: Seq<VmaEntry>, new_brk: usize) -> (
    Result<usize, MmError>,
    Seq<VmaEntry>,
) {
    match search::first_index(es, vma::of_type(VmRegionType::Heap), 0) {
        None => (Err(MmError::NoVma), es),
        Some(i) => {
            let heap = es[i];
            if new_brk == heap.end_vaddr {
                (Ok(new_brk), es)
            } else if new_brk < heap.start_vaddr {
                (Err(MmError::InvalidArgument), es)
            } else if new_brk == heap.start_vaddr {
                (Ok(new_brk), es.remove(i))
            } else {
                match vma::place(
                    es.remove(i),
                    vma::plain_entry(heap.start_vaddr, new_brk, heap.perms, VmRegionType::Heap),
                ) {
                    Ok(es2) => (Ok(new_brk), es2),
                    Err(err) => (Err(err), es.remove(i)),
                }
            }
        },
    }
}

/// Fixed-size process table, searched linearly.
struct ProcessTable {
    slots: Vec<Option<ProcessMmState>>,
    len: usize,
}

spec fn slot_view(s: Option<ProcessMmState>) -> Option<ProcessModel> {
    match s {
        Some(p) => Some(p@),
        None => None,
    }
}

impl View for ProcessTable {
    type V = Seq<Option<ProcessModel>>;

    closed spec fn view(&self) -> Seq<Option<ProcessModel>> {
        Seq::new(self.slots@.len(), |i: int| slot_view(self.slots@[i]))
    }
}

impl ProcessTable {
    spec fn wf(self) -> bool {
        &&& self.slots@.len() == MAX_PROCESSES
        &&& self.len == search::count(self@, occupied())
        &&& forall|i: int|
            0 <= i < self.slots@.len() && (#[trigger] self.slots@[i]) is Some
                ==> self.slots@[i]->0.vma_manager.wf()
    }

    fn new() -> (r: Self)
        ensures
            r.wf(),
            r@ == Seq::new(MAX_PROCESSES as nat, |i: int| None::<ProcessModel>),
    {
        let mut slots: Vec<Option<ProcessMmState>> = Vec::new();
        while slots.len() < MAX_PROCESSES
            invariant
                slots@.len() <= MAX_PROCESSES,
                forall|i: int| 0 <= i < slots@.len() ==> slots@[i] is None,
            decreases MAX_PROCESSES - slots@.len(),
        {
            slots.push(None);
        }
        let r = ProcessTable { slots, len: 0 };
        proof {
            assert(r@ =~= Seq::new(MAX_PROCESSES as nat, |i: int| None::<ProcessModel>));
            search::lemma_count_bounds(r@, occupied());
        }
        r
    }

    /// Index of the slot that holds `pid`.
    fn slot_of(&self, pid: ProcessId) -> (r: Option<usize>)
        requires
            self.wf(),
        ensures
            match r {
                Some(i) => slot_of(self@, pid) == Some(i as int) && i < self@.len()
                    && self.slots@[i as int] is Some && self@[i as int] is Some
                    && self@[i as int]->0.pid == pid,
                None => slot_of(self@, pid) is None,
            },
    {
        let mut i: usize = 0;
        while i < self.slots.len()
            invariant
                self.wf(),
                i <= self.slots@.len(),
                slot_of(self@, pid) == search::first_index(self@, holds(pid), i as int),
            decreases self.slots@.len() - i,
        {
            assert(self@[i as int] == slot_view(self.slots@[i as int]));
            match &self.slots[i] {
                Some(p) => {
                    if p.pid == pid {
                        return Some(i);
                    }
                },
                None => {},
            }
            i += 1;
        }
        None
    }

    fn get(&self, pid: ProcessId) -> (r: Option<&ProcessMmState>)
        requires
            self.wf(),
        ensures
            match r {
                Some(p) => slot_of(self@, pid) is Some && self@[slot_of(self@, pid)->0] == Some(p@)
                    && p.vma_manager.wf(),
                None => slot_of(self@, pid) is None,
            },
    {
        match self.slot_of(pid) {
            Some(i) => self.slots[i].as_ref(),
            None => None,
        }
    }

    /// The regions of the process in slot `i`.
    fn manager_mut(&mut self, i: usize) -> (r: &mut VmaManager)
        requires
            old(self).wf(),
            i < old(self).slots@.len(),
            old(self).slots@[i as int] is Some,
        ensures
            *r == old(self).slots@[i as int]->0.vma_manager,
            r.wf(),
            r@ == old(self)@[i as int]->0.regions,
            final(self)@ == with_regions(old(self)@, i as int, final(r)@),
            final(r).wf() ==> final(self).wf(),
    {
        proof {
            assert forall|p: ProcessMmState| #[trigger] occupied()(Some(p@)) by {}
        }
        let ghost before = self@;
        let ghost slots0 = self.slots@;
        proof {
            assert forall|m: VmaManager|
                search::count(
                    with_regions(before, i as int, #[trigger] m@),
                    occupied(),
                ) == search::count(before, occupied()) by {
                search::lemma_count_update(
                    before,
                    occupied(),
                    i as int,
                    Some(ProcessModel { regions: m@, ..before[i as int]->0 }),
                );
            }
            assert forall|m: VmaManager|
                Seq::new(
                    slots0.len(),
                    |k: int|
                        slot_view(
                            slots0.update(
                                i as int,
                                Some(ProcessMmState { vma_manager: m, ..slots0[i as int]->0 }),
                            )[k],
                        ),
                ) == with_regions(before, i as int, #[trigger] m@) by {
                assert(Seq::new(
                    slots0.len(),
                    |k: int|
                        slot_view(
                            slots0.update(
                                i as int,
                                Some(ProcessMmState { vma_manager: m, ..slots0[i as int]->0 }),
                            )[k],
                        ),
                ) =~= with_regions(before, i as int, m@));
            }
        }
        let slot = &mut self.slots[i];
        let state = slot.as_mut().unwrap();
        &mut state.vma_manager
    }

    /// Store `state` in the first free slot.
    fn insert(&mut self, state: ProcessMmState) -> (r: Result<(), ProcessMmState>)
        requires
            old(self).wf(),
            state.vma_manager.wf(),
        ensures
            final(self).wf(),
            final(self)@ == registered(old(self)@, state@),
            match r {
                Ok(()) => search::first_index(old(self)@, vacant(), 0) is Some,
                Err(s) => s == state && search::first_index(old(self)@, vacant(), 0) is None,
            },
    {
        let mut i: usize = 0;
        while i < self.slots.len()
            invariant
                self.wf(),
                *self == *old(self),
                i <= self.slots@.len(),
                search::first_index(self@, vacant(), 0) == search::first_index(
                    self@,
                    vacant(),
                    i as int,
                ),
                state.vma_manager.wf(),
            decreases self.slots@.len() - i,
        {
            assert(self@[i as int] == slot_view(self.slots@[i as int]));
            if self.slots[i].is_none() {
                let ghost st = state@;
                proof {
                    search::lemma_count_update(self@, occupied(), i as int, Some(st));
                    search::lemma_count_bounds(self@, occupied());
                }
                self.slots[i] = Some(state);
                self.len = self.len + 1;
                assert(self@ =~= old(self)@.update(i as int, Some(st)));
                return Ok(());
            }
            i += 1;
        }
        Err(state)
    }

    /// Empty the slot that holds `pid`.
    fn remove(&mut self, pid: ProcessId)
        requires
            old(self).wf(),
        ensures
            final(self).wf(),
            final(self)@ == (match slot_of(old(self)@, pid) {
                Some(i) => old(self)@.update(i, None),
                None => old(self)@,
            }),
    {
        match self.slot_of(pid) {
            Some(i) => {
                proof {
                    search::lemma_count_update(self@, occupied(), i as int, None);
                    search::lemma_count_bounds(self@, occupied());
                }
                self.slots[i] = None;
                self.len = self.len - 1;
                assert(self@ =~= old(self)@.update(i as int, None));
            },
            None => {},
        }
    }
}

/// The memory-manager server.
pub struct MmServer {
    /// All processes currently tracked.
    processes: ProcessTable,
    /// IPC channel the kernel uses to deliver page faults to us.
    fault_channel: ChannelId,
    /// What happens when physical memory runs out.
    oom_policy: OomPolicy,
    /// Enable prefaulting (maps following pages on each fault).
    prefault_enabled: bool,
}

/// Mathematical content of an `MmServer`.
#[verifier::ext_equal]
pub struct MmServerModel {
    pub slots: Seq<Option<ProcessModel>>,
    pub fault_channel: ChannelId,
    pub oom_policy: OomPolicy,
    pub prefault_enabled: bool,
}

impl View for MmServer {
    type V = MmServerModel;

    closed spec fn view(&self) -> MmServerModel {
        MmServerModel {
            slots: self.processes@,
            fault_channel: self.fault_channel,
            oom_policy: self.oom_policy,
            prefault_enabled: self.prefault_enabled,
        }
    }
}

impl MmServer {
    /// Well-formed.
    pub closed spec fn wf(self) -> bool {
        self.processes.wf()
    }

    /// Create a new mm server.
    ///
    /// `fault_channel` is the IPC channel on which the kernel delivers page
    /// faults.
    pub fn new(fault_channel: ChannelId) -> (r: Self)
        ensures
            r.wf(),
            r@ == (MmServerModel {
                slots: Seq::new(MAX_PROCESSES as nat, |i: int| None::<ProcessModel>),
                fault_channel,
                oom_policy: OomPolicy::ReclaimThenKill,
                prefault_enabled: false,
            }),
    {
        MmServer {
            processes: ProcessTable::new(),
            fault_channel,
            oom_policy: OomPolicy::default(),
            prefault_enabled: false,
        }
    }

    /// Enable or disable prefaulting at runtime.
    pub fn set_prefault(&mut self, enabled: bool)
        requires
            old(self).wf(),
        ensures
            final(self).wf(),
            final(self)@ == (MmServerModel { prefault_enabled: enabled, ..old(self)@ }),
    {
        self.prefault_enabled = enabled;
    }

    /// Set the OOM policy.
    pub fn set_oom_policy(&mut self, policy: OomPolicy)
        requires
            old(self).wf(),
        ensures
            final(self).wf(),
            final(self)@ == (MmServerModel { oom_policy: policy, ..old(self)@ }),
    {
        self.oom_policy = policy;
    }

    /// Register a new user process with the mm server.  Fails with the process
    /// number when the table is full.
    pub fn register_process(&mut self, pid: ProcessId, addr_space_id: AddressSpaceId) -> (r: Result<
        (),
        ProcessId,
    >)
        requires
            old(self).wf(),
        ensures
            final(self).wf(),
            final(self)@ == (MmServerModel {
                slots: registered(old(self)@.slots, fresh_process(pid, addr_space_id)),
                ..old(self)@
            }),
            r == (if search::first_index(old(self)@.slots, vacant(), 0) is Some {
                Ok::<(), ProcessId>(())
            } else {
                Err(pid)
            }),
    {
        let state = ProcessMmState::new(pid, addr_space_id);
        match self.processes.insert(state) {
            Ok(()) => Ok(()),
            Err(s) => Err(s.pid),
        }
    }

    /// Unregister a process (called on process exit).  Its VMA entries are
    /// dropped; physical pages are not freed here.
    pub fn unregister_process(&mut self, pid: ProcessId)
        requires
            old(self).wf(),
        ensures
            final(self).wf(),
            final(self)@ == (MmServerModel {
                slots: (match slot_of(old(self)@.slots, pid) {
                    Some(i) => old(self)@.slots.update(i, None),
                    None => old(self)@.slots,
                }),
                ..old(self)@
            }),
    {
        self.processes.remove(pid);
    }

    /// Set up initial VMAs for a newly loaded process.
    ///
    /// The caller provides the regions derived from the program file.  Guard
    /// pages are automatically placed: one below the stack and one at address
    /// 0.  The heap starts as an empty region at `heap_start`.  The first
    /// region that does not fit ends the setup with its error.
    #[verifier::rlimit(40)]
    pub fn init_process_vma(
        &mut self,
        pid: ProcessId,
        code_start: usize,
        code_end: usize,
        data_start: usize,
        data_end: usize,
        stack_start: usize,
        stack_end: usize,
        heap_start: usize,
    ) -> (r: Result<(), MmError>)
        requires
            old(self).wf(),
        ensures
            final(self).wf(),
            match slot_of(old(self)@.slots, pid) {
                None => r == Err::<(), MmError>(MmError::NoVma) && final(self)@ == old(self)@,
                Some(i) => {
                    let (es, outcome) = vma::place_all(
                        old(self)@.slots[i]->0.regions,
                        initial_regions(
                            code_start,
                            code_end,
                            data_start,
                            data_end,
                            stack_start,
                            stack_end,
                            heap_start,
                        ),
                    );
                    r == outcome && final(self)@ == (MmServerModel {
                        slots: with_regions(old(self)@.slots, i, es),
                        ..old(self)@
                    })
                },
            },
    {
        let i = match self.processes.slot_of(pid) {
            Some(i) => i,
            None => return Err(MmError::NoVma),
        };
        let mut steps: Vec<VmaEntry> = Vec::new();
        // Null-page guard.
        steps.push(VmaEntry::new_guard(0));
        // Code (RX).
        if code_end > code_start {
            steps.push(VmaEntry::new_code(code_start, code_end));
        }
        // Data (RW).
        if data_end > data_start {
            steps.push(VmaEntry::new_data(data_start, data_end));
        }
        // Heap (RW, starts empty).
        if heap_start > 0 {
            steps.push(VmaEntry::new_heap(heap_start, heap_start));
        }
        // Stack guard page (one page below the stack).
        if stack_start > 0x1000 {
            steps.push(VmaEntry::new_guard(stack_start - 0x1000));
        }
        // Stack (RW).
        if stack_end > stack_start {
            steps.push(VmaEntry::new_stack(stack_start, stack_end));
        }
        assert(steps@ =~= initial_regions(
            code_start,
            code_end,
            data_start,
            data_end,
            stack_start,
            stack_end,
            heap_start,
        ));
        let mgr = self.processes.manager_mut(i);
        mgr.place_each(&steps)
    }

    /// Handle an `mmap` request from a user process.  Physical pages are
    /// allocated lazily on first access.
    pub fn handle_mmap(
        &mut self,
        pid: ProcessId,
        start: usize,
        end: usize,
        read: bool,
        write: bool,
        execute: bool,
    ) -> (r: Result<(), MmError>)
        requires
            old(self).wf(),
        ensures
            final(self).wf(),
            match slot_of(old(self)@.slots, pid) {
                None => r == Err::<(), MmError>(MmError::NoVma) && final(self)@ == old(self)@,
                Some(i) => if start >= end {
                    r == Err::<(), MmError>(MmError::InvalidArgument) && final(self)@ == old(self)@
                } else {
                    match vma::place(
                        old(self)@.slots[i]->0.regions,
                        vma::plain_entry(
                            start,
                            end,
                            (VmPerms { read, write, execute }),
                            VmRegionType::Mmap,
                        ),
                    ) {
                        Err(err) => r == Err::<(), MmError>(err) && final(self)@ == old(self)@,
                        Ok(es) => r is Ok && final(self)@ == (MmServerModel {
                            slots: with_regions(old(self)@.slots, i, es),
                            ..old(self)@
                        }),
                    }
                },
            },
    {
        let i = match self.processes.slot_of(pid) {
            Some(i) => i,
            None => return Err(MmError::NoVma),
        };
        proof {
            lemma_same_regions(self@.slots, i as int);
        }
        let perms = VmPerms { read, write, execute };
        let entry = VmaEntry::new_mmap(start, end, perms);
        let mgr = self.processes.manager_mut(i);
        mgr.insert(entry)
    }

    /// Handle a `munmap` request from a user process.
    pub fn handle_munmap(&mut self, pid: ProcessId, start: usize, end: usize) -> (r: Result<
        (),
        MmError,
    >)
        requires
            old(self).wf(),
        ensures
            final(self).wf(),
            match slot_of(old(self)@.slots, pid) {
                None => r == Err::<(), MmError>(MmError::NoVma) && final(self)@ == old(self)@,
                Some(i) => {
                    let es = old(self)@.slots[i]->0.regions;
                    if start >= end {
                        r == Err::<(), MmError>(MmError::InvalidArgument) && final(self)@ == old(self)@
                    } else if es.len() == vma::MAX_VMA_ENTRIES && exists|k: int|
                        0 <= k < es.len() && vma::splits(#[trigger] es[k], start as int, end as int) {
                        r == Err::<(), MmError>(MmError::OutOfMemory) && exists|k: int|
                            0 <= k < es.len() && vma::splits(
                                #[trigger] es[k],
                                start as int,
                                end as int,
                            ) && final(self)@ == (MmServerModel {
                                slots: with_regions(
                                    old(self)@.slots,
                                    i,
                                    es.update(k, (VmaEntry { end_vaddr: start, ..es[k] })),
                                ),
                                ..old(self)@
                            })
                    } else {
                        r is Ok && final(self)@ == (MmServerModel {
                            slots: with_regions(
                                old(self)@.slots,
                                i,
                                vma::cut_all(es, start as int, end as int),
                            ),
                            ..old(self)@
                        })
                    }
                },
            },
    {
        let i = match self.processes.slot_of(pid) {
            Some(i) => i,
            None => return Err(MmError::NoVma),
        };
        proof {
            lemma_same_regions(self@.slots, i as int);
        }
        let mgr = self.processes.manager_mut(i);
        mgr.remove(start, end)
    }

    /// Handle a `brk` (heap extension) request.
    pub fn handle_brk(&mut self, pid: ProcessId, new_brk: usize) -> (r: Result<usize, MmError>)
        requires
            old(self).wf(),
        ensures
            final(self).wf(),
            match slot_of(old(self)@.slots, pid) {
                None => r == Err::<usize, MmError>(MmError::NoVma) && final(self)@ == old(self)@,
                Some(i) => {
                    let (outcome, es) = brk_outcome(old(self)@.slots[i]->0.regions, new_brk);
                    r == outcome && final(self)@ == (MmServerModel {
                        slots: with_regions(old(self)@.slots, i, es),
                        ..old(self)@
                    })
                },
            },
    {
        let i = match self.processes.slot_of(pid) {
            Some(i) => i,
            None => return Err(MmError::NoVma),
        };
        let mgr = self.processes.manager_mut(i);
        // Find the heap VMA.
        let heap_idx = match mgr.first_of_type(VmRegionType::Heap) {
            Some(k) => k,
            None => return Err(MmError::NoVma),
        };
        let heap = mgr.entry(heap_idx);
        let current_brk: usize = heap.end_vaddr;
        if new_brk == current_brk {
            return Ok(current_brk);
        }
        if new_brk < heap.start_vaddr {
            return Err(MmError::InvalidArgument);
        }
        // Extend or shrink by removing and re-inserting.
        mgr.remove_entry(heap_idx);
        if new_brk > heap.start_vaddr {
            let new_heap = VmaEntry {
                start_vaddr: heap.start_vaddr,
                end_vaddr: new_brk,
                perms: heap.perms,
                region_type: VmRegionType::Heap,
                backing_offset: 0,
                cow: false,
            };
            match mgr.insert(new_heap) {
                Ok(()) => {},
                Err(err) => return Err(err),
            }
        }
        Ok(new_brk)
    }

    /// Process a single page-fault report.
    ///
    /// The number of the faulting address space is the process number; an
    /// unknown process is registered on the fly.  Returns the request to send
    /// back to the kernel.
    pub fn handle_page_fault(&mut self, fault: &IpcPageFault, mem: &mut PhysMem) -> (r: MmResult<
        MmRequest,
    >)
        requires
            old(self).wf(),
            old(mem).wf(),
        ensures
            final(self).wf(),
            final(mem).wf(),
            ({
                let pid = fault.addr_space_id.0 as u32;
                let slots = if slot_of(old(self)@.slots, pid) is None {
                    registered(old(self)@.slots, fresh_process(pid, fault.addr_space_id))
                } else {
                    old(self)@.slots
                };
                match slot_of(slots, pid) {
                    None => r == Err::<MmRequest, MmError>(MmError::NoVma) && final(self)@ == (
                    MmServerModel { slots, ..old(self)@ }) && final(mem)@ == old(mem)@,
                    Some(i) => {
                        let (reply, es, mem2) = page_fault::resolved(
                            *fault,
                            slots[i]->0.regions,
                            old(mem)@,
                        );
                        &&& r == reply
                        &&& final(self)@ == (MmServerModel {
                            slots: with_regions(slots, i, es),
                            ..old(self)@
                        })
                        &&& final(mem)@ == (if reply is Ok && old(self)@.prefault_enabled {
                            page_fault::batch_for(reply->Ok_0, *fault, es, mem2).1
                        } else {
                            mem2
                        })
                    },
                }
            }),
    {
        let pid: ProcessId = fault.addr_space_id.0 as ProcessId;
        // Ensure the process is registered.
        if self.processes.get(pid).is_none() {
            let _ = self.register_process(pid, fault.addr_space_id);
        }
        let i = match self.processes.slot_of(pid) {
            Some(i) => i,
            None => return Err(MmError::NoVma),
        };
        let policy = self.oom_policy;
        let prefault = self.prefault_enabled;
        let mgr = self.processes.manager_mut(i);
        if prefault {
            match resolve_with_prefault(fault, mgr, policy, mem) {
                Ok(pair) => Ok(pair.0),
                Err(err) => Err(err),
            }
        } else {
            resolve_page_fault(fault, mgr, policy, mem)
        }
    }

    /// Get a reference to the VMA manager for `pid` (for debugging).
    pub fn vma_manager(&self, pid: ProcessId) -> (r: Option<&VmaManager>)
        requires
            self.wf(),
        ensures
            match r {
                Some(m) => m.wf() && slot_of(self@.slots, pid) is Some && self@.slots[slot_of(
                    self@.slots,
                    pid,
                )->0]->0.regions == m@,
                None => slot_of(self@.slots, pid) is None,
            },
    {
        match self.processes.get(pid) {
            Some(s) => Some(&s.vma_manager),
            None => None,
        }
    }

    /// Get a mutable reference to the VMA manager for `pid`.
    pub fn vma_manager_mut(&mut self, pid: ProcessId) -> (r: Option<&mut VmaManager>)
        requires
            old(self).wf(),
        ensures
            match r {
                Some(m) => {
                    &&& slot_of(old(self)@.slots, pid) is Some
                    &&& m.wf()
                    &&& m@ == old(self)@.slots[slot_of(old(self)@.slots, pid)->0]->0.regions
                    &&& final(self)@ == (MmServerModel {
                        slots: with_regions(
                            old(self)@.slots,
                            slot_of(old(self)@.slots, pid)->0,
                            final(m)@,
                        ),
                        ..old(self)@
                    })
                    &&& final(m).wf() ==> final(self).wf()
                },
                None => slot_of(old(self)@.slots, pid) is None && final(self)@ == old(self)@ && final(self).wf(),
            },
    {
        match self.processes.slot_of(pid) {
            Some(i) => Some(self.processes.manager_mut(i)),
            None => None,
        }
    }

    /// Return the fault channel ID.
    pub fn fault_channel(&self) -> (r: ChannelId)
        ensures
            r == self@.fault_channel,
    {
        self.fault_channel
    }

    /// Number of tracked processes.
    pub fn process_count(&self) -> (r: usize)
        requires
            self.wf(),
        ensures
            r == search::count(self@.slots, occupied()),
    {
        self.processes.len
    }
}

/// Writing back what was there changes nothing.
proof fn lemma_same_regions(slots: Seq<Option<ProcessModel>>, i: int)
    requires
        0 <= i < slots.len(),
        slots[i] is Some,
    ensures
        with_regions(slots, i, slots[i]->0.regions) == slots,
{
    assert(with_regions(slots, i, slots[i]->0.regions) =~= slots);
}

/// Registering an unknown process in a table with room makes it known, with no
/// region, and leaves the lookup of every other process as it was.
pub proof fn law_register_makes_known(
    slots: Seq<Option<ProcessModel>>,
    p: ProcessModel,
    other: ProcessId,
)
    requires
        slot_of(slots, p.pid) is None,
        search::first_index(slots, vacant(), 0) is Some,
        other != p.pid,
    ensures
        slot_of(registered(slots, p), p.pid) is Some,
        registered(slots, p)[slot_of(registered(slots, p), p.pid)->0] == Some(p),
        slot_of(registered(slots, p), other) == slot_of(slots, other),
        slot_of(slots, other) is Some ==> registered(slots, p)[slot_of(slots, other)->0]
            == slots[slot_of(slots, other)->0],
{
    let new = registered(slots, p);
    let i = search::first_index(slots, vacant(), 0)->0;
    search::lemma_first_index(slots, vacant(), 0);
    search::lemma_first_index(slots, holds(p.pid), 0);
    assert forall|j: int| 0 <= j < i implies !holds(p.pid)(#[trigger] new[j]) by {
        assert(!holds(p.pid)(slots[j]));
    }
    search::lemma_first_index_is(new, holds(p.pid), 0, i);
    lemma_slot_of_after_update(slots, i, Some(p), other);
    search::lemma_first_index(slots, holds(other), 0);
}

/// Unregistering a process leaves the lookup of every other process as it was,
/// and the process itself is no longer known when it had been registered once.
pub proof fn law_unregister_forgets(
    slots: Seq<Option<ProcessModel>>,
    pid: ProcessId,
    other: ProcessId,
)
    requires
        slot_of(slots, pid) is Some,
        other != pid,
    ensures
        ({
            let new = slots.update(slot_of(slots, pid)->0, None);
            &&& slot_of(new, other) == slot_of(slots, other)
            &&& (forall|j: int|
                0 <= j < slots.len() && holds(pid)(#[trigger] slots[j]) ==> j == slot_of(
                    slots,
                    pid,
                )->0) ==> slot_of(new, pid) is None
        }),
{
    search::lemma_first_index(slots, holds(pid), 0);
    let i = slot_of(slots, pid)->0;
    let new = slots.update(i, None);
    lemma_slot_of_after_update(slots, i, None, other);
    if forall|j: int| 0 <= j < slots.len() && holds(pid)(#[trigger] slots[j]) ==> j == i {
        assert forall|j: int| 0 <= j < new.len() implies !holds(pid)(#[trigger] new[j]) by {
            if j != i {
                assert(new[j] == slots[j]);
            }
        }
        search::lemma_first_index_none(new, holds(pid), 0);
    }
}

/// Changing the regions of one process leaves every other process as it is:
/// what a request of one process does, no other process sees.
pub proof fn law_processes_are_separate(
    slots: Seq<Option<ProcessModel>>,
    pid: ProcessId,
    regions: Seq<VmaEntry>,
    other: ProcessId,
)
    requires
        slot_of(slots, pid) is Some,
        other != pid,
    ensures
        ({
            let new = with_regions(slots, slot_of(slots, pid)->0, regions);
            &&& slot_of(new, pid) == slot_of(slots, pid)
            &&& new[slot_of(slots, pid)->0]->0.regions == regions
            &&& slot_of(new, other) == slot_of(slots, other)
            &&& slot_of(slots, other) is Some ==> new[slot_of(slots, other)->0] == slots[slot_of(
                slots,
                other,
            )->0]
        }),
{
    search::lemma_first_index(slots, holds(pid), 0);
    search::lemma_first_index(slots, holds(other), 0);
    let i = slot_of(slots, pid)->0;
    let v = Some(ProcessModel { regions, ..slots[i]->0 });
    let new = with_regions(slots, i, regions);
    lemma_slot_of_after_update(slots, i, v, other);
    assert forall|j: int| 0 <= j < i implies !holds(pid)(#[trigger] new[j]) by {
        assert(!holds(pid)(slots[j]));
    }
    search::lemma_first_index_is(new, holds(pid), 0, i);
}

proof fn lemma_slot_of_after_update(
    slots: Seq<Option<ProcessModel>>,
    i: int,
    v: Option<ProcessModel>,
    pid: ProcessId,
)
    requires
        0 <= i < slots.len(),
        !holds(pid)(slots[i]),
        !holds(pid)(v),
    ensures
        slot_of(slots.update(i, v), pid) == slot_of(slots, pid),
{
    let new = slots.update(i, v);
    search::lemma_first_index(slots, holds(pid), 0);
    match slot_of(slots, pid) {
        Some(k) => {
            assert forall|j: int| 0 <= j < k implies !holds(pid)(#[trigger] new[j]) by {
                assert(!holds(pid)(slots[j]));
            }
            search::lemma_first_index_is(new, holds(pid), 0, k);
        },
        None => {
            assert forall|j: int| 0 <= j < new.len() implies !holds(pid)(#[trigger] new[j]) by {
                assert(!holds(pid)(slots[j]));
            }
            search::lemma_first_index_none(new, holds(pid), 0);
        },
    }
}

/// A region as a process is set up with it.
pub open spec fn region(start: int, end: int, perms: VmPerms, kind: VmRegionType) -> VmaEntry {
    VmaEntry {
        start_vaddr: start as usize,
        end_vaddr: end as usize,
        perms,
        region_type: kind,
        backing_offset: 0,
        cow: false,
    }
}

/// A process is set up with its code to be read and executed, its data and stack to
/// be read and written, an empty heap, and guard pages at 0 and below the stack;
/// with each only where it is wanted, and with nothing else.
pub proof fn law_initial_regions(
    code: (usize, usize),
    data: (usize, usize),
    stack: (usize, usize),
    heap: usize,
    e: VmaEntry,
)
    ensures
        initial_regions(code.0, code.1, data.0, data.1, stack.0, stack.1, heap).contains(e) <==> {
            let rx = VmPerms { read: true, write: false, execute: true };
            let rw = VmPerms { read: true, write: true, execute: false };
            let no = VmPerms { read: false, write: false, execute: false };
            ||| e == region(0, 4096, no, VmRegionType::Guard)
            ||| code.0 < code.1 && e == region(code.0 as int, code.1 as int, rx, VmRegionType::Code)
            ||| data.0 < data.1 && e == region(data.0 as int, data.1 as int, rw, VmRegionType::Data)
            ||| heap > 0 && e == region(heap as int, heap as int, rw, VmRegionType::Heap)
            ||| stack.0 > 4096 && e == region(
                stack.0 - 4096,
                stack.0 as int,
                no,
                VmRegionType::Guard,
            )
            ||| stack.0 < stack.1 && e == region(
                stack.0 as int,
                stack.1 as int,
                rw,
                VmRegionType::Stack,
            )
        },
{
    let guard = |at: usize|
        vma::plain_entry(at, (at + 0x1000) as usize, VmPerms::NONE(), VmRegionType::Guard);
    let s0 = seq![guard(0)];
    let s1 = only_if(
        code.1 > code.0,
        vma::plain_entry(code.0, code.1, VmPerms::RX(), VmRegionType::Code),
    );
    let s2 = only_if(
        data.1 > data.0,
        vma::plain_entry(data.0, data.1, VmPerms::RW(), VmRegionType::Data),
    );
    let s3 = only_if(heap > 0, vma::heap_entry(heap, heap));
    let s4 = only_if(stack.0 > 0x1000, guard((stack.0 - 0x1000) as usize));
    let s5 = only_if(
        stack.1 > stack.0,
        vma::plain_entry(stack.0, stack.1, VmPerms::RW(), VmRegionType::Stack),
    );
    lemma_contains_one(s0, s1, e);
    lemma_contains_one(s0 + s1, s2, e);
    lemma_contains_one(s0 + s1 + s2, s3, e);
    lemma_contains_one(s0 + s1 + s2 + s3, s4, e);
    lemma_contains_one(s0 + s1 + s2 + s3 + s4, s5, e);
    lemma_only(s0, e);
    lemma_only(s1, e);
    lemma_only(s2, e);
    lemma_only(s3, e);
    lemma_only(s4, e);
    lemma_only(s5, e);
}

proof fn lemma_only(a: Seq<VmaEntry>, e: VmaEntry)
    requires
        a.len() <= 1,
    ensures
        a.contains(e) <==> a.len() == 1 && a[0] == e,
{
    if a.len() == 1 && a[0] == e {
        assert(a.contains(a[0]));
    }
}

proof fn lemma_contains_one(a: Seq<VmaEntry>, b: Seq<VmaEntry>, e: VmaEntry)
    ensures
        (a + b).contains(e) <==> a.contains(e) || b.contains(e),
{
    if a.contains(e) {
        let k = choose|k: int| 0 <= k < a.len() && a[k] == e;
        assert((a + b)[k] == e);
    }
    if b.contains(e) {
        let k = choose|k: int| 0 <= k < b.len() && b[k] == e;
        assert((a + b)[a.len() + k] == e);
    }
}

/// The break of a process whose heap is region `i`: once it was moved, the heap goes
/// from where it started up to the new break, and no address outside the old and
/// the new heap changes.  A break below the start of the heap changes nothing.
pub proof fn law_heap_ends_at_the_break(es: Seq<VmaEntry>, new: usize, i: int, vaddr: int)
    requires
        vma::sorted(es),
        0 <= i < es.len(),
        es[i].region_type == VmRegionType::Heap,
        !es[i].cow,
        es[i].backing_offset == 0,
        forall|k: int| 0 <= k < i ==> (#[trigger] es[k]).region_type != VmRegionType::Heap,
    ensures
        ({
            let (r, es2) = brk_outcome(es, new);
            &&& new < es[i].start_vaddr ==> r == Err::<usize, MmError>(MmError::InvalidArgument)
                && es2 == es
            &&& r is Ok ==> r == Ok::<usize, MmError>(new) && vma::attributes_at(es2, vaddr) == (
            if es[i].start_vaddr <= vaddr < new {
                Some((es[i].perms, VmRegionType::Heap, 0usize, false))
            } else if es[i].start_vaddr <= vaddr < es[i].end_vaddr {
                None
            } else {
                vma::attributes_at(es, vaddr)
            })
        }),
{
    search::lemma_first_index(es, vma::of_type(VmRegionType::Heap), 0);
    assert(vma::of_type(VmRegionType::Heap)(es[i]));
    assert(search::first_index(es, vma::of_type(VmRegionType::Heap), 0) == Some(i)) by {
        let k = search::first_index(es, vma::of_type(VmRegionType::Heap), 0)->0;
        assert(vma::of_type(VmRegionType::Heap)(es[k]));
    }
    let rest = es.remove(i);
    assert forall|a: int, b: int| 0 <= a < b < rest.len() implies (#[trigger] rest[a]).end_vaddr <= (
    #[trigger] rest[b]).start_vaddr by {
        let oa = if a < i { a } else { a + 1 };
        let ob = if b < i { b } else { b + 1 };
        assert(es[oa].end_vaddr <= es[ob].start_vaddr);
    }
    assert forall|a: int| 0 <= a < rest.len() implies (#[trigger] rest[a]).start_vaddr
        <= rest[a].end_vaddr by {
        let oa = if a < i { a } else { a + 1 };
        assert(es[oa].start_vaddr <= es[oa].end_vaddr);
    }
    vma::lemma_attributes_at(es, vaddr);
    vma::lemma_attributes_at(rest, vaddr);
    if vma::attributes_at(es, vaddr) is Some {
        let k = choose|k: int| 0 <= k < es.len() && (#[trigger] es[k]).covers(vaddr);
        if k != i {
            let nk = if k < i { k } else { k - 1 };
            assert(rest[nk] == es[k]);
            if es[i].covers(vaddr) {
                vma::lemma_lookup_unique(es, vaddr, i);
                vma::lemma_lookup_unique(es, vaddr, k);
            }
        }
    }
    if vma::attributes_at(rest, vaddr) is Some {
        let k = choose|k: int| 0 <= k < rest.len() && (#[trigger] rest[k]).covers(vaddr);
        let ok = if k < i { k } else { k + 1 };
        assert(es[ok].covers(vaddr));
        if es[i].covers(vaddr) {
            vma::lemma_lookup_unique(es, vaddr, i);
            vma::lemma_lookup_unique(es, vaddr, ok);
        }
    }
    let heap = vma::plain_entry(es[i].start_vaddr, new, es[i].perms, VmRegionType::Heap);
    if new > es[i].start_vaddr && new != es[i].end_vaddr && brk_outcome(es, new).0 is Ok {
        vma::law_place_changes_only_the_new_range(rest, heap, vaddr);
    }
}

} // verus!
