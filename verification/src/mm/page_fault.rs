//! Page-fault resolution: the core policy of the user-space memory manager.
//!
//! A fault report is held against the faulting process's VMAs; when the access
//! is legitimate a physical page is allocated and a map request is built:
//!
//! guard page? -> refused; no VMA and no stack to grow? -> refused;
//! permissions too weak? -> refused; no page left? -> out of memory;
//! otherwise -> map request.
use vstd::prelude::*;
use crate::kernel::{IpcPageFault, PageFaultCause};
use crate::mm::allocator;
use crate::mm::allocator::PhysMem;
use crate::mm::types::{
    BatchMapping, BatchMappingArray, MmError, MmRequest, MmResult, OomPolicy, VmPerms, VmaEntry,
    VmRegionType, PREFAULT_BATCH,
};
use crate::mm::vma;
use crate::mm::vma::VmaManager;

verus! {

/// Page size (bytes).
const PAGE_SIZE: usize = 4096;

/// Start of the page that holds `vaddr`.
pub open spec fn page_start(vaddr: int) -> int {
    vaddr - vaddr % 4096
}

/// The access that a fault of this cause attempted.
pub open spec fn needed_perms(cause: PageFaultCause) -> VmPerms {
    match cause {
        PageFaultCause::Load => VmPerms::R(),
        PageFaultCause::Store => VmPerms::RW(),
        PageFaultCause::Exec => VmPerms::RX(),
    }
}

/// The region and layout that a fault outside every region ends up with: the
/// stack grows down by the faulting page, if that lies just below it.
pub open spec fn expanded(es: Seq<VmaEntry>, vaddr: int) -> (
    Result<VmaEntry, MmError>,
    Seq<VmaEntry>,
) {
    match vma::stack_to_extend(es, vaddr) {
        None => (Err(MmError::NoVma), es),
        Some(stack) => if page_start(vaddr) >= stack.start_vaddr || page_start(vaddr) + 4096
            < stack.start_vaddr {
            (Err(MmError::NoVma), es)
        } else {
            match vma::extend_stack_spec(es, page_start(vaddr) as usize) {
                Err(err) => (Err(err), es),
                Ok(es2) => match vma::lookup(es2, vaddr) {
                    Some(e) => (Ok(e), es2),
                    None => (Err(MmError::NoVma), es2),
                },
            }
        },
    }
}

/// The region a fault is charged to, and the layout it leaves.
pub open spec fn charged(es: Seq<VmaEntry>, vaddr: int) -> (
    Result<VmaEntry, MmError>,
    Seq<VmaEntry>,
) {
    match vma::lookup(es, vaddr) {
        Some(e) => if e.region_type == VmRegionType::Guard {
            (Err(MmError::PermissionDenied), es)
        } else {
            (Ok(e), es)
        },
        None => expanded(es, vaddr),
    }
}

/// Outcome of a write to a copy-on-write page: the process gets a page of its
/// own, mapped readable and writable, and the page is not copy-on-write any
/// more.  When the table has no room for that, the regions stay as they are.
pub open spec fn cow_resolved(
    fault: IpcPageFault,
    es: Seq<VmaEntry>,
    mem: allocator::MemModel,
) -> (MmResult<MmRequest>, Seq<VmaEntry>, allocator::MemModel) {
    match mem.taken().0 {
        None => (Err(MmError::OutOfMemory), es, mem.taken().1),
        Some(p) => (
            Ok(
                MmRequest::MapSingle {
                    addr_space_id: fault.addr_space_id,
                    vaddr: fault.fault_vaddr,
                    paddr: p as usize,
                    flags: VmPerms::RW().bits() as usize,
                },
            ),
            match vma::cow_ended(es, fault.fault_vaddr as int) {
                Ok(es2) => es2,
                Err(_) => es,
            },
            mem.taken().1,
        ),
    }
}

/// Outcome of a fault: the reply, the layout and the physical memory left.
pub open spec fn resolved(
    fault: IpcPageFault,
    es: Seq<VmaEntry>,
    mem: allocator::MemModel,
) -> (MmResult<MmRequest>, Seq<VmaEntry>, allocator::MemModel) {
    let (target, es2) = charged(es, fault.fault_vaddr as int);
    match target {
        Err(err) => (Err(err), es2, mem),
        Ok(e) => if !e.grants(needed_perms(fault.cause)) {
            (Err(MmError::PermissionDenied), es2, mem)
        } else if e.cow && fault.cause == PageFaultCause::Store {
            cow_resolved(fault, es2, mem)
        } else {
            match mem.taken().0 {
                None => (Err(MmError::OutOfMemory), es2, mem.taken().1),
                Some(p) => (
                    Ok(
                        MmRequest::MapSingle {
                            addr_space_id: fault.addr_space_id,
                            vaddr: fault.fault_vaddr,
                            paddr: p as usize,
                            flags: e.perms.bits() as usize,
                        },
                    ),
                    es2,
                    mem.taken().1,
                ),
            }
        },
    }
}

/// The mappings added for the pages that follow the faulting one, starting with
/// page `i`, up to the end of the region or of the memory.
pub open spec fn prefaulted(
    batch: Seq<BatchMapping>,
    mem: allocator::MemModel,
    base: int,
    e: VmaEntry,
    i: int,
) -> (Seq<BatchMapping>, allocator::MemModel)
    decreases PREFAULT_BATCH - i,
{
    if i >= PREFAULT_BATCH || base + i * 4096 >= e.end_vaddr {
        (batch, mem)
    } else {
        match mem.taken().0 {
            None => (batch, mem.taken().1),
            Some(p) => prefaulted(
                batch.push(
                    BatchMapping {
                        vaddr: (base + i * 4096) as usize,
                        paddr: p as usize,
                        flags: e.perms.bits() as usize,
                    },
                ),
                mem.taken().1,
                base,
                e,
                i + 1,
            ),
        }
    }
}

/// The batch for a fault whose primary mapping is `primary`.
pub open spec fn batch_for(
    primary: MmRequest,
    fault: IpcPageFault,
    es: Seq<VmaEntry>,
    mem: allocator::MemModel,
) -> (Seq<BatchMapping>, allocator::MemModel) {
    match vma::lookup(es, fault.fault_vaddr as int) {
        None => (seq![], mem),
        Some(e) => {
            let first: Seq<BatchMapping> = match primary {
                MmRequest::MapSingle { vaddr, paddr, flags, .. } => seq![
                    BatchMapping { vaddr, paddr, flags },
                ],
                _ => seq![],
            };
            prefaulted(first, mem, page_start(fault.fault_vaddr as int), e, 1)
        },
    }
}

/// Resolve a single page fault.
///
/// On success, returns the request that the mm server forwards to the kernel.
pub fn resolve_page_fault(
    fault: &IpcPageFault,
    vma_mgr: &mut VmaManager,
    policy: OomPolicy,
    mem: &mut PhysMem,
) -> (r: MmResult<MmRequest>)
    requires
        old(vma_mgr).wf(),
        old(mem).wf(),
    ensures
        final(vma_mgr).wf(),
        final(mem).wf(),
        (r, final(vma_mgr)@, final(mem)@) == resolved(*fault, old(vma_mgr)@, old(mem)@),
{
    let vaddr: usize = fault.fault_vaddr;
    // 1. Guard page: refused at once.
    if vma_mgr.find_guard(vaddr).is_some() {
        return Err(MmError::PermissionDenied);
    }
    // 2. Find the VMA covering this address, or grow the stack.
    let found: Option<VmaEntry> = match vma_mgr.find(vaddr) {
        Some(v) => Some(*v),
        None => None,
    };
    let vma = match found {
        Some(v) => v,
        None => match check_stack_expansion(vma_mgr, vaddr) {
            Ok(v) => v,
            Err(err) => return Err(err),
        },
    };
    // 3. Check permissions.
    let needed = fault_cause_to_perms(fault.cause);
    if !vma.permits(needed) {
        return Err(MmError::PermissionDenied);
    }
    // 4. A write to a copy-on-write region gets a page of its own.
    if vma.cow && fault.cause == PageFaultCause::Store {
        return handle_cow_fault(fault, vma_mgr, mem);
    }
    // 5. Allocate a physical page.
    let paddr: usize = match allocator::alloc_page(mem) {
        Some(pa) => pa,
        None => return handle_oom(fault, policy, mem),
    };
    // 6. Build the map request.
    Ok(
        MmRequest::MapSingle {
            addr_space_id: fault.addr_space_id,
            vaddr,
            paddr,
            flags: vma.perms.as_bits(),
        },
    )
}

/// Resolve a page fault with prefault: allocates the faulting page plus up to
/// `PREFAULT_BATCH - 1` following pages within the same VMA.
pub fn resolve_with_prefault(
    fault: &IpcPageFault,
    vma_mgr: &mut VmaManager,
    policy: OomPolicy,
    mem: &mut PhysMem,
) -> (r: MmResult<(MmRequest, BatchMappingArray)>)
    requires
        old(vma_mgr).wf(),
        old(mem).wf(),
    ensures
        final(vma_mgr).wf(),
        final(mem).wf(),
        ({
            let (primary, es, mem2) = resolved(*fault, old(vma_mgr)@, old(mem)@);
            &&& final(vma_mgr)@ == es
            &&& match primary {
                Err(err) => r == Err::<(MmRequest, BatchMappingArray), MmError>(err) && final(mem)@
                    == mem2,
                Ok(req) => {
                    &&& r is Ok
                    &&& r->Ok_0.0 == req
                    &&& r->Ok_0.1.wf()
                    &&& (r->Ok_0.1@, final(mem)@) == batch_for(req, *fault, es, mem2)
                },
            }
        }),
{
    // Resolve the primary fault first.
    let primary = match resolve_page_fault(fault, vma_mgr, policy, mem) {
        Ok(p) => p,
        Err(err) => return Err(err),
    };
    let ghost mem2 = mem@;
    let mut batch = BatchMappingArray::new();
    let vma: VmaEntry = match vma_mgr.find(fault.fault_vaddr) {
        Some(v) => *v,
        None => return Ok((primary, batch)),
    };
    let base_vaddr: usize = fault.fault_vaddr - fault.fault_vaddr % PAGE_SIZE;
    // Add the primary page.
    if let MmRequest::MapSingle { vaddr, paddr, flags, .. } = primary {
        batch.push(vaddr, paddr, flags);
    }
    proof {
        assert(vma.covers(fault.fault_vaddr as int)) by {
            crate::search::lemma_first_index(
                vma_mgr@,
                vma::covering(fault.fault_vaddr as int),
                0,
            );
        }
        assert(primary is MapSingle);
        assert(batch@ =~= seq![
            BatchMapping {
                vaddr: primary->MapSingle_vaddr,
                paddr: primary->paddr,
                flags: primary->MapSingle_flags,
            },
        ]);
    }
    let ghost first = batch@;
    // Prefault the pages that follow.
    let mut i: usize = 1;
    while i < PREFAULT_BATCH
        invariant_except_break
            prefaulted(batch@, mem@, base_vaddr as int, vma, i as int) == prefaulted(
                first,
                mem2,
                base_vaddr as int,
                vma,
                1,
            ),
            batch@.len() == i,
        invariant
            1 <= i <= PREFAULT_BATCH,
            base_vaddr <= vma.end_vaddr,
            batch.wf(),
            mem.wf(),
        ensures
            (batch@, mem@) == prefaulted(first, mem2, base_vaddr as int, vma, 1),
        decreases PREFAULT_BATCH - i,
    {
        // Stop at the end of the region.
        if vma.end_vaddr - base_vaddr <= i * PAGE_SIZE {
            break;
        }
        let next_va: usize = base_vaddr + i * PAGE_SIZE;
        match allocator::alloc_page(mem) {
            Some(pa) => {
                batch.push(next_va, pa, vma.perms.as_bits());
            },
            None => {
                // Out of pages: the primary mapping is already done.
                break;
            },
        }
        i += 1;
    }
    Ok((primary, batch))
}

/// If the fault is just below a stack VMA, extend the stack downward: by one
/// page at most.
///
/// Returns the (possibly extended) stack VMA.
fn check_stack_expansion(vma_mgr: &mut VmaManager, vaddr: usize) -> (r: MmResult<VmaEntry>)
    requires
        old(vma_mgr).wf(),
    ensures
        final(vma_mgr).wf(),
        (r, final(vma_mgr)@) == expanded(old(vma_mgr)@, vaddr as int),
{
    let stack: VmaEntry = match vma_mgr.find_stack_to_extend(vaddr) {
        Some(s) => *s,
        None => return Err(MmError::NoVma),
    };
    let expansion_start: usize = vaddr - vaddr % PAGE_SIZE;
    if expansion_start >= stack.start_vaddr || stack.start_vaddr - expansion_start > PAGE_SIZE {
        return Err(MmError::NoVma);
    }
    match vma_mgr.extend_stack(expansion_start) {
        Ok(()) => {},
        Err(err) => return Err(err),
    }
    // Fetch the (now extended) stack VMA.
    match vma_mgr.find(vaddr) {
        Some(e) => Ok(*e),
        None => Err(MmError::NoVma),
    }
}

/// Handle a write fault on a copy-on-write page: the process gets a page of its
/// own, mapped readable and writable, and the region is not copy-on-write any
/// more for this page, if the table has room for that.
fn handle_cow_fault(fault: &IpcPageFault, vma_mgr: &mut VmaManager, mem: &mut PhysMem) -> (r: MmResult<
    MmRequest,
>)
    requires
        old(vma_mgr).wf(),
        old(mem).wf(),
    ensures
        final(vma_mgr).wf(),
        final(mem).wf(),
        (r, final(vma_mgr)@, final(mem)@) == cow_resolved(*fault, old(vma_mgr)@, old(mem)@),
{
    let new_paddr: usize = match allocator::alloc_page(mem) {
        Some(pa) => pa,
        None => return Err(MmError::OutOfMemory),
    };
    // Where the table has no room, the page stays copy-on-write.
    let _ended = vma_mgr.end_cow(fault.fault_vaddr);
    Ok(
        MmRequest::MapSingle {
            addr_space_id: fault.addr_space_id,
            vaddr: fault.fault_vaddr,
            paddr: new_paddr,
            flags: VmPerms::RW().as_bits(),
        },
    )
}

/// Handle out-of-memory during page-fault resolution.  Reclamation never
/// succeeds, so every policy reports that memory is exhausted.
fn handle_oom(fault: &IpcPageFault, policy: OomPolicy, mem: &mut PhysMem) -> (r: MmResult<
    MmRequest,
>)
    requires
        old(mem).wf(),
    ensures
        final(mem).wf(),
        final(mem)@ == old(mem)@,
        r == Err::<MmRequest, MmError>(MmError::OutOfMemory),
{
    match policy {
        OomPolicy::Kill => Err(MmError::OutOfMemory),
        OomPolicy::Reclaim | OomPolicy::ReclaimThenKill => {
            if try_reclaim().is_ok() {
                // Retry after a successful reclaim.
                match allocator::alloc_page(mem) {
                    Some(paddr) => Ok(
                        MmRequest::MapSingle {
                            addr_space_id: fault.addr_space_id,
                            vaddr: fault.fault_vaddr,
                            paddr,
                            flags: VmPerms::RW().as_bits(),
                        },
                    ),
                    None => Err(MmError::OutOfMemory),
                }
            } else {
                Err(MmError::OutOfMemory)
            }
        },
    }
}

/// Attempt to reclaim memory.  There is no swap and no page-cache reclaim, so
/// this always fails.
fn try_reclaim() -> (r: Result<(), ()>)
    ensures
        r is Err,
{
    Err(())
}

/// Map a fault cause to the permission set required for the access.
fn fault_cause_to_perms(cause: PageFaultCause) -> (r: VmPerms)
    ensures
        r == needed_perms(cause),
{
    match cause {
        PageFaultCause::Load => VmPerms::R(),
        PageFaultCause::Store => VmPerms::RW(),
        PageFaultCause::Exec => VmPerms::RX(),
    }
}

/// A fault is answered with a mapping only where the process may make the
/// access, and never inside a guard page.
pub proof fn law_only_permitted_accesses_are_mapped(
    fault: IpcPageFault,
    es: Seq<VmaEntry>,
    mem: allocator::MemModel,
)
    ensures
        resolved(fault, es, mem).0 is Ok ==> {
            let (target, es2) = charged(es, fault.fault_vaddr as int);
            &&& target is Ok
            &&& target->Ok_0.grants(needed_perms(fault.cause))
            &&& vma::lookup(es2, fault.fault_vaddr as int) == Some(target->Ok_0)
            &&& vma::lookup(es, fault.fault_vaddr as int) is Some ==> vma::lookup(
                es,
                fault.fault_vaddr as int,
            )->0.region_type != VmRegionType::Guard
        },
{
}

/// A stack grows by one page at most, and only for a fault in the page just
/// below it.
pub proof fn law_stack_grows_by_one_page(es: Seq<VmaEntry>, vaddr: int)
    requires
        charged(es, vaddr).1 != es,
    ensures
        vma::lookup(es, vaddr) is None,
        vma::stack_to_extend(es, vaddr) matches Some(stack) && page_start(vaddr) < stack.start_vaddr
            <= page_start(vaddr) + 4096,
{
}

/// Once a write to a copy-on-write page was answered, the page is not
/// copy-on-write any more, if the table has room for that.
pub proof fn law_cow_ends_with_the_fault(
    fault: IpcPageFault,
    es: Seq<VmaEntry>,
    mem: allocator::MemModel,
)
    requires
        vma::sorted(es),
        fault.cause == PageFaultCause::Store,
        vma::lookup(es, fault.fault_vaddr as int) is Some,
        vma::lookup(es, fault.fault_vaddr as int)->0.cow ==> vma::cow_ended(
            es,
            fault.fault_vaddr as int,
        ) is Ok,
        resolved(fault, es, mem).0 is Ok,
    ensures
        vma::lookup(resolved(fault, es, mem).1, fault.fault_vaddr as int) is Some,
        !vma::lookup(resolved(fault, es, mem).1, fault.fault_vaddr as int)->0.cow,
{
    if vma::lookup(es, fault.fault_vaddr as int)->0.cow {
        vma::law_end_cow_changes_only_the_page(
            es,
            fault.fault_vaddr as int,
            fault.fault_vaddr as int,
        );
    }
}

/// The pages of the batch from entry `i` on: each is the next page of the
/// region with the region's permissions, and was available in `mem`.
spec fn follows(
    batch: Seq<BatchMapping>,
    i: int,
    mem: allocator::MemModel,
    after: allocator::MemModel,
    base: int,
    e: VmaEntry,
) -> bool {
    &&& forall|k: int|
        i <= k < batch.len() ==> {
            &&& (#[trigger] batch[k]).vaddr == base + k * 4096
            &&& batch[k].vaddr < e.end_vaddr
            &&& batch[k].flags == e.perms.bits()
            &&& mem.available(batch[k].paddr as int)
            &&& !after.available(batch[k].paddr as int)
        }
    &&& forall|k: int, l: int|
        i <= k < l < batch.len() ==> (#[trigger] batch[k]).paddr != (#[trigger] batch[l]).paddr
    &&& forall|x: int| #[trigger] after.available(x) ==> mem.available(x)
}

proof fn lemma_prefaulted(
    batch: Seq<BatchMapping>,
    mem: allocator::MemModel,
    base: int,
    e: VmaEntry,
    i: int,
)
    requires
        mem.inv(),
        0 <= base <= e.end_vaddr,
        batch.len() == i,
        0 <= i <= PREFAULT_BATCH,
    ensures
        ({
            let (b, after) = prefaulted(batch, mem, base, e, i);
            &&& i <= b.len() <= PREFAULT_BATCH
            &&& b.take(i) == batch
            &&& after.inv()
            &&& follows(b, i, mem, after, base, e)
            &&& b.len() < PREFAULT_BATCH ==> base + b.len() * 4096 >= e.end_vaddr || forall|x: int|
                !#[trigger] after.available(x)
        }),
    decreases PREFAULT_BATCH - i,
{
    if i >= PREFAULT_BATCH || base + i * 4096 >= e.end_vaddr {
        assert(batch.take(i) =~= batch);
    } else {
        allocator::law_take_hands_out_each_page_once(mem);
        let mem1 = mem.taken().1;
        match mem.taken().0 {
            None => {
                assert(batch.take(i) =~= batch);
            },
            Some(p) => {
                let m = BatchMapping {
                    vaddr: (base + i * 4096) as usize,
                    paddr: p as usize,
                    flags: e.perms.bits() as usize,
                };
                let next = batch.push(m);
                lemma_prefaulted(next, mem1, base, e, i + 1);
                let (b, after) = prefaulted(next, mem1, base, e, i + 1);
                assert(b.take(i) =~= b.take(i + 1).take(i));
                assert(next.take(i) =~= batch);
                assert(b[i] == b.take(i + 1)[i]);
                assert(b[i] == m);
                assert(!mem1.available(p));
                assert forall|k: int, l: int| i <= k < l < b.len() implies (#[trigger] b[k]).paddr != (
                #[trigger] b[l]).paddr by {
                    if k == i {
                        assert(mem1.available(b[l].paddr as int));
                    }
                }
                assert forall|k: int| i <= k < b.len() implies {
                    &&& (#[trigger] b[k]).vaddr == base + k * 4096
                    &&& b[k].vaddr < e.end_vaddr
                    &&& b[k].flags == e.perms.bits()
                    &&& mem.available(b[k].paddr as int)
                    &&& !after.available(b[k].paddr as int)
                } by {
                    if k > i {
                        assert(mem1.available(b[k].paddr as int));
                    } else {
                        assert(after.available(p) ==> mem1.available(p));
                    }
                }
                assert forall|x: int| #[trigger] after.available(x) implies mem.available(x) by {
                    assert(mem1.available(x));
                }
            },
        }
    }
}

/// A batch starts with the faulting page and goes on page by page inside the
/// region, with the region's permissions.  Its physical pages are different,
/// were available before and are not afterwards.  It is shorter than the limit
/// only at the end of the region or when no page is available any more.
pub proof fn law_prefault_batch(fault: IpcPageFault, es: Seq<VmaEntry>, mem: allocator::MemModel)
    requires
        vma::sorted(es),
        mem.inv(),
        resolved(fault, es, mem).0 is Ok,
    ensures
        ({
            let (primary, es2, mem2) = resolved(fault, es, mem);
            let q = primary->Ok_0;
            let (b, after) = batch_for(q, fault, es2, mem2);
            let region = vma::lookup(es2, fault.fault_vaddr as int);
            let base = page_start(fault.fault_vaddr as int);
            &&& q is MapSingle
            &&& region is Some
            &&& 1 <= b.len() <= PREFAULT_BATCH
            &&& b[0] == (BatchMapping {
                vaddr: q->MapSingle_vaddr,
                paddr: q->paddr,
                flags: q->MapSingle_flags,
            })
            &&& forall|k: int|
                1 <= k < b.len() ==> {
                    &&& (#[trigger] b[k]).vaddr == base + k * 4096
                    &&& b[k].vaddr < region->0.end_vaddr
                    &&& b[k].flags == region->0.perms.bits()
                }
            &&& forall|k: int|
                0 <= k < b.len() ==> mem.available((#[trigger] b[k]).paddr as int) && !after.available(
                    b[k].paddr as int,
                )
            &&& forall|k: int, l: int|
                0 <= k < l < b.len() ==> (#[trigger] b[k]).paddr != (#[trigger] b[l]).paddr
            &&& b.len() < PREFAULT_BATCH ==> base + b.len() * 4096 >= region->0.end_vaddr || forall|
                x: int,
            |
                !#[trigger] after.available(x)
        }),
{
    let vaddr = fault.fault_vaddr as int;
    let (primary, es2, mem2) = resolved(fault, es, mem);
    let q = primary->Ok_0;
    let base = page_start(vaddr);
    allocator::law_take_hands_out_each_page_once(mem);
    let p = mem.taken().0->0;
    let (target, es1) = charged(es, vaddr);
    if target->Ok_0.cow && fault.cause == PageFaultCause::Store {
        lemma_charged_sorted(es, vaddr);
        if vma::cow_ended(es1, vaddr) is Ok {
            vma::law_end_cow_changes_only_the_page(es1, vaddr, vaddr);
        }
    }
    let e = vma::lookup(es2, vaddr)->0;
    crate::search::lemma_first_index(es2, vma::covering(vaddr), 0);
    let first = seq![
        BatchMapping {
            vaddr: q->MapSingle_vaddr,
            paddr: q->paddr,
            flags: q->MapSingle_flags,
        },
    ];
    lemma_prefaulted(first, mem2, base, e, 1);
    let (b, after) = batch_for(q, fault, es2, mem2);
    assert(b.take(1)[0] == b[0]);
    assert(!mem2.available(p));
    assert(!after.available(p));
    assert forall|k: int, l: int| 0 <= k < l < b.len() implies (#[trigger] b[k]).paddr != (
    #[trigger] b[l]).paddr by {
        if k == 0 {
            assert(mem2.available(b[l].paddr as int));
        }
    }
    assert forall|k: int| 0 <= k < b.len() implies mem.available((#[trigger] b[k]).paddr as int)
        && !after.available(b[k].paddr as int) by {
        if k > 0 {
            assert(mem2.available(b[k].paddr as int));
        }
    }
}

/// Growing the stack keeps the layout sorted.
proof fn lemma_charged_sorted(es: Seq<VmaEntry>, vaddr: int)
    requires
        vma::sorted(es),
    ensures
        vma::sorted(charged(es, vaddr).1),
{
    let es2 = charged(es, vaddr).1;
    if es2 != es {
        let at = crate::search::first_index(es, vma::of_type(VmRegionType::Stack), 0)->0;
        crate::search::lemma_first_index(es, vma::of_type(VmRegionType::Stack), 0);
        assert forall|i: int, j: int| 0 <= i < j < es2.len() implies (#[trigger] es2[i]).end_vaddr <= (
        #[trigger] es2[j]).start_vaddr by {
            assert(es[i].end_vaddr <= es[j].start_vaddr);
            if j == at && i < at - 1 {
                assert(es[i].end_vaddr <= es[at - 1].start_vaddr);
            }
        }
    }
}

/// The access that a fault of this cause makes is allowed in the region.
pub open spec fn allowed(e: VmaEntry, cause: PageFaultCause) -> bool {
    &&& e.region_type != VmRegionType::Guard
    &&& e.perms.read
    &&& cause == PageFaultCause::Store ==> e.perms.write
    &&& cause == PageFaultCause::Exec ==> e.perms.execute
}

/// The bits that the kernel is told: 1 for reading, 2 for writing, 4 for
/// execution, and 8 for access by the program.
pub open spec fn map_bits(read: bool, write: bool, execute: bool) -> usize {
    if read && write && execute {
        15
    } else if read && write {
        11
    } else if read && execute {
        13
    } else if write && execute {
        14
    } else if read {
        9
    } else if write {
        10
    } else if execute {
        12
    } else {
        8
    }
}

/// A mapping that answers a fault: the faulting address of the faulting address
/// space is mapped to page `paddr`, with the permissions of region `e`; a write
/// to a copy-on-write region gets a page to read and write.
pub open spec fn answers(q: MmRequest, fault: IpcPageFault, e: VmaEntry, paddr: int) -> bool {
    q matches MmRequest::MapSingle { addr_space_id, vaddr, paddr: p, flags } && {
        &&& addr_space_id == fault.addr_space_id
        &&& vaddr == fault.fault_vaddr
        &&& p == paddr
        &&& flags == (if e.cow && fault.cause == PageFaultCause::Store {
            11
        } else {
            map_bits(e.perms.read, e.perms.write, e.perms.execute)
        })
    }
}

/// Page `p` was handed out: it was available, it is not any more, and nothing
/// changed for the other pages.
pub open spec fn handed_out(
    mem: allocator::MemModel,
    after: allocator::MemModel,
    p: int,
) -> bool {
    &&& mem.available(p)
    &&& forall|x: int| #[trigger] after.available(x) <==> mem.available(x) && x != p
}

/// A fault inside region `i`: it is refused, and nothing changes, where the region
/// does not allow the access; it is answered with a mapping of a fresh page with
/// the region's permissions while there are pages; else memory is exhausted.
/// No region changes, but for one that is copy-on-write and written to.
pub proof fn law_fault_in_a_region(
    fault: IpcPageFault,
    es: Seq<VmaEntry>,
    mem: allocator::MemModel,
    i: int,
)
    requires
        vma::sorted(es),
        mem.inv(),
        0 <= i < es.len(),
        es[i].start_vaddr <= fault.fault_vaddr < es[i].end_vaddr,
    ensures
        ({
            let (r, es2, after) = resolved(fault, es, mem);
            if !allowed(es[i], fault.cause) {
                r == Err::<MmRequest, MmError>(MmError::PermissionDenied) && es2 == es && after == mem
            } else {
                &&& (exists|x: int| #[trigger] mem.available(x)) <==> r is Ok
                &&& r is Err ==> r->Err_0 == MmError::OutOfMemory && es2 == es
                &&& r matches Ok(q) ==> q is MapSingle && answers(
                    q,
                    fault,
                    es[i],
                    q->paddr as int,
                ) && handed_out(mem, after, q->paddr as int)
                &&& !(es[i].cow && fault.cause == PageFaultCause::Store) ==> es2 == es
            }
        }),
{
    vma::lemma_lookup_unique(es, fault.fault_vaddr as int, i);
    allocator::law_take_hands_out_each_page_once(mem);
}

/// Regions start and end at page boundaries.
pub open spec fn aligned(es: Seq<VmaEntry>) -> bool {
    forall|i: int|
        0 <= i < es.len() ==> (#[trigger] es[i]).start_vaddr as int % 4096 == 0
            && es[i].end_vaddr as int % 4096 == 0
}

/// No region covers the address.
pub open spec fn uncovered(es: Seq<VmaEntry>, vaddr: int) -> bool {
    forall|i: int|
        0 <= i < es.len() ==> !((#[trigger] es[i]).start_vaddr <= vaddr < es[i].end_vaddr)
}

/// A fault in the page just below the stack is answered as one inside the stack,
/// once the stack was grown down by that page.  The region before the stack is not
/// empty.
pub proof fn law_fault_below_the_stack(
    fault: IpcPageFault,
    es: Seq<VmaEntry>,
    mem: allocator::MemModel,
    i: int,
)
    requires
        vma::sorted(es),
        aligned(es),
        uncovered(es, fault.fault_vaddr as int),
        0 <= i < es.len(),
        es[i].region_type == VmRegionType::Stack,
        es[i].start_vaddr == fault.fault_vaddr - fault.fault_vaddr % 4096 + 4096,
        forall|k: int|
            0 <= k < i ==> (#[trigger] es[k]).region_type != VmRegionType::Stack,
        i > 0 ==> es[i - 1].start_vaddr < es[i - 1].end_vaddr,
    ensures
        ({
            let page = (fault.fault_vaddr - fault.fault_vaddr % 4096) as usize;
            let grown = es.update(i, VmaEntry { start_vaddr: page, ..es[i] });
            resolved(fault, es, mem) == resolved(fault, grown, mem)
        }),
{
    let vaddr = fault.fault_vaddr as int;
    let page = page_start(vaddr);
    let grown = es.update(i, VmaEntry { start_vaddr: page as usize, ..es[i] });
    crate::search::lemma_first_index(es, vma::covering(vaddr), 0);
    crate::search::lemma_first_index(es, vma::stack_above(vaddr), 0);
    crate::search::lemma_first_index(es, vma::of_type(VmRegionType::Stack), 0);
    assert(vma::of_type(VmRegionType::Stack)(es[i]));
    assert(vma::stack_above(vaddr)(es[i]));
    if i > 0 {
        assert(es[i - 1].end_vaddr <= es[i].start_vaddr);
        assert(es[i - 1].end_vaddr as int % 4096 == 0 && es[i - 1].start_vaddr as int % 4096 == 0);
        assert(es[i - 1].end_vaddr <= page);
    }
    assert(charged(es, vaddr).1 == grown);
    lemma_charged_sorted(es, vaddr);
    assert(grown[i].covers(vaddr)) by {
        assert(es[i].start_vaddr <= es[i].end_vaddr);
    }
    vma::lemma_lookup_unique(grown, vaddr, i);
}

/// A fault that no region covers and that is not in the page just below a stack
/// is refused, and nothing changes.
pub proof fn law_fault_elsewhere(fault: IpcPageFault, es: Seq<VmaEntry>, mem: allocator::MemModel)
    requires
        vma::sorted(es),
        aligned(es),
        uncovered(es, fault.fault_vaddr as int),
        forall|i: int|
            0 <= i < es.len() && (#[trigger] es[i]).region_type == VmRegionType::Stack
                ==> es[i].start_vaddr != fault.fault_vaddr - fault.fault_vaddr % 4096 + 4096,
    ensures
        resolved(fault, es, mem) == (
            Err::<MmRequest, MmError>(MmError::NoVma),
            es,
            mem,
        ),
{
    let vaddr = fault.fault_vaddr as int;
    crate::search::lemma_first_index(es, vma::covering(vaddr), 0);
    crate::search::lemma_first_index(es, vma::stack_above(vaddr), 0);
    match crate::search::first_index(es, vma::stack_above(vaddr), 0) {
        Some(k) => {
            assert(vma::stack_above(vaddr)(es[k]));
            assert(es[k].start_vaddr as int % 4096 == 0);
        },
        None => {},
    }
}

} // verus!
