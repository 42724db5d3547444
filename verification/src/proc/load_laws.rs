//! What the plan for a program has to do with its file.
use vstd::prelude::*;
use crate::kernel::{AddressSpaceId, MapFlags};
use crate::mm::server;
use crate::mm::server::MmServerModel;
use crate::mm::vma;
use crate::proc::elf_loader;
use crate::proc::elf_loader::{
    loads, page_run, plans, program_headers_of, segment_of, segment_pages, ElfHeader, LoadPlan,
    PagePlan, PageSource, ProgramHeader, Segment, SegmentKind,
};
use crate::proc::elf_loader::{USER_STACK_BOTTOM, USER_STACK_TOP};
use crate::proc::proc_table;
use crate::proc::proc_table::TableModel;
use crate::proc::types::{ProcessId, ProcessPriority, ProcessState};
use crate::search;

verus! {

/// Rounding goes to the nearest page boundary above or below.
pub proof fn law_alignment(v: int)
    requires
        0 <= v,
    ensures
        elf_loader::align_down(v) % 4096 == 0,
        v - 4096 < elf_loader::align_down(v) <= v,
        elf_loader::align_up(v) % 4096 == 0,
        v <= elf_loader::align_up(v) < v + 4096,
{
}

/// The access that the kernel is told for a segment: 1 where its flags allow
/// reading, 4 where they allow execution, and always 2 and 8.
pub open spec fn access(flags: u32) -> u32 {
    if flags & 4 == 4 && flags & 1 == 1 {
        15
    } else if flags & 4 == 4 {
        11
    } else if flags & 1 == 1 {
        14
    } else {
        10
    }
}

/// The addresses and sizes of a segment fit in this machine's words.
pub open spec fn fits(ph: ProgramHeader) -> bool {
    &&& ph.vaddr + ph.mem_size + 4095 <= usize::MAX
    &&& ph.vaddr + ph.file_size <= usize::MAX
    &&& ph.offset + ph.file_size <= usize::MAX
}

proof fn lemma_loads_hold(phs: Seq<ProgramHeader>, i: int)
    requires
        0 <= i < phs.len(),
        phs[i].kind == SegmentKind::Load,
    ensures
        loads(phs).contains(segment_of(phs[i])),
    decreases phs.len(),
{
    let init = phs.drop_last();
    let all = loads(phs);
    if i == phs.len() - 1 {
        assert(all[all.len() - 1] == segment_of(phs[i]));
    } else {
        lemma_loads_hold(init, i);
        let s = segment_of(phs[i]);
        let k = choose|k: int| 0 <= k < loads(init).len() && loads(init)[k] == s;
        assert(all[k] == s);
    }
}

/// A page of segment `j` among the planned pages.
proof fn lemma_page_planned(segs: Seq<Segment>, n: int, j: int, p: PagePlan)
    requires
        0 <= j < n <= segs.len(),
        page_run(
            segs[j].start_page as int,
            segs[j].end_page as int,
            segs[j].flags,
            PageSource::Segment(j as usize),
        ).contains(p),
    ensures
        segment_pages(segs, n).contains(p),
    decreases n,
{
    let before = segment_pages(segs, n - 1);
    let gap = elf_loader::gap_pages(segs, n - 1);
    let run = page_run(
        segs[n - 1].start_page as int,
        segs[n - 1].end_page as int,
        segs[n - 1].flags,
        PageSource::Segment((n - 1) as usize),
    );
    let all = segment_pages(segs, n);
    assert(all == before + gap + run);
    if j == n - 1 {
        let k = choose|k: int| 0 <= k < run.len() && run[k] == p;
        assert(all[before.len() + gap.len() + k] == p);
    } else {
        lemma_page_planned(segs, n - 1, j, p);
        let k = choose|k: int| 0 <= k < before.len() && before[k] == p;
        assert(all[k] == p);
    }
}

/// The page is planned for the segment of this header: whole, with the header's
/// access, and to be filled from the header's part of the file.
pub open spec fn planned_for(plan: LoadPlan, ph: ProgramHeader, k: int, x: int) -> bool {
    let p = plan.pages@[k];
    &&& 0 <= k < plan.pages@.len()
    &&& p.vaddr as int % 4096 == 0
    &&& p.vaddr <= x < p.vaddr + 4096
    &&& p.flags == MapFlags(access(ph.flags))
    &&& p.source matches PageSource::Segment(j) && j < plan.segments@.len() && {
        let s = plan.segments@[j as int];
        s.vaddr == ph.vaddr && s.offset == ph.offset && s.file_size == ph.file_size && s.end_page
            >= ph.vaddr + ph.mem_size
    }
}

/// The segment of a header.
proof fn lemma_segment(ph: ProgramHeader)
    requires
        fits(ph),
    ensures
        ({
            let s = segment_of(ph);
            &&& s.start_page as int % 4096 == 0
            &&& s.end_page as int % 4096 == 0
            &&& s.start_page <= ph.vaddr
            &&& ph.vaddr + ph.mem_size <= s.end_page
            &&& s.flags == MapFlags(access(ph.flags))
            &&& s.vaddr == ph.vaddr
            &&& s.offset == ph.offset
            &&& s.file_size == ph.file_size
        }),
{
}

/// The page of a run that holds an address.
proof fn lemma_run_page(s: Segment, source: PageSource, x: int) -> (n: int)
    requires
        s.start_page as int % 4096 == 0,
        s.end_page as int % 4096 == 0,
        s.start_page <= x < s.end_page,
    ensures
        ({
            let run = page_run(s.start_page as int, s.end_page as int, s.flags, source);
            &&& 0 <= n < run.len()
            &&& run[n].vaddr as int % 4096 == 0
            &&& run[n].vaddr <= x < run[n].vaddr + 4096
            &&& run[n].flags == s.flags
            &&& run[n].source == source
        }),
{
    let n = (x - s.start_page) / 4096;
    assert(0 <= n < (s.end_page - s.start_page) / 4096);
    n
}

proof fn lemma_planned(phs: Seq<ProgramHeader>, plan: LoadPlan, i: int, x: int)
    requires
        plan.segments@.to_multiset() == elf_loader::loaded_segments(phs).to_multiset(),
        segment_pages(plan.segments@, plan.segments@.len() as int).is_prefix_of(plan.pages@),
        plan.segments@.len() <= 8,
        0 <= i < phs.len(),
        phs[i].kind == SegmentKind::Load,
        fits(phs[i]),
        loads(phs).len() <= 8,
        phs[i].vaddr <= x < phs[i].vaddr + phs[i].mem_size,
    ensures
        exists|k: int| #[trigger] planned_for(plan, phs[i], k, x),
{
    let ph = phs[i];
    let s = segment_of(ph);
    let segs = plan.segments@;
    lemma_loads_hold(phs, i);
    lemma_segment(ph);
    assert(elf_loader::loaded_segments(phs) == loads(phs));
    vstd::seq_lib::to_multiset_contains(loads(phs), s);
    vstd::seq_lib::to_multiset_contains(segs, s);
    let j = choose|j: int| 0 <= j < segs.len() && segs[j] == s;
    let source = PageSource::Segment(j as usize);
    let n = lemma_run_page(s, source, x);
    let run = page_run(s.start_page as int, s.end_page as int, s.flags, source);
    let p = run[n];
    assert(run.contains(p));
    lemma_page_planned(segs, segs.len() as int, j, p);
    let first = segment_pages(segs, segs.len() as int);
    let k = choose|k: int| 0 <= k < first.len() && first[k] == p;
    assert(plan.pages@[k] == p);
    assert(planned_for(plan, ph, k, x));
}

/// Every address of a segment that is to be loaded lies in a page that is planned
/// for it, whatever the access to the segment; up to eight segments are loaded.
pub proof fn law_every_address_is_planned(b: Seq<u8>, plan: LoadPlan, i: int, x: int)
    requires
        plans(b, plan),
        0 <= i < program_headers_of(b).len(),
        program_headers_of(b)[i].kind == SegmentKind::Load,
        fits(program_headers_of(b)[i]),
        loads(program_headers_of(b)).len() <= 8,
        program_headers_of(b)[i].vaddr <= x < program_headers_of(b)[i].vaddr
            + program_headers_of(b)[i].mem_size,
    ensures
        exists|k: int| #[trigger] planned_for(plan, program_headers_of(b)[i], k, x),
{
    let segs = plan.segments@;
    lemma_planned(program_headers_of(b), plan, i, x);
}

/// What a program is told: its entry, a break at or above the end of each of its
/// segments, in whole pages and no higher than that, and where its headers are.
pub proof fn law_program_is_told(h: ElfHeader, phs: Seq<ProgramHeader>, i: int)
    requires
        h.entry <= usize::MAX,
        forall|k: int|
            0 <= k < phs.len() && (#[trigger] phs[k]).kind == SegmentKind::Load ==> fits(phs[k]),
        0 <= i < phs.len(),
        phs[i].kind == SegmentKind::Load,
    ensures
        ({
            let r = elf_loader::told(h, phs);
            &&& r.entry == h.entry
            &&& r.phent_size == h.ph_entry_size
            &&& r.phnum == h.ph_count
            &&& r.brk as int % 4096 == 0
            &&& phs[i].vaddr + phs[i].mem_size <= r.brk
            &&& r.brk == 0 || exists|k: int|
                0 <= k < phs.len() && (#[trigger] phs[k]).kind == SegmentKind::Load && r.brk
                    < phs[k].vaddr + phs[k].mem_size + 4096
            &&& phs[i].vaddr + h.ph_offset <= usize::MAX && (forall|k: int|
                0 <= k < i ==> (#[trigger] phs[k]).kind != SegmentKind::Load) ==> r.phdr_addr
                == phs[i].vaddr + h.ph_offset
        }),
{
    lemma_data_end(phs);
    let end = elf_loader::data_end(phs);
    law_alignment(end);
    assert(fits(phs[i]));
    if end > 0 {
        let k = choose|k: int|
            0 <= k < phs.len() && (#[trigger] phs[k]).kind == SegmentKind::Load && phs[k].vaddr
                + phs[k].mem_size == end;
        assert(fits(phs[k]));
    }
    if forall|k: int| 0 <= k < i ==> (#[trigger] phs[k]).kind != SegmentKind::Load {
        search::lemma_first_index(phs, elf_loader::is_load(), 0);
        assert(elf_loader::is_load()(phs[i]));
        let k = search::first_index(phs, elf_loader::is_load(), 0)->0;
        assert(elf_loader::is_load()(phs[k]));
        assert(k == i);
    }
}

proof fn lemma_data_end(phs: Seq<ProgramHeader>)
    requires
        forall|i: int|
            0 <= i < phs.len() && (#[trigger] phs[i]).kind == SegmentKind::Load ==> fits(phs[i]),
    ensures
        0 <= elf_loader::data_end(phs),
        forall|i: int|
            0 <= i < phs.len() && (#[trigger] phs[i]).kind == SegmentKind::Load ==> phs[i].vaddr
                + phs[i].mem_size <= elf_loader::data_end(phs),
        elf_loader::data_end(phs) == 0 || exists|i: int|
            0 <= i < phs.len() && (#[trigger] phs[i]).kind == SegmentKind::Load && phs[i].vaddr
                + phs[i].mem_size == elf_loader::data_end(phs),
    decreases phs.len(),
{
    if phs.len() > 0 {
        let init = phs.drop_last();
        assert forall|i: int|
            0 <= i < init.len() && (#[trigger] init[i]).kind == SegmentKind::Load implies fits(
            init[i],
        ) by {
            assert(phs[i] == init[i]);
        }
        lemma_data_end(init);
        assert forall|i: int|
            0 <= i < phs.len() && (#[trigger] phs[i]).kind == SegmentKind::Load implies phs[i].vaddr
            + phs[i].mem_size <= elf_loader::data_end(phs) by {
            if i < phs.len() - 1 {
                assert(init[i] == phs[i]);
            }
        }
        if elf_loader::data_end(phs) != 0 {
            if elf_loader::data_end(phs) == elf_loader::data_end(init) {
                let i = choose|i: int|
                    0 <= i < init.len() && (#[trigger] init[i]).kind == SegmentKind::Load
                        && init[i].vaddr + init[i].mem_size == elf_loader::data_end(init);
                assert(phs[i] == init[i]);
            } else {
                assert(phs[phs.len() - 1].kind == SegmentKind::Load);
            }
        }
    }
}

/// The pages at the break: enough for the thread-local storage and what stands
/// before it, or four without any.
pub proof fn law_break_is_planned(segs: Seq<Segment>, phs: Seq<ProgramHeader>, brk: int, x: int)
    requires
        0 <= brk,
        brk % 4096 == 0,
        elf_loader::last_end(segs) <= brk,
        0 <= elf_loader::tls_size(phs),
        brk + elf_loader::tls_size(phs) + 0x8000 <= usize::MAX,
        brk <= x,
        x < brk + 0x200 + elf_loader::tls_size(phs) && elf_loader::tls_size(phs) > 0 || x < brk
            + 0x4000 && elf_loader::tls_size(phs) == 0,
    ensures
        exists|k: int|
            0 <= k < elf_loader::break_pages(segs, brk, elf_loader::brk_pages(phs)).len() && {
                let p = #[trigger] elf_loader::break_pages(segs, brk, elf_loader::brk_pages(phs))[k];
                p.vaddr <= x < p.vaddr + 4096 && p.flags == MapFlags(11) && p.source
                    == PageSource::Break
            },
{
    let count = elf_loader::brk_pages(phs);
    let pages = elf_loader::break_pages(segs, brk, count);
    let k = (x - brk) / 4096;
    assert((brk + count * 4096 - brk) / 4096 == count);
    assert(0 <= k < count);
    assert(pages[k].vaddr == brk + k * 4096);
}

/// The regions of a program hold its segments: those that are executed in the
/// code region, the others in the data region; the regions are whole pages, and
/// the heap starts where the data ends.
pub proof fn law_regions_hold_the_segments(phs: Seq<ProgramHeader>, i: int)
    requires
        0 <= i < phs.len(),
        phs[i].kind == SegmentKind::Load,
        forall|k: int|
            0 <= k < phs.len() && (#[trigger] phs[k]).kind == SegmentKind::Load ==> fits(phs[k]),
    ensures
        ({
            let r = elf_loader::regions_of(phs);
            &&& phs[i].flags & 1 == 1 ==> r.code_start <= phs[i].vaddr && phs[i].vaddr
                + phs[i].mem_size <= r.code_end
            &&& phs[i].flags & 1 != 1 ==> r.data_start <= phs[i].vaddr && phs[i].vaddr
                + phs[i].mem_size <= r.data_end
            &&& r.code_start as int % 4096 == 0 && r.code_end as int % 4096 == 0
            &&& r.data_start as int % 4096 == 0 && r.data_end as int % 4096 == 0
            &&& r.heap_start == r.data_end
        }),
{
    let x = phs[i].flags & 1 == 1;
    lemma_bounds(phs, true);
    lemma_bounds(phs, false);
    assert(elf_loader::counts_as(phs[i], x));
}

proof fn lemma_bounds(phs: Seq<ProgramHeader>, executable: bool)
    requires
        forall|k: int|
            0 <= k < phs.len() && (#[trigger] phs[k]).kind == SegmentKind::Load ==> fits(phs[k]),
    ensures
        0 <= elf_loader::lowest(phs, executable) <= usize::MAX,
        0 <= elf_loader::highest(phs, executable) <= usize::MAX - 4095,
        forall|k: int|
            0 <= k < phs.len() && elf_loader::counts_as(#[trigger] phs[k], executable) ==> {
                &&& elf_loader::lowest(phs, executable) <= phs[k].vaddr
                &&& phs[k].vaddr + phs[k].mem_size <= elf_loader::highest(phs, executable)
            },
    decreases phs.len(),
{
    if phs.len() > 0 {
        let init = phs.drop_last();
        assert forall|k: int|
            0 <= k < init.len() && (#[trigger] init[k]).kind == SegmentKind::Load implies fits(
            init[k],
        ) by {
            assert(phs[k] == init[k]);
        }
        lemma_bounds(init, executable);
        let n = phs.len() - 1;
        assert(phs[n].kind == SegmentKind::Load ==> fits(phs[n]));
        assert forall|k: int|
            0 <= k < phs.len() && elf_loader::counts_as(#[trigger] phs[k], executable) implies {
            &&& elf_loader::lowest(phs, executable) <= phs[k].vaddr
            &&& phs[k].vaddr + phs[k].mem_size <= elf_loader::highest(phs, executable)
        } by {
            if k < n {
                assert(init[k] == phs[k]);
            }
        }
    }
}

/// A stack of `n` pages covers the addresses from its bottom up to its top, and no
/// others, to be read and written by the program.
pub proof fn law_stack_is_planned(bottom: int, n: int, k: int)
    requires
        0 <= bottom,
        0 <= k < n,
        bottom + n * 4096 <= usize::MAX,
    ensures
        elf_loader::stack_pages(bottom, n).len() == n,
        elf_loader::stack_pages(bottom, n)[k].vaddr == bottom + k * 4096,
        elf_loader::stack_pages(bottom, n)[k].flags == MapFlags(11),
{
    assert(bottom + k * 4096 <= usize::MAX) by (nonlinear_arith)
        requires
            bottom + n * 4096 <= usize::MAX,
            0 <= k < n,
    ;
}

/// A program that was entered is found in the process table under the ID that it
/// got, with its path as its name, its parent and the default priority; every other
/// process stays.  A full table refuses it and stays as it is.
pub proof fn law_entered_program_is_found(
    t: TableModel,
    parent: ProcessId,
    path: Seq<u8>,
    other: ProcessId,
)
    requires
        t.inv(),
    ensures
        ({
            let (after, r) = elf_loader::program_entered(t, parent, path);
            match r {
                Ok(pid) => {
                    &&& t.lookup(pid) is None
                    &&& after.lookup(pid) matches Some(p) && {
                        &&& p.pid == pid
                        &&& p.parent == parent
                        &&& path.len() <= 32 ==> p.name == path
                        &&& p.priority == ProcessPriority::DEFAULT()
                        &&& p.state == ProcessState::Created
                        &&& p.threads.len() == 0
                        &&& p.exit_code is None
                    }
                    &&& other != pid ==> after.lookup(other) == t.lookup(other)
                },
                Err(_) => after == t && forall|i: int|
                    0 <= i < t.slots.len() ==> (#[trigger] t.slots[i]) is Some,
            }
        }),
{
    let (after, r) = elf_loader::program_entered(t, parent, path);
    search::lemma_first_index(t.slots, proc_table::vacant(), 0);
    if r is Ok {
        let info = proc_table::created(
            ProcessId::NULL(),
            path,
            ProcessPriority::DEFAULT(),
            AddressSpaceId(0),
            parent,
        );
        proc_table::law_insert_then_lookup(t, info, other);
        let i = t.free_slot()->0;
        let g = proc_table::next_generation(t.generations[i]) as int;
        crate::proc::types::law_process_id_round_trip(i, g, other);
        assert(proc_table::vacant()(t.slots[i]));
    } else {
        assert forall|i: int| 0 <= i < t.slots.len() implies (#[trigger] t.slots[i]) is Some by {
            assert(!proc_table::vacant()(t.slots[i]));
        }
    }
}

/// The memory manager, told about a program, knows a process with the program's
/// regions; every other process stays.  Without a free slot nothing changes.
pub proof fn law_entered_regions(m: MmServerModel, regions: elf_loader::Regions, other: u32)
    requires
        server::slot_of(m.slots, 0) is None,
        other != 0,
    ensures
        ({
            let (after, r) = elf_loader::regions_entered(m, regions);
            let steps = server::initial_regions(
                regions.code_start,
                regions.code_end,
                regions.data_start,
                regions.data_end,
                USER_STACK_BOTTOM as usize,
                USER_STACK_TOP as usize,
                regions.heap_start,
            );
            let full = forall|i: int| 0 <= i < m.slots.len() ==> (#[trigger] m.slots[i]) is Some;
            &&& full ==> after == m && r is Err
            &&& !full ==> server::slot_of(after.slots, 0) is Some
            &&& !full ==> after.slots[server::slot_of(after.slots, 0)->0]->0.regions
                == vma::place_all(Seq::empty(), steps).0
            &&& !full ==> (r is Ok <==> vma::place_all(Seq::empty(), steps).1 is Ok)
            &&& server::slot_of(after.slots, other) == server::slot_of(m.slots, other)
            &&& server::slot_of(m.slots, other) matches Some(i) ==> after.slots[i] == m.slots[i]
        }),
{
    let p = server::fresh_process(0, AddressSpaceId(0));
    let full = forall|i: int| 0 <= i < m.slots.len() ==> (#[trigger] m.slots[i]) is Some;
    search::lemma_first_index(m.slots, server::vacant(), 0);
    match search::first_index(m.slots, server::vacant(), 0) {
        None => {
            assert forall|i: int| 0 <= i < m.slots.len() implies (#[trigger] m.slots[i]) is Some by {
                assert(!server::vacant()(m.slots[i]));
            }
        },
        Some(i) => {
            assert(server::vacant()(m.slots[i]));
            server::law_register_makes_known(m.slots, p, other);
            let slots = server::registered(m.slots, p);
            let steps = server::initial_regions(
                regions.code_start,
                regions.code_end,
                regions.data_start,
                regions.data_end,
                USER_STACK_BOTTOM as usize,
                USER_STACK_TOP as usize,
                regions.heap_start,
            );
            server::law_processes_are_separate(
                slots,
                0,
                vma::place_all(Seq::empty(), steps).0,
                other,
            );
        },
    }
}

} // verus!
