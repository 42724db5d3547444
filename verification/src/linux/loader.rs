//! Loading a statically linked program from user space: which pages to map, what
//! to read into them, and what to clear.
use vstd::prelude::*;
use crate::linux::task;
use crate::linux::task::{page_down, page_up};
use crate::proc::elf_loader;
use crate::proc::elf_loader::{
    elf_header, headers_fit, program_headers_of, ProgramHeader, SegmentKind,
};

verus! {

/// One page of a program.
#[derive(Debug, Clone, Copy, PartialEq, Eq, Structural)]
pub struct PageLoad {
    pub va: u64,
    /// Access: 1 read, 2 write, 4 execute.
    pub prot: u64,
    /// Where bytes of the file go, from which position on, and how many.
    pub copy_start: u64,
    pub file_pos: u64,
    pub copy_len: u64,
    /// What is to be cleared.
    pub zero_start: u64,
    pub zero_len: u64,
}

/// Access to a segment: the bits of the file, in the other order.
pub open spec fn prot_of(flags: u32) -> u64 {
    ((if flags & 4 != 0 {
        1int
    } else {
        0
    }) + (if flags & 2 != 0 {
        2int
    } else {
        0
    }) + (if flags & 1 != 0 {
        4int
    } else {
        0
    })) as u64
}

/// Access to a segment.
pub fn flags_to_prot(flags: u32) -> (r: u64)
    ensures
        r == prot_of(flags),
{
    let mut prot: u64 = 0;
    if flags & 4 != 0 {
        prot = prot + 1;
    }
    if flags & 2 != 0 {
        prot = prot + 2;
    }
    if flags & 1 != 0 {
        prot = prot + 4;
    }
    prot
}

/// End of a segment in memory.
pub open spec fn seg_end(ph: ProgramHeader) -> int {
    ph.vaddr + ph.mem_size
}

/// End of a segment's bytes from the file.
pub open spec fn file_end(ph: ProgramHeader) -> int {
    ph.vaddr + ph.file_size
}

pub open spec fn max_of(a: int, b: int) -> int {
    if a < b {
        b
    } else {
        a
    }
}

pub open spec fn min_of(a: int, b: int) -> int {
    if a < b {
        a
    } else {
        b
    }
}

/// How many of the addresses from `a` up to `b` there are.
pub open spec fn span(a: int, b: int) -> int {
    if a < b {
        b - a
    } else {
        0
    }
}

/// The addresses of a segment do not overflow.
pub open spec fn in_range(ph: ProgramHeader) -> bool {
    ph.kind == SegmentKind::Load ==> {
        &&& seg_end(ph) + 8191 <= u64::MAX
        &&& file_end(ph) <= u64::MAX
        &&& ph.offset + ph.file_size <= u64::MAX
    }
}

/// The page of a segment at `va`: bytes of the file where the segment has them,
/// zeros behind them up to the segment's end.
pub open spec fn page_load(ph: ProgramHeader, va: int) -> PageLoad {
    let copy_start = max_of(va, ph.vaddr as int);
    let copy_end = min_of(va + 4096, file_end(ph));
    let zero_start = max_of(va, file_end(ph));
    let zero_end = min_of(va + 4096, seg_end(ph));
    PageLoad {
        va: va as u64,
        prot: prot_of(ph.flags),
        copy_start: copy_start as u64,
        file_pos: (if copy_start < copy_end {
            ph.offset + copy_start - ph.vaddr
        } else {
            0
        }) as u64,
        copy_len: span(copy_start, copy_end) as u64,
        zero_start: zero_start as u64,
        zero_len: span(zero_start, zero_end) as u64,
    }
}

/// The pages of a segment from `va` up to `end`.
pub open spec fn page_loads(ph: ProgramHeader, va: int, end: int) -> Seq<PageLoad>
    decreases span(va, end),
{
    if va >= end {
        seq![]
    } else {
        seq![page_load(ph, va)] + page_loads(ph, va + 4096, end)
    }
}

/// The pages of all segments, in the order of their headers.
pub open spec fn all_loads(phs: Seq<ProgramHeader>) -> Seq<PageLoad>
    decreases phs.len(),
{
    if phs.len() == 0 {
        seq![]
    } else if phs.last().kind == SegmentKind::Load {
        all_loads(phs.drop_last()) + page_loads(
            phs.last(),
            page_down(phs.last().vaddr as int),
            page_up(seg_end(phs.last())),
        )
    } else {
        all_loads(phs.drop_last())
    }
}

/// The highest end of a segment.
pub open spec fn top_of(phs: Seq<ProgramHeader>) -> int
    decreases phs.len(),
{
    if phs.len() == 0 {
        0
    } else {
        let rest = top_of(phs.drop_last());
        if phs.last().kind == SegmentKind::Load && seg_end(phs.last()) > rest {
            seg_end(phs.last())
        } else {
            rest
        }
    }
}

/// Address of the first segment that is not at 0; 0 without one.
pub open spec fn base_of(phs: Seq<ProgramHeader>) -> u64
    decreases phs.len(),
{
    if phs.len() == 0 {
        0
    } else {
        let rest = base_of(phs.drop_last());
        if phs.last().kind == SegmentKind::Load && rest == 0 {
            phs.last().vaddr
        } else {
            rest
        }
    }
}

/// The headers can be read and no address overflows.
pub open spec fn plannable(file: Seq<u8>) -> bool {
    elf_header(file) is Some ==> {
        &&& headers_fit(file)
        &&& forall|i: int|
            0 <= i < program_headers_of(file).len() ==> in_range(
                #[trigger] program_headers_of(file)[i],
            )
    }
}

/// True when the file can be planned: its headers can be read and no address
/// overflows.
pub fn is_plannable(file: &[u8]) -> (r: bool)
    ensures
        r == plannable(file@),
{
    if elf_loader::read_header(file).is_none() {
        return true;
    }
    if !elf_loader::headers_readable(file) {
        return false;
    }
    let phs = elf_loader::program_headers(file);
    let mut i: usize = 0;
    while i < phs.len()
        invariant
            i <= phs@.len(),
            elf_header(file@) is Some,
            phs@ == program_headers_of(file@),
            forall|k: int| 0 <= k < i ==> in_range(#[trigger] phs@[k]),
        decreases phs@.len() - i,
    {
        let ph = phs[i];
        if ph.kind == SegmentKind::Load {
            if ph.vaddr > u64::MAX - ph.mem_size || ph.vaddr + ph.mem_size > u64::MAX - 8191
                || ph.vaddr > u64::MAX - ph.file_size || ph.offset > u64::MAX - ph.file_size {
                assert(!in_range(phs@[i as int]));
                return false;
            }
        }
        i += 1;
    }
    true
}

/// A program that is to be loaded page by page.
pub struct ProgramPlan {
    pub entry: u64,
    /// Program break.
    pub brk: u64,
    pub pages: Vec<PageLoad>,
}

fn larger(a: u64, b: u64) -> (r: u64)
    ensures
        r == max_of(a as int, b as int),
{
    if a < b {
        b
    } else {
        a
    }
}

fn smaller(a: u64, b: u64) -> (r: u64)
    ensures
        r == min_of(a as int, b as int),
{
    if a < b {
        a
    } else {
        b
    }
}

fn plan_page(ph: &ProgramHeader, va: u64) -> (r: PageLoad)
    requires
        ph.kind == SegmentKind::Load,
        in_range(*ph),
        va + 4096 <= u64::MAX,
    ensures
        r == page_load(*ph, va as int),
{
    let page_end: u64 = va + 4096;
    let file_end: u64 = ph.vaddr + ph.file_size;
    let seg_end: u64 = ph.vaddr + ph.mem_size;
    let copy_start: u64 = larger(va, ph.vaddr);
    let copy_end: u64 = smaller(page_end, file_end);
    let zero_start: u64 = larger(va, file_end);
    let zero_end: u64 = smaller(page_end, seg_end);
    PageLoad {
        va,
        prot: flags_to_prot(ph.flags),
        copy_start,
        file_pos: if copy_start < copy_end {
            ph.offset + (copy_start - ph.vaddr)
        } else {
            0
        },
        copy_len: if copy_start < copy_end {
            copy_end - copy_start
        } else {
            0
        },
        zero_start,
        zero_len: if zero_start < zero_end {
            zero_end - zero_start
        } else {
            0
        },
    }
}

fn plan_segment(ph: &ProgramHeader, out: &mut Vec<PageLoad>)
    requires
        ph.kind == SegmentKind::Load,
        in_range(*ph),
    ensures
        final(out)@ == old(out)@ + page_loads(
            *ph,
            page_down(ph.vaddr as int),
            page_up(seg_end(*ph)),
        ),
{
    let start: u64 = task::round_down(ph.vaddr);
    let end: u64 = task::round_up(ph.vaddr + ph.mem_size);
    let ghost whole = page_loads(*ph, start as int, end as int);
    let mut va: u64 = start;
    assert(out@ + whole =~= old(out)@ + whole);
    while va < end
        invariant
            ph.kind == SegmentKind::Load,
            in_range(*ph),
            end <= u64::MAX - 4096,
            va <= end + 4095,
            old(out)@ + whole == out@ + page_loads(*ph, va as int, end as int),
        decreases end + 4096 - va,
    {
        let ghost before = out@;
        out.push(plan_page(ph, va));
        proof {
            let rest = page_loads(*ph, va + 4096, end as int);
            assert(before + (seq![page_load(*ph, va as int)] + rest) =~= out@ + rest);
        }
        va += 4096;
    }
    assert(out@ + Seq::<PageLoad>::empty() =~= out@);
}

/// The error of a file that is no program.
pub const NOT_A_PROGRAM: i64 = -1;

/// Plan the loading of a program from the first bytes of its file, which hold
/// all headers.
pub fn load_elf(head: &[u8]) -> (r: Result<ProgramPlan, i64>)
    requires
        head@.len() >= 64 ==> plannable(head@),
    ensures
        match r {
            Ok(p) => {
                &&& head@.len() >= 64
                &&& elf_header(head@) is Some
                &&& p.entry == elf_header(head@)->0.entry
                &&& p.brk == page_up(top_of(program_headers_of(head@)))
                &&& p.pages@ == all_loads(program_headers_of(head@))
            },
            Err(e) => e == NOT_A_PROGRAM && (head@.len() < 64 || elf_header(head@) is None),
        },
{
    if head.len() < 64 {
        return Err(NOT_A_PROGRAM);
    }
    let header = match elf_loader::read_header(head) {
        Some(h) => h,
        None => {
            return Err(NOT_A_PROGRAM);
        },
    };
    let phs = elf_loader::program_headers(head);
    let mut pages: Vec<PageLoad> = Vec::new();
    let mut top: u64 = 0;
    let mut i: usize = 0;
    assert(phs@.take(0) =~= seq![]);
    while i < phs.len()
        invariant
            i <= phs@.len(),
            forall|k: int| 0 <= k < phs@.len() ==> in_range(#[trigger] phs@[k]),
            top == top_of(phs@.take(i as int)),
            top <= u64::MAX - 4095,
            pages@ == all_loads(phs@.take(i as int)),
        decreases phs@.len() - i,
    {
        let ph = phs[i];
        assert(phs@.take(i + 1).drop_last() =~= phs@.take(i as int));
        assert(in_range(phs@[i as int]));
        if ph.kind == SegmentKind::Load {
            let end: u64 = ph.vaddr + ph.mem_size;
            if end > top {
                top = end;
            }
            plan_segment(&ph, &mut pages);
        }
        i += 1;
    }
    assert(phs@.take(phs@.len() as int) =~= phs@);
    Ok(ProgramPlan { entry: header.entry, brk: task::round_up(top), pages })
}

/// What execve tells the kernel of a program.
#[derive(Debug, Clone, Copy, PartialEq, Eq, Structural)]
pub struct ExecImage {
    pub entry: u64,
    pub brk: u64,
    pub phdr_addr: u64,
    pub phent_size: u16,
    pub phnum: u16,
}

/// The file can be planned, and its headers have an address in memory.
pub open spec fn executable(file: Seq<u8>) -> bool {
    &&& plannable(file)
    &&& elf_header(file) is Some ==> base_of(program_headers_of(file)) + elf_header(
        file,
    )->0.ph_offset <= u64::MAX
}

/// Where the program starts, which is where its first segment does, and where
/// it ends.
fn extent_of(phs: &Vec<ProgramHeader>) -> (r: (u64, u64))
    requires
        forall|k: int| 0 <= k < phs@.len() ==> in_range(#[trigger] phs@[k]),
    ensures
        r.0 == base_of(phs@),
        r.1 == top_of(phs@),
        r.1 <= u64::MAX - 4095,
{
    let mut top: u64 = 0;
    let mut base: u64 = 0;
    let mut i: usize = 0;
    assert(phs@.take(0) =~= seq![]);
    while i < phs.len()
        invariant
            i <= phs@.len(),
            forall|k: int| 0 <= k < phs@.len() ==> in_range(#[trigger] phs@[k]),
            top == top_of(phs@.take(i as int)),
            top <= u64::MAX - 4095,
            base == base_of(phs@.take(i as int)),
        decreases phs@.len() - i,
    {
        let ph = phs[i];
        assert(phs@.take(i + 1).drop_last() =~= phs@.take(i as int));
        assert(in_range(phs@[i as int]));
        if ph.kind == SegmentKind::Load {
            if base == 0 {
                base = ph.vaddr;
            }
            let end: u64 = ph.vaddr + ph.mem_size;
            if end > top {
                top = end;
            }
        }
        i += 1;
    }
    assert(phs@.take(phs@.len() as int) =~= phs@);
    (base, top)
}

/// True when execve can describe the file to the kernel.
pub fn is_executable(file: &[u8]) -> (r: bool)
    ensures
        r == executable(file@),
{
    if !is_plannable(file) {
        return false;
    }
    match elf_loader::read_header(file) {
        Some(header) => {
            let phs = elf_loader::program_headers(file);
            let (base, _) = extent_of(&phs);
            base <= u64::MAX - header.ph_offset
        },
        None => true,
    }
}

/// What execve tells the kernel of a program; none for a file that is no
/// program.
pub fn exec_image(file: &[u8]) -> (r: Option<ExecImage>)
    requires
        executable(file@),
    ensures
        r == (match elf_header(file@) {
            None => None,
            Some(h) => Some(
                ExecImage {
                    entry: h.entry,
                    brk: page_up(top_of(program_headers_of(file@))) as u64,
                    phdr_addr: (base_of(program_headers_of(file@)) + h.ph_offset) as u64,
                    phent_size: h.ph_entry_size,
                    phnum: h.ph_count,
                },
            ),
        }),
{
    let header = match elf_loader::read_header(file) {
        Some(h) => h,
        None => {
            return None;
        },
    };
    let phs = elf_loader::program_headers(file);
    let (base, top) = extent_of(&phs);
    Some(
        ExecImage {
            entry: header.entry,
            brk: task::round_up(top),
            phdr_addr: base + header.ph_offset,
            phent_size: header.ph_entry_size,
            phnum: header.ph_count,
        },
    )
}

/// Within a page of a segment, what is copied and what is cleared is all of the
/// segment that lies in the page.
pub proof fn law_page_is_filled(ph: ProgramHeader, va: int, a: int)
    requires
        in_range(ph),
        ph.kind == SegmentKind::Load,
        ph.file_size <= ph.mem_size,
        0 <= va,
        va + 4096 <= u64::MAX,
        va <= a < va + 4096,
        ph.vaddr <= a < seg_end(ph),
    ensures
        ({
            let p = page_load(ph, va);
            &&& (p.copy_start <= a < p.copy_start + p.copy_len) == (a < file_end(ph))
            &&& (p.zero_start <= a < p.zero_start + p.zero_len) == (a >= file_end(ph))
            &&& a < file_end(ph) ==> p.file_pos + (a - p.copy_start) == ph.offset + (a - ph.vaddr)
        }),
{
}

/// Access to a segment grants what its flags grant: reading for 4, writing for 2,
/// execution for 1.
pub proof fn law_access(flags: u32)
    ensures
        (prot_of(flags) as int % 2 == 1) == (flags & 4 != 0),
        (prot_of(flags) as int / 2 % 2 == 1) == (flags & 2 != 0),
        (prot_of(flags) as int / 4 == 1) == (flags & 1 != 0),
        prot_of(flags) < 8,
{
}

/// The page of a segment at `va`: address `a` of the page gets its byte of the
/// file where the segment has one, zero where the segment goes on behind the
/// bytes of the file, and nothing outside the segment.
pub proof fn law_page_holds_its_part(ph: ProgramHeader, va: int, a: int)
    requires
        ph.vaddr + ph.mem_size + 8191 <= u64::MAX,
        ph.vaddr + ph.file_size <= u64::MAX,
        ph.offset + ph.file_size <= u64::MAX,
        ph.file_size <= ph.mem_size,
        0 <= va,
        va + 4096 <= u64::MAX,
    ensures
        ({
            let p = page_load(ph, va);
            &&& p.va == va
            &&& p.prot == prot_of(ph.flags)
            &&& p.copy_start <= a < p.copy_start + p.copy_len <==> va <= a < va + 4096 && ph.vaddr
                <= a < ph.vaddr + ph.file_size
            &&& p.copy_start <= a < p.copy_start + p.copy_len ==> p.file_pos + (a - p.copy_start)
                == ph.offset + (a - ph.vaddr)
            &&& ph.vaddr < va + 4096 ==> (p.zero_start <= a < p.zero_start + p.zero_len <==> va <= a
                < va + 4096 && ph.vaddr + ph.file_size <= a < ph.vaddr + ph.mem_size)
        }),
{
}

/// The pages from `va` up to `end` are the pages of the segment there, and no
/// others.
proof fn lemma_page_loads(ph: ProgramHeader, va: int, end: int, p: PageLoad)
    requires
        0 <= va,
        va % 4096 == 0,
    ensures
        page_loads(ph, va, end).contains(p) <==> exists|x: int|
            va <= x < end && x % 4096 == 0 && p == #[trigger] page_load(ph, x),
    decreases span(va, end),
{
    let all = page_loads(ph, va, end);
    if va < end {
        let rest = page_loads(ph, va + 4096, end);
        lemma_page_loads(ph, va + 4096, end, p);
        assert(all == seq![page_load(ph, va)] + rest);
        if all.contains(p) {
            let k = choose|k: int| 0 <= k < all.len() && all[k] == p;
            if k > 0 {
                assert(rest[k - 1] == p);
            } else {
                assert(p == page_load(ph, va));
            }
        }
        if exists|x: int| va <= x < end && x % 4096 == 0 && p == #[trigger] page_load(ph, x) {
            let x = choose|x: int|
                va <= x < end && x % 4096 == 0 && p == #[trigger] page_load(ph, x);
            if x == va {
                assert(all[0] == p);
            } else {
                assert(x >= va + 4096);
                assert(rest.contains(p));
                let k = choose|k: int| 0 <= k < rest.len() && rest[k] == p;
                assert(all[k + 1] == p);
            }
        }
    }
}

/// A page of segment `i` of the program.
pub open spec fn is_page_of(phs: Seq<ProgramHeader>, i: int, x: int, p: PageLoad) -> bool {
    &&& 0 <= i < phs.len()
    &&& phs[i].kind == SegmentKind::Load
    &&& 0 <= x
    &&& x % 4096 == 0
    &&& x < phs[i].vaddr + phs[i].mem_size
    &&& phs[i].vaddr < x + 4096
    &&& p == page_load(phs[i], x)
}

/// The pages of a segment are those that hold one of its addresses, or the page
/// of its start where it is empty in the middle of one.
proof fn lemma_segment_pages(ph: ProgramHeader, x: int)
    requires
        x % 4096 == 0,
    ensures
        page_down(ph.vaddr as int) <= x < page_up(seg_end(ph)) <==> x < ph.vaddr + ph.mem_size
            && ph.vaddr < x + 4096,
{
}

/// A plan holds the page of every address of every segment that is to be loaded,
/// whatever its access, and no other pages.
pub proof fn law_plan_holds_all_segments(phs: Seq<ProgramHeader>, p: PageLoad)
    ensures
        all_loads(phs).contains(p) <==> exists|i: int, x: int| #[trigger] is_page_of(phs, i, x, p),
    decreases phs.len(),
{
    if phs.len() > 0 {
        let init = phs.drop_last();
        let ph = phs.last();
        let n = phs.len() - 1;
        let all = all_loads(phs);
        let rest = all_loads(init);
        law_plan_holds_all_segments(init, p);
        let mine = page_loads(ph, page_down(ph.vaddr as int), page_up(seg_end(ph)));
        if ph.kind == SegmentKind::Load {
            lemma_page_loads(ph, page_down(ph.vaddr as int), page_up(seg_end(ph)), p);
            assert(all == rest + mine);
            if all.contains(p) {
                let k = choose|k: int| 0 <= k < all.len() && all[k] == p;
                if k < rest.len() {
                    assert(rest[k] == p);
                } else {
                    assert(mine[k - rest.len()] == p);
                }
            }
            if rest.contains(p) {
                let k = choose|k: int| 0 <= k < rest.len() && rest[k] == p;
                assert(all[k] == p);
            }
            if mine.contains(p) {
                let k = choose|k: int| 0 <= k < mine.len() && mine[k] == p;
                assert(all[rest.len() + k] == p);
                let x = choose|x: int|
                    page_down(ph.vaddr as int) <= x < page_up(seg_end(ph)) && x % 4096 == 0 && p
                        == #[trigger] page_load(ph, x);
                lemma_segment_pages(ph, x);
                assert(is_page_of(phs, n, x, p));
            }
        }
        if rest.contains(p) {
            let (i, x) = choose|i: int, x: int| #[trigger] is_page_of(init, i, x, p);
            assert(is_page_of(phs, i, x, p));
        }
        if exists|i: int, x: int| #[trigger] is_page_of(phs, i, x, p) {
            let (i, x) = choose|i: int, x: int| #[trigger] is_page_of(phs, i, x, p);
            if i < n {
                assert(is_page_of(init, i, x, p));
            } else {
                lemma_segment_pages(ph, x);
                assert(mine.contains(p));
            }
        }
    }
}

/// Every address of a segment that is to be loaded has its page in the plan.
pub proof fn law_every_address_is_planned(phs: Seq<ProgramHeader>, i: int, a: int)
    requires
        0 <= i < phs.len(),
        phs[i].kind == SegmentKind::Load,
        phs[i].vaddr <= a < phs[i].vaddr + phs[i].mem_size,
    ensures
        all_loads(phs).contains(page_load(phs[i], a - a % 4096)),
{
    let p = page_load(phs[i], a - a % 4096);
    assert(is_page_of(phs, i, a - a % 4096, p));
    law_plan_holds_all_segments(phs, p);
}

/// The program ends where the segment ends that reaches highest.
pub proof fn law_program_end(phs: Seq<ProgramHeader>)
    ensures
        forall|i: int|
            0 <= i < phs.len() && (#[trigger] phs[i]).kind == SegmentKind::Load ==> phs[i].vaddr
                + phs[i].mem_size <= top_of(phs),
        top_of(phs) > 0 ==> exists|i: int|
            0 <= i < phs.len() && (#[trigger] phs[i]).kind == SegmentKind::Load && phs[i].vaddr
                + phs[i].mem_size == top_of(phs),
        top_of(phs) >= 0,
    decreases phs.len(),
{
    if phs.len() > 0 {
        let init = phs.drop_last();
        law_program_end(init);
        assert forall|i: int|
            0 <= i < phs.len() && (#[trigger] phs[i]).kind == SegmentKind::Load implies phs[i].vaddr
            + phs[i].mem_size <= top_of(phs) by {
            if i < phs.len() - 1 {
                assert(init[i] == phs[i]);
            }
        }
        if top_of(phs) > 0 {
            if top_of(phs) == top_of(init) {
                let i = choose|i: int|
                    0 <= i < init.len() && (#[trigger] init[i]).kind == SegmentKind::Load
                        && init[i].vaddr + init[i].mem_size == top_of(init);
                assert(phs[i] == init[i]);
            } else {
                assert(phs[phs.len() - 1].kind == SegmentKind::Load);
            }
        }
    }
}

/// The program starts where its first segment does that is not at 0.
pub proof fn law_program_start(phs: Seq<ProgramHeader>, i: int)
    requires
        0 <= i < phs.len(),
        phs[i].kind == SegmentKind::Load,
        phs[i].vaddr != 0,
        forall|k: int| 0 <= k < i && (#[trigger] phs[k]).kind == SegmentKind::Load ==> phs[k].vaddr == 0,
    ensures
        base_of(phs) == phs[i].vaddr,
    decreases phs.len(),
{
    let init = phs.drop_last();
    if i < phs.len() - 1 {
        law_program_start(init, i);
    } else {
        lemma_no_start(init);
    }
}

proof fn lemma_no_start(phs: Seq<ProgramHeader>)
    requires
        forall|k: int|
            0 <= k < phs.len() && (#[trigger] phs[k]).kind == SegmentKind::Load ==> phs[k].vaddr == 0,
    ensures
        base_of(phs) == 0,
    decreases phs.len(),
{
    if phs.len() > 0 {
        let init = phs.drop_last();
        assert forall|k: int|
            0 <= k < init.len() && (#[trigger] init[k]).kind == SegmentKind::Load implies init[k].vaddr
            == 0 by {
            assert(init[k] == phs[k]);
        }
        lemma_no_start(init);
        assert(phs[phs.len() - 1].kind == SegmentKind::Load ==> phs[phs.len() - 1].vaddr == 0);
    }
}

} // verus!
