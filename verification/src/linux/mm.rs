//! Memory system calls.
//!
//! A call returns the pages that the kernel is to map, unmap or protect; the
//! matching `finish_..` function turns the answer into the result of the call.
use vstd::prelude::*;
use crate::linux::errno::{failure, ENOMEM, ENOSYS};
use crate::linux::fs;
use crate::linux::task;
use crate::linux::task::{page_down, page_up, BrkStep, TaskStruct};

verus! {

pub const MAP_PRIVATE: u64 = 0x02;

pub const MAP_FIXED: u64 = 0x10;

pub const MAP_ANONYMOUS: u64 = 0x20;

/// The pages from `start` up to `end`.
#[derive(Debug, Clone, Copy, PartialEq, Eq, Structural)]
pub struct PageRange {
    pub start: u64,
    pub end: u64,
}

/// brk(new_brk): 0 asks for the present break.
pub fn sys_brk(task: &TaskStruct, new_brk: u64) -> (r: BrkStep)
    requires
        new_brk <= u64::MAX - 4095,
        task.brk <= u64::MAX - 4095,
    ensures
        r == (if new_brk == 0 {
            BrkStep::Done(task.brk)
        } else {
            task::brk_step(task.brk, task.initial_brk, new_brk)
        }),
{
    if new_brk == 0 {
        return BrkStep::Done(task.brk);
    }
    task.plan_brk(new_brk)
}

/// The result of brk once its pages were mapped or unmapped: the new break, or
/// the old one when a page could not be mapped.
pub fn finish_brk(task: &mut TaskStruct, step: BrkStep, failed: Option<i64>) -> (r: u64)
    requires
        old(task).wf(),
    ensures
        final(task).wf(),
        match step {
            BrkStep::Done(brk) => r == brk && *final(task) == *old(task),
            BrkStep::MapPages { start, end, brk } => match failed {
                Some(_) => r == old(task).brk && *final(task) == *old(task),
                None => r == brk && *final(task) == (TaskStruct { brk, ..*old(task) }),
            },
            BrkStep::UnmapPages { start, end, brk } => r == brk && *final(task) == (TaskStruct {
                brk,
                ..*old(task)
            }),
        },
{
    let r = task.do_brk(step, failed);
    fs::finish_file(r)
}

/// What mmap asks for.
#[derive(Debug, Clone, Copy, PartialEq, Eq, Structural)]
pub enum MmapStep {
    /// The result.
    Done(u64),
    /// Map these pages.
    MapPages(PageRange),
}

/// Where a mapping goes: where it is fixed, or else to the next address; hints
/// are not followed.
pub open spec fn mmap_addr(base: u64, addr: u64, flags: u64) -> u64 {
    if flags & MAP_FIXED != 0 && addr != 0 {
        addr
    } else {
        base
    }
}

/// What mmap asks for.
pub open spec fn mmap_step(base: u64, addr: u64, length: u64, flags: u64) -> MmapStep {
    if flags & MAP_ANONYMOUS == 0 {
        MmapStep::Done(failure(ENOSYS))
    } else {
        let start = mmap_addr(base, addr, flags);
        MmapStep::MapPages(PageRange { start, end: (start + page_up(length as int)) as u64 })
    }
}

/// mmap(addr, length, prot, flags, fd, offset): only anonymous mappings.
pub fn sys_mmap(task: &TaskStruct, addr: u64, length: u64, flags: u64) -> (r: MmapStep)
    requires
        flags & MAP_ANONYMOUS != 0 ==> length <= u64::MAX - 4095 && mmap_addr(
            task.mmap_base,
            addr,
            flags,
        ) + page_up(length as int) <= u64::MAX,
    ensures
        r == mmap_step(task.mmap_base, addr, length, flags),
{
    if flags & MAP_ANONYMOUS == 0 {
        return MmapStep::Done(failure(ENOSYS));
    }
    let len: u64 = task::round_up(length);
    let start: u64 = if flags & MAP_FIXED != 0 && addr != 0 {
        addr
    } else {
        task.mmap_base
    };
    MmapStep::MapPages(PageRange { start, end: start + len })
}

/// The result of mmap.  `failed` is the page that the kernel did not map; then
/// the pages before it are to be unmapped again.  Otherwise the next mapping
/// goes behind this one.
pub fn finish_mmap(task: &mut TaskStruct, range: PageRange, failed: Option<u64>) -> (r: (
    u64,
    Option<PageRange>,
))
    ensures
        match failed {
            Some(va) => r == (
                failure(ENOMEM),
                Some(PageRange { start: range.start, end: va }),
            ) && *final(task) == *old(task),
            None => r == (range.start, None::<PageRange>) && *final(task) == (TaskStruct {
                mmap_base: range.end,
                ..*old(task)
            }),
        },
{
    match failed {
        Some(va) => (failure(ENOMEM), Some(PageRange { start: range.start, end: va })),
        None => {
            task.mmap_base = range.end;
            (range.start, None)
        },
    }
}

/// Two mappings that are not fixed do not overlap: the second goes behind the
/// first.
pub proof fn law_mappings_follow_each_other(base: u64, length: u64, addr: u64, flags: u64)
    requires
        flags & MAP_FIXED == 0,
        length > 0,
        base + page_up(length as int) <= u64::MAX,
    ensures
        ({
            let first = PageRange { start: base, end: (base + page_up(length as int)) as u64 };
            &&& first.end - first.start >= length
            &&& mmap_addr(first.end, addr, flags) == first.end
        }),
{
}

/// The pages that a stretch of addresses touches; none when it is empty or
/// starts at 0.
pub open spec fn touched_pages(addr: u64, length: u64) -> Option<PageRange> {
    if addr == 0 || length == 0 {
        None
    } else {
        Some(
            PageRange {
                start: page_down(addr as int) as u64,
                end: page_up(addr + length) as u64,
            },
        )
    }
}

/// munmap(addr, length): the pages to unmap; the result is 0.
pub fn sys_munmap(addr: u64, length: u64) -> (r: Option<PageRange>)
    requires
        addr + length <= u64::MAX - 4095,
    ensures
        r == touched_pages(addr, length),
{
    if addr == 0 || length == 0 {
        return None;
    }
    Some(PageRange { start: task::round_down(addr), end: task::round_up(addr + length) })
}

/// mprotect(addr, len, prot): the pages to protect.
pub fn sys_mprotect(addr: u64, len: u64) -> (r: Option<PageRange>)
    requires
        addr + len <= u64::MAX - 4095,
    ensures
        r == touched_pages(addr, len),
{
    sys_munmap(addr, len)
}

/// The pages of a stretch of addresses: whole pages that hold all of it, and each
/// of them a part of it.  There are none exactly when the stretch is empty or
/// starts at 0.
pub proof fn law_touched_pages(addr: u64, length: u64)
    requires
        addr + length <= u64::MAX - 4095,
    ensures
        touched_pages(addr, length) is None <==> addr == 0 || length == 0,
        touched_pages(addr, length) matches Some(r) ==> {
            &&& r.start as int % 4096 == 0
            &&& r.end as int % 4096 == 0
            &&& r.start <= addr < r.start + 4096
            &&& addr + length <= r.end < addr + length + 4096
        },
{
}

/// A mapping is as long as it was asked to be, in whole pages; it starts at the
/// address that was asked for, where that is fixed and not 0, and at the next
/// free address otherwise.  Only anonymous mappings are made.
pub proof fn law_mapping(base: u64, addr: u64, length: u64, flags: u64)
    requires
        flags & 0x20 != 0 ==> length <= u64::MAX - 4095 && addr + length <= u64::MAX - 4095 && base
            + length <= u64::MAX - 4095,
    ensures
        flags & 0x20 == 0 ==> mmap_step(base, addr, length, flags) == MmapStep::Done(
            0xFFFF_FFFF_FFFF_FFDA,
        ),
        flags & 0x20 != 0 ==> (mmap_step(base, addr, length, flags) matches MmapStep::MapPages(r)
            && {
            &&& r.start == (if flags & 0x10 != 0 && addr != 0 {
                addr
            } else {
                base
            })
            &&& (r.end - r.start) % 4096 == 0
            &&& length <= r.end - r.start < length + 4096
        }),
{
}

/// What was mapped at whole pages is what munmap of the same stretch unmaps.
pub proof fn law_mapping_is_unmapped_whole(base: u64, addr: u64, length: u64, flags: u64)
    requires
        flags & 0x20 != 0,
        length > 0,
        addr + length <= u64::MAX - 4095,
        base + length <= u64::MAX - 4095,
        base > 0,
        base as int % 4096 == 0,
        addr as int % 4096 == 0,
    ensures
        mmap_step(base, addr, length, flags) matches MmapStep::MapPages(r) && touched_pages(
            r.start,
            length,
        ) == Some(r),
{
}

/// The result of mprotect.
pub fn finish_mprotect(failed: bool) -> (r: u64)
    ensures
        r == (if failed {
            failure(ENOMEM)
        } else {
            0
        }),
{
    if failed {
        failure(ENOMEM)
    } else {
        0
    }
}

/// madvise(addr, len, advice): advice is not followed.
pub fn sys_madvise(_addr: u64, _len: u64, _advice: u64) -> (r: u64)
    ensures
        r == 0,
{
    0
}

} // verus!
