//! The state of a process that runs Linux programs.
use vstd::prelude::*;
use crate::bytes;
use crate::linux::console;
use crate::linux::fd_table;
use crate::linux::fd_table::FdTable;

verus! {

pub const PAGE_SIZE: u64 = 4096;

/// Ring buffer of a pipe.
#[derive(Debug, Clone, Copy)]
pub struct Pipe {
    pub buf: [u8; 4096],
    pub read_pos: usize,
    pub write_pos: usize,
    pub byte_count: usize,
    /// Number of open descriptors for reading.
    pub readers: usize,
    /// Number of open descriptors for writing.
    pub writers: usize,
}

/// Most pipes of a process.
pub const MAX_PIPES: usize = 16;

/// Most children whose threads are remembered.
pub const MAX_CHILDREN: usize = 16;

/// Where addresses for mappings start.
pub const MMAP_START: u64 = 0x0001_0000_0000;

/// The state of a process.
pub struct TaskStruct {
    pub fd_table: FdTable,
    /// Program break (end of the data segment).
    pub brk: u64,
    /// The program break does not go below this.
    pub initial_brk: u64,
    pub pid: u64,
    /// Process number of the next child.
    pub next_pid: u64,
    /// Threads of children and the children's process numbers.
    pub tid_to_pid: [(u32, u64); MAX_CHILDREN],
    pub tid_to_pid_count: usize,
    pub exit_code: i32,
    /// Where a zero is to be written when the thread exits.
    pub clear_child_tid: u64,
    pub no_new_privs: bool,
    /// Next address for a mapping.
    pub mmap_base: u64,
    /// Console settings.
    pub termios: [u8; 36],
    /// A line of input that was not delivered completely.
    pub line_buf: [u8; 4096],
    pub line_len: usize,
    pub line_pos: usize,
    /// Current working directory (ends with a zero).
    pub cwd: [u8; 256],
    pub pipes: Vec<Option<Pipe>>,
}

/// The children that are remembered.
pub open spec fn children_of(t: TaskStruct) -> Seq<(u32, u64)> {
    t.tid_to_pid@.take(t.tid_to_pid_count as int)
}

/// The part of a line that was not delivered yet.
pub open spec fn pending_of(t: TaskStruct) -> Seq<u8> {
    t.line_buf@.subrange(t.line_pos as int, t.line_len as int)
}

/// Where a thread stands among the children.
pub open spec fn of_thread(tid: u32) -> spec_fn((u32, u64)) -> bool {
    |p: (u32, u64)| p.0 == tid
}

/// The children without the one at `i`: the last one takes its place.
pub open spec fn without_child(s: Seq<(u32, u64)>, i: int) -> Seq<(u32, u64)> {
    s.update(i, s.last()).drop_last()
}

/// What a change of the program break asks for.
#[derive(Debug, Clone, Copy, PartialEq, Eq, Structural)]
pub enum BrkStep {
    /// The break is this.
    Done(u64),
    /// Map the pages from `start` up to `end`, readable and writable; then the
    /// break is `brk`.
    MapPages { start: u64, end: u64, brk: u64 },
    /// Unmap the pages from `start` up to `end`; then the break is `brk`.
    UnmapPages { start: u64, end: u64, brk: u64 },
}

/// The end of the page that holds the byte before `v`.
pub open spec fn page_up(v: int) -> int {
    (v + 4095) / 4096 * 4096
}

/// The start of the page that holds `v`.
pub open spec fn page_down(v: int) -> int {
    v / 4096 * 4096
}

pub fn round_up(v: u64) -> (r: u64)
    requires
        v <= u64::MAX - 4095,
    ensures
        r == page_up(v as int),
        r >= v,
{
    (v + 4095) / 4096 * 4096
}

pub fn round_down(v: u64) -> (r: u64)
    ensures
        r == page_down(v as int),
        r <= v,
{
    v / 4096 * 4096
}

/// What a change of the program break to `new` asks for.
pub open spec fn brk_step(brk: u64, initial: u64, new: u64) -> BrkStep {
    if new < initial {
        BrkStep::Done(brk)
    } else if new > brk {
        BrkStep::MapPages {
            start: page_up(brk as int) as u64,
            end: page_up(new as int) as u64,
            brk: new,
        }
    } else if new < brk {
        BrkStep::UnmapPages {
            start: page_up(new as int) as u64,
            end: page_up(brk as int) as u64,
            brk: new,
        }
    } else {
        BrkStep::Done(new)
    }
}

/// Rounding goes to the nearest page boundary above or below, and leaves a
/// boundary where it is.
pub proof fn law_rounding(v: int)
    requires
        0 <= v,
    ensures
        page_up(v) % 4096 == 0,
        v <= page_up(v) < v + 4096,
        page_down(v) % 4096 == 0,
        v - 4096 < page_down(v) <= v,
{
}

/// A change of the break maps exactly the pages that the new break needs and the
/// old one did not, and unmaps exactly those that the old break needed and the
/// new one does not.  A break below the initial one changes nothing.
pub proof fn law_break_pages(brk: u64, initial: u64, new: u64, page: int)
    requires
        brk <= u64::MAX - 4095,
        new <= u64::MAX - 4095,
        0 <= page,
        page % 4096 == 0,
    ensures
        match brk_step(brk, initial, new) {
            BrkStep::Done(b) => b == brk && (new < initial || new == brk),
            BrkStep::MapPages { start, end, brk: b } => {
                &&& initial <= new
                &&& brk < new
                &&& b == new
                &&& start as int % 4096 == 0
                &&& end as int % 4096 == 0
                &&& start <= page < end <==> brk <= page < new
            },
            BrkStep::UnmapPages { start, end, brk: b } => {
                &&& initial <= new
                &&& new < brk
                &&& b == new
                &&& start as int % 4096 == 0
                &&& end as int % 4096 == 0
                &&& start <= page < end <==> new <= page < brk
            },
        },
{
}

impl TaskStruct {
    /// The counts stay within their tables.
    pub open spec fn wf(self) -> bool {
        &&& self.tid_to_pid_count <= MAX_CHILDREN
        &&& self.line_pos <= self.line_len <= 4096
    }

    /// A process whose program break is `initial_brk`.
    pub fn new(initial_brk: u64) -> (r: Self)
        ensures
            r.wf(),
            r.fd_table@ == fd_table::initial_table(),
            r.brk == initial_brk,
            r.initial_brk == initial_brk,
            r.pid == 1,
            r.next_pid == 2,
            children_of(r).len() == 0,
            r.exit_code == 0,
            r.clear_child_tid == 0,
            !r.no_new_privs,
            r.mmap_base == MMAP_START,
            r.termios@ == console::default_termios(),
            pending_of(r).len() == 0,
            r.cwd@ == bytes::zeros(256).update(0, 47),
            r.pipes@.len() == MAX_PIPES,
            forall|i: int| 0 <= i < r.pipes@.len() ==> r.pipes@[i] is None,
    {
        let mut cwd: [u8; 256] = [0u8;256];
        cwd[0] = 47;
        let mut pipes: Vec<Option<Pipe>> = Vec::new();
        let mut i: usize = 0;
        while i < MAX_PIPES
            invariant
                i <= MAX_PIPES,
                pipes@.len() == i,
                forall|k: int| 0 <= k < i ==> pipes@[k] is None,
            decreases MAX_PIPES - i,
        {
            pipes.push(None);
            i += 1;
        }
        let r = TaskStruct {
            fd_table: FdTable::new(),
            brk: initial_brk,
            initial_brk,
            pid: 1,
            next_pid: 2,
            tid_to_pid: [(0u32, 0u64);MAX_CHILDREN],
            tid_to_pid_count: 0,
            exit_code: 0,
            clear_child_tid: 0,
            no_new_privs: false,
            mmap_base: MMAP_START,
            termios: console::make_default_termios(),
            line_buf: [0u8;4096],
            line_len: 0,
            line_pos: 0,
            cwd,
            pipes,
        };
        assert(r.cwd@ =~= bytes::zeros(256).update(0, 47));
        r
    }

    /// Plan a change of the program break.
    pub fn plan_brk(&self, new_brk: u64) -> (r: BrkStep)
        requires
            new_brk <= u64::MAX - 4095,
            self.brk <= u64::MAX - 4095,
        ensures
            r == brk_step(self.brk, self.initial_brk, new_brk),
    {
        if new_brk < self.initial_brk {
            return BrkStep::Done(self.brk);
        }
        if new_brk > self.brk {
            BrkStep::MapPages { start: round_up(self.brk), end: round_up(new_brk), brk: new_brk }
        } else if new_brk < self.brk {
            BrkStep::UnmapPages { start: round_up(new_brk), end: round_up(self.brk), brk: new_brk }
        } else {
            BrkStep::Done(new_brk)
        }
    }

    /// Carry out a change of the program break once its pages were mapped or
    /// unmapped.  `failed` is what the kernel said of a page that it did not
    /// map.  Returns the new break on success, or the old break on failure.
    pub fn do_brk(&mut self, step: BrkStep, failed: Option<i64>) -> (r: Result<u64, i64>)
        requires
            old(self).wf(),
        ensures
            final(self).wf(),
            match step {
                BrkStep::Done(brk) => r == Ok::<u64, i64>(brk) && *final(self) == *old(self),
                BrkStep::MapPages { start, end, brk } => match failed {
                    Some(_) => r == Ok::<u64, i64>(old(self).brk) && *final(self) == *old(self),
                    None => r == Ok::<u64, i64>(brk) && *final(self) == (TaskStruct {
                        brk,
                        ..*old(self)
                    }),
                },
                BrkStep::UnmapPages { start, end, brk } => r == Ok::<u64, i64>(brk) && *final(self) == (
                TaskStruct { brk, ..*old(self) }),
            },
    {
        match step {
            BrkStep::Done(brk) => Ok(brk),
            BrkStep::MapPages { start: _, end: _, brk } => {
                match failed {
                    Some(_) => Ok(self.brk),
                    None => {
                        self.brk = brk;
                        Ok(brk)
                    },
                }
            },
            BrkStep::UnmapPages { start: _, end: _, brk } => {
                self.brk = brk;
                Ok(brk)
            },
        }
    }

    /// Number a new child, and remember its thread while there is room.
    pub fn alloc_child_pid(&mut self, tid: u32) -> (r: u64)
        requires
            old(self).wf(),
            old(self).next_pid < u64::MAX,
        ensures
            final(self).wf(),
            r == old(self).next_pid,
            final(self).next_pid == old(self).next_pid + 1,
            children_of(*final(self)) == (if old(self).tid_to_pid_count < MAX_CHILDREN {
                children_of(*old(self)).push((tid, r))
            } else {
                children_of(*old(self))
            }),
            *final(self) == (TaskStruct {
                next_pid: final(self).next_pid,
                tid_to_pid: final(self).tid_to_pid,
                tid_to_pid_count: final(self).tid_to_pid_count,
                ..*old(self)
            }),
    {
        let pid: u64 = self.next_pid;
        self.next_pid = pid + 1;
        if self.tid_to_pid_count < MAX_CHILDREN {
            let n: usize = self.tid_to_pid_count;
            self.tid_to_pid[n] = (tid, pid);
            self.tid_to_pid_count = n + 1;
            assert(children_of(*self) =~= children_of(*old(self)).push((tid, pid)));
        }
        pid
    }

    /// The process number of a child by its thread, which is then forgotten.
    pub fn take_child_pid(&mut self, tid: u32) -> (r: Option<u64>)
        requires
            old(self).wf(),
        ensures
            final(self).wf(),
            match crate::search::first_index(children_of(*old(self)), of_thread(tid), 0) {
                Some(i) => r == Some(children_of(*old(self))[i].1) && children_of(*final(self))
                    == without_child(children_of(*old(self)), i),
                None => r is None && children_of(*final(self)) == children_of(*old(self)),
            },
            *final(self) == (TaskStruct {
                tid_to_pid: final(self).tid_to_pid,
                tid_to_pid_count: final(self).tid_to_pid_count,
                ..*old(self)
            }),
    {
        let ghost c = children_of(*self);
        let n: usize = self.tid_to_pid_count;
        let mut i: usize = 0;
        while i < n
            invariant
                i <= n,
                n == self.tid_to_pid_count,
                *self == *old(self),
                self.wf(),
                c == children_of(*self),
                crate::search::first_index(c, of_thread(tid), 0) == crate::search::first_index(
                    c,
                    of_thread(tid),
                    i as int,
                ),
            decreases n - i,
        {
            if self.tid_to_pid[i].0 == tid {
                let pid: u64 = self.tid_to_pid[i].1;
                self.tid_to_pid_count = n - 1;
                self.tid_to_pid[i] = self.tid_to_pid[n - 1];
                assert(children_of(*self) =~= without_child(c, i as int));
                return Some(pid);
            }
            i += 1;
        }
        None
    }
}

/// A child that was numbered is found by its thread, if the thread was not
/// known before and there was room.
pub proof fn law_child_is_found(c: Seq<(u32, u64)>, tid: u32, pid: u64)
    requires
        forall|i: int| 0 <= i < c.len() ==> (#[trigger] c[i]).0 != tid,
    ensures
        crate::search::first_index(c.push((tid, pid)), of_thread(tid), 0) == Some(c.len() as int),
        without_child(c.push((tid, pid)), c.len() as int) == c,
{
    let d = c.push((tid, pid));
    crate::search::lemma_first_index_is(d, of_thread(tid), 0, c.len() as int);
    assert(without_child(d, c.len() as int) =~= c);
}

} // verus!
