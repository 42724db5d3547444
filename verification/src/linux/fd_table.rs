//! File descriptor table: maps descriptors to backing objects.
//!
//! Descriptors 0, 1 and 2 start out as the console; others are files of the
//! file system server.
use vstd::prelude::*;
use crate::search;

verus! {

/// File identifier that the file system server returned.
pub type FsFid = u64;

/// Most open files of a process.
pub const MAX_FDS: usize = 256;

/// What a descriptor refers to.
#[derive(Debug, Clone, Copy, PartialEq, Eq, Structural)]
pub enum FdKind {
    Free,
    /// The console.
    Console,
    /// A file of the file system server.
    File(FsFid),
    /// Read end of a pipe.
    PipeRead(usize),
    /// Write end of a pipe.
    PipeWrite(usize),
}

/// An entry of the table.
#[derive(Debug, Clone, Copy, PartialEq, Eq, Structural)]
pub struct FdEntry {
    pub kind: FdKind,
    /// How it was opened.
    pub flags: u32,
}

/// The descriptors of a process.
pub struct FdTable {
    entries: [FdEntry; MAX_FDS],
}

impl View for FdTable {
    type V = Seq<FdEntry>;

    closed spec fn view(&self) -> Seq<FdEntry> {
        self.entries@
    }
}

/// "Is free", as a predicate on entries.
pub open spec fn is_free() -> spec_fn(FdEntry) -> bool {
    |e: FdEntry| e.kind == FdKind::Free
}

pub open spec fn free_entry() -> FdEntry {
    FdEntry { kind: FdKind::Free, flags: 0 }
}

/// The table that a process starts with.
pub open spec fn initial_table() -> Seq<FdEntry> {
    Seq::new(
        256,
        |i: int|
            if i < 3 {
                FdEntry { kind: FdKind::Console, flags: 2 }
            } else {
                free_entry()
            },
    )
}

/// What a descriptor refers to.
pub open spec fn kind_at(t: Seq<FdEntry>, fd: int) -> Option<FdKind> {
    if 0 <= fd < t.len() && t[fd].kind != FdKind::Free {
        Some(t[fd].kind)
    } else {
        None
    }
}

/// The file that a descriptor refers to.
pub open spec fn fid_at(t: Seq<FdEntry>, fd: int) -> Option<FsFid> {
    match kind_at(t, fd) {
        Some(FdKind::File(fid)) => Some(fid),
        _ => None,
    }
}

/// The table after the lowest free descriptor was taken, and the descriptor.
pub open spec fn taken(t: Seq<FdEntry>, kind: FdKind, flags: u32) -> (Seq<FdEntry>, Option<int>) {
    match search::first_index(t, is_free(), 0) {
        Some(i) => (t.update(i, FdEntry { kind, flags }), Some(i)),
        None => (t, None),
    }
}

/// The table after a descriptor was closed.
pub open spec fn closed(t: Seq<FdEntry>, fd: int) -> Seq<FdEntry> {
    if kind_at(t, fd) is Some {
        t.update(fd, free_entry())
    } else {
        t
    }
}

impl FdTable {
    pub fn new() -> (r: Self)
        ensures
            r@ == initial_table(),
    {
        let mut t = FdTable { entries: [FdEntry { kind: FdKind::Free, flags: 0 };MAX_FDS] };
        t.entries[0] = FdEntry { kind: FdKind::Console, flags: 2 };
        t.entries[1] = FdEntry { kind: FdKind::Console, flags: 2 };
        t.entries[2] = FdEntry { kind: FdKind::Console, flags: 2 };
        assert(t@ =~= initial_table());
        t
    }

    /// The size of the table does not change.
    pub proof fn lemma_len(self)
        ensures
            self@.len() == 256,
    {
    }

    /// Take the lowest free descriptor for a file.
    pub fn alloc_file(&mut self, fid: FsFid, flags: u32) -> (r: Option<usize>)
        ensures
            final(self)@ == taken(old(self)@, FdKind::File(fid), flags).0,
            match r {
                Some(fd) => taken(old(self)@, FdKind::File(fid), flags).1 == Some(fd as int) && fd
                    < 256,
                None => taken(old(self)@, FdKind::File(fid), flags).1 is None,
            },
    {
        self.alloc_kind(FdKind::File(fid), flags)
    }

    /// Take the lowest free descriptor.
    pub fn alloc_kind(&mut self, kind: FdKind, flags: u32) -> (r: Option<usize>)
        ensures
            final(self)@ == taken(old(self)@, kind, flags).0,
            match r {
                Some(fd) => taken(old(self)@, kind, flags).1 == Some(fd as int) && fd < 256,
                None => taken(old(self)@, kind, flags).1 is None,
            },
    {
        let mut i: usize = 0;
        while i < MAX_FDS
            invariant
                i <= MAX_FDS,
                *self == *old(self),
                search::first_index(self@, is_free(), 0) == search::first_index(
                    self@,
                    is_free(),
                    i as int,
                ),
            decreases MAX_FDS - i,
        {
            if self.entries[i].kind == FdKind::Free {
                self.entries[i] = FdEntry { kind, flags };
                return Some(i);
            }
            i += 1;
        }
        None
    }

    /// What a descriptor refers to.
    pub fn get(&self, fd: u64) -> (r: Option<FdKind>)
        ensures
            r == kind_at(self@, fd as int),
    {
        if fd < 256 && self.entries[fd as usize].kind != FdKind::Free {
            Some(self.entries[fd as usize].kind)
        } else {
            None
        }
    }

    /// The file that a descriptor refers to.
    pub fn get_fid(&self, fd: u64) -> (r: Option<FsFid>)
        ensures
            r == fid_at(self@, fd as int),
    {
        match self.get(fd) {
            Some(FdKind::File(fid)) => Some(fid),
            _ => None,
        }
    }

    /// Close a descriptor.  Returns whether it was open.
    pub fn close(&mut self, fd: u64) -> (r: bool)
        ensures
            r == kind_at(old(self)@, fd as int) is Some,
            final(self)@ == closed(old(self)@, fd as int),
    {
        self.close_kind(fd).is_some()
    }

    /// Close a descriptor and return what it referred to.
    pub fn close_kind(&mut self, fd: u64) -> (r: Option<FdKind>)
        ensures
            r == kind_at(old(self)@, fd as int),
            final(self)@ == closed(old(self)@, fd as int),
    {
        let kind = self.get(fd);
        if kind.is_some() {
            self.entries[fd as usize] = FdEntry { kind: FdKind::Free, flags: 0 };
        }
        kind
    }
}

/// A descriptor that was taken refers to what it was taken for, was free before,
/// and the others stay.
pub proof fn law_taken_descriptor(t: Seq<FdEntry>, kind: FdKind, flags: u32, other: int)
    requires
        taken(t, kind, flags).1 is Some,
        kind != FdKind::Free,
    ensures
        ({
            let fd = taken(t, kind, flags).1->0;
            let t2 = taken(t, kind, flags).0;
            &&& kind_at(t, fd) is None
            &&& kind_at(t2, fd) == Some(kind)
            &&& other != fd ==> kind_at(t2, other) == kind_at(t, other)
        }),
{
    search::lemma_first_index(t, is_free(), 0);
}

/// A descriptor that was closed refers to nothing, and the others stay.
pub proof fn law_closed_descriptor(t: Seq<FdEntry>, fd: int, other: int)
    ensures
        kind_at(closed(t, fd), fd) is None,
        other != fd ==> kind_at(closed(t, fd), other) == kind_at(t, other),
{
}

} // verus!
