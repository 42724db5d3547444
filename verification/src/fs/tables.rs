//! The descriptor tables of all processes.
use vstd::prelude::*;
use vstd::std_specs::iter::IteratorSpec;
use std::collections::BTreeMap;
use crate::fs::file;
use crate::fs::file::{FdTable, File, FD_TABLE_SIZE};
use crate::search;

verus! {

/// Descriptor tables by process.
pub type TableMap = Map<u32, Seq<Option<File>>>;

/// The file that a descriptor of a process stands for.
pub open spec fn file_of(t: TableMap, pid: u32, fd: int) -> Option<File> {
    if t.contains_key(pid) {
        file::file_at(t[pid], fd)
    } else {
        None
    }
}

/// The table of a process; a process without one has no open files.
pub open spec fn table_of(t: TableMap, pid: u32) -> Seq<Option<File>> {
    if t.contains_key(pid) {
        t[pid]
    } else {
        file::empty_table()
    }
}

/// The tables after a process opened a file, and its descriptor; none is left
/// when all are in use.
pub open spec fn file_opened(t: TableMap, pid: u32, f: File) -> (TableMap, Option<int>) {
    let files = table_of(t, pid);
    match search::first_index(files, file::is_free(), 0) {
        Some(i) => (t.insert(pid, files.update(i, Some(f))), Some(i)),
        None => (t.insert(pid, files), None),
    }
}

/// The tables with another file under a descriptor.
pub open spec fn file_set(t: TableMap, pid: u32, fd: int, f: Option<File>) -> TableMap {
    t.insert(pid, t[pid].update(fd, f))
}

/// Some process has an open file with this directory entry.
pub open spec fn holds(t: TableMap, dentry: usize) -> bool {
    exists|pid: u32, fd: int| #[trigger] holds_at(t, pid, fd, dentry)
}

pub open spec fn holds_at(t: TableMap, pid: u32, fd: int, dentry: usize) -> bool {
    file_of(t, pid, fd) is Some && file_of(t, pid, fd)->0.dentry == dentry
}

/// A table holds an open file with this directory entry.
spec fn table_holds(files: Seq<Option<File>>, dentry: usize) -> bool {
    exists|fd: int|
        (#[trigger] file::file_at(files, fd)) is Some && file::file_at(files, fd)->0.dentry
            == dentry
}

/// Descriptor tables of all processes.
pub struct Tables {
    map: BTreeMap<u32, FdTable>,
}

impl View for Tables {
    type V = TableMap;

    closed spec fn view(&self) -> TableMap {
        self.map@.map_values(|t: FdTable| t@)
    }
}

impl Tables {
    /// Tables have their size.
    pub proof fn lemma_lens(self)
        ensures
            sized(self@),
    {
        assert forall|pid: u32| #[trigger] self@.contains_key(pid) implies self@[pid].len()
            == 256 by {
            self.map@[pid].lemma_len();
        }
    }

    pub fn new() -> (r: Self)
        ensures
            r@ == Map::<u32, Seq<Option<File>>>::empty(),
    {
        let r = Tables { map: BTreeMap::new() };
        assert(r@ =~= Map::<u32, Seq<Option<File>>>::empty());
        r
    }

    /// The table of a process.
    fn get(&self, pid: u32) -> (r: Option<&FdTable>)
        ensures
            match r {
                Some(t) => self@.contains_key(pid) && self@[pid] == t@,
                None => !self@.contains_key(pid),
            },
    {
        broadcast use vstd::std_specs::btree::group_btree_axioms;
        broadcast use vstd::laws_cmp::group_laws_cmp;

        self.map.get(&pid)
    }

    /// Give a process another table.
    fn put(&mut self, pid: u32, table: FdTable)
        ensures
            final(self)@ == old(self)@.insert(pid, table@),
    {
        broadcast use vstd::std_specs::btree::group_btree_axioms;
        broadcast use vstd::laws_cmp::group_laws_cmp;

        let ghost t = table@;
        self.map.insert(pid, table);
        assert(self@ =~= old(self)@.insert(pid, t));
    }

    /// The file that a descriptor stands for.
    pub fn get_file(&self, pid: u32, fd: usize) -> (r: Option<File>)
        ensures
            r == file_of(self@, pid, fd as int),
    {
        match self.get(pid) {
            Some(t) => t.get_file(fd),
            None => None,
        }
    }

    /// Open a file for a process under its lowest free descriptor.
    pub fn open(&mut self, pid: u32, file: File) -> (r: Option<usize>)
        ensures
            final(self)@ == file_opened(old(self)@, pid, file).0,
            match r {
                Some(fd) => file_opened(old(self)@, pid, file).1 == Some(fd as int) && fd < 256,
                None => file_opened(old(self)@, pid, file).1 is None,
            },
    {
        let mut table = match self.get(pid) {
            Some(t) => t.copy(),
            None => FdTable::new(),
        };
        proof {
            search::lemma_first_index(table@, file::is_free(), 0);
            table.lemma_len();
        }
        let r = table.alloc_fd(file);
        self.put(pid, table);
        r
    }

    /// Put back the file of a descriptor that is in use.
    pub fn set_file(&mut self, pid: u32, fd: usize, file: File)
        requires
            file_of(old(self)@, pid, fd as int) is Some,
        ensures
            final(self)@ == file_set(old(self)@, pid, fd as int, Some(file)),
    {
        let mut table = match self.get(pid) {
            Some(t) => t.copy(),
            None => return,
        };
        table.set_file(fd, file);
        self.put(pid, table);
    }

    /// Close a descriptor.  Returns whether it was in use.
    pub fn close(&mut self, pid: u32, fd: usize) -> (r: bool)
        ensures
            r == file_of(old(self)@, pid, fd as int) is Some,
            final(self)@ == (if r {
                file_set(old(self)@, pid, fd as int, None)
            } else {
                old(self)@
            }),
    {
        let mut table = match self.get(pid) {
            Some(t) => t.copy(),
            None => return false,
        };
        let r: bool = table.close(fd);
        if r {
            self.put(pid, table);
        }
        r
    }

    /// Whether the table holds an open file with this directory entry.
    fn is_held_in(table: &FdTable, dentry: usize) -> (r: bool)
        ensures
            r == table_holds(table@, dentry),
    {
        let mut fd: usize = 0;
        while fd < FD_TABLE_SIZE
            invariant
                fd <= FD_TABLE_SIZE,
                forall|f: int|
                    0 <= f < fd && (#[trigger] file::file_at(table@, f)) is Some
                        ==> file::file_at(table@, f)->0.dentry != dentry,
            decreases FD_TABLE_SIZE - fd,
        {
            let f = table.get_file(fd);
            if f.is_some() && f.unwrap().dentry == dentry {
                assert(file::file_at(table@, fd as int) is Some);
                return true;
            }
            fd += 1;
        }
        proof {
            table.lemma_len();
        }
        false
    }

    /// Whether some process has an open file with this directory entry.
    pub fn is_held(&self, dentry: usize) -> (r: bool)
        ensures
            r == holds(self@, dentry),
    {
        broadcast use vstd::std_specs::btree::group_btree_axioms;
        broadcast use vstd::laws_cmp::group_laws_cmp;

        for pid in keys: self.map.keys()
            invariant
                keys.seq() == self.map.keys().remaining(),
                keys.seq().unref().to_set() == self.map@.dom(),
                forall|k: int|
                    0 <= k < keys.index() ==> !table_holds(
                        self@[*(#[trigger] keys.seq()[k])],
                        dentry,
                    ),
        {
            assert(keys.seq().unref()[keys.index()] == *pid);
            assert(keys.seq().unref().to_set().contains(*pid));
            match self.get(*pid) {
                Some(t) => if Self::is_held_in(t, dentry) {
                    proof {
                        let fd = choose|fd: int|
                            (#[trigger] file::file_at(t@, fd)) is Some && file::file_at(
                                t@,
                                fd,
                            )->0.dentry == dentry;
                        assert(holds_at(self@, *pid, fd, dentry));
                    }
                    return true;
                },
                None => {},
            }
        }
        proof {
            assert forall|pid: u32, fd: int| !#[trigger] holds_at(self@, pid, fd, dentry) by {
                if self@.contains_key(pid) {
                    let ks = self.map.keys().remaining().unref();
                    assert(ks.to_set().contains(pid));
                    let k = choose|k: int| 0 <= k < ks.len() && ks[k] == pid;
                    assert(file::file_at(self@[pid], fd) is Some ==> file::file_at(
                        self@[pid],
                        fd,
                    )->0.dentry != dentry);
                }
            }
        }
        false
    }
}

/// All tables have their size.
pub open spec fn sized(t: TableMap) -> bool {
    forall|pid: u32| #[trigger] t.contains_key(pid) ==> t[pid].len() == 256
}

/// Opening a file holds its entry and lets go of none.
pub proof fn lemma_holds_opened(t: TableMap, pid: u32, f: File)
    requires
        sized(t),
    ensures
        forall|id: usize| #[trigger]
            holds(file_opened(t, pid, f).0, id) <==> holds(t, id) || (file_opened(
                t,
                pid,
                f,
            ).1 is Some && id == f.dentry),
{
    let files = table_of(t, pid);
    let t2 = file_opened(t, pid, f).0;
    search::lemma_first_index(files, file::is_free(), 0);
    assert forall|id: usize| #[trigger] holds(t2, id) <==> holds(t, id) || (file_opened(
        t,
        pid,
        f,
    ).1 is Some && id == f.dentry) by {
        if holds(t2, id) {
            let (p, fd) = choose|p: u32, fd: int| #[trigger] holds_at(t2, p, fd, id);
            if p != pid || file_opened(t, pid, f).1 != Some(fd) {
                if p == pid && !t.contains_key(pid) {
                    assert(files[fd] is None);
                }
                assert(holds_at(t, p, fd, id));
            }
        }
        if holds(t, id) {
            let (p, fd) = choose|p: u32, fd: int| #[trigger] holds_at(t, p, fd, id);
            assert(holds_at(t2, p, fd, id));
        }
        if file_opened(t, pid, f).1 is Some && id == f.dentry {
            assert(holds_at(t2, pid, file_opened(t, pid, f).1->0, id));
        }
    }
}

/// Moving a file to another position holds what was held.
pub proof fn lemma_holds_set(t: TableMap, pid: u32, fd: int, f2: File)
    requires
        file_of(t, pid, fd) is Some,
        f2.dentry == file_of(t, pid, fd)->0.dentry,
    ensures
        forall|id: usize| #[trigger] holds(file_set(t, pid, fd, Some(f2)), id) <==> holds(t, id),
{
    let t2 = file_set(t, pid, fd, Some(f2));
    assert forall|id: usize| #[trigger] holds(t2, id) <==> holds(t, id) by {
        if holds(t2, id) {
            let (p, g) = choose|p: u32, g: int| #[trigger] holds_at(t2, p, g, id);
            assert(holds_at(t, p, g, id));
        }
        if holds(t, id) {
            let (p, g) = choose|p: u32, g: int| #[trigger] holds_at(t, p, g, id);
            assert(holds_at(t2, p, g, id));
        }
    }
}

/// Closing a descriptor lets go of its own entry at most.
pub proof fn lemma_holds_closed(t: TableMap, pid: u32, fd: int)
    requires
        file_of(t, pid, fd) is Some,
    ensures
        forall|id: usize| #[trigger] holds(file_set(t, pid, fd, None), id) ==> holds(t, id),
        forall|id: usize|
            id != file_of(t, pid, fd)->0.dentry && #[trigger] holds(t, id) ==> holds(
                file_set(t, pid, fd, None),
                id,
            ),
{
    let t2 = file_set(t, pid, fd, None);
    assert forall|id: usize| #[trigger] holds(t2, id) implies holds(t, id) by {
        let (p, g) = choose|p: u32, g: int| #[trigger] holds_at(t2, p, g, id);
        assert(holds_at(t, p, g, id));
    }
    assert forall|id: usize|
        id != file_of(t, pid, fd)->0.dentry && #[trigger] holds(t, id) implies holds(t2, id) by {
        let (p, g) = choose|p: u32, g: int| #[trigger] holds_at(t, p, g, id);
        assert(holds_at(t2, p, g, id));
    }
}

} // verus!
