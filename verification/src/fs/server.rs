//! File system server: resolves paths and keeps the open files of all processes.
use vstd::prelude::*;
use vstd::string::*;
use crate::fs::dentry;
use crate::fs::dentry::{Dentry, DentryFlags, DentryModel};
use crate::fs::file;
use crate::fs::file::File;
use crate::fs::inode::InodeOp;
use crate::fs::nodes::Nodes;
use crate::fs::path;
use crate::fs::tables;
use crate::fs::tables::{TableMap, Tables};
use crate::fs::types::{Errno, Kstat, OpenFlags, SeekWhence};
use crate::bytes;

verus! {

/// The directory cache: entries by number, and the next number.
#[verifier::ext_equal]
#[verifier::reject_recursive_types(I)]
pub struct Cache<I> {
    pub nodes: Map<usize, DentryModel<I>>,
    pub next: int,
}

/// Mathematical content of an `FsServer`.
#[verifier::ext_equal]
#[verifier::reject_recursive_types(I)]
pub struct ServerModel<I> {
    pub root: usize,
    pub cache: Cache<I>,
    pub tables: TableMap,
}

/// The server.
#[verifier::reject_recursive_types(I)]
pub struct FsServer<I: InodeOp> {
    root: usize,
    nodes: Nodes<I>,
    next: usize,
    tables: Tables,
}

impl<I: InodeOp> View for FsServer<I> {
    type V = ServerModel<I>;

    closed spec fn view(&self) -> ServerModel<I> {
        ServerModel {
            root: self.root,
            cache: Cache {
                nodes: self.nodes@,
                next: self.next as int,
            },
            tables: self.tables@,
        }
    }
}

impl<I> ServerModel<I> {
    /// The root is there and exists, numbers are below the next one, and every
    /// open file has its entry in the cache.
    pub open spec fn ok(self) -> bool {
        &&& self.cache.nodes.contains_key(self.root)
        &&& !self.cache.nodes[self.root].flags.has(DentryFlags::NEGATIVE())
        &&& 0 <= self.cache.next <= usize::MAX
        &&& forall|id: usize| #[trigger] self.cache.nodes.contains_key(id) ==> id < self.cache.next
        &&& forall|id: usize| #[trigger] tables::holds(self.tables, id)
            ==> self.cache.nodes.contains_key(id)
        &&& no_loops(self.cache)
    }

    /// Every entry but the root belongs to an open file.
    pub open spec fn tidy(self) -> bool {
        forall|id: usize| #[trigger] self.cache.nodes.contains_key(id) ==> id == self.root
            || tables::holds(self.tables, id)
    }

    pub open spec fn with_cache(self, cache: Cache<I>) -> ServerModel<I> {
        ServerModel { cache, ..self }
    }

    pub open spec fn with_tables(self, tables: TableMap) -> ServerModel<I> {
        ServerModel { tables, ..self }
    }

    /// The inode of an open file.
    pub open spec fn inode_of(self, f: File) -> Option<I> {
        self.cache.nodes[f.dentry].inode
    }
}

/// No entry is its own child.
pub open spec fn no_loops<I>(c: Cache<I>) -> bool {
    forall|id: usize, name: Seq<char>|
        c.nodes.contains_key(id) && #[trigger] c.nodes[id].children.contains_key(name)
            ==> c.nodes[id].children[name] != id
}

/// The entry for a name below `cur` that is in the cache.
pub open spec fn cached_child<I>(c: Cache<I>, cur: usize, name: Seq<char>) -> Option<usize> {
    let children = c.nodes[cur].children;
    if children.contains_key(name) && c.nodes.contains_key(children[name]) {
        Some(children[name])
    } else {
        None
    }
}

/// The cache with the entry `d` as the child `name` of `cur`.
pub open spec fn attached<I>(c: Cache<I>, cur: usize, name: Seq<char>, d: DentryModel<I>) -> Cache<
    I,
> {
    let parent = DentryModel {
        children: c.nodes[cur].children.insert(name, c.next as usize),
        ..c.nodes[cur]
    };
    Cache { nodes: c.nodes.insert(cur, parent).insert(c.next as usize, d), next: c.next + 1 }
}

/// One name of a path resolved below `cur`: from the cache, or by asking the
/// directory; an entry without an inode has no children.
pub open spec fn stepped<I: InodeOp>(
    a: Cache<I>,
    cur: usize,
    name: Seq<char>,
    b: Cache<I>,
    r: Result<usize, Errno>,
) -> bool {
    match cached_child(a, cur, name) {
        Some(id) => b == a && r == Ok::<usize, Errno>(id),
        None => match a.nodes[cur].inode {
            None => b == a && r == Err::<usize, Errno>(Errno::ENOENT),
            Some(i) => {
                &&& r == Ok::<usize, Errno>(a.next as usize)
                &&& exists|d: DentryModel<I>| #[trigger]
                    i.lookup_answer(name, cur, a.nodes[cur].path, d) && b == attached(
                        a,
                        cur,
                        name,
                        d,
                    )
            },
        },
    }
}

/// A path resolved from `cur` on, name by name: the entry that it leads to and
/// that entry's parent.
pub open spec fn walked<I: InodeOp>(
    a: Cache<I>,
    cur: usize,
    names: Seq<Seq<char>>,
    b: Cache<I>,
    r: Result<(usize, usize), Errno>,
) -> bool
    decreases names.len(),
{
    if names.len() == 0 {
        b == a && r == Ok::<(usize, usize), Errno>((cur, cur))
    } else if names.len() == 1 {
        match r {
            Ok(p) => p.1 == cur && stepped(a, cur, names[0], b, Ok(p.0)),
            Err(e) => stepped(a, cur, names[0], b, Err(e)),
        }
    } else {
        ||| (r is Err && stepped(a, cur, names[0], b, Err(r->Err_0)))
        ||| exists|m: Cache<I>, c: usize| #[trigger]
            stepped(a, cur, names[0], m, Ok(c)) && walked(m, c, names.drop_first(), b, r)
    }
}

/// The cache without the entries from `from` on that nothing keeps.
pub open spec fn settled<I>(c: Cache<I>, from: int, keep: Option<usize>) -> Cache<I> {
    Cache {
        nodes: Map::new(
            |id: usize| c.nodes.contains_key(id) && (id < from || keep == Some(id)),
            |id: usize| c.nodes[id],
        ),
        next: c.next,
    }
}

/// What opening a file comes to once its path was resolved to `w`.
pub open spec fn open_outcome<I>(
    s: ServerModel<I>,
    b: Cache<I>,
    w: Result<(usize, usize), Errno>,
    pid: u32,
    flags: OpenFlags,
) -> (ServerModel<I>, Result<usize, Errno>) {
    let dropped = s.with_cache(settled(b, s.cache.next, None));
    match w {
        Err(e) => (dropped, Err(e)),
        Ok(p) => if b.nodes[p.0].flags.has(DentryFlags::NEGATIVE()) && !flags.has(
            OpenFlags::O_CREAT(),
        ) {
            (dropped, Err(Errno::ENOENT))
        } else {
            let t = tables::file_opened(s.tables, pid, File::new(p.0, flags));
            match t.1 {
                Some(fd) => (
                    s.with_cache(settled(b, s.cache.next, Some(p.0))).with_tables(t.0),
                    Ok(fd as usize),
                ),
                None => (dropped.with_tables(t.0), Err(Errno::ENOMEM)),
            }
        },
    }
}

/// Opening a file may take the server from `s` to `s2` and give `r`.
pub open spec fn opened<I: InodeOp>(
    s: ServerModel<I>,
    s2: ServerModel<I>,
    p: Seq<char>,
    pid: u32,
    flags: OpenFlags,
    r: Result<usize, Errno>,
) -> bool {
    exists|b: Cache<I>, w: Result<(usize, usize), Errno>| #[trigger]
        walked(s.cache, s.root, path::components(p), b, w) && (s2, r) == open_outcome(
            s,
            b,
            w,
            pid,
            flags,
        )
}

/// Closing a descriptor: an entry of the cache that no file needs any more goes.
pub open spec fn close_outcome<I>(s: ServerModel<I>, pid: u32, fd: int) -> (
    ServerModel<I>,
    Result<(), Errno>,
) {
    match tables::file_of(s.tables, pid, fd) {
        None => (s, Err(Errno::EBADF)),
        Some(f) => {
            let t = tables::file_set(s.tables, pid, fd, None);
            if f.dentry == s.root || tables::holds(t, f.dentry) {
                (s.with_tables(t), Ok(()))
            } else {
                (
                    s.with_tables(t).with_cache(
                        Cache { nodes: s.cache.nodes.remove(f.dentry), ..s.cache },
                    ),
                    Ok(()),
                )
            }
        },
    }
}

/// The server after a file was moved to another position.
pub open spec fn repositioned<I>(s: ServerModel<I>, pid: u32, fd: int, pos: usize) -> ServerModel<
    I,
> {
    let f = tables::file_of(s.tables, pid, fd)->0;
    s.with_tables(tables::file_set(s.tables, pid, fd, Some(f.at(pos))))
}

/// A read may turn `before` into `after` and give `r`.
pub open spec fn read_outcome<I: InodeOp>(
    s: ServerModel<I>,
    s2: ServerModel<I>,
    pid: u32,
    fd: int,
    before: Seq<u8>,
    after: Seq<u8>,
    r: Result<usize, Errno>,
) -> bool {
    match tables::file_of(s.tables, pid, fd) {
        None => r == Err::<usize, Errno>(Errno::EBADF) && s2 == s && after == before,
        Some(f) => {
            &&& r is Ok
            &&& r->Ok_0 <= before.len()
            &&& after.len() == before.len()
            &&& s2 == repositioned(s, pid, fd, file::moved(f.pos as int, r->Ok_0 as int))
            &&& match s.inode_of(f) {
                Some(i) => i.read_answer(f.pos, before, after, r->Ok_0),
                None => r->Ok_0 == 0 && after == before,
            }
        },
    }
}

/// A read into a new buffer may give `r`.
#[verifier::opaque]
pub open spec fn read_new_outcome<I: InodeOp>(
    s: ServerModel<I>,
    s2: ServerModel<I>,
    pid: u32,
    fd: int,
    count: int,
    r: Result<Seq<u8>, Errno>,
) -> bool {
    match r {
        Err(e) => read_outcome(s, s2, pid, fd, bytes::zeros(count), bytes::zeros(count), Err(e)),
        Ok(data) => exists|after: Seq<u8>, n: usize| #[trigger]
            read_outcome(s, s2, pid, fd, bytes::zeros(count), after, Ok(n)) && data == after.take(
                n as int,
            ),
    }
}

/// A write may give `r`.
pub open spec fn write_outcome<I: InodeOp>(
    s: ServerModel<I>,
    s2: ServerModel<I>,
    pid: u32,
    fd: int,
    data: Seq<u8>,
    r: Result<usize, Errno>,
) -> bool {
    match tables::file_of(s.tables, pid, fd) {
        None => r == Err::<usize, Errno>(Errno::EBADF) && s2 == s,
        Some(f) => {
            &&& r is Ok
            &&& r->Ok_0 <= data.len()
            &&& s2 == repositioned(s, pid, fd, file::moved(f.pos as int, r->Ok_0 as int))
            &&& match s.inode_of(f) {
                Some(i) => i.write_answer(f.pos, data, r->Ok_0),
                None => r->Ok_0 == 0,
            }
        },
    }
}

/// A seek may give `r`.
pub open spec fn seek_outcome<I: InodeOp>(
    s: ServerModel<I>,
    s2: ServerModel<I>,
    pid: u32,
    fd: int,
    offset: i64,
    whence: SeekWhence,
    r: Result<usize, Errno>,
) -> bool {
    match tables::file_of(s.tables, pid, fd) {
        None => r == Err::<usize, Errno>(Errno::EBADF) && s2 == s,
        Some(f) => {
            &&& r is Ok
            &&& s2 == repositioned(s, pid, fd, r->Ok_0)
            &&& match s.inode_of(f) {
                Some(i) => exists|size: usize| #[trigger]
                    i.size_answer(size) && r->Ok_0 == file::sought(f.pos, size, offset, whence),
                None => r->Ok_0 == file::sought(f.pos, 0, offset, whence),
            }
        },
    }
}

/// The metadata of an open file may be `r`.
pub open spec fn fstat_outcome<I: InodeOp>(
    s: ServerModel<I>,
    pid: u32,
    fd: int,
    r: Result<Kstat, Errno>,
) -> bool {
    match tables::file_of(s.tables, pid, fd) {
        None => r == Err::<Kstat, Errno>(Errno::EBADF),
        Some(f) => match s.inode_of(f) {
            Some(i) => r is Ok && i.stat_answer(r->Ok_0),
            None => r == Err::<Kstat, Errno>(Errno::EBADF),
        },
    }
}

/// The metadata of a file by its path may be `r`.
pub open spec fn stat_outcome<I: InodeOp>(
    s: ServerModel<I>,
    s2: ServerModel<I>,
    p: Seq<char>,
    r: Result<Kstat, Errno>,
) -> bool {
    exists|b: Cache<I>, w: Result<(usize, usize), Errno>| #[trigger]
        walked(s.cache, s.root, path::components(p), b, w) && s2 == s.with_cache(
            settled(b, s.cache.next, None),
        ) && match w {
            Err(e) => r == Err::<Kstat, Errno>(e),
            Ok(q) => match b.nodes[q.0].inode {
                Some(i) => r is Ok && i.stat_answer(r->Ok_0),
                None => r == Err::<Kstat, Errno>(Errno::ENOENT),
            },
        }
}

/// A listing may give `r`.
pub open spec fn getdents_outcome<I: InodeOp>(
    s: ServerModel<I>,
    s2: ServerModel<I>,
    pid: u32,
    fd: int,
    count: int,
    r: Result<Seq<u8>, Errno>,
) -> bool {
    match tables::file_of(s.tables, pid, fd) {
        None => r == Err::<Seq<u8>, Errno>(Errno::EBADF) && s2 == s,
        Some(f) => if !s.cache.nodes[f.dentry].flags.has(DentryFlags::DIRECTORY()) {
            r == Err::<Seq<u8>, Errno>(Errno::ENOTDIR) && s2 == s
        } else {
            match s.inode_of(f) {
                Some(i) => exists|after: Seq<u8>, n: (usize, usize)| #[trigger]
                    i.getdents_answer(f.pos, bytes::zeros(count), after, n) && r == Ok::<
                        Seq<u8>,
                        Errno,
                    >(after.take(n.0 as int)) && s2 == repositioned(s, pid, fd, n.1),
                None => r == Ok::<Seq<u8>, Errno>(seq![]) && s2 == s,
            }
        },
    }
}

/// Making a file or a directory may give `r`: the parent directory fills the
/// entry, unless there is such a file already.
pub open spec fn make_outcome<I: InodeOp>(
    s: ServerModel<I>,
    s2: ServerModel<I>,
    p: Seq<char>,
    mode: u16,
    is_dir: bool,
    r: Result<(), Errno>,
) -> bool {
    exists|b: Cache<I>, w: Result<(usize, usize), Errno>| #[trigger]
        walked(s.cache, s.root, path::components(p), b, w) && {
            let dropped = s.with_cache(settled(b, s.cache.next, None));
            match w {
                Err(e) => r == Err::<(), Errno>(e) && s2 == dropped,
                Ok(q) => if !b.nodes[q.0].flags.has(DentryFlags::NEGATIVE()) {
                    r == Err::<(), Errno>(Errno::EEXIST) && s2 == dropped
                } else {
                    match b.nodes[q.1].inode {
                        None => r == Err::<(), Errno>(Errno::ENOENT) && s2 == dropped,
                        Some(i) => r == Ok::<(), Errno>(()) && exists|d: DentryModel<I>| #[trigger]
                            made(i, mode, is_dir, b.nodes[q.0], d) && s2 == s.with_cache(
                                settled(
                                    Cache { nodes: b.nodes.insert(q.0, d), ..b },
                                    s.cache.next,
                                    None,
                                ),
                            ),
                    }
                },
            }
        }
}

/// The directory `i` may fill the entry `before` so that it is `after`.
pub open spec fn made<I: InodeOp>(
    i: I,
    mode: u16,
    is_dir: bool,
    before: DentryModel<I>,
    after: DentryModel<I>,
) -> bool {
    if is_dir {
        i.mkdir_answer(mode, before, after)
    } else {
        i.create_answer(mode, before, after)
    }
}

impl<I: InodeOp> FsServer<I> {
    /// The parts of the server are in order.
    pub closed spec fn parts_ok(self) -> bool {
        self.nodes.wf()
    }

    pub open spec fn wf(self) -> bool {
        self.parts_ok() && self@.ok()
    }

    /// Descriptor tables have their size.
    pub proof fn lemma_sized(self)
        requires
            self.wf(),
        ensures
            tables::sized(self@.tables),
    {
        self.tables.lemma_lens();
    }

    pub fn new(root_inode: I) -> (r: Self)
        ensures
            r.wf(),
            r@.tidy(),
            r@.root == 0,
            r@.cache.next == 1,
            r@.cache.nodes == Map::<usize, DentryModel<I>>::empty().insert(
                0,
                dentry::new_dentry(seq!['/'], None, DentryFlags::DIRECTORY(), Some(root_inode)),
            ),
            r@.tables == Map::<u32, Seq<Option<File>>>::empty(),
    {
        let mut path = String::new();
        path.push('/');
        assert(path@ =~= seq!['/']);
        let root = Dentry::new(path, None, DentryFlags::DIRECTORY(), Some(root_inode));
        let mut nodes: Nodes<I> = Nodes::new();
        nodes.insert(0, root);
        let r = FsServer { root: 0, nodes, next: 1, tables: Tables::new() };
        proof {
            assert(r@.cache.nodes =~= Map::<usize, DentryModel<I>>::empty().insert(
                0,
                dentry::new_dentry(seq!['/'], None, DentryFlags::DIRECTORY(), Some(root_inode)),
            ));
            assert(4u32 & 1u32 != 1u32) by (bit_vector);
        }
        r
    }

    /// Resolve one name below an entry.
    fn step(&mut self, cur: usize, name: &str) -> (r: Result<usize, Errno>)
        requires
            old(self).parts_ok(),
            old(self)@.cache.nodes.contains_key(cur),
            old(self)@.cache.next < usize::MAX,
            forall|id: usize| #[trigger]
                old(self)@.cache.nodes.contains_key(id) ==> id < old(self)@.cache.next,
            no_loops(old(self)@.cache),
        ensures
            final(self).parts_ok(),
            no_loops(final(self)@.cache),
            r != Ok::<usize, Errno>(cur),
            final(self)@ == old(self)@.with_cache(final(self)@.cache),
            stepped(old(self)@.cache, cur, name@, final(self)@.cache, r),
            old(self)@.cache.next <= final(self)@.cache.next <= old(self)@.cache.next + 1,
            extends(old(self)@.cache, final(self)@.cache),
            r is Ok ==> final(self)@.cache.nodes.contains_key(r->Ok_0),
    {
        let ghost a = self@.cache;
        let found = match self.nodes.get(cur) {
            Some(d) => d.get_child(name),
            None => None,
        };
        if found.is_some() && self.nodes.has(found.unwrap()) {
            return Ok(found.unwrap());
        }
        let answer = match self.nodes.get(cur) {
            Some(d) => match &d.inode {
                Some(i) => Some(i.lookup(name, cur, d.absolute_path.as_str())),
                None => None,
            },
            None => None,
        };
        if answer.is_none() {
            return Err(Errno::ENOENT);
        }
        let child = answer.unwrap();
        let ghost d = child@;
        let id: usize = self.next;
        let taken = self.nodes.remove(cur);
        if taken.is_some() {
            let mut parent = taken.unwrap();
            parent.children.insert(name.to_owned(), id);
            self.nodes.insert(cur, parent);
        }
        self.nodes.insert(id, child);
        self.next = id + 1;
        proof {
            assert(self@.cache.nodes =~= attached(a, cur, name@, d).nodes);
            assert(self@.cache == attached(a, cur, name@, d));
            let i = a.nodes[cur].inode->0;
            assert(i.lookup_answer(name@, cur, a.nodes[cur].path, d));
        }
        Ok(id)
    }

    /// Resolve a path from the root on, returning the entry that it leads to
    /// and its parent.
    pub fn path_walk(&mut self, path: &str) -> (r: Result<(usize, usize), Errno>)
        requires
            old(self).wf(),
            old(self)@.cache.next + path::components(path@).len() <= usize::MAX,
        ensures
            final(self).wf(),
            final(self)@ == old(self)@.with_cache(final(self)@.cache),
            walked(
                old(self)@.cache,
                old(self)@.root,
                path::components(path@),
                final(self)@.cache,
                r,
            ),
            extends(old(self)@.cache, final(self)@.cache),
            r is Ok ==> {
                &&& final(self)@.cache.nodes.contains_key(r->Ok_0.0)
                &&& final(self)@.cache.nodes.contains_key(r->Ok_0.1)
                &&& r->Ok_0.0 == r->Ok_0.1 ==> r->Ok_0.0 == final(self)@.root
            },
    {
        let names = path::split_path(path);
        let ghost all = path::components(path@);
        let ghost a = self@.cache;
        let root: usize = self.root;
        if names.len() == 0 {
            return Ok((root, root));
        }
        let mut cur: usize = root;
        let mut i: usize = 0;
        assert(all.skip(0) =~= all);
        while i < names.len() - 1
            invariant
                path::names_of(names@) == all,
                all == path::components(path@),
                root == old(self)@.root,
                i < names@.len(),
                self.parts_ok(),
                self@ == old(self)@.with_cache(self@.cache),
                self@.ok(),
                a == old(self)@.cache,
                extends(a, self@.cache),
                self@.cache.nodes.contains_key(cur),
                self@.cache.next + names@.len() - i <= usize::MAX,
                forall|b: Cache<I>, r: Result<(usize, usize), Errno>| #[trigger]
                    walked(self@.cache, cur, all.skip(i as int), b, r) ==> walked(
                        a,
                        root,
                        all,
                        b,
                        r,
                    ),
            decreases names@.len() - i,
        {
            let ghost before = self@.cache;
            let ghost cur0 = cur;
            assert(names@[i as int]@ == all[i as int]);
            let t = self.step(cur, names[i].as_str());
            proof {
                assert(all.skip(i as int)[0] == all[i as int]);
                assert(all.skip(i as int).drop_first() =~= all.skip(i + 1));
                lemma_extends(a, before, self@.cache);
            }
            match t {
                Ok(c) => {
                    cur = c;
                    assert forall|b: Cache<I>, r: Result<(usize, usize), Errno>| #[trigger]
                        walked(self@.cache, cur, all.skip(i + 1), b, r) implies walked(
                        a,
                        root,
                        all,
                        b,
                        r,
                    ) by {
                        assert(stepped(before, cur0, all[i as int], self@.cache, Ok(cur)));
                        assert(walked(before, cur0, all.skip(i as int), b, r));
                    }
                },
                Err(e) => {
                    assert(walked(
                        before,
                        cur0,
                        all.skip(i as int),
                        self@.cache,
                        Err::<(usize, usize), Errno>(e),
                    ));
                    return Err(e);
                },
            }
            i += 1;
        }
        let ghost before = self@.cache;
        assert(all.skip(i as int)[0] == all[i as int]);
        assert(names@[i as int]@ == all[i as int]);
        let t = self.step(cur, names[i].as_str());
        proof {
            lemma_extends(a, before, self@.cache);
        }
        match t {
            Ok(target) => {
                assert(walked(
                    before,
                    cur,
                    all.skip(i as int),
                    self@.cache,
                    Ok::<(usize, usize), Errno>((target, cur)),
                ));
                Ok((target, cur))
            },
            Err(e) => {
                assert(walked(
                    before,
                    cur,
                    all.skip(i as int),
                    self@.cache,
                    Err::<(usize, usize), Errno>(e),
                ));
                Err(e)
            },
        }
    }

    /// Drop the entries from `from` on, except one.
    fn settle(&mut self, from: usize, keep: Option<usize>)
        requires
            old(self).parts_ok(),
            from <= old(self)@.cache.next,
            forall|id: usize| #[trigger]
                old(self)@.cache.nodes.contains_key(id) ==> id < old(self)@.cache.next,
        ensures
            final(self).parts_ok(),
            final(self)@ == old(self)@.with_cache(
                settled(old(self)@.cache, from as int, keep),
            ),
    {
        let ghost c = self@.cache;
        let to: usize = self.next;
        let mut id: usize = from;
        while id < to
            invariant
                self.parts_ok(),
                from <= id <= to,
                to == c.next,
                self@ == old(self)@.with_cache(self@.cache),
                self@.cache.next == c.next,
                forall|k: usize| #[trigger]
                    self@.cache.nodes.contains_key(k) <==> c.nodes.contains_key(k) && (k < from
                        || k >= id || keep == Some(k)),
                forall|k: usize| #[trigger]
                    self@.cache.nodes.contains_key(k) ==> self@.cache.nodes[k] == c.nodes[k],
            decreases to - id,
        {
            let ghost before = self@.cache.nodes;
            let kept: bool = match keep {
                Some(k) => k == id,
                None => false,
            };
            if !kept {
                self.nodes.remove(id);
                assert(self@.cache.nodes =~= before.remove(id));
            }
            id += 1;
        }
        assert(self@.cache.nodes =~= settled(c, from as int, keep).nodes);
    }
}

/// The cache holds what it held, though entries may have got children.
pub open spec fn extends<I>(a: Cache<I>, b: Cache<I>) -> bool {
    &&& a.next <= b.next
    &&& forall|id: usize| #[trigger]
        a.nodes.contains_key(id) ==> b.nodes.contains_key(id) && b.nodes[id].flags
            == a.nodes[id].flags && b.nodes[id].inode == a.nodes[id].inode && b.nodes[id].path
            == a.nodes[id].path
    &&& forall|id: usize| #[trigger]
        b.nodes.contains_key(id) && id < a.next ==> a.nodes.contains_key(id)
    &&& forall|id: usize| #[trigger] b.nodes.contains_key(id) ==> id < b.next
}

proof fn lemma_extends<I>(a: Cache<I>, b: Cache<I>, c: Cache<I>)
    requires
        extends(a, b),
        extends(b, c),
    ensures
        extends(a, c),
{
}

impl<I: InodeOp> FsServer<I> {
    /// Open the file of an entry for a process.
    pub fn open_entry(&mut self, pid: u32, dentry: usize, flags: OpenFlags) -> (r: Result<
        usize,
        Errno,
    >)
        requires
            old(self).wf(),
            old(self)@.cache.nodes.contains_key(dentry),
        ensures
            final(self).wf(),
            ({
                let s = old(self)@;
                let negative = s.cache.nodes[dentry].flags.has(DentryFlags::NEGATIVE());
                let t = tables::file_opened(s.tables, pid, File::new(dentry, flags));
                if negative && !flags.has(OpenFlags::O_CREAT()) {
                    final(self)@ == s && r == Err::<usize, Errno>(Errno::ENOENT)
                } else {
                    &&& final(self)@ == s.with_tables(t.0)
                    &&& match t.1 {
                        Some(fd) => r == Ok::<usize, Errno>(fd as usize),
                        None => r == Err::<usize, Errno>(Errno::ENOMEM),
                    }
                }
            }),
    {
        let negative: bool = match self.nodes.get(dentry) {
            Some(d) => d.is_negative(),
            None => true,
        };
        if negative && !flags.contains(OpenFlags::O_CREAT()) {
            return Err(Errno::ENOENT);
        }
        proof {
            self.tables.lemma_lens();
            tables::lemma_holds_opened(self.tables@, pid, File::new(dentry, flags));
        }
        match self.tables.open(pid, File::new(dentry, flags)) {
            Some(fd) => Ok(fd),
            None => Err(Errno::ENOMEM),
        }
    }

    /// Open a file for a process, returning its descriptor.
    pub fn open(&mut self, pid: u32, path: &str, flags: OpenFlags, _mode: u16) -> (r: Result<
        usize,
        Errno,
    >)
        requires
            old(self).wf(),
            old(self)@.tidy(),
            old(self)@.cache.next + path::components(path@).len() <= usize::MAX,
        ensures
            final(self).wf(),
            final(self)@.tidy(),
            opened(old(self)@, final(self)@, path@, pid, flags, r),
    {
        let ghost s = self@;
        let from: usize = self.next;
        let w = self.path_walk(path);
        let ghost b = self@.cache;
        proof {
            self.tables.lemma_lens();
        }
        match w {
            Err(e) => {
                self.settle(from, None);
                proof {
                    lemma_settled(s, b, None);
                    assert((self@, Err::<usize, Errno>(e)) == open_outcome(s, b, w, pid, flags));
                }
                Err(e)
            },
            Ok(p) => {
                let r = self.open_entry(pid, p.0, flags);
                let keep = match r {
                    Ok(_) => Some(p.0),
                    Err(_) => None,
                };
                self.settle(from, keep);
                proof {
                    tables::lemma_holds_opened(s.tables, pid, File::new(p.0, flags));
                    lemma_settled(s, b, keep);
                    assert((self@, r) == open_outcome(s, b, w, pid, flags));
                }
                r
            },
        }
    }

    /// Read into a caller-provided buffer.
    pub fn read_to(&mut self, pid: u32, fd: usize, buf: &mut [u8]) -> (r: Result<usize, Errno>)
        requires
            old(self).wf(),
        ensures
            final(self).wf(),
            old(self)@.tidy() ==> final(self)@.tidy(),
            read_outcome(
                old(self)@,
                final(self)@,
                pid,
                fd as int,
                old(buf)@,
                final(buf)@,
                r,
            ),
    {
        let found = self.tables.get_file(pid, fd);
        if found.is_none() {
            return Err(Errno::EBADF);
        }
        let mut f = found.unwrap();
        proof {
            assert(tables::holds_at(self@.tables, pid, fd as int, f.dentry));
            assert(tables::holds(self@.tables, f.dentry));
        }
        match self.nodes.get(f.dentry) {
            Some(d) => {
                let n: usize = f.read(&d.inode, buf);
                proof {
                    tables::lemma_holds_set(self@.tables, pid, fd as int, f);
                }
                self.tables.set_file(pid, fd, f);
                Ok(n)
            },
            None => Err(Errno::EBADF),
        }
    }

    /// Read from a descriptor.
    pub fn read(&mut self, pid: u32, fd: usize, count: usize) -> (r: Result<Vec<u8>, Errno>)
        requires
            old(self).wf(),
        ensures
            final(self).wf(),
            old(self)@.tidy() ==> final(self)@.tidy(),
            read_new_outcome(
                old(self)@,
                final(self)@,
                pid,
                fd as int,
                count as int,
                match r {
                    Ok(v) => Ok(v@),
                    Err(e) => Err(e),
                },
            ),
            r is Ok ==> r->Ok_0@.len() <= count,
    {
        reveal(read_new_outcome);
        let mut buf: Vec<u8> = vec![0u8;count];
        assert(buf@ =~= bytes::zeros(count as int));
        match self.read_to(pid, fd, buf.as_mut_slice()) {
            Ok(n) => {
                let ghost after = buf@;
                buf.truncate(n);
                assert(buf@ =~= after.take(n as int));
                Ok(buf)
            },
            Err(e) => Err(e),
        }
    }

    /// Write to a descriptor.
    pub fn write(&mut self, pid: u32, fd: usize, data: &[u8]) -> (r: Result<usize, Errno>)
        requires
            old(self).wf(),
        ensures
            final(self).wf(),
            old(self)@.tidy() ==> final(self)@.tidy(),
            write_outcome(old(self)@, final(self)@, pid, fd as int, data@, r),
    {
        let found = self.tables.get_file(pid, fd);
        if found.is_none() {
            return Err(Errno::EBADF);
        }
        let mut f = found.unwrap();
        proof {
            assert(tables::holds_at(self@.tables, pid, fd as int, f.dentry));
            assert(tables::holds(self@.tables, f.dentry));
        }
        match self.nodes.get(f.dentry) {
            Some(d) => {
                let n: usize = f.write(&d.inode, data);
                proof {
                    tables::lemma_holds_set(self@.tables, pid, fd as int, f);
                }
                self.tables.set_file(pid, fd, f);
                Ok(n)
            },
            None => Err(Errno::EBADF),
        }
    }

    /// Close a descriptor.
    pub fn close(&mut self, pid: u32, fd: usize) -> (r: Result<(), Errno>)
        requires
            old(self).wf(),
        ensures
            final(self).wf(),
            old(self)@.tidy() ==> final(self)@.tidy(),
            (final(self)@, r) == close_outcome(old(self)@, pid, fd as int),
    {
        let found = self.tables.get_file(pid, fd);
        if found.is_none() {
            return Err(Errno::EBADF);
        }
        let f = found.unwrap();
        proof {
            tables::lemma_holds_closed(self@.tables, pid, fd as int);
        }
        self.tables.close(pid, fd);
        if f.dentry != self.root && !self.tables.is_held(f.dentry) {
            self.nodes.remove(f.dentry);
        }
        Ok(())
    }

    /// Move within a file.
    pub fn lseek(&mut self, pid: u32, fd: usize, offset: i64, whence: SeekWhence) -> (r: Result<
        usize,
        Errno,
    >)
        requires
            old(self).wf(),
        ensures
            final(self).wf(),
            old(self)@.tidy() ==> final(self)@.tidy(),
            seek_outcome(old(self)@, final(self)@, pid, fd as int, offset, whence, r),
    {
        let found = self.tables.get_file(pid, fd);
        if found.is_none() {
            return Err(Errno::EBADF);
        }
        let mut f = found.unwrap();
        proof {
            assert(tables::holds_at(self@.tables, pid, fd as int, f.dentry));
            assert(tables::holds(self@.tables, f.dentry));
        }
        match self.nodes.get(f.dentry) {
            Some(d) => {
                let n: usize = f.seek(&d.inode, offset, whence);
                proof {
                    tables::lemma_holds_set(self@.tables, pid, fd as int, f);
                }
                self.tables.set_file(pid, fd, f);
                Ok(n)
            },
            None => Err(Errno::EBADF),
        }
    }

    /// Get file metadata by path.
    pub fn stat(&mut self, _pid: u32, path: &str) -> (r: Result<Kstat, Errno>)
        requires
            old(self).wf(),
            old(self)@.tidy(),
            old(self)@.cache.next + path::components(path@).len() <= usize::MAX,
        ensures
            final(self).wf(),
            final(self)@.tidy(),
            stat_outcome(old(self)@, final(self)@, path@, r),
    {
        let ghost s = self@;
        let from: usize = self.next;
        let w = self.path_walk(path);
        let ghost b = self@.cache;
        let r = match w {
            Err(e) => Err(e),
            Ok(p) => match self.nodes.get(p.0) {
                Some(d) => match &d.inode {
                    Some(i) => Ok(i.get_stat()),
                    None => Err(Errno::ENOENT),
                },
                None => Err(Errno::ENOENT),
            },
        };
        self.settle(from, None);
        proof {
            lemma_settled(s, b, None);
            assert(walked(s.cache, s.root, path::components(path@), b, w));
        }
        r
    }

    /// Get file metadata by descriptor.
    pub fn fstat(&self, pid: u32, fd: usize) -> (r: Result<Kstat, Errno>)
        requires
            self.wf(),
        ensures
            fstat_outcome(self@, pid, fd as int, r),
    {
        let found = self.tables.get_file(pid, fd);
        if found.is_none() {
            return Err(Errno::EBADF);
        }
        let f = found.unwrap();
        proof {
            assert(tables::holds_at(self@.tables, pid, fd as int, f.dentry));
            assert(tables::holds(self@.tables, f.dentry));
        }
        match self.nodes.get(f.dentry) {
            Some(d) => match &d.inode {
                Some(i) => Ok(i.get_stat()),
                None => Err(Errno::EBADF),
            },
            None => Err(Errno::EBADF),
        }
    }

    /// Read directory entries.
    pub fn getdents(&mut self, pid: u32, fd: usize, count: usize) -> (r: Result<Vec<u8>, Errno>)
        requires
            old(self).wf(),
        ensures
            final(self).wf(),
            old(self)@.tidy() ==> final(self)@.tidy(),
            getdents_outcome(
                old(self)@,
                final(self)@,
                pid,
                fd as int,
                count as int,
                match r {
                    Ok(v) => Ok(v@),
                    Err(e) => Err(e),
                },
            ),
    {
        let found = self.tables.get_file(pid, fd);
        if found.is_none() {
            return Err(Errno::EBADF);
        }
        let mut f = found.unwrap();
        proof {
            assert(tables::holds_at(self@.tables, pid, fd as int, f.dentry));
            assert(tables::holds(self@.tables, f.dentry));
        }
        match self.nodes.get(f.dentry) {
            Some(d) => {
                if !d.flags.contains(DentryFlags::DIRECTORY()) {
                    return Err(Errno::ENOTDIR);
                }
                let mut buf: Vec<u8> = vec![0u8;count];
                assert(buf@ =~= bytes::zeros(count as int));
                let n = f.getdents(&d.inode, buf.as_mut_slice());
                let ghost after = buf@;
                buf.truncate(n.0);
                proof {
                    assert(buf@ =~= after.take(n.0 as int));
                    tables::lemma_holds_set(self@.tables, pid, fd as int, f);
                    let t = self@.tables;
                    if d@.inode is None {
                        assert(buf@ =~= seq![]);
                        assert(t[pid].update(fd as int, Some(f)) =~= t[pid]);
                        assert(tables::file_set(t, pid, fd as int, Some(f)) =~= t);
                    }
                }
                self.tables.set_file(pid, fd, f);
                Ok(buf)
            },
            None => Err(Errno::EBADF),
        }
    }

    /// Make a file or a directory.
    fn make(&mut self, path: &str, mode: u16, is_dir: bool) -> (r: Result<(), Errno>)
        requires
            old(self).wf(),
            old(self)@.tidy(),
            old(self)@.cache.next + path::components(path@).len() <= usize::MAX,
        ensures
            final(self).wf(),
            final(self)@.tidy(),
            make_outcome(old(self)@, final(self)@, path@, mode, is_dir, r),
    {
        let ghost s = self@;
        let from: usize = self.next;
        let w = self.path_walk(path);
        let ghost b = self@.cache;
        let r = match w {
            Err(e) => Err(e),
            Ok(p) => self.fill(p.0, p.1, mode, is_dir),
        };
        let ghost c = self@.cache;
        proof {
            assert(no_loops(c)) by {
                assert forall|id: usize, name: Seq<char>|
                    c.nodes.contains_key(id) && #[trigger] c.nodes[id].children.contains_key(
                        name,
                    ) implies c.nodes[id].children[name] != id by {
                    assert(b.nodes[id].children.contains_key(name));
                }
            }
        }
        self.settle(from, None);
        proof {
            assert(walked(s.cache, s.root, path::components(path@), b, w));
            lemma_settled(s, b, None);
            lemma_settled(s, c, None);
        }
        r
    }

    /// Let the directory of an entry fill it.
    fn fill(&mut self, target: usize, parent: usize, mode: u16, is_dir: bool) -> (r: Result<
        (),
        Errno,
    >)
        requires
            old(self).parts_ok(),
            old(self)@.cache.nodes.contains_key(target),
            old(self)@.cache.nodes.contains_key(parent),
            target == parent ==> !old(self)@.cache.nodes[target].flags.has(
                DentryFlags::NEGATIVE(),
            ),
        ensures
            final(self).parts_ok(),
            crate::fs::inode::same_place(
                old(self)@.cache.nodes[target],
                final(self)@.cache.nodes[target],
            ),
            ({
                let b = old(self)@.cache;
                if !b.nodes[target].flags.has(DentryFlags::NEGATIVE()) {
                    r == Err::<(), Errno>(Errno::EEXIST) && final(self)@ == old(self)@
                } else {
                    match b.nodes[parent].inode {
                        None => r == Err::<(), Errno>(Errno::ENOENT) && final(self)@ == old(self)@,
                        Some(i) => r == Ok::<(), Errno>(()) && exists|d: DentryModel<I>| #[trigger]
                            made(i, mode, is_dir, b.nodes[target], d) && final(self)@ == old(self)@.with_cache(Cache { nodes: b.nodes.insert(target, d), ..b }),
                    }
                }
            }),
    {
        let exists_already: bool = match self.nodes.get(target) {
            Some(d) => !d.is_negative(),
            None => true,
        };
        if exists_already {
            return Err(Errno::EEXIST);
        }
        let has_inode: bool = match self.nodes.get(parent) {
            Some(d) => d.inode.is_some(),
            None => false,
        };
        if !has_inode {
            return Err(Errno::ENOENT);
        }
        let ghost b = self@.cache;
        let taken = self.nodes.remove(target);
        if taken.is_some() {
            let mut entry = taken.unwrap();
            match self.nodes.get(parent) {
                Some(d) => match &d.inode {
                    Some(i) => {
                        if is_dir {
                            i.mkdir(&mut entry, mode);
                        } else {
                            i.create(&mut entry, mode);
                        }
                        assert(made(*i, mode, is_dir, b.nodes[target], entry@));
                    },
                    None => {},
                },
                None => {},
            }
            let ghost d = entry@;
            self.nodes.insert(target, entry);
            assert(self@.cache.nodes =~= b.nodes.insert(target, d));
        }
        Ok(())
    }

    /// Create a new file.
    pub fn create(&mut self, _pid: u32, path: &str, mode: u16) -> (r: Result<(), Errno>)
        requires
            old(self).wf(),
            old(self)@.tidy(),
            old(self)@.cache.next + path::components(path@).len() <= usize::MAX,
        ensures
            final(self).wf(),
            final(self)@.tidy(),
            make_outcome(old(self)@, final(self)@, path@, mode, false, r),
    {
        self.make(path, mode, false)
    }

    /// Create a new directory.
    pub fn mkdir(&mut self, _pid: u32, path: &str, mode: u16) -> (r: Result<(), Errno>)
        requires
            old(self).wf(),
            old(self)@.tidy(),
            old(self)@.cache.next + path::components(path@).len() <= usize::MAX,
        ensures
            final(self).wf(),
            final(self)@.tidy(),
            make_outcome(old(self)@, final(self)@, path@, mode, true, r),
    {
        self.make(path, mode, true)
    }
}

/// Dropping what a walk left behind gives a tidy cache with all that was there.
proof fn lemma_settled<I>(s: ServerModel<I>, b: Cache<I>, keep: Option<usize>)
    requires
        s.ok(),
        s.tidy(),
        s.cache.next <= b.next,
        forall|id: usize| #[trigger]
            s.cache.nodes.contains_key(id) ==> b.nodes.contains_key(id),
        forall|id: usize| #[trigger]
            b.nodes.contains_key(id) && id < s.cache.next ==> s.cache.nodes.contains_key(id),
    ensures
        forall|id: usize| #[trigger]
            settled(b, s.cache.next, keep).nodes.contains_key(id) ==> id == s.root
                || tables::holds(s.tables, id) || keep == Some(id),
        forall|id: usize| #[trigger]
            s.cache.nodes.contains_key(id) ==> settled(
                b,
                s.cache.next,
                keep,
            ).nodes.contains_key(id),
{
}

} // verus!
