//! What holds of the file system server.
use vstd::prelude::*;
use crate::fs::file;
use crate::fs::file::File;
use crate::fs::inode::InodeOp;
use crate::fs::path;
use crate::fs::server;
use crate::fs::server::{Cache, ServerModel};
use crate::fs::tables;
use crate::fs::types::{Errno, Kstat, OpenFlags, SeekWhence};
use crate::search;

verus! {

/// A descriptor that is not open is refused by every operation, and nothing
/// changes.
pub proof fn law_closed_descriptor_is_refused<I: InodeOp>(
    s: ServerModel<I>,
    s2: ServerModel<I>,
    pid: u32,
    fd: int,
    before: Seq<u8>,
    after: Seq<u8>,
    offset: i64,
    whence: SeekWhence,
    r: Result<usize, Errno>,
    st: Result<Kstat, Errno>,
)
    requires
        tables::file_of(s.tables, pid, fd) is None,
    ensures
        server::read_outcome(s, s2, pid, fd, before, after, r) ==> r == Err::<usize, Errno>(
            Errno::EBADF,
        ) && s2 == s && after == before,
        server::write_outcome(s, s2, pid, fd, before, r) ==> r == Err::<usize, Errno>(Errno::EBADF)
            && s2 == s,
        server::seek_outcome(s, s2, pid, fd, offset, whence, r) ==> r == Err::<usize, Errno>(
            Errno::EBADF,
        ) && s2 == s,
        server::fstat_outcome(s, pid, fd, st) ==> st == Err::<Kstat, Errno>(Errno::EBADF),
        server::close_outcome(s, pid, fd) == (s, Err::<(), Errno>(Errno::EBADF)),
{
}

/// A file that was opened is read from its start, and the descriptor was not in
/// use before.
pub proof fn law_opened_descriptor_is_new<I: InodeOp>(
    s: ServerModel<I>,
    s2: ServerModel<I>,
    p: Seq<char>,
    pid: u32,
    flags: OpenFlags,
    fd: usize,
)
    requires
        tables::sized(s.tables),
        server::opened(s, s2, p, pid, flags, Ok(fd)),
    ensures
        tables::file_of(s.tables, pid, fd as int) is None,
        match tables::file_of(s2.tables, pid, fd as int) {
            Some(f) => f.pos == 0 && f.flags == flags,
            None => false,
        },
{
    let (b, w) = choose|b: Cache<I>, w: Result<(usize, usize), Errno>| #[trigger]
        server::walked(s.cache, s.root, path::components(p), b, w) && (s2, Ok::<usize, Errno>(fd))
            == server::open_outcome(s, b, w, pid, flags);
    let files = tables::table_of(s.tables, pid);
    search::lemma_first_index(files, file::is_free(), 0);
}

/// A descriptor that was closed is not open any more.
pub proof fn law_closed_is_closed<I: InodeOp>(s: ServerModel<I>, pid: u32, fd: int)
    requires
        tables::sized(s.tables),
    ensures
        tables::file_of(server::close_outcome(s, pid, fd).0.tables, pid, fd) is None,
{
}

/// What one process does leaves the descriptors of another as they are.
pub proof fn law_processes_are_separate<I: InodeOp>(
    s: ServerModel<I>,
    s2: ServerModel<I>,
    p: Seq<char>,
    pid: u32,
    other: u32,
    fd: int,
    fd2: int,
    flags: OpenFlags,
    data: Seq<u8>,
    after: Seq<u8>,
    r: Result<usize, Errno>,
)
    requires
        other != pid,
        server::opened(s, s2, p, pid, flags, r) || server::read_outcome(
            s,
            s2,
            pid,
            fd,
            data,
            after,
            r,
        ) || server::write_outcome(s, s2, pid, fd, data, r) || s2 == server::close_outcome(
            s,
            pid,
            fd,
        ).0,
    ensures
        tables::file_of(s2.tables, other, fd2) == tables::file_of(s.tables, other, fd2),
{
}

/// A path of slashes alone leads to the root, and opens it.
pub proof fn law_root_opens<I: InodeOp>(
    s: ServerModel<I>,
    s2: ServerModel<I>,
    p: Seq<char>,
    pid: u32,
    flags: OpenFlags,
    r: Result<usize, Errno>,
)
    requires
        s.ok(),
        tables::sized(s.tables),
        forall|i: int| 0 <= i < p.len() ==> p[i] == '/',
        server::opened(s, s2, p, pid, flags, r),
    ensures
        match r {
            Ok(fd) => tables::file_of(s2.tables, pid, fd as int) == Some(
                File::new(s.root, flags),
            ),
            Err(e) => e == Errno::ENOMEM,
        },
{
    path::law_slashes_name_the_root(p);
    let (b, w) = choose|b: Cache<I>, w: Result<(usize, usize), Errno>| #[trigger]
        server::walked(s.cache, s.root, path::components(p), b, w) && (s2, r)
            == server::open_outcome(s, b, w, pid, flags);
    let files = tables::table_of(s.tables, pid);
    search::lemma_first_index(files, file::is_free(), 0);
}

/// Reading on after a read goes on where it stopped.
pub proof fn law_reads_go_on<I: InodeOp>(
    s: ServerModel<I>,
    s2: ServerModel<I>,
    pid: u32,
    fd: int,
    before: Seq<u8>,
    after: Seq<u8>,
    n: usize,
)
    requires
        tables::sized(s.tables),
        server::read_outcome(s, s2, pid, fd, before, after, Ok(n)),
    ensures
        match (tables::file_of(s.tables, pid, fd), tables::file_of(s2.tables, pid, fd)) {
            (Some(f), Some(g)) => g == f.at(file::moved(f.pos as int, n as int)),
            _ => false,
        },
{
}

/// Closing a descriptor drops its entry from the cache exactly where no other open
/// file has that entry and it is not the root; every other entry and every other
/// descriptor stays.
pub proof fn law_close_drops_what_nobody_needs<I: InodeOp>(
    s: ServerModel<I>,
    pid: u32,
    fd: int,
    other: usize,
    opid: u32,
    ofd: int,
)
    requires
        tables::sized(s.tables),
        tables::file_of(s.tables, pid, fd) is Some,
        s.cache.nodes.contains_key(tables::file_of(s.tables, pid, fd)->0.dentry),
        opid != pid || ofd != fd,
    ensures
        ({
            let f = tables::file_of(s.tables, pid, fd)->0;
            let (s2, r) = server::close_outcome(s, pid, fd);
            let needed = f.dentry == s.root || exists|p: u32, d: int|
                (p != pid || d != fd) && #[trigger] tables::holds_at(s.tables, p, d, f.dentry);
            &&& r is Ok
            &&& s2.cache.nodes.contains_key(f.dentry) <==> needed
            &&& other != f.dentry ==> s2.cache.nodes.contains_key(other)
                == s.cache.nodes.contains_key(other) && s2.cache.nodes[other]
                == s.cache.nodes[other]
            &&& tables::file_of(s2.tables, opid, ofd) == tables::file_of(s.tables, opid, ofd)
        }),
{
    let f = tables::file_of(s.tables, pid, fd)->0;
    let t = tables::file_set(s.tables, pid, fd, None);
    assert forall|p: u32, d: int| p != pid || d != fd implies #[trigger] tables::file_of(t, p, d)
        == tables::file_of(s.tables, p, d) by {}
    if tables::holds(t, f.dentry) {
        let (p, d) = choose|p: u32, d: int| #[trigger] tables::holds_at(t, p, d, f.dentry);
        assert(tables::file_of(t, pid, fd) is None);
        assert(tables::holds_at(s.tables, p, d, f.dentry));
    }
    assert forall|p: u32, d: int|
        (p != pid || d != fd) && #[trigger] tables::holds_at(s.tables, p, d, f.dentry) implies tables::holds(
        t,
        f.dentry,
    ) by {
        assert(tables::file_of(t, p, d) == tables::file_of(s.tables, p, d));
        assert(tables::holds_at(t, p, d, f.dentry));
    }
}

} // verus!
