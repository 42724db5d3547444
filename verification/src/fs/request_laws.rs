//! What the requests to the file system server have to do with the files that
//! they name.
use vstd::prelude::*;
use crate::bytes;
use crate::fs::dentry::DentryModel;
use crate::fs::dispatch;
use crate::fs::file;
use crate::fs::file::File;
use crate::fs::inode::InodeOp;
use crate::fs::path;
use crate::fs::protocol::{ReplyModel, RequestModel};
use crate::fs::server;
use crate::fs::server::{Cache, ServerModel};
use crate::fs::tables;
use crate::fs::types::{Errno, Kstat, OpenFlags, SeekWhence};
use crate::search;

verus! {

/// A seek leads to the offset itself, to the offset from the present position, or
/// to the offset from the end of the file.
pub proof fn law_seek_positions(pos: usize, size: usize, offset: i64)
    ensures
        0 <= offset <= usize::MAX ==> file::sought(pos, size, offset, SeekWhence::Start) == offset,
        0 <= pos + offset <= usize::MAX ==> file::sought(pos, size, offset, SeekWhence::Cur) == pos
            + offset,
        0 <= size + offset <= usize::MAX ==> file::sought(pos, size, offset, SeekWhence::End) == size
            + offset,
{
    lemma_in_range(offset as int);
    lemma_in_range(pos + offset);
    lemma_in_range(size + offset);
}

proof fn lemma_in_range(v: int)
    requires
        true,
    ensures
        0 <= v <= usize::MAX ==> v % (usize::MAX + 1) == v,
{
    if 0 <= v <= usize::MAX {
        vstd::arithmetic::div_mod::lemma_small_mod(v as nat, (usize::MAX + 1) as nat);
    }
}

/// Process `pid` has file `f` open under descriptor `fd`.
pub open spec fn is_open<I>(s: ServerModel<I>, pid: u32, fd: int, f: File) -> bool {
    &&& s.tables.contains_key(pid)
    &&& 0 <= fd < s.tables[pid].len()
    &&& s.tables[pid][fd] == Some(f)
}

/// A read gives what the file's inode gives at the file's position, no more than was
/// asked for, and moves the position behind it; the file stays open otherwise as it
/// was.
pub proof fn law_read_moves_on<I: InodeOp>(
    s: ServerModel<I>,
    s2: ServerModel<I>,
    pid: u32,
    fd: int,
    f: File,
    before: Seq<u8>,
    after: Seq<u8>,
    r: Result<usize, Errno>,
)
    requires
        is_open(s, pid, fd, f),
        server::read_outcome(s, s2, pid, fd, before, after, r),
        f.pos + before.len() <= usize::MAX,
    ensures
        r is Ok,
        r->Ok_0 <= before.len(),
        after.len() == before.len(),
        s.cache.nodes[f.dentry].inode matches Some(i) ==> i.read_answer(
            f.pos,
            before,
            after,
            r->Ok_0,
        ),
        s.cache.nodes[f.dentry].inode is None ==> r->Ok_0 == 0 && after == before,
        is_open(s2, pid, fd, File { pos: (f.pos + r->Ok_0) as usize, ..f }),
        s2.cache == s.cache,
{
    lemma_in_range(f.pos + r->Ok_0);
}

/// A write hands all of its bytes to the file's inode at the file's position, and
/// moves the position behind what was written.
pub proof fn law_write_moves_on<I: InodeOp>(
    s: ServerModel<I>,
    s2: ServerModel<I>,
    pid: u32,
    fd: int,
    f: File,
    data: Seq<u8>,
    r: Result<usize, Errno>,
)
    requires
        is_open(s, pid, fd, f),
        server::write_outcome(s, s2, pid, fd, data, r),
        f.pos + data.len() <= usize::MAX,
    ensures
        r is Ok,
        r->Ok_0 <= data.len(),
        s.cache.nodes[f.dentry].inode matches Some(i) ==> i.write_answer(f.pos, data, r->Ok_0),
        s.cache.nodes[f.dentry].inode is None ==> r->Ok_0 == 0,
        is_open(s2, pid, fd, File { pos: (f.pos + r->Ok_0) as usize, ..f }),
        s2.cache == s.cache,
{
    lemma_in_range(f.pos + r->Ok_0);
}

/// After a seek the file is at the position that was answered.
pub proof fn law_seek_moves<I: InodeOp>(
    s: ServerModel<I>,
    s2: ServerModel<I>,
    pid: u32,
    fd: int,
    f: File,
    offset: i64,
    whence: SeekWhence,
    r: Result<usize, Errno>,
)
    requires
        is_open(s, pid, fd, f),
        server::seek_outcome(s, s2, pid, fd, offset, whence, r),
    ensures
        r is Ok,
        is_open(s2, pid, fd, File { pos: r->Ok_0, ..f }),
        whence == SeekWhence::Start && 0 <= offset <= usize::MAX ==> r->Ok_0 == offset,
        whence == SeekWhence::Cur && 0 <= f.pos + offset <= usize::MAX ==> r->Ok_0 == f.pos + offset,
        s2.cache == s.cache,
{
    law_seek_positions(f.pos, 0, offset);
}

/// A path whose names are all in the cache leads along them, and changes nothing.
pub proof fn law_cached_path<I: InodeOp>(
    c: Cache<I>,
    ids: Seq<usize>,
    names: Seq<Seq<char>>,
    b: Cache<I>,
    r: Result<(usize, usize), Errno>,
)
    requires
        ids.len() == names.len() + 1,
        forall|k: int|
            0 <= k < names.len() ==> {
                &&& c.nodes[#[trigger] ids[k]].children.contains_key(names[k])
                &&& c.nodes[ids[k]].children[names[k]] == ids[k + 1]
                &&& c.nodes.contains_key(ids[k + 1])
            },
        server::walked(c, ids[0], names, b, r),
    ensures
        b == c,
        r == Ok::<(usize, usize), Errno>(
            (
                ids.last(),
                if names.len() == 0 {
                    ids.last()
                } else {
                    ids[ids.len() - 2]
                },
            ),
        ),
    decreases names.len(),
{
    if names.len() == 1 {
        assert(c.nodes[ids[0]].children[names[0]] == ids[1]);
    } else if names.len() > 1 {
        assert(c.nodes[ids[0]].children[names[0]] == ids[1]);
        assert(server::cached_child(c, ids[0], names[0]) == Some(ids[1]));
        let (m, k) = choose|m: Cache<I>, k: usize| #[trigger]
            server::stepped(c, ids[0], names[0], m, Ok(k)) && server::walked(
                m,
                k,
                names.drop_first(),
                b,
                r,
            );
        let rest = ids.drop_first();
        let tail = names.drop_first();
        assert forall|j: int| 0 <= j < tail.len() implies {
            &&& c.nodes[#[trigger] rest[j]].children.contains_key(tail[j])
            &&& c.nodes[rest[j]].children[tail[j]] == rest[j + 1]
            &&& c.nodes.contains_key(rest[j + 1])
        } by {
            assert(c.nodes[ids[j + 1]].children.contains_key(names[j + 1]));
        }
        law_cached_path(c, rest, tail, b, r);
    }
}

/// Opening gives the lowest descriptor that the process has free, for the entry that
/// the path leads to, at its start; an entry that stands for no file is refused,
/// unless it may be created.
pub proof fn law_open<I: InodeOp>(
    s: ServerModel<I>,
    s2: ServerModel<I>,
    p: Seq<char>,
    pid: u32,
    flags: OpenFlags,
    r: Result<usize, Errno>,
)
    requires
        tables::sized(s.tables),
        server::opened(s, s2, p, pid, flags, r),
    ensures
        exists|b: Cache<I>, w: Result<(usize, usize), Errno>| #[trigger]
            server::walked(s.cache, s.root, path::components(p), b, w) && {
                &&& w is Err ==> r == Err::<usize, Errno>(w->Err_0)
                &&& w matches Ok(q) ==> {
                    let missing = b.nodes[q.0].flags.0 & 1 == 1;
                    ||| r == Err::<usize, Errno>(Errno::ENOENT) && missing && flags.0 & 0x40 != 0x40
                    ||| r == Err::<usize, Errno>(Errno::ENOMEM) && (!missing || flags.0 & 0x40 == 0x40)
                    ||| (r is Ok && (!missing || flags.0 & 0x40 == 0x40) && is_open(
                        s2,
                        pid,
                        r->Ok_0 as int,
                        File { dentry: q.0, pos: 0, flags },
                    ) && (b.nodes.contains_key(q.0) ==> s2.cache.nodes.contains_key(q.0)
                        && s2.cache.nodes[q.0] == b.nodes[q.0]))
                }
            },
        r matches Ok(fd) ==> forall|k: int|
            0 <= k < fd ==> s.tables.contains_key(pid) && (#[trigger] s.tables[pid][k]) is Some,
{
    let (b, w) = choose|b: Cache<I>, w: Result<(usize, usize), Errno>| #[trigger]
        server::walked(s.cache, s.root, path::components(p), b, w) && (s2, r)
            == server::open_outcome(s, b, w, pid, flags);
    let files = tables::table_of(s.tables, pid);
    search::lemma_first_index(files, file::is_free(), 0);
    if r is Ok {
        let fd = r->Ok_0 as int;
        assert forall|k: int| 0 <= k < fd implies s.tables.contains_key(pid) && (
        #[trigger] s.tables[pid][k]) is Some by {
            assert(!file::is_free()(files[k]));
        }
    }
}

/// The size that is answered is the one that the file's inode tells; what cannot
/// be done is answered with its error, and changes nothing.
pub proof fn law_replies<I: InodeOp>(
    s: ServerModel<I>,
    s2: ServerModel<I>,
    fd: int,
    f: File,
    reply: ReplyModel,
)
    requires
        is_open(s, 0, fd, f),
    ensures
        dispatch::handled(s, s2, RequestModel::Fstat { fd }, reply) ==> s2 == s && (
        s.cache.nodes[f.dentry].inode matches Some(i) ==> exists|st: Kstat| #[trigger]
            i.stat_answer(st) && reply == ReplyModel::Value(st.size as int)),
        dispatch::handled(s, s2, RequestModel::Close { fd }, reply) ==> reply == ReplyModel::Done
            && !(exists|g: File| is_open(s2, 0, fd, g)),
        dispatch::handled(s, s2, RequestModel::Unknown, reply) ==> s2 == s && reply
            == ReplyModel::Failed(Errno::ENOSYS),
{
    if dispatch::handled(s, s2, RequestModel::Fstat { fd }, reply) {
        let r = choose|r: Result<Kstat, Errno>| #[trigger]
            server::fstat_outcome(s, 0, fd, r) && reply == (match r {
                Ok(st) => ReplyModel::Value(st.size as int),
                Err(e) => ReplyModel::Failed(e),
            });
        if s.cache.nodes[f.dentry].inode is Some {
            assert(s.cache.nodes[f.dentry].inode->0.stat_answer(r->Ok_0));
        }
    }
}

/// A read request is answered with no more bytes than it asked for and than a reply
/// holds, and the file is then behind them.
pub proof fn law_read_reply<I: InodeOp>(
    s: ServerModel<I>,
    s2: ServerModel<I>,
    fd: int,
    f: File,
    count: int,
    reply: ReplyModel,
)
    requires
        is_open(s, 0, fd, f),
        0 <= count,
        f.pos + 48 <= usize::MAX,
        dispatch::handled(s, s2, RequestModel::Read { fd, count }, reply),
    ensures
        reply matches ReplyModel::Data(d) && d.len() <= count && d.len() <= 48 && is_open(
            s2,
            0,
            fd,
            File { pos: (f.pos + d.len()) as usize, ..f },
        ),
{
    reveal(server::read_new_outcome);
    let n = dispatch::read_limit(count);
    match reply {
        ReplyModel::Data(d) => {
            let (after, k) = choose|after: Seq<u8>, k: usize| #[trigger]
                server::read_outcome(s, s2, 0, fd, bytes::zeros(n), after, Ok(k)) && d
                    == after.take(k as int);
            law_read_moves_on(s, s2, 0, fd, f, bytes::zeros(n), after, Ok(k));
        },
        _ => {},
    }
}

/// A file or a directory is made only where there is none: otherwise the answer is
/// EEXIST.  A process's open files stay as they are.
pub proof fn law_make<I: InodeOp>(
    s: ServerModel<I>,
    s2: ServerModel<I>,
    p: Seq<char>,
    mode: u16,
    is_dir: bool,
    r: Result<(), Errno>,
)
    requires
        server::make_outcome(s, s2, p, mode, is_dir, r),
    ensures
        s2.tables == s.tables,
        s2.root == s.root,
        exists|b: Cache<I>, w: Result<(usize, usize), Errno>| #[trigger]
            server::walked(s.cache, s.root, path::components(p), b, w) && {
                &&& w is Err ==> r == Err::<(), Errno>(w->Err_0)
                &&& w matches Ok(q) ==> {
                    let missing = b.nodes[q.0].flags.0 & 1 == 1;
                    &&& !missing <==> r == Err::<(), Errno>(Errno::EEXIST)
                    &&& r is Ok <==> missing && b.nodes[q.1].inode is Some
                    &&& r is Ok && is_dir ==> exists|d: DentryModel<I>| #[trigger]
                        b.nodes[q.1].inode->0.mkdir_answer(mode, b.nodes[q.0], d)
                    &&& r is Ok && !is_dir ==> exists|d: DentryModel<I>| #[trigger]
                        b.nodes[q.1].inode->0.create_answer(mode, b.nodes[q.0], d)
                }
            },
{
    let (b, w) = choose|b: Cache<I>, w: Result<(usize, usize), Errno>| #[trigger]
        server::walked(s.cache, s.root, path::components(p), b, w) && {
            let dropped = s.with_cache(server::settled(b, s.cache.next, None));
            match w {
                Err(e) => r == Err::<(), Errno>(e) && s2 == dropped,
                Ok(q) => if !b.nodes[q.0].flags.has(crate::fs::dentry::DentryFlags::NEGATIVE()) {
                    r == Err::<(), Errno>(Errno::EEXIST) && s2 == dropped
                } else {
                    match b.nodes[q.1].inode {
                        None => r == Err::<(), Errno>(Errno::ENOENT) && s2 == dropped,
                        Some(i) => r == Ok::<(), Errno>(()) && exists|d: DentryModel<I>| #[trigger]
                            server::made(i, mode, is_dir, b.nodes[q.0], d) && s2 == s.with_cache(
                                server::settled(
                                    Cache { nodes: b.nodes.insert(q.0, d), ..b },
                                    s.cache.next,
                                    None,
                                ),
                            ),
                    }
                },
            }
        };
}

/// A listing gives what the directory's inode lists from the file's position on,
/// and moves the position to where the inode says; only a directory is listed.
pub proof fn law_listing_moves_on<I: InodeOp>(
    s: ServerModel<I>,
    s2: ServerModel<I>,
    pid: u32,
    fd: int,
    f: File,
    count: int,
    r: Result<Seq<u8>, Errno>,
)
    requires
        is_open(s, pid, fd, f),
        server::getdents_outcome(s, s2, pid, fd, count, r),
    ensures
        s2.cache == s.cache,
        ({
            let node = s.cache.nodes[f.dentry];
            let dir = node.flags.has(crate::fs::dentry::DentryFlags::DIRECTORY());
            &&& !dir <==> r == Err::<Seq<u8>, Errno>(Errno::ENOTDIR)
            &&& !dir ==> s2 == s
            &&& dir && node.inode is None ==> r == Ok::<Seq<u8>, Errno>(seq![]) && s2 == s
            &&& dir && node.inode is Some ==> exists|after: Seq<u8>, n: (usize, usize)| #[trigger]
                node.inode->0.getdents_answer(f.pos, bytes::zeros(count), after, n) && r == Ok::<
                    Seq<u8>,
                    Errno,
                >(after.take(n.0 as int)) && is_open(s2, pid, fd, File { pos: n.1, ..f })
        }),
{
    let node = s.cache.nodes[f.dentry];
    if node.flags.has(crate::fs::dentry::DentryFlags::DIRECTORY()) && node.inode is Some {
        let (after, n) = choose|after: Seq<u8>, n: (usize, usize)| #[trigger]
            node.inode->0.getdents_answer(f.pos, bytes::zeros(count), after, n) && r == Ok::<
                Seq<u8>,
                Errno,
            >(after.take(n.0 as int)) && s2 == server::repositioned(s, pid, fd, n.1);
        assert(is_open(s2, pid, fd, File { pos: n.1, ..f }));
    }
}

/// A path whose entries are all cached is told the status that the inode at its end
/// tells; where no file stands there, the answer is ENOENT.
pub proof fn law_status_of_a_path<I: InodeOp>(
    s: ServerModel<I>,
    s2: ServerModel<I>,
    ids: Seq<usize>,
    p: Seq<char>,
    r: Result<Kstat, Errno>,
)
    requires
        ids.len() == path::components(p).len() + 1,
        ids[0] == s.root,
        forall|k: int|
            0 <= k < path::components(p).len() ==> {
                &&& s.cache.nodes[#[trigger] ids[k]].children.contains_key(path::components(p)[k])
                &&& s.cache.nodes[ids[k]].children[path::components(p)[k]] == ids[k + 1]
                &&& s.cache.nodes.contains_key(ids[k + 1])
            },
        server::stat_outcome(s, s2, p, r),
    ensures
        s2.tables == s.tables,
        s.cache.nodes[ids.last()].inode matches Some(i) ==> r is Ok && i.stat_answer(r->Ok_0),
        s.cache.nodes[ids.last()].inode is None ==> r == Err::<Kstat, Errno>(Errno::ENOENT),
{
    let (b, w) = choose|b: Cache<I>, w: Result<(usize, usize), Errno>| #[trigger]
        server::walked(s.cache, s.root, path::components(p), b, w) && s2 == s.with_cache(
            server::settled(b, s.cache.next, None),
        ) && match w {
            Err(e) => r == Err::<Kstat, Errno>(e),
            Ok(q) => match b.nodes[q.0].inode {
                Some(i) => r is Ok && i.stat_answer(r->Ok_0),
                None => r == Err::<Kstat, Errno>(Errno::ENOENT),
            },
        };
    law_cached_path(s.cache, ids, path::components(p), b, w);
}

} // verus!
