//! The requests of the file system server.
use vstd::prelude::*;
use vstd::string::*;
use crate::bytes;
use crate::fs::file;
use crate::fs::inode::InodeOp;
use crate::fs::path;
use crate::fs::protocol;
use crate::fs::protocol::{FsReply, FsRequest, ReplyModel, RequestModel};
use crate::fs::server;
use crate::fs::server::{FsServer, ServerModel};
use crate::fs::tables;
use crate::fs::types::{Errno, Kstat, OpenFlags, SeekWhence};
use crate::text;

verus! {

/// The text of a path; bytes that are not text stand for the root.
pub open spec fn path_text(b: Seq<u8>) -> Seq<char> {
    if vstd::utf8::valid_utf8(b) {
        vstd::utf8::decode_utf8(b)
    } else {
        seq!['/']
    }
}

/// The reply with a number, or with an error.
pub open spec fn value_reply(r: Result<usize, Errno>) -> ReplyModel {
    match r {
        Ok(v) => ReplyModel::Value(v as int),
        Err(e) => ReplyModel::Failed(e),
    }
}

/// How many bytes a read request is given: as many as it asks for, up to what
/// fits into a reply.
pub open spec fn read_limit(count: int) -> int {
    if count < 48 {
        count
    } else {
        48
    }
}

/// A request to open may be answered `reply`.
pub open spec fn open_handled<I: InodeOp>(
    s: ServerModel<I>,
    s2: ServerModel<I>,
    p: Seq<char>,
    flags: u32,
    reply: ReplyModel,
) -> bool {
    exists|r: Result<usize, Errno>| #[trigger]
        server::opened(s, s2, p, 0, OpenFlags(flags), r) && reply == value_reply(r)
}

/// A request for metadata may be answered `reply`: with the size of the file.
pub open spec fn fstat_handled<I: InodeOp>(s: ServerModel<I>, fd: int, reply: ReplyModel) -> bool {
    exists|r: Result<Kstat, Errno>| #[trigger]
        server::fstat_outcome(s, 0, fd, r) && reply == (match r {
            Ok(st) => ReplyModel::Value(st.size as int),
            Err(e) => ReplyModel::Failed(e),
        })
}

/// A request to move may be answered `reply`.
pub open spec fn seek_handled<I: InodeOp>(
    s: ServerModel<I>,
    s2: ServerModel<I>,
    fd: int,
    offset: i64,
    whence: SeekWhence,
    reply: ReplyModel,
) -> bool {
    exists|r: Result<usize, Errno>| #[trigger]
        server::seek_outcome(s, s2, 0, fd, offset, whence, r) && reply == value_reply(r)
}

/// A request to write may be answered `reply`.
pub open spec fn write_handled<I: InodeOp>(
    s: ServerModel<I>,
    s2: ServerModel<I>,
    fd: int,
    data: Seq<u8>,
    reply: ReplyModel,
) -> bool {
    exists|r: Result<usize, Errno>| #[trigger]
        server::write_outcome(s, s2, 0, fd, data, r) && reply == value_reply(r)
}

/// A request may take the server from `s` to `s2` and be answered `reply`.  All
/// requests share one descriptor table.
pub open spec fn handled<I: InodeOp>(
    s: ServerModel<I>,
    s2: ServerModel<I>,
    req: RequestModel,
    reply: ReplyModel,
) -> bool {
    match req {
        RequestModel::Empty => s2 == s && reply == ReplyModel::Nothing,
        RequestModel::Unknown => s2 == s && reply == ReplyModel::Failed(Errno::ENOSYS),
        RequestModel::Open { flags, path } => open_handled(
            s,
            s2,
            path_text(path),
            flags,
            reply,
        ),
        RequestModel::Read { fd, count } => match reply {
            ReplyModel::Data(d) => server::read_new_outcome(
                s,
                s2,
                0,
                fd,
                read_limit(count),
                Ok(d),
            ),
            ReplyModel::Failed(e) => server::read_new_outcome(
                s,
                s2,
                0,
                fd,
                read_limit(count),
                Err(e),
            ),
            _ => false,
        },
        RequestModel::Close { fd } => {
            &&& s2 == server::close_outcome(s, 0, fd).0
            &&& reply == (match server::close_outcome(s, 0, fd).1 {
                Ok(_) => ReplyModel::Done,
                Err(e) => ReplyModel::Failed(e),
            })
        },
        RequestModel::Fstat { fd } => s2 == s && fstat_handled(s, fd, reply),
        RequestModel::Lseek { fd, offset, whence } => seek_handled(
            s,
            s2,
            fd,
            offset,
            whence,
            reply,
        ),
        RequestModel::Write { fd, data } => write_handled(s, s2, fd, data, reply),
    }
}

/// There are numbers left for the entries that a request can add to the cache.
pub open spec fn room_for<I>(s: ServerModel<I>, req: RequestModel) -> bool {
    match req {
        RequestModel::Open { flags, path } => s.cache.next + path::components(
            path_text(path),
        ).len() <= usize::MAX,
        _ => true,
    }
}

/// A descriptor as an index; those that no table has are all the same.
fn index_of(fd: u64) -> (r: usize)
    ensures
        r == (if fd < 256 {
            fd as int
        } else {
            256
        }),
{
    if fd < 256 {
        fd as usize
    } else {
        256
    }
}

proof fn lemma_no_file<I: InodeOp>(s: ServerModel<I>, fd: int)
    requires
        tables::sized(s.tables),
        fd >= 256,
    ensures
        tables::file_of(s.tables, 0, fd) is None,
{
}

impl<I: InodeOp> FsServer<I> {
    /// Carry out a request.
    pub fn handle(&mut self, req: &FsRequest) -> (reply: FsReply)
        requires
            old(self).wf(),
            old(self)@.tidy(),
            room_for(old(self)@, req@),
        ensures
            final(self).wf(),
            final(self)@.tidy(),
            handled(old(self)@, final(self)@, req@, reply@),
            reply@ is Data ==> reply@->Data_0.len() <= 48,
    {
        proof {
            self.lemma_sized();
        }
        let ghost s0 = self@;
        match req {
            FsRequest::Empty => FsReply::Nothing,
            FsRequest::Unknown => FsReply::Failed(Errno::ENOSYS),
            FsRequest::Open { flags, path } => {
                proof {
                    reveal_strlit("/");
                    assert("/"@ =~= seq!['/']);
                    if vstd::utf8::valid_utf8(path@) {
                        vstd::utf8::decode_utf8_encode_utf8(path@);
                    }
                }
                let name = text::text_or(path.as_slice(), "/");
                proof {
                    vstd::utf8::encode_utf8_decode_utf8(name@);
                    assert(name@ == path_text(path@));
                }
                let ghost s = self@;
                let r = self.open(0, name, OpenFlags::from_raw(*flags), 0);
                assert(server::opened(s, self@, path_text(path@), 0, OpenFlags(*flags), r));
                let reply = match r {
                    Ok(fd) => FsReply::Value(fd as u64),
                    Err(e) => FsReply::Failed(e),
                };
                assert(open_handled(s0, self@, path_text(path@), *flags, reply@));
                assert(handled(s0, self@, req@, reply@));
                reply
            },
            FsRequest::Read { fd, count } => {
                let n: usize = if *count < 48 {
                    *count as usize
                } else {
                    48
                };
                let i: usize = index_of(*fd);
                proof {
                    if *fd >= 256 {
                        lemma_no_file(self@, *fd as int);
                        lemma_no_file(self@, 256);
                    }
                }
                let ghost s = self@;
                assert(n == read_limit(*count as int));
                match self.read(0, i, n) {
                    Ok(data) => {
                        assert(server::read_new_outcome(
                            s,
                            self@,
                            0,
                            *fd as int,
                            read_limit(*count as int),
                            Ok(data@),
                        )) by {
                            reveal(server::read_new_outcome);
                        }
                        let reply = FsReply::Data(data);
                        assert(handled(s0, self@, req@, reply@));
                        reply
                    },
                    Err(e) => {
                        assert(server::read_new_outcome(
                            s,
                            self@,
                            0,
                            *fd as int,
                            read_limit(*count as int),
                            Err(e),
                        )) by {
                            reveal(server::read_new_outcome);
                        }
                        let reply = FsReply::Failed(e);
                        assert(handled(s0, self@, req@, reply@));
                        reply
                    },
                }
            },
            FsRequest::Close { fd } => {
                let i: usize = index_of(*fd);
                proof {
                    if *fd >= 256 {
                        lemma_no_file(self@, *fd as int);
                        lemma_no_file(self@, 256);
                    }
                }
                match self.close(0, i) {
                    Ok(_) => FsReply::Done,
                    Err(e) => FsReply::Failed(e),
                }
            },
            FsRequest::Fstat { fd } => {
                let i: usize = index_of(*fd);
                proof {
                    if *fd >= 256 {
                        lemma_no_file(self@, *fd as int);
                        lemma_no_file(self@, 256);
                    }
                }
                let r = self.fstat(0, i);
                assert(server::fstat_outcome(self@, 0, *fd as int, r));
                let reply = match r {
                    Ok(st) => FsReply::Value(st.size),
                    Err(e) => FsReply::Failed(e),
                };
                assert(handled(s0, self@, req@, reply@));
                reply
            },
            FsRequest::Lseek { fd, offset, whence } => {
                let i: usize = index_of(*fd);
                let ghost s = self@;
                proof {
                    if *fd >= 256 {
                        lemma_no_file(self@, *fd as int);
                        lemma_no_file(self@, 256);
                    }
                }
                let r = self.lseek(0, i, *offset, *whence);
                assert(server::seek_outcome(s, self@, 0, *fd as int, *offset, *whence, r));
                let reply = match r {
                    Ok(pos) => FsReply::Value(pos as u64),
                    Err(e) => FsReply::Failed(e),
                };
                assert(handled(s0, self@, req@, reply@));
                reply
            },
            FsRequest::Write { fd, data } => {
                let i: usize = index_of(*fd);
                let ghost s = self@;
                proof {
                    if *fd >= 256 {
                        lemma_no_file(self@, *fd as int);
                        lemma_no_file(self@, 256);
                    }
                }
                let r = self.write(0, i, data.as_slice());
                assert(server::write_outcome(s, self@, 0, *fd as int, data@, r));
                let reply = match r {
                    Ok(n) => FsReply::Value(n as u64),
                    Err(e) => FsReply::Failed(e),
                };
                assert(handled(s0, self@, req@, reply@));
                reply
            },
        }
    }

    /// Carry out a single request and return the bytes of the reply.
    pub fn dispatch(&mut self, req: &[u8]) -> (r: Vec<u8>)
        requires
            old(self).wf(),
            old(self)@.tidy(),
            req@.len() == 1 ==> req@[0] != protocol::OP_OPEN,
            room_for(old(self)@, protocol::decoded(req@)),
        ensures
            final(self).wf(),
            final(self)@.tidy(),
            exists|reply: ReplyModel| #[trigger]
                handled(old(self)@, final(self)@, protocol::decoded(req@), reply) && r@
                    == protocol::encoded(reply),
    {
        let request = protocol::decode(req);
        let reply = self.handle(&request);
        protocol::encode(&reply)
    }
}

} // verus!
