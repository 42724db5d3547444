//! File system calls.
//!
//! A call that needs the kernel or the file system server returns what it asks
//! of them; the matching `finish_..` function turns the answer into the result
//! of the call.
use vstd::prelude::*;
use vstd::string::*;
use crate::bytes;
use crate::fs::protocol;
use crate::linux::console;
use crate::linux::console::{IoctlModel, IoctlStep, ICANON};
use crate::linux::errno::{failure, is_failure, EBADF, EINVAL, EIO, EMFILE, ENOTTY};
use crate::linux::fd_table;
use crate::linux::fd_table::{FdEntry, FdKind};
use crate::linux::task;
use crate::linux::task::TaskStruct;
use crate::search;
use crate::text;

verus! {

pub const O_RDONLY: u32 = 0x0000;

pub const O_WRONLY: u32 = 0x0001;

pub const O_RDWR: u32 = 0x0002;

pub const O_CREAT: u32 = 0x0040;

pub const O_TRUNC: u32 = 0x0200;

pub const O_APPEND: u32 = 0x0400;

/// Most bytes that one read or write moves.
pub open spec fn chunk(count: u64) -> u64 {
    if count < 4096 {
        count
    } else {
        4096
    }
}

fn chunk_of(count: u64) -> (r: u64)
    ensures
        r == chunk(count),
{
    if count < 4096 {
        count
    } else {
        4096
    }
}

/// The result of a call that asked the file system server for a number.
pub open spec fn file_result(r: Result<u64, i64>) -> u64 {
    match r {
        Ok(n) => n,
        Err(e) => protocol::unsigned(protocol::negated(e as int)) as u64,
    }
}

/// The result of a call that asked the file system server for a number.
pub fn finish_file(r: Result<u64, i64>) -> (n: u64)
    ensures
        n == file_result(r),
{
    match r {
        Ok(n) => n,
        Err(e) => {
            if e == i64::MIN {
                protocol::to_unsigned(e)
            } else {
                protocol::to_unsigned(-e)
            }
        },
    }
}

// ---------------------------------------------------------------------------
// write, writev
// ---------------------------------------------------------------------------

/// What a write asks for.
#[derive(Debug, Clone, Copy, PartialEq, Eq, Structural)]
pub enum WriteStep {
    /// The result.
    Done(u64),
    /// Write the first `len` bytes to the console.
    Console { len: u64 },
    /// Have the first `len` bytes written to a file.
    File { fid: u64, len: u64 },
}

/// What a write asks for.  Descriptors 1 and 2 always write to the console, and
/// descriptor 0 never does.
pub open spec fn write_step(t: Seq<FdEntry>, fd: u64, count: u64) -> WriteStep {
    if fd == 0 {
        WriteStep::Done(failure(EBADF))
    } else if fd <= 2 {
        WriteStep::Console { len: chunk(count) }
    } else {
        match fd_table::fid_at(t, fd as int) {
            Some(fid) => WriteStep::File { fid, len: chunk(count) },
            None => WriteStep::Done(failure(EBADF)),
        }
    }
}

/// write(fd, buf, count)
pub fn sys_write(task: &TaskStruct, fd: u64, count: u64) -> (r: WriteStep)
    ensures
        r == write_step(task.fd_table@, fd, count),
{
    if fd == 0 {
        WriteStep::Done(failure(EBADF))
    } else if fd <= 2 {
        WriteStep::Console { len: chunk_of(count) }
    } else {
        match task.fd_table.get_fid(fd) {
            Some(fid) => WriteStep::File { fid, len: chunk_of(count) },
            None => WriteStep::Done(failure(EBADF)),
        }
    }
}

/// The result of a write to the console.
pub fn finish_console_write(ret: i64) -> (r: u64)
    ensures
        r == (if ret < 0 {
            failure(EIO)
        } else {
            ret as u64
        }),
{
    if ret < 0 {
        failure(EIO)
    } else {
        ret as u64
    }
}

/// writev(fd, iov, iovcnt): add the result of one write to the total; an error
/// ends the call with that error.
pub fn sys_writev(total: u64, n: u64) -> (r: Result<u64, u64>)
    requires
        !is_failure(n) ==> total + n <= u64::MAX,
    ensures
        r == (if is_failure(n) {
            Err::<u64, u64>(n)
        } else {
            Ok((total + n) as u64)
        }),
{
    if n >= 0x8000_0000_0000_0000 {
        Err(n)
    } else {
        Ok(total + n)
    }
}

// ---------------------------------------------------------------------------
// read
// ---------------------------------------------------------------------------

/// What a read asks for.
pub enum ReadStep {
    /// The result.
    Done(u64),
    /// Deliver these bytes; their number is the result.
    Deliver(Vec<u8>),
    /// Read a line from the console and edit it.
    Line,
    /// Read up to `len` bytes from the console as they come.
    Raw { len: u64 },
    /// Have up to `len` bytes read from a file.
    File { fid: u64, len: u64 },
}

/// Mathematical content of a `ReadStep`.
pub enum ReadModel {
    Done(u64),
    Deliver(Seq<u8>),
    Line,
    Raw { len: u64 },
    File { fid: u64, len: u64 },
}

impl View for ReadStep {
    type V = ReadModel;

    open spec fn view(&self) -> ReadModel {
        match self {
            ReadStep::Done(r) => ReadModel::Done(*r),
            ReadStep::Deliver(b) => ReadModel::Deliver(b@),
            ReadStep::Line => ReadModel::Line,
            ReadStep::Raw { len } => ReadModel::Raw { len: *len },
            ReadStep::File { fid, len } => ReadModel::File { fid: *fid, len: *len },
        }
    }
}

/// What a read asks for.
pub open spec fn read_step(t: TaskStruct, fd: u64, count: u64) -> ReadModel {
    let pending = task::pending_of(t);
    match fd_table::kind_at(t.fd_table@, fd as int) {
        Some(FdKind::Console) => if count == 0 {
            ReadModel::Done(0)
        } else if console::lflag(t.termios@) & ICANON == 0 {
            ReadModel::Raw { len: chunk(count) }
        } else if pending.len() > 0 {
            ReadModel::Deliver(pending.take(console::deliverable(pending, count as int)))
        } else {
            ReadModel::Line
        },
        Some(FdKind::File(fid)) => ReadModel::File { fid, len: chunk(count) },
        _ => ReadModel::Done(failure(EBADF)),
    }
}

/// read(fd, buf, count)
pub fn sys_read(task: &mut TaskStruct, fd: u64, count: u64) -> (r: ReadStep)
    requires
        old(task).wf(),
    ensures
        final(task).wf(),
        r@ == read_step(*old(task), fd, count),
        match r@ {
            ReadModel::Deliver(b) => {
                &&& task::pending_of(*final(task)) == task::pending_of(*old(task)).skip(
                    b.len() as int,
                )
                &&& *final(task) == (TaskStruct { line_pos: final(task).line_pos, ..*old(task) })
            },
            _ => *final(task) == *old(task),
        },
{
    match task.fd_table.get(fd) {
        Some(FdKind::Console) => {
            if count == 0 {
                return ReadStep::Done(0);
            }
            if console::termios_lflag(&task.termios) & ICANON == 0 {
                return ReadStep::Raw { len: chunk_of(count) };
            }
            match console::deliver_pending(task, count) {
                Some(b) => ReadStep::Deliver(b),
                None => ReadStep::Line,
            }
        },
        Some(FdKind::File(fid)) => ReadStep::File { fid, len: chunk_of(count) },
        _ => ReadStep::Done(failure(EBADF)),
    }
}

// ---------------------------------------------------------------------------
// openat, close
// ---------------------------------------------------------------------------

/// Most bytes of a path.
pub const PATH_MAX: usize = 256;

/// The path that a program means: its bytes up to a zero, at most 256; bytes
/// that are not text stand for the root.
pub open spec fn meant_path(raw: Seq<u8>) -> Seq<u8> {
    let p = protocol::until_zero(if raw.len() > 256 {
        raw.take(256)
    } else {
        raw
    });
    if vstd::utf8::valid_utf8(p) {
        p
    } else {
        seq![47u8]
    }
}

/// openat(dirfd, path, flags, mode): the path to open.
pub fn sys_openat(raw: &[u8]) -> (r: Vec<u8>)
    ensures
        r@ == meant_path(raw@),
{
    let n: usize = if raw.len() > PATH_MAX {
        PATH_MAX
    } else {
        raw.len()
    };
    let part = vstd::slice::slice_subrange(raw, 0, n);
    assert(part@ =~= raw@.take(n as int));
    assert(raw@.take(raw@.len() as int) =~= raw@);
    let path = protocol::bytes_until_zero(part, 0);
    assert(part@.skip(0) =~= part@);
    if text::is_text(path.as_slice()) {
        path
    } else {
        let root: Vec<u8> = vec![47u8];
        assert(root@ =~= seq![47u8]);
        root
    }
}

/// Take what the file system server answered to a request to open: the result,
/// and a file that has to be closed because no descriptor is left.
pub fn finish_openat(task: &mut TaskStruct, answer: Result<u64, i64>, flags: u32) -> (r: (
    u64,
    Option<u64>,
))
    ensures
        final(task).fd_table@ == (match answer {
            Ok(fid) => fd_table::taken(old(task).fd_table@, FdKind::File(fid), flags).0,
            Err(_) => old(task).fd_table@,
        }),
        r == (match answer {
            Ok(fid) => match fd_table::taken(old(task).fd_table@, FdKind::File(fid), flags).1 {
                Some(fd) => (fd as u64, None::<u64>),
                None => (failure(EMFILE), Some(fid)),
            },
            Err(_) => (file_result(answer), None),
        }),
        *final(task) == (TaskStruct { fd_table: final(task).fd_table, ..*old(task) }),
{
    match answer {
        Ok(fid) => match task.fd_table.alloc_file(fid, flags) {
            Some(fd) => (fd as u64, None),
            None => (failure(EMFILE), Some(fid)),
        },
        Err(_) => (finish_file(answer), None),
    }
}

/// close(fd): the result, and a file that the file system server is to close.
pub fn sys_close(task: &mut TaskStruct, fd: u64) -> (r: (u64, Option<u64>))
    ensures
        final(task).fd_table@ == fd_table::closed(old(task).fd_table@, fd as int),
        r == (match fd_table::kind_at(old(task).fd_table@, fd as int) {
            Some(FdKind::Console) => (0u64, None::<u64>),
            Some(FdKind::File(fid)) => (0, Some(fid)),
            _ => (failure(EBADF), None),
        }),
        *final(task) == (TaskStruct { fd_table: final(task).fd_table, ..*old(task) }),
{
    match task.fd_table.close_kind(fd) {
        Some(FdKind::Console) => (0, None),
        Some(FdKind::File(fid)) => (0, Some(fid)),
        _ => (failure(EBADF), None),
    }
}

/// ioctl(fd, request, arg)
pub fn sys_ioctl(task: &TaskStruct, fd: u64, request: u64, arg: u64) -> (r: IoctlStep)
    ensures
        r@ == (match fd_table::kind_at(task.fd_table@, fd as int) {
            Some(FdKind::Console) => console::ioctl_step(task.termios@, task.pid, request, arg),
            _ => IoctlModel::Done(failure(ENOTTY)),
        }),
{
    match task.fd_table.get(fd) {
        Some(FdKind::Console) => console::console_ioctl(task, request, arg),
        _ => IoctlStep::Done(failure(ENOTTY)),
    }
}

// ---------------------------------------------------------------------------
// fstat, lseek
// ---------------------------------------------------------------------------

/// The metadata of the console: a character device.
pub open spec fn console_stat() -> Seq<u8> {
    let s1 = bytes::splice(bytes::zeros(128), 16, bytes::enc32(0x2000int + 0o620));
    let s2 = bytes::splice(s1, 20, bytes::enc32(1));
    let s3 = bytes::splice(s2, 32, bytes::enc64(5int * 256 + 1));
    bytes::splice(s3, 56, bytes::enc32(1024))
}

/// The metadata of a file of this size.
pub open spec fn file_stat(size: u64) -> Seq<u8> {
    let s1 = bytes::splice(bytes::zeros(128), 16, bytes::enc32(0x8000int + 0o644));
    let s2 = bytes::splice(s1, 20, bytes::enc32(1));
    let s3 = bytes::splice(s2, 48, bytes::enc64(size as int));
    bytes::splice(s3, 56, bytes::enc32(4096))
}

/// What fstat asks for.
pub enum StatStep {
    /// The result.
    Done(u64),
    /// Store these bytes; then the result is 0.
    Store(Vec<u8>),
    /// Ask for the size of a file.
    File { fid: u64 },
}

/// Mathematical content of a `StatStep`.
pub enum StatModel {
    Done(u64),
    Store(Seq<u8>),
    File { fid: u64 },
}

impl View for StatStep {
    type V = StatModel;

    open spec fn view(&self) -> StatModel {
        match self {
            StatStep::Done(r) => StatModel::Done(*r),
            StatStep::Store(b) => StatModel::Store(b@),
            StatStep::File { fid } => StatModel::File { fid: *fid },
        }
    }
}

/// fstat(fd, statbuf)
pub fn sys_fstat(task: &TaskStruct, fd: u64) -> (r: StatStep)
    ensures
        r@ == (match fd_table::kind_at(task.fd_table@, fd as int) {
            Some(FdKind::Console) => StatModel::Store(console_stat()),
            Some(FdKind::File(fid)) => StatModel::File { fid },
            _ => StatModel::Done(failure(EBADF)),
        }),
{
    match task.fd_table.get(fd) {
        Some(FdKind::Console) => {
            let mut b: Vec<u8> = vec![0u8;128];
            assert(b@ =~= bytes::zeros(128));
            bytes::put_u32(b.as_mut_slice(), 16, 0x2000 + 0o620);
            bytes::put_u32(b.as_mut_slice(), 20, 1);
            bytes::put_u64(b.as_mut_slice(), 32, 5 * 256 + 1);
            bytes::put_u32(b.as_mut_slice(), 56, 1024);
            StatStep::Store(b)
        },
        Some(FdKind::File(fid)) => StatStep::File { fid },
        _ => StatStep::Done(failure(EBADF)),
    }
}

/// Take what the file system server said of the size of a file.
pub fn finish_fstat(answer: Result<u64, i64>) -> (r: StatStep)
    ensures
        r@ == (match answer {
            Ok(size) => StatModel::Store(file_stat(size)),
            Err(_) => StatModel::Done(file_result(answer)),
        }),
{
    match answer {
        Ok(size) => {
            let mut b: Vec<u8> = vec![0u8;128];
            assert(b@ =~= bytes::zeros(128));
            bytes::put_u32(b.as_mut_slice(), 16, 0x8000 + 0o644);
            bytes::put_u32(b.as_mut_slice(), 20, 1);
            bytes::put_u64(b.as_mut_slice(), 48, size);
            bytes::put_u32(b.as_mut_slice(), 56, 4096);
            StatStep::Store(b)
        },
        Err(_) => StatStep::Done(finish_file(answer)),
    }
}

/// What lseek asks for.
#[derive(Debug, Clone, Copy, PartialEq, Eq, Structural)]
pub enum SeekStep {
    /// The result.
    Done(u64),
    /// Have a file moved to another position.
    File { fid: u64, offset: i64, whence: u8 },
}

/// lseek(fd, offset, whence)
pub fn sys_lseek(task: &TaskStruct, fd: u64, offset: i64, whence: u64) -> (r: SeekStep)
    ensures
        r == (match fd_table::fid_at(task.fd_table@, fd as int) {
            Some(fid) => SeekStep::File { fid, offset, whence: (whence % 256) as u8 },
            None => SeekStep::Done(failure(EBADF)),
        }),
{
    match task.fd_table.get_fid(fd) {
        Some(fid) => SeekStep::File { fid, offset, whence: (whence % 256) as u8 },
        None => SeekStep::Done(failure(EBADF)),
    }
}

// ---------------------------------------------------------------------------
// dup, fcntl
// ---------------------------------------------------------------------------

/// dup(oldfd): the same descriptor, if it is open.
pub fn sys_dup(task: &TaskStruct, oldfd: u64) -> (r: u64)
    ensures
        r == (if fd_table::kind_at(task.fd_table@, oldfd as int) is Some {
            oldfd
        } else {
            failure(EBADF)
        }),
{
    if task.fd_table.get(oldfd).is_some() {
        oldfd
    } else {
        failure(EBADF)
    }
}

/// The lowest descriptor at or above `from` that is free.
pub open spec fn free_from(t: Seq<FdEntry>, from: int) -> Option<int> {
    search::first_index(t, fd_table::is_free(), from)
}

/// Duplicate a descriptor.  The result is the lowest free descriptor at or above
/// `from`; the entry itself goes to the lowest free one of all.
pub open spec fn dup_from(t: Seq<FdEntry>, fd: int, from: int) -> (Seq<FdEntry>, u64) {
    match fd_table::kind_at(t, fd) {
        None => (t, failure(EBADF)),
        Some(kind) => match free_from(t, from) {
            None => (t, failure(EMFILE)),
            Some(new) => (
                fd_table::taken(
                    t,
                    match fd_table::fid_at(t, fd) {
                        Some(fid) => FdKind::File(fid),
                        None => FdKind::Console,
                    },
                    0,
                ).0,
                new as u64,
            ),
        },
    }
}

/// fcntl(fd, cmd, arg)
pub fn sys_fcntl(task: &mut TaskStruct, fd: u64, cmd: u64, arg: u64) -> (r: u64)
    ensures
        *final(task) == (TaskStruct { fd_table: final(task).fd_table, ..*old(task) }),
        ({
            let t = old(task).fd_table@;
            if cmd == 0 {
                (final(task).fd_table@, r) == dup_from(t, fd as int, arg as int)
            } else {
                &&& final(task).fd_table@ == t
                &&& r == (if cmd == 1 || cmd == 2 || cmd == 4 {
                    0u64
                } else if cmd == 3 {
                    if fd_table::kind_at(t, fd as int) is Some {
                        0
                    } else {
                        failure(EBADF)
                    }
                } else {
                    failure(EINVAL)
                })
            }
        }),
{
    if cmd == 0 {
        if task.fd_table.get(fd).is_none() {
            return failure(EBADF);
        }
        proof {
            task.fd_table.lemma_len();
        }
        let ghost t = task.fd_table@;
        let mut new: u64 = arg;
        while new < 256
            invariant
                *task == *old(task),
                t == task.fd_table@,
                t.len() == 256,
                arg <= new,
                fd_table::kind_at(t, fd as int) is Some,
                cmd == 0,
                t == old(task).fd_table@,
                free_from(t, arg as int) == free_from(t, new as int),
            decreases 256 - new,
        {
            if task.fd_table.get(new).is_none() {
                match task.fd_table.get_fid(fd) {
                    Some(fid) => {
                        task.fd_table.alloc_file(fid, 0);
                    },
                    None => {
                        task.fd_table.alloc_kind(FdKind::Console, 0);
                    },
                }
                return new;
            }
            new += 1;
        }
        return failure(EMFILE);
    }
    if cmd == 1 || cmd == 2 || cmd == 4 {
        0
    } else if cmd == 3 {
        if task.fd_table.get(fd).is_some() {
            0
        } else {
            failure(EBADF)
        }
    } else {
        failure(EINVAL)
    }
}

} // verus!
