//! What the system calls of a program have to do with each other and with what
//! the program asked for.
use vstd::prelude::*;
use crate::bytes;
use crate::fs::protocol;
use crate::linux::console;
use crate::linux::console::{IoctlModel, LineEvent};
use crate::linux::fd_table;
use crate::linux::fd_table::{FdEntry, FdKind};
use crate::linux::fs;
use crate::linux::fs::{ReadModel, WriteStep};
use crate::linux::proc;
use crate::linux::proc::WaitStep;
use crate::linux::start;
use crate::linux::start::BootInfo;
use crate::linux::syscall;
use crate::linux::syscall::Call;
use crate::linux::task;
use crate::linux::task::TaskStruct;
use crate::search;

verus! {

/// The number by which a program asks for a call.
pub open spec fn number_of(c: Call) -> u64 {
    match c {
        Call::Getcwd => 17,
        Call::Ioctl => 29,
        Call::Openat => 56,
        Call::Close => 57,
        Call::Read => 63,
        Call::Write => 64,
        Call::Writev => 66,
        Call::Fstat => 80,
        Call::Exit => 93,
        Call::ExitGroup => 94,
        Call::SetTidAddress => 96,
        Call::Uname => 160,
        Call::Getpid => 172,
        Call::Getuid => 174,
        Call::Geteuid => 175,
        Call::Getgid => 176,
        Call::Getegid => 177,
        Call::Brk => 214,
        Call::Munmap => 215,
        Call::Mmap => 222,
        Call::Getrandom => 278,
    }
}

/// Every call is reached by its number, and by no other.
pub proof fn law_calls_by_number(nr: u64, c: Call)
    ensures
        syscall::call_of(nr) == Some(c) <==> nr == number_of(c),
{
}

/// One read or write moves all bytes of a request up to a page, and a page of a
/// larger one.
pub proof fn law_chunks(count: u64)
    ensures
        fs::chunk(count) <= count,
        fs::chunk(count) <= 4096,
        fs::chunk(count) == count || fs::chunk(count) == 4096,
{
}

/// A write goes where its descriptor leads: 1 and 2 to the console, one of a file
/// to that file, and any other fails with EBADF.  As much is written as one
/// request moves.
pub proof fn law_write_goes_to_its_file(t: Seq<FdEntry>, fd: u64, count: u64)
    ensures
        fd == 1 || fd == 2 <==> fs::write_step(t, fd, count) is Console,
        fd > 2 && fd < t.len() && t[fd as int].kind is File <==> fs::write_step(t, fd, count) is File,
        match fs::write_step(t, fd, count) {
            WriteStep::Console { len } => len <= count && len <= 4096 && (len == count || len == 4096),
            WriteStep::File { fid, len } => {
                &&& t[fd as int].kind == FdKind::File(fid)
                &&& len <= count && len <= 4096 && (len == count || len == 4096)
            },
            WriteStep::Done(r) => r as int == 0x1_0000_0000_0000_0000 - 9,
        },
{
}

/// A read comes from where its descriptor leads: a file is asked for as many bytes
/// as one request moves; the console delivers what is left of a line, in order
/// and no more than asked for, or asks for input; other descriptors fail with
/// EBADF.
pub proof fn law_read_comes_from_its_file(t: TaskStruct, fd: u64, count: u64)
    ensures
        ({
            let e = t.fd_table@;
            let known = fd < e.len();
            &&& known && e[fd as int].kind is File <==> fs::read_step(t, fd, count) is File
            &&& match fs::read_step(t, fd, count) {
                ReadModel::File { fid, len } => {
                    &&& e[fd as int].kind == FdKind::File(fid)
                    &&& len <= count && len <= 4096 && (len == count || len == 4096)
                },
                ReadModel::Deliver(b) => {
                    &&& e[fd as int].kind is Console
                    &&& 0 < b.len() <= count
                    &&& b.is_prefix_of(task::pending_of(t))
                    &&& b.len() == count || b == task::pending_of(t)
                },
                ReadModel::Line => e[fd as int].kind is Console && count > 0 && task::pending_of(
                    t,
                ).len() == 0,
                ReadModel::Raw { len } => {
                    &&& e[fd as int].kind is Console
                    &&& 0 < len <= count && len <= 4096 && (len == count || len == 4096)
                },
                ReadModel::Done(r) => {
                    ||| known && e[fd as int].kind is Console && count == 0 && r == 0
                    ||| !(known && (e[fd as int].kind is Console || e[fd as int].kind is File)) && r as int
                        == 0x1_0000_0000_0000_0000 - 9
                },
            }
        }),
{
    let pending = task::pending_of(t);
    let n = console::deliverable(pending, count as int);
    assert(pending.take(n).is_prefix_of(pending)) by {
        assert(pending.take(n) =~= pending.subrange(0, n));
    }
    if n == pending.len() {
        assert(pending.take(n) =~= pending);
    }
}

/// The path of a program is read up to the zero behind it.
pub proof fn law_path_is_read(path: Seq<u8>, rest: Seq<u8>)
    requires
        path.len() < 256,
        vstd::utf8::valid_utf8(path),
        forall|i: int| 0 <= i < path.len() ==> path[i] != 0,
    ensures
        fs::meant_path(path + seq![0u8] + rest) == path,
{
    let raw = path + seq![0u8] + rest;
    let used = if raw.len() > 256 {
        raw.take(256)
    } else {
        raw
    };
    let tail = used.skip(path.len() as int + 1);
    assert(used =~= path + seq![0u8] + tail);
    lemma_until_zero(path, tail);
}

proof fn lemma_until_zero(path: Seq<u8>, rest: Seq<u8>)
    requires
        forall|i: int| 0 <= i < path.len() ==> path[i] != 0,
    ensures
        protocol::until_zero(path + seq![0u8] + rest) == path,
    decreases path.len(),
{
    let raw = path + seq![0u8] + rest;
    if path.len() == 0 {
        assert(raw[0] == 0);
        assert(protocol::until_zero(raw) =~= path);
    } else {
        let p = path.drop_first();
        lemma_until_zero(p, rest);
        assert(raw.drop_first() =~= p + seq![0u8] + rest);
        assert(raw[0] == path[0]);
        assert(seq![path[0]] + p =~= path);
    }
}

/// A number from the server is the result; an error is its negative.
pub proof fn law_file_results(n: u64, e: i64)
    requires
        0 < e,
    ensures
        fs::file_result(Ok(n)) == n,
        fs::file_result(Err(e)) as int == 0x1_0000_0000_0000_0000 - e,
{
}

/// The metadata of a file holds its size, one link, and the mode of a regular
/// file; that of the console has the mode of a character device.
pub proof fn law_stat_bytes(size: u64)
    ensures
        fs::file_stat(size).len() == 128,
        bytes::le64(fs::file_stat(size), 48) == size,
        bytes::le32(fs::file_stat(size), 16) == 0o100644,
        bytes::le32(fs::file_stat(size), 20) == 1,
        fs::console_stat().len() == 128,
        bytes::le32(fs::console_stat(), 16) == 0o20620,
        bytes::le64(fs::console_stat(), 48) == 0,
{
    let f1 = bytes::splice(bytes::zeros(128), 16, bytes::enc32(0x8000int + 0o644));
    let f2 = bytes::splice(f1, 20, bytes::enc32(1));
    let f3 = bytes::splice(f2, 48, bytes::enc64(size as int));
    let f4 = fs::file_stat(size);
    lemma_field(bytes::zeros(128), 16, bytes::enc32(0x8000int + 0o644));
    lemma_field(f1, 20, bytes::enc32(1));
    lemma_field(f2, 48, bytes::enc64(size as int));
    lemma_kept(f1, 20, bytes::enc32(1), 16, bytes::enc32(0x8000int + 0o644));
    lemma_kept(f2, 48, bytes::enc64(size as int), 16, bytes::enc32(0x8000int + 0o644));
    lemma_kept(f3, 56, bytes::enc32(4096), 16, bytes::enc32(0x8000int + 0o644));
    lemma_kept(f2, 48, bytes::enc64(size as int), 20, bytes::enc32(1));
    lemma_kept(f3, 56, bytes::enc32(4096), 20, bytes::enc32(1));
    lemma_kept(f3, 56, bytes::enc32(4096), 48, bytes::enc64(size as int));
    bytes::lemma_decode(f4, 48, size as int);
    bytes::lemma_decode(f4, 16, 0x8000int + 0o644);
    bytes::lemma_decode(f4, 20, 1);
    let mode = bytes::enc32(0x2000int + 0o620);
    let z = bytes::zeros(128);
    let c1 = bytes::splice(z, 16, mode);
    let c2 = bytes::splice(c1, 20, bytes::enc32(1));
    let c3 = bytes::splice(c2, 32, bytes::enc64(5int * 256 + 1));
    let c4 = fs::console_stat();
    lemma_field(z, 16, mode);
    lemma_kept(c1, 20, bytes::enc32(1), 16, mode);
    lemma_kept(c2, 32, bytes::enc64(5int * 256 + 1), 16, mode);
    lemma_kept(c3, 56, bytes::enc32(1024), 16, mode);
    bytes::lemma_decode(c4, 16, 0x2000int + 0o620);
    assert forall|k: int| 0 <= k < 8 implies c4[48 + k] == #[trigger] z[48 + k] by {}
    bytes::lemma_same_int(c4, z, 48, 48, 8);
    assert forall|k: int| 0 <= k < 8 implies #[trigger] z[48 + k] == 0 by {}
}

proof fn lemma_field(b: Seq<u8>, at: int, part: Seq<u8>)
    requires
        0 <= at,
        at + part.len() <= b.len(),
    ensures
        bytes::stands_at(bytes::splice(b, at, part), at, part),
        bytes::splice(b, at, part).len() == b.len(),
{
    bytes::lemma_splice_stands(b, at, part);
}

/// A field that is written leaves the other fields.
proof fn lemma_kept(b: Seq<u8>, at: int, part: Seq<u8>, other: int, field: Seq<u8>)
    requires
        0 <= at,
        at + part.len() <= b.len(),
        0 <= other,
        bytes::stands_at(b, other, field),
        other + field.len() <= at || at + part.len() <= other,
        other + field.len() <= b.len(),
    ensures
        bytes::stands_at(bytes::splice(b, at, part), other, field),
        bytes::splice(b, at, part).len() == b.len(),
{
    let c = bytes::splice(b, at, part);
    assert forall|k: int| 0 <= k < field.len() implies c[other + k] == #[trigger] field[k] by {
        assert(b[other + k] == field[k]);
    }
}

/// A process starts with the console as 0, 1 and 2, and with no other descriptor.
pub proof fn law_first_descriptors(fd: int)
    ensures
        fd_table::kind_at(fd_table::initial_table(), fd) == (if 0 <= fd <= 2 {
            Some(FdKind::Console)
        } else {
            None
        }),
        fd_table::initial_table().len() == 256,
{
}

/// A file that is opened gets the lowest descriptor that is free; it is refused
/// only when none is.
pub proof fn law_lowest_descriptor(t: Seq<FdEntry>, kind: FdKind, flags: u32)
    ensures
        match fd_table::taken(t, kind, flags).1 {
            Some(fd) => {
                &&& 0 <= fd < t.len()
                &&& t[fd].kind == FdKind::Free
                &&& forall|k: int| 0 <= k < fd ==> (#[trigger] t[k]).kind != FdKind::Free
                &&& fd_table::taken(t, kind, flags).0 == t.update(fd, FdEntry { kind, flags })
            },
            None => {
                &&& forall|k: int| 0 <= k < t.len() ==> (#[trigger] t[k]).kind != FdKind::Free
                &&& fd_table::taken(t, kind, flags).0 == t
            },
        },
{
    search::lemma_first_index(t, fd_table::is_free(), 0);
    match search::first_index(t, fd_table::is_free(), 0) {
        Some(i) => {
            assert forall|k: int| 0 <= k < i implies (#[trigger] t[k]).kind != FdKind::Free by {
                assert(!fd_table::is_free()(t[k]));
            }
            assert(fd_table::is_free()(t[i]));
        },
        None => {
            assert forall|k: int| 0 <= k < t.len() implies (#[trigger] t[k]).kind != FdKind::Free by {
                assert(!fd_table::is_free()(t[k]));
            }
        },
    }
}

/// A duplicate is numbered by the lowest free descriptor from `from` on, and
/// leads where the first one does; a closed descriptor has none.
pub proof fn law_duplicates(t: Seq<FdEntry>, fd: int, from: int)
    requires
        0 <= from,
        t.len() == 256,
    ensures
        ({
            let (t2, r) = fs::dup_from(t, fd, from);
            &&& fd_table::kind_at(t, fd) is None ==> t2 == t && r as int == 0x1_0000_0000_0000_0000
                - 9
            &&& fd_table::kind_at(t, fd) is Some && r < 256 ==> {
                &&& from <= r < t.len()
                &&& t[r as int].kind == FdKind::Free
                &&& forall|k: int| from <= k < r ==> (#[trigger] t[k]).kind != FdKind::Free
                &&& exists|i: int|
                    0 <= i < t.len() && t[i].kind == FdKind::Free && #[trigger] t2[i] == (FdEntry {
                        kind: if t[fd].kind is File {
                            t[fd].kind
                        } else {
                            FdKind::Console
                        },
                        flags: 0,
                    }) && t2 == t.update(i, t2[i])
            }
            &&& fd_table::kind_at(t, fd) is Some && r >= 256 ==> {
                &&& t2 == t
                &&& r as int == 0x1_0000_0000_0000_0000 - 24
                &&& forall|k: int| from <= k < t.len() ==> (#[trigger] t[k]).kind != FdKind::Free
            }
        }),
{
    if from <= t.len() {
        search::lemma_first_index(t, fd_table::is_free(), from);
    }
    search::lemma_first_index(t, fd_table::is_free(), 0);
    let found = search::first_index(t, fd_table::is_free(), from);
    assert forall|k: int| from <= k < t.len() && (found is None || k < found->0) implies (
    #[trigger] t[k]).kind != FdKind::Free by {
        assert(!fd_table::is_free()(t[k]));
    }
    if fd_table::kind_at(t, fd) is Some && found is Some {
        assert(fd_table::is_free()(t[found->0]));
        let i = search::first_index(t, fd_table::is_free(), 0)->0;
        assert(fd_table::is_free()(t[i]));
        let t2 = fs::dup_from(t, fd, from).0;
        assert(t2[i].flags == 0);
        assert(t2 =~= t.update(i, t2[i]));
    }
}

/// A child that exited is told with its status; while none has exited, a call that
/// may not wait gives 0 and others ask again; an error is passed on.
pub proof fn law_wait(ret: i64, status: i32, wstatus: u64, options: u64)
    ensures
        match proc::wait_step(ret, status, wstatus, options) {
            WaitStep::Store { status: s, result } => ret >= 0 && wstatus != 0 && s == status && result
                == ret,
            WaitStep::Again => ret == -11 && options & 1 == 0,
            WaitStep::Done(r) => {
                ||| ret == -11 && options & 1 != 0 && r == 0
                ||| ret >= 0 && wstatus == 0 && r == ret
                ||| ret < 0 && ret != -11 && r as int == 0x1_0000_0000_0000_0000 + ret
            },
        },
{
}

/// The exit code is the number that the program gave.
pub proof fn law_exit_code(n: i32)
    ensures
        proc::exit_code(protocol::unsigned(n as int) as u64) == n,
{
}

/// What a byte does to a line: it is added at the end, and echoed, unless it is
/// one of those that edit; a line feed ends the line.
pub proof fn law_typing(line: Seq<u8>, b: u8)
    ensures
        ({
            let (after, event, echo) = console::line_step(line, b);
            &&& after == line || after == line.push(b) || line.len() > 0 && after == line.drop_last()
            &&& after == line.drop_last() && line.len() > 0 ==> b == 0x7F || b == 0x08
            &&& b != 0x7F && b != 0x08 && b != 0x04 && line.len() < 4095 ==> after == line.push(b)
                && echo == seq![b]
            &&& (event == LineEvent::Complete) == (b == 10 || b == 4 && line.len() > 0)
            &&& (event == LineEvent::Eof) == (b == 4 && line.len() == 0)
            &&& b == 4 ==> after == line && echo.len() == 0
            &&& after == line ==> echo.len() == 0
        }),
{
    if line.len() > 0 {
        assert(line.drop_last().len() != line.len());
        assert(line.push(b).len() != line.drop_last().len());
    }
    assert(line.push(b).len() != line.len());
}

/// Input is read byte by byte; only a carriage return is read as a line feed, if
/// the settings say so.
pub proof fn law_raw_input(b: Seq<u8>, icrnl: bool, i: int)
    requires
        0 <= i < b.len(),
    ensures
        console::raw_input(b, icrnl).len() == b.len(),
        console::raw_input(b, icrnl)[i] == (if icrnl && b[i] == 13 {
            10
        } else {
            b[i]
        }),
{
}

/// The echo of input is the echo of its parts.
pub proof fn law_raw_echo(a: Seq<u8>, b: Seq<u8>)
    ensures
        console::raw_echo(a + b) == console::raw_echo(a) + console::raw_echo(b),
        forall|x: u8|
            x != 0x7F && x != 0x08 ==> #[trigger] console::raw_echo(seq![x]) == seq![x],
    decreases b.len(),
{
    if b.len() == 0 {
        assert(a + b =~= a);
        assert(console::raw_echo(a) + console::raw_echo(b) =~= console::raw_echo(a));
    } else {
        assert((a + b).drop_last() =~= a + b.drop_last());
        law_raw_echo(a, b.drop_last());
        assert(console::raw_echo(a + b) =~= console::raw_echo(a) + console::raw_echo(b));
    }
    assert forall|x: u8| x != 0x7F && x != 0x08 implies #[trigger] console::raw_echo(seq![x])
        == seq![x] by {
        assert(seq![x].drop_last() =~= seq![]);
        assert(console::raw_echo(seq![x].drop_last()) =~= seq![]);
        assert(console::raw_echo(seq![x]) =~= seq![x]);
    }
}

/// The console tells its settings as they are, takes new ones, and answers a
/// request that it does not know with an error; without a place to store an
/// answer there is none.
pub proof fn law_console_requests(termios: Seq<u8>, pid: u64, request: u64, arg: u64)
    ensures
        request == 0x5401 && arg != 0 ==> console::ioctl_step(termios, pid, request, arg)
            == IoctlModel::Store(termios),
        0x5402 <= request <= 0x5404 && arg != 0 <==> console::ioctl_step(
            termios,
            pid,
            request,
            arg,
        ) is LoadSettings,
        arg == 0 ==> console::ioctl_step(termios, pid, request, arg) is Done,
        console::ioctl_step(termios, pid, request, arg) matches IoctlModel::Done(r) ==> r == 0
            || r == 25,
        console::ioctl_step(termios, pid, request, arg) == IoctlModel::Done(25) <==> !(0x5401
            <= request <= 0x5404 || request == 0x540F || request == 0x5410 || request == 0x5413
            || request == 0x5414),
{
}

/// The console starts with line editing, echo, and carriage returns read as line
/// feeds.
pub proof fn law_first_settings()
    ensures
        console::default_termios().len() == 36,
        console::lflag(console::default_termios()) & 2 == 2,
        console::lflag(console::default_termios()) & 8 == 8,
        console::iflag(console::default_termios()) & 0x100 == 0x100,
{
    let t = console::default_termios();
    assert(console::lflag(t) == 0x8A3B);
    assert(console::iflag(t) == 0x500);
    assert(0x8A3Bu32 & 2 == 2 && 0x8A3Bu32 & 8 == 8 && 0x500u32 & 0x100 == 0x100) by (bit_vector);
}

/// A program finds no arguments and no environment on its stack; behind them
/// stand pairs of a key and a value, up to a key of 0: each key tells what the
/// kernel was told.
pub proof fn law_program_stack(b: BootInfo)
    ensures
        ({
            let s = start::stack_words(b);
            &&& s.len() == 16
            &&& s[0] == 0 && s[1] == 0 && s[2] == 0
            &&& s[13] == 0
            &&& forall|i: int|
                3 <= i < 13 && i % 2 == 1 ==> {
                    &&& #[trigger] s[i] != 0
                    &&& s[i] == 3 ==> s[i + 1] == b.phdr_addr
                    &&& s[i] == 4 ==> s[i + 1] == b.phent_size
                    &&& s[i] == 5 ==> s[i + 1] == b.phnum
                    &&& s[i] == 6 ==> s[i + 1] == 4096
                    &&& s[i] == 9 ==> s[i + 1] == b.program_entry
                }
            &&& s[3] == 3 && s[5] == 4 && s[7] == 5 && s[9] == 6 && s[11] == 9
        }),
{
}

/// The console is told to be device 5, 1 with blocks of 1024 bytes and one link; a
/// file has blocks of 4096 bytes and is no device.
pub proof fn law_stat_devices(size: u64)
    ensures
        bytes::le32(fs::console_stat(), 20) == 1,
        bytes::le64(fs::console_stat(), 32) == 0x501,
        bytes::le32(fs::console_stat(), 56) == 1024,
        bytes::le64(fs::file_stat(size), 32) == 0,
        bytes::le32(fs::file_stat(size), 56) == 4096,
{
    let z = bytes::zeros(128);
    let (one, dev) = (bytes::enc32(1), bytes::enc64(5int * 256 + 1));
    let c1 = bytes::splice(z, 16, bytes::enc32(0x2000int + 0o620));
    let c2 = bytes::splice(c1, 20, one);
    let c3 = bytes::splice(c2, 32, dev);
    let c4 = fs::console_stat();
    lemma_field(c1, 20, one);
    lemma_field(c2, 32, dev);
    lemma_field(c3, 56, bytes::enc32(1024));
    lemma_kept(c2, 32, dev, 20, one);
    lemma_kept(c3, 56, bytes::enc32(1024), 20, one);
    lemma_kept(c3, 56, bytes::enc32(1024), 32, dev);
    bytes::lemma_decode(c4, 20, 1);
    bytes::lemma_decode(c4, 32, 0x501);
    bytes::lemma_decode(c4, 56, 1024);
    let f1 = bytes::splice(z, 16, bytes::enc32(0x8000int + 0o644));
    let f2 = bytes::splice(f1, 20, one);
    let f3 = bytes::splice(f2, 48, bytes::enc64(size as int));
    let f4 = fs::file_stat(size);
    lemma_field(f3, 56, bytes::enc32(4096));
    bytes::lemma_decode(f4, 56, 4096);
    assert forall|k: int| 0 <= k < 8 implies f4[32 + k] == #[trigger] z[32 + k] by {}
    bytes::lemma_same_int(f4, z, 32, 32, 8);
    assert forall|k: int| 0 <= k < 8 implies #[trigger] z[32 + k] == 0 by {}
}

/// The console is read by bytes as they come exactly where its settings do not ask
/// for lines, whose bit is 2; otherwise what is left of a line comes first, and a
/// new line is asked for only where nothing is left.
pub proof fn law_console_modes(t: TaskStruct, fd: u64, count: u64)
    requires
        fd < t.fd_table@.len(),
        t.fd_table@[fd as int].kind is Console,
        count > 0,
    ensures
        ({
            let by_lines = console::lflag(t.termios@) & 2 == 2;
            let left = task::pending_of(t).len() > 0;
            &&& fs::read_step(t, fd, count) is Raw <==> !by_lines
            &&& fs::read_step(t, fd, count) is Deliver <==> by_lines && left
            &&& fs::read_step(t, fd, count) is Line <==> by_lines && !left
        }),
{
    let f = console::lflag(t.termios@);
    assert(f & 2 == 2 || f & 2 == 0) by (bit_vector);
}

/// A descriptor that is closed refers to nothing and has no flags; every other
/// descriptor stays.
pub proof fn law_closed_descriptor(t: Seq<FdEntry>, fd: int, other: int)
    requires
        0 <= fd < t.len(),
        0 <= other < t.len(),
        t[fd].kind is Free ==> t[fd].flags == 0,
    ensures
        fd_table::closed(t, fd).len() == t.len(),
        fd_table::closed(t, fd)[fd].kind is Free,
        fd_table::closed(t, fd)[fd].flags == 0,
        other != fd ==> fd_table::closed(t, fd)[other] == t[other],
{
}

} // verus!
