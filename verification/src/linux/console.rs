//! Console input: line editing, echo and terminal settings.
use vstd::prelude::*;
use crate::bytes;
use crate::linux::errno::ENOTTY;
use crate::linux::task;
use crate::linux::task::TaskStruct;

verus! {

/// Input setting: carriage return is read as line feed.
pub const ICRNL: u32 = 0x0100;

/// Local setting: lines are edited before they are delivered.
pub const ICANON: u32 = 0x0002;

/// Local setting: input is echoed.
pub const ECHO: u32 = 0x0008;

pub const TCGETS: u64 = 0x5401;

pub const TCSETS: u64 = 0x5402;

pub const TCSETSW: u64 = 0x5403;

pub const TCSETSF: u64 = 0x5404;

pub const TIOCGWINSZ: u64 = 0x5413;

pub const TIOCSWINSZ: u64 = 0x5414;

pub const TIOCGPGRP: u64 = 0x540F;

pub const TIOCSPGRP: u64 = 0x5410;

/// Most bytes of a line, its end included.
pub const LINE_MAX: usize = 4096;

/// The settings that a console starts with: four words of flags, a line
/// discipline and 19 control characters.
pub open spec fn default_termios() -> Seq<u8> {
    seq![
        0x00u8, 0x05u8, 0x00u8, 0x00u8, 0x05u8, 0x00u8, 0x00u8, 0x00u8, 0xBFu8, 0x04u8, 0x00u8,
        0x00u8, 0x3Bu8, 0x8Au8, 0x00u8, 0x00u8, 0x00u8, 0x03u8, 0x1Cu8, 0x7Fu8, 0x15u8, 0x04u8,
        0x00u8, 0x01u8, 0x00u8, 0x11u8, 0x13u8, 0x1Au8, 0x00u8, 0x12u8, 0x0Fu8, 0x17u8, 0x16u8,
        0x00u8, 0x00u8, 0x00u8,
    ]
}

/// The settings that a console starts with.
pub fn make_default_termios() -> (r: [u8; 36])
    ensures
        r@ == default_termios(),
{
    let r: [u8; 36] = [
        0x00u8, 0x05u8, 0x00u8, 0x00u8, 0x05u8, 0x00u8, 0x00u8, 0x00u8, 0xBFu8, 0x04u8, 0x00u8,
        0x00u8, 0x3Bu8, 0x8Au8, 0x00u8, 0x00u8, 0x00u8, 0x03u8, 0x1Cu8, 0x7Fu8, 0x15u8, 0x04u8,
        0x00u8, 0x01u8, 0x00u8, 0x11u8, 0x13u8, 0x1Au8, 0x00u8, 0x12u8, 0x0Fu8, 0x17u8, 0x16u8,
        0x00u8, 0x00u8, 0x00u8,
    ];
    assert(r@ =~= default_termios());
    r
}

/// Input settings.
pub open spec fn iflag(t: Seq<u8>) -> u32 {
    bytes::le32(t, 0) as u32
}

/// Local settings.
pub open spec fn lflag(t: Seq<u8>) -> u32 {
    bytes::le32(t, 12) as u32
}

pub fn termios_iflag(t: &[u8; 36]) -> (r: u32)
    ensures
        r == iflag(t@),
{
    bytes::get_u32(t, 0)
}

pub fn termios_lflag(t: &[u8; 36]) -> (r: u32)
    ensures
        r == lflag(t@),
{
    bytes::get_u32(t, 12)
}

/// What a byte of input does to the line that is being edited.
#[derive(Debug, Clone, Copy, PartialEq, Eq, Structural)]
pub enum LineEvent {
    /// More input is needed.
    More,
    /// End of the input.
    Eof,
    /// The line is complete.
    Complete,
}

/// The byte as the program reads it.
pub open spec fn translated(b: u8, icrnl: bool) -> u8 {
    if b == 13 && icrnl {
        10
    } else {
        b
    }
}

/// What a byte, once it was translated, makes of a line: the line, what
/// happened, and what is echoed.  Backspace and delete erase a character, the
/// end-of-file character ends the line or the input, and a line feed ends the
/// line; other characters are added while there is room.
pub open spec fn line_step(line: Seq<u8>, b: u8) -> (Seq<u8>, LineEvent, Seq<u8>) {
    if b == 0x7F || b == 0x08 {
        if line.len() > 0 {
            (line.drop_last(), LineEvent::More, seq![0x08u8, 0x20u8, 0x08u8])
        } else {
            (line, LineEvent::More, seq![])
        }
    } else if b == 0x04 {
        if line.len() == 0 {
            (line, LineEvent::Eof, seq![])
        } else {
            (line, LineEvent::Complete, seq![])
        }
    } else if b == 10 {
        (line.push(10), LineEvent::Complete, seq![10u8])
    } else if line.len() < 4095 {
        (line.push(b), LineEvent::More, seq![b])
    } else {
        (line, LineEvent::More, seq![])
    }
}

/// A line that is being edited.
pub struct LineEditor {
    line: Vec<u8>,
}

impl View for LineEditor {
    type V = Seq<u8>;

    closed spec fn view(&self) -> Seq<u8> {
        self.line@
    }
}

impl LineEditor {
    /// There is room for the end of the line.
    pub open spec fn wf(self) -> bool {
        self@.len() < LINE_MAX
    }

    pub fn new() -> (r: Self)
        ensures
            r.wf(),
            r@.len() == 0,
    {
        LineEditor { line: Vec::new() }
    }

    /// Take a byte of input.  Returns what happened and what is to be echoed
    /// when echo is on.
    pub fn feed(&mut self, byte: u8, icrnl: bool) -> (r: (LineEvent, Vec<u8>))
        requires
            old(self).wf(),
        ensures
            (final(self)@, r.0, r.1@) == line_step(old(self)@, translated(byte, icrnl)),
            r.0 == LineEvent::More ==> final(self).wf(),
            final(self)@.len() <= LINE_MAX,
    {
        let b: u8 = if byte == 13 && icrnl {
            10
        } else {
            byte
        };
        if b == 0x7F || b == 0x08 {
            if self.line.len() > 0 {
                self.line.pop();
                let echo: Vec<u8> = vec![0x08u8, 0x20u8, 0x08u8];
                assert(echo@ =~= seq![0x08u8, 0x20u8, 0x08u8]);
                (LineEvent::More, echo)
            } else {
                (LineEvent::More, Vec::new())
            }
        } else if b == 0x04 {
            if self.line.len() == 0 {
                (LineEvent::Eof, Vec::new())
            } else {
                (LineEvent::Complete, Vec::new())
            }
        } else if b == 10 {
            self.line.push(10);
            let echo: Vec<u8> = vec![10u8];
            assert(echo@ =~= seq![10u8]);
            (LineEvent::Complete, echo)
        } else if self.line.len() < LINE_MAX - 1 {
            self.line.push(b);
            let echo: Vec<u8> = vec![b];
            assert(echo@ =~= seq![b]);
            (LineEvent::More, echo)
        } else {
            (LineEvent::More, Vec::new())
        }
    }

    /// The line.
    pub fn into_line(self) -> (r: Vec<u8>)
        ensures
            r@ == self@,
    {
        self.line
    }
}

/// Erasing takes back the character that was typed last.
pub proof fn law_erase_undoes_typing(line: Seq<u8>, b: u8, erase: u8)
    requires
        line.len() < 4095,
        b != 0x7F && b != 0x08 && b != 0x04 && b != 10,
        erase == 0x7F || erase == 0x08,
    ensures
        line_step(line_step(line, b).0, erase).0 == line,
{
    assert(line.push(b).drop_last() =~= line);
}

/// What is left of a line, up to `count` bytes.
pub open spec fn deliverable(pending: Seq<u8>, count: int) -> int {
    if pending.len() < count {
        pending.len() as int
    } else {
        count
    }
}

/// Deliver what is left of an earlier line.  None when nothing is left.
pub fn deliver_pending(task: &mut TaskStruct, count: u64) -> (r: Option<Vec<u8>>)
    requires
        old(task).wf(),
    ensures
        final(task).wf(),
        ({
            let pending = task::pending_of(*old(task));
            let n = deliverable(pending, count as int);
            if pending.len() == 0 {
                r is None && *final(task) == *old(task)
            } else {
                &&& r is Some
                &&& r->0@ == pending.take(n)
                &&& task::pending_of(*final(task)) == pending.skip(n)
                &&& *final(task) == (TaskStruct { line_pos: final(task).line_pos, ..*old(task) })
            }
        }),
{
    if task.line_pos >= task.line_len {
        return None;
    }
    let avail: usize = task.line_len - task.line_pos;
    let n: usize = if (avail as u64) < count {
        avail
    } else {
        count as usize
    };
    let out = bytes::to_vec(&task.line_buf, task.line_pos, task.line_pos + n);
    let ghost pending = task::pending_of(*task);
    assert(out@ =~= pending.take(n as int));
    task.line_pos = task.line_pos + n;
    assert(task::pending_of(*task) =~= pending.skip(n as int));
    Some(out)
}

/// Take a complete line, and deliver its first `count` bytes.
pub fn deliver_line(task: &mut TaskStruct, line: &[u8], count: u64) -> (r: Vec<u8>)
    requires
        old(task).wf(),
        line@.len() <= LINE_MAX,
    ensures
        final(task).wf(),
        r@ == line@.take(deliverable(line@, count as int)),
        task::pending_of(*final(task)) == line@.skip(deliverable(line@, count as int)),
        *final(task) == (TaskStruct {
            line_buf: final(task).line_buf,
            line_len: final(task).line_len,
            line_pos: final(task).line_pos,
            ..*old(task)
        }),
{
    bytes::copy_into(&mut task.line_buf, 0, line);
    task.line_len = line.len();
    let n: usize = if (line.len() as u64) < count {
        line.len()
    } else {
        count as usize
    };
    task.line_pos = n;
    let out = bytes::to_vec(line, 0, n);
    assert(out@ =~= line@.take(n as int));
    assert(task::pending_of(*task) =~= line@.skip(n as int));
    out
}

/// A line is delivered whole, whatever the sizes of the reads.
pub proof fn law_line_is_delivered_whole(pending: Seq<u8>, count: int)
    requires
        0 <= count,
    ensures
        pending.take(deliverable(pending, count)) + pending.skip(deliverable(pending, count))
            == pending,
{
    let n = deliverable(pending, count);
    assert(pending.take(n) + pending.skip(n) =~= pending);
}

/// Bytes of input as the program reads them, without line editing.
pub open spec fn raw_input(b: Seq<u8>, icrnl: bool) -> Seq<u8> {
    b.map_values(|x: u8| translated(x, icrnl))
}

/// What is echoed of bytes of input: an erasing character wipes one on the
/// screen.
pub open spec fn raw_echo(b: Seq<u8>) -> Seq<u8>
    decreases b.len(),
{
    if b.len() == 0 {
        seq![]
    } else {
        raw_echo(b.drop_last()) + (if b.last() == 0x7F || b.last() == 0x08 {
            seq![0x08u8, 0x20u8, 0x08u8]
        } else {
            seq![b.last()]
        })
    }
}

/// Translate bytes of input.  Returns what the program reads.
pub fn translate_raw(b: &[u8], icrnl: bool) -> (r: Vec<u8>)
    ensures
        r@ == raw_input(b@, icrnl),
{
    let mut out: Vec<u8> = Vec::new();
    let n: usize = b.len();
    let mut i: usize = 0;
    while i < n
        invariant
            i <= n == b@.len(),
            out@ == raw_input(b@.take(i as int), icrnl),
        decreases n - i,
    {
        let c: u8 = if b[i] == 13 && icrnl {
            10
        } else {
            b[i]
        };
        out.push(c);
        assert(out@ =~= raw_input(b@.take(i + 1), icrnl));
        i += 1;
    }
    assert(b@.take(n as int) =~= b@);
    out
}

/// What is to be echoed of bytes that the program reads.
pub fn echo_raw(b: &[u8]) -> (r: Vec<u8>)
    ensures
        r@ == raw_echo(b@),
{
    let mut out: Vec<u8> = Vec::new();
    let n: usize = b.len();
    let mut i: usize = 0;
    assert(b@.take(0) =~= seq![]);
    while i < n
        invariant
            i <= n == b@.len(),
            out@ == raw_echo(b@.take(i as int)),
        decreases n - i,
    {
        let ghost before = out@;
        assert(b@.take(i + 1).drop_last() =~= b@.take(i as int));
        if b[i] == 0x7F || b[i] == 0x08 {
            out.push(0x08);
            out.push(0x20);
            out.push(0x08);
            assert(out@ =~= before + seq![0x08u8, 0x20u8, 0x08u8]);
        } else {
            out.push(b[i]);
            assert(out@ =~= before + seq![b@[i as int]]);
        }
        i += 1;
    }
    assert(b@.take(n as int) =~= b@);
    out
}

/// What a request to the console asks for.
pub enum IoctlStep {
    /// The result.
    Done(u64),
    /// Write these bytes where the argument points; then the result is 0.
    Store(Vec<u8>),
    /// Read new settings from where the argument points; then the result is 0.
    LoadSettings,
}

/// Mathematical content of an `IoctlStep`.
pub enum IoctlModel {
    Done(u64),
    Store(Seq<u8>),
    LoadSettings,
}

impl View for IoctlStep {
    type V = IoctlModel;

    open spec fn view(&self) -> IoctlModel {
        match self {
            IoctlStep::Done(r) => IoctlModel::Done(*r),
            IoctlStep::Store(b) => IoctlModel::Store(b@),
            IoctlStep::LoadSettings => IoctlModel::LoadSettings,
        }
    }
}

/// Size of the console: 24 rows of 80 columns.
pub open spec fn window_size() -> Seq<u8> {
    seq![24u8, 0u8, 80u8, 0u8, 0u8, 0u8, 0u8, 0u8]
}

/// What a request to the console asks for.  A request that is not known is
/// answered with the plain number of the error.
pub open spec fn ioctl_step(termios: Seq<u8>, pid: u64, request: u64, arg: u64) -> IoctlModel {
    if request == TCGETS {
        if arg != 0 {
            IoctlModel::Store(termios)
        } else {
            IoctlModel::Done(0)
        }
    } else if request == TCSETS || request == TCSETSW || request == TCSETSF {
        if arg != 0 {
            IoctlModel::LoadSettings
        } else {
            IoctlModel::Done(0)
        }
    } else if request == TIOCGWINSZ {
        if arg != 0 {
            IoctlModel::Store(window_size())
        } else {
            IoctlModel::Done(0)
        }
    } else if request == TIOCGPGRP {
        if arg != 0 {
            IoctlModel::Store(bytes::enc32(pid as int % 0x1_0000_0000))
        } else {
            IoctlModel::Done(0)
        }
    } else if request == TIOCSWINSZ || request == TIOCSPGRP {
        IoctlModel::Done(0)
    } else {
        IoctlModel::Done(ENOTTY as u64)
    }
}

/// Plan a request to the console.
pub fn console_ioctl(task: &TaskStruct, request: u64, arg: u64) -> (r: IoctlStep)
    ensures
        r@ == ioctl_step(task.termios@, task.pid, request, arg),
{
    if request == TCGETS {
        if arg != 0 {
            let b = bytes::to_vec(&task.termios, 0, 36);
            assert(b@ =~= task.termios@);
            IoctlStep::Store(b)
        } else {
            IoctlStep::Done(0)
        }
    } else if request == TCSETS || request == TCSETSW || request == TCSETSF {
        if arg != 0 {
            IoctlStep::LoadSettings
        } else {
            IoctlStep::Done(0)
        }
    } else if request == TIOCGWINSZ {
        if arg != 0 {
            let b: Vec<u8> = vec![24u8, 0u8, 80u8, 0u8, 0u8, 0u8, 0u8, 0u8];
            assert(b@ =~= window_size());
            IoctlStep::Store(b)
        } else {
            IoctlStep::Done(0)
        }
    } else if request == TIOCGPGRP {
        if arg != 0 {
            let mut b: Vec<u8> = vec![0u8;4];
            let low: u32 = (task.pid % 0x1_0000_0000) as u32;
            bytes::put_u32(b.as_mut_slice(), 0, low);
            assert(b@ =~= bytes::enc32(low as int));
            IoctlStep::Store(b)
        } else {
            IoctlStep::Done(0)
        }
    } else if request == TIOCSWINSZ || request == TIOCSPGRP {
        IoctlStep::Done(0)
    } else {
        IoctlStep::Done(ENOTTY as u64)
    }
}

/// Take new console settings.
pub fn set_termios(task: &mut TaskStruct, settings: [u8; 36])
    ensures
        *final(task) == (TaskStruct { termios: settings, ..*old(task) }),
{
    task.termios = settings;
}

} // verus!
