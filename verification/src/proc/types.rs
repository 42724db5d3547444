//! Process management types for the process server.
//!
//! `ProcessId` is generational, like the kernel's thread IDs: the upper half
//! counts the allocations at a slot, the lower half is the slot index, so that
//! a stale ID does not match a reused slot.  The null ID is never allocated.
use vstd::prelude::*;
use vstd::string::*;
use crate::kernel::AddressSpaceId;
use crate::text;

verus! {

/// Process identifier with built-in protection against slot reuse.
#[derive(Debug, Clone, Copy, PartialEq, Eq, Structural)]
pub struct ProcessId(pub u32);

/// The process ID with the given slot index and generation.
pub open spec fn pid_of(index: int, generation: int) -> ProcessId {
    ProcessId((generation * 0x1_0000 + index) as u32)
}

impl ProcessId {
    /// The null / invalid process ID.  Never allocated.
    #[allow(non_snake_case)]
    #[verifier::allow_in_spec]
    pub fn NULL() -> Self
        returns
            (ProcessId(0)),
    {
        ProcessId(0)
    }

    /// Largest slot index that an ID can hold.
    pub const MAX_INDEX: u16 = 0xFFFF;

    /// Slot index.
    pub open spec fn slot(self) -> int {
        self.0 as int % 0x1_0000
    }

    /// Generation.
    pub open spec fn gen(self) -> int {
        self.0 as int / 0x1_0000
    }

    /// Construct a `ProcessId` from an index and generation.
    pub fn new(index: u16, generation: u16) -> (r: Self)
        ensures
            r == pid_of(index as int, generation as int),
            r.slot() == index,
            r.gen() == generation,
    {
        let g: u32 = generation as u32;
        let i: u32 = index as u32;
        assert((g << 16) | i == g * 0x1_0000 + i) by (bit_vector)
            requires
                g < 0x1_0000,
                i < 0x1_0000,
        ;
        ProcessId((g << 16) | i)
    }

    /// Extract the slot index.
    pub fn index(self) -> (r: u16)
        ensures
            r == self.slot(),
    {
        let v: u32 = self.0;
        assert(v & 0xFFFF == v % 0x1_0000) by (bit_vector);
        (v & 0xFFFF) as u16
    }

    /// Extract the generation.
    pub fn generation(self) -> (r: u16)
        ensures
            r == self.gen(),
    {
        let v: u32 = self.0;
        assert((v >> 16) & 0xFFFF == v / 0x1_0000) by (bit_vector);
        ((v >> 16) & 0xFFFF) as u16
    }

    /// Return `true` if this is the null ID.
    pub fn is_null(self) -> (r: bool)
        ensures
            r == (self == ProcessId::NULL()),
    {
        self.0 == 0
    }

    /// The ID as log messages show it: `P(index:generation)`, or `P(NULL)`.
    pub fn label(self) -> (r: String)
        ensures
            r@ == (if self == ProcessId::NULL() {
                "P(NULL)"@
            } else {
                "P("@ + text::decimal_digits(self.slot() as nat) + ":"@ + text::decimal_digits(
                    self.gen() as nat,
                ) + ")"@
            }),
    {
        if self.is_null() {
            "P(NULL)".to_owned()
        } else {
            let mut s = "P(".to_owned();
            s.append(text::decimal(self.index() as u64).as_str());
            s.append(":");
            s.append(text::decimal(self.generation() as u64).as_str());
            s.append(")");
            s
        }
    }
}

/// An ID is determined by its index and generation.
pub proof fn law_process_id_round_trip(index: int, generation: int, pid: ProcessId)
    requires
        0 <= index <= 0xFFFF,
        0 <= generation <= 0xFFFF,
    ensures
        pid_of(index, generation).slot() == index,
        pid_of(index, generation).gen() == generation,
        pid_of(pid.slot(), pid.gen()) == pid,
{
}

/// The raw number of an ID, as kernel messages carry it.
impl From<ProcessId> for u32 {
    fn from(pid: ProcessId) -> (r: u32) {
        pid.0
    }
}

impl vstd::std_specs::convert::FromSpecImpl<ProcessId> for u32 {
    open spec fn obeys_from_spec() -> bool {
        true
    }

    open spec fn from_spec(pid: ProcessId) -> u32 {
        pid.0
    }
}

/// The ID for a raw number out of a kernel message.
impl From<u32> for ProcessId {
    fn from(raw: u32) -> (r: Self) {
        ProcessId(raw)
    }
}

impl vstd::std_specs::convert::FromSpecImpl<u32> for ProcessId {
    open spec fn obeys_from_spec() -> bool {
        true
    }

    open spec fn from_spec(raw: u32) -> ProcessId {
        ProcessId(raw)
    }
}

/// Process lifecycle state.
#[derive(Debug, Clone, Copy, PartialEq, Eq, Structural)]
pub enum ProcessState {
    /// Process record allocated but not yet running (no threads created).
    Created,
    /// Process has at least one runnable thread.
    Running,
    /// All threads are blocked (waiting on IPC, timer, or notification).
    Blocked,
    /// Process received a stop signal; its threads are paused.
    Stopped,
    /// Process is in the process of exiting.
    Dying,
    /// Process has exited but its parent has not yet reaped it.
    Zombie,
}

impl ProcessState {
    /// Neither dying nor a zombie.
    pub open spec fn alive(self) -> bool {
        self != ProcessState::Dying && self != ProcessState::Zombie
    }

    /// Running, blocked or stopped.
    pub open spec fn signalable(self) -> bool {
        self.alive() && self != ProcessState::Created
    }

    /// Return `true` if the process is alive (not dying or zombie).
    pub fn is_alive(self) -> (r: bool)
        ensures
            r == self.alive(),
    {
        match self {
            ProcessState::Created | ProcessState::Running | ProcessState::Blocked
            | ProcessState::Stopped => true,
            _ => false,
        }
    }

    /// Return `true` if the process can receive signals.
    pub fn can_receive_signal(self) -> (r: bool)
        ensures
            r == self.signalable(),
    {
        match self {
            ProcessState::Running | ProcessState::Blocked | ProcessState::Stopped => true,
            _ => false,
        }
    }
}

/// Process-level priority: the base priority of all threads of the process.
///
/// | Range   | Class      | Examples                          |
/// |---------|------------|-----------------------------------|
/// | 200-255 | System     | init, proc-server, mm-server      |
/// | 128-199 | Server     | fs-server, net-server             |
/// | 64-127  | User       | shell, user applications          |
/// | 0-63    | Background | idle tasks, batch jobs            |
#[derive(Debug, Clone, Copy, PartialEq, Eq, Structural, PartialOrd, Ord)]
pub struct ProcessPriority(pub u8);

impl ProcessPriority {
    /// Default priority for new user processes.
    #[allow(non_snake_case)]
    #[verifier::allow_in_spec]
    pub fn DEFAULT() -> Self
        returns
            (ProcessPriority(128)),
    {
        ProcessPriority(128)
    }

    /// System-level services.
    #[allow(non_snake_case)]
    #[verifier::allow_in_spec]
    pub fn SYSTEM() -> Self
        returns
            (ProcessPriority(200)),
    {
        ProcessPriority(200)
    }

    /// Other user-space servers.
    #[allow(non_snake_case)]
    #[verifier::allow_in_spec]
    pub fn SERVER() -> Self
        returns
            (ProcessPriority(150)),
    {
        ProcessPriority(150)
    }

    /// Interactive user processes.
    #[allow(non_snake_case)]
    #[verifier::allow_in_spec]
    pub fn USER() -> Self
        returns
            (ProcessPriority(100)),
    {
        ProcessPriority(100)
    }

    /// Background / batch processes.
    #[allow(non_snake_case)]
    #[verifier::allow_in_spec]
    pub fn BACKGROUND() -> Self
        returns
            (ProcessPriority(50)),
    {
        ProcessPriority(50)
    }

    /// Idle / lowest.
    #[allow(non_snake_case)]
    #[verifier::allow_in_spec]
    pub fn IDLE() -> Self
        returns
            (ProcessPriority(0)),
    {
        ProcessPriority(0)
    }

    /// Return `true` if the priority is in the valid range, which every 8-bit
    /// priority is.
    pub fn is_valid(self) -> (r: bool)
        ensures
            r,
    {
        true
    }
}

/// Signals that can be sent between processes.
#[derive(Debug, Clone, Copy, PartialEq, Eq, Structural)]
pub enum Signal {
    /// Terminal interrupt (Ctrl+C).
    SIGINT,
    /// Quit.
    SIGQUIT,
    /// Illegal instruction.
    SIGILL,
    /// Trace trap.
    SIGTRAP,
    /// Abort.
    SIGABRT,
    /// Bus error.
    SIGBUS,
    /// Arithmetic exception.
    SIGFPE,
    /// Forceful kill (cannot be caught or ignored).
    SIGKILL,
    /// User-defined signal 1.
    SIGUSR1,
    /// Segmentation violation.
    SIGSEGV,
    /// User-defined signal 2.
    SIGUSR2,
    /// Broken pipe.
    SIGPIPE,
    /// Alarm clock.
    SIGALRM,
    /// Graceful termination request.
    SIGTERM,
    /// Child process state change (sent to parent).
    SIGCHLD,
    /// Continue if stopped.
    SIGCONT,
    /// Stop (cannot be caught or ignored).
    SIGSTOP,
}

impl Signal {
    /// Signal number.
    pub open spec fn num(self) -> int {
        match self {
            Signal::SIGINT => 2,
            Signal::SIGQUIT => 3,
            Signal::SIGILL => 4,
            Signal::SIGTRAP => 5,
            Signal::SIGABRT => 6,
            Signal::SIGBUS => 7,
            Signal::SIGFPE => 8,
            Signal::SIGKILL => 9,
            Signal::SIGUSR1 => 10,
            Signal::SIGSEGV => 11,
            Signal::SIGUSR2 => 12,
            Signal::SIGPIPE => 13,
            Signal::SIGALRM => 14,
            Signal::SIGTERM => 15,
            Signal::SIGCHLD => 17,
            Signal::SIGCONT => 18,
            Signal::SIGSTOP => 19,
        }
    }

    /// Signal number.
    pub fn number(self) -> (r: u8)
        ensures
            r == self.num(),
    {
        match self {
            Signal::SIGINT => 2,
            Signal::SIGQUIT => 3,
            Signal::SIGILL => 4,
            Signal::SIGTRAP => 5,
            Signal::SIGABRT => 6,
            Signal::SIGBUS => 7,
            Signal::SIGFPE => 8,
            Signal::SIGKILL => 9,
            Signal::SIGUSR1 => 10,
            Signal::SIGSEGV => 11,
            Signal::SIGUSR2 => 12,
            Signal::SIGPIPE => 13,
            Signal::SIGALRM => 14,
            Signal::SIGTERM => 15,
            Signal::SIGCHLD => 17,
            Signal::SIGCONT => 18,
            Signal::SIGSTOP => 19,
        }
    }

    /// Return `true` if this signal can be caught by a handler.
    pub fn is_catchable(self) -> (r: bool)
        ensures
            r == (self != Signal::SIGKILL && self != Signal::SIGSTOP),
    {
        match self {
            Signal::SIGKILL | Signal::SIGSTOP => false,
            _ => true,
        }
    }

    /// What the signal does unless a handler is installed: `SIGSTOP` stops,
    /// `SIGCONT` continues, `SIGCHLD` is ignored, every other one terminates.
    pub open spec fn action(self) -> SignalAction {
        if self == Signal::SIGSTOP {
            SignalAction::Stop
        } else if self == Signal::SIGCONT {
            SignalAction::Continue
        } else if self == Signal::SIGCHLD {
            SignalAction::Ignore
        } else {
            SignalAction::Terminate
        }
    }

    /// Default action for this signal.
    pub fn default_action(self) -> (r: SignalAction)
        ensures
            r == self.action(),
    {
        match self {
            Signal::SIGSTOP => SignalAction::Stop,
            Signal::SIGCONT => SignalAction::Continue,
            Signal::SIGCHLD => SignalAction::Ignore,
            _ => SignalAction::Terminate,
        }
    }
}

/// Default signal disposition.
#[derive(Debug, Clone, Copy, PartialEq, Eq, Structural)]
pub enum SignalAction {
    /// Terminate the process.
    Terminate,
    /// Stop (suspend) the process.
    Stop,
    /// Continue a stopped process.
    Continue,
    /// Ignore the signal.
    Ignore,
}

/// A request that a client sends to the process server.
#[derive(Debug, Clone, Copy)]
pub enum ProcRequest {
    /// Spawn a new child process.
    Spawn {
        /// Parent process.
        parent: ProcessId,
        /// Human-readable name (up to 32 bytes, not null-terminated).
        name: [u8; 32],
        /// Name length in bytes.
        name_len: u8,
        /// Code segment: [start, end).
        code_start: usize,
        code_end: usize,
        /// Data segment: [start, end).
        data_start: usize,
        data_end: usize,
        /// Stack segment: [start, end), grows downward.
        stack_start: usize,
        stack_end: usize,
        /// Heap start address.
        heap_start: usize,
    },
    /// Process exit.
    Exit { pid: ProcessId, exit_code: i32 },
    /// Send a signal to a process.
    Signal { target: ProcessId, signal: Signal },
    /// Set a process's priority.
    SetPriority { target: ProcessId, priority: ProcessPriority },
    /// Query process information.
    Query { target: ProcessId },
    /// Register an already-existing process (boot-time initialisation).
    Register {
        pid: ProcessId,
        addr_space_id: AddressSpaceId,
        name: [u8; 32],
        name_len: u8,
        priority: ProcessPriority,
        parent: ProcessId,
    },
    /// List all processes (returns count + list of IDs).
    List,
}

/// Opcode stored in the first word of a request.
#[derive(Debug, Clone, Copy, PartialEq, Eq, Structural)]
pub enum ProcRequestOp {
    Spawn,
    Exit,
    Signal,
    SetPriority,
    Query,
    Register,
    List,
}

impl ProcRequestOp {
    /// Wire number of the opcode.
    pub fn code(self) -> (r: u8)
        ensures
            r == (match self {
                ProcRequestOp::Spawn => 1u8,
                ProcRequestOp::Exit => 2u8,
                ProcRequestOp::Signal => 3u8,
                ProcRequestOp::SetPriority => 4u8,
                ProcRequestOp::Query => 5u8,
                ProcRequestOp::Register => 6u8,
                ProcRequestOp::List => 7u8,
            }),
    {
        match self {
            ProcRequestOp::Spawn => 1,
            ProcRequestOp::Exit => 2,
            ProcRequestOp::Signal => 3,
            ProcRequestOp::SetPriority => 4,
            ProcRequestOp::Query => 5,
            ProcRequestOp::Register => 6,
            ProcRequestOp::List => 7,
        }
    }
}

/// Reply opcodes for the process server's responses.
#[derive(Debug, Clone, Copy, PartialEq, Eq, Structural)]
pub enum ProcReplyOp {
    /// The request was carried out.
    Success,
    Error,
    /// Carries the new process ID.
    Spawned,
    /// Carries process information.
    QueryResult,
    /// Carries a count and a list of process IDs.
    ListResult,
}

impl ProcReplyOp {
    /// Wire number of the opcode.
    pub fn code(self) -> (r: u8)
        ensures
            r == (match self {
                ProcReplyOp::Success => 0u8,
                ProcReplyOp::Error => 1u8,
                ProcReplyOp::Spawned => 2u8,
                ProcReplyOp::QueryResult => 3u8,
                ProcReplyOp::ListResult => 4u8,
            }),
    {
        match self {
            ProcReplyOp::Success => 0,
            ProcReplyOp::Error => 1,
            ProcReplyOp::Spawned => 2,
            ProcReplyOp::QueryResult => 3,
            ProcReplyOp::ListResult => 4,
        }
    }
}

/// Errors returned by the process server.
#[derive(Debug, Clone, Copy, PartialEq, Eq, Structural)]
pub enum ProcError {
    /// The given `ProcessId` does not reference a valid process.
    InvalidProcess,
    /// The process table is full.
    ProcessTableFull,
    /// Not enough threads available for the new process.
    ThreadTableFull,
    /// Physical memory exhausted during spawn.
    NoMemory,
    /// The caller lacks permission for the requested operation.
    PermissionDenied,
    /// The signal number is invalid or unsupported.
    InvalidSignal,
    /// The process is in an unexpected state for the operation.
    InvalidState,
    /// A bad argument was supplied (null pointer, misaligned, ...).
    InvalidArgument,
    /// The requested operation is not yet implemented.
    NotImplemented,
    /// The name is too long or contains invalid bytes.
    InvalidName,
}

/// Convenience alias.
pub type ProcResult<T> = Result<T, ProcError>;

} // verus!
