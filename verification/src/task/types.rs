//! Task / thread related types for user space.
//!
//! They wrap the scheduler's primitives without exposing internal details like
//! the layout of a thread ID.
use vstd::prelude::*;
use crate::kernel::{ProcessId, ScheError, ThreadId, ThreadState};

verus! {

/// User-space identifier for a schedulable task (thread).
#[derive(Debug, Clone, Copy, PartialEq, Eq, Structural)]
pub struct TaskId(pub ThreadId);

impl TaskId {
    /// The null / invalid task ID.  Never allocated by the kernel.
    #[allow(non_snake_case)]
    #[verifier::allow_in_spec]
    pub fn NULL() -> Self
        returns
            (TaskId(ThreadId::NULL())),
    {
        TaskId(ThreadId::NULL())
    }

    /// Return `true` if this is the null ID.
    pub fn is_null(self) -> (r: bool)
        ensures
            r == (self == TaskId::NULL()),
    {
        self.0.is_null()
    }

    /// Extract the slot index (for debugging).
    pub fn index(self) -> (r: u16)
        ensures
            r == self.0.0 % 0x1_0000,
    {
        self.0.index()
    }

    /// Extract the generation (for debugging).
    pub fn generation(self) -> (r: u16)
        ensures
            r == self.0.0 / 0x1_0000,
    {
        self.0.generation()
    }
}

/// Task scheduling priority, 0 (lowest) to 255 (highest).
///
/// | Range   | Class        |
/// |---------|--------------|
/// | 200-255 | System       |
/// | 128-199 | Server       |
/// | 64-127  | User         |
/// | 0-63    | Background   |
#[derive(Debug, Clone, Copy, PartialEq, Eq, Structural, PartialOrd, Ord)]
pub struct TaskPriority(pub u8);

impl TaskPriority {
    /// Default priority for new tasks.
    #[allow(non_snake_case)]
    #[verifier::allow_in_spec]
    pub fn DEFAULT() -> Self
        returns
            (TaskPriority(128)),
    {
        TaskPriority(128)
    }

    /// Minimum possible priority.
    #[allow(non_snake_case)]
    #[verifier::allow_in_spec]
    pub fn MIN() -> Self
        returns
            (TaskPriority(0)),
    {
        TaskPriority(0)
    }

    /// Maximum possible priority.
    #[allow(non_snake_case)]
    #[verifier::allow_in_spec]
    pub fn MAX() -> Self
        returns
            (TaskPriority(255)),
    {
        TaskPriority(255)
    }

    /// System-class floor.
    #[allow(non_snake_case)]
    #[verifier::allow_in_spec]
    pub fn SYSTEM() -> Self
        returns
            (TaskPriority(200)),
    {
        TaskPriority(200)
    }

    /// Server-class default.
    #[allow(non_snake_case)]
    #[verifier::allow_in_spec]
    pub fn SERVER() -> Self
        returns
            (TaskPriority(150)),
    {
        TaskPriority(150)
    }

    /// User-class default.
    #[allow(non_snake_case)]
    #[verifier::allow_in_spec]
    pub fn USER() -> Self
        returns
            (TaskPriority(100)),
    {
        TaskPriority(100)
    }

    /// Background / idle class.
    #[allow(non_snake_case)]
    #[verifier::allow_in_spec]
    pub fn BACKGROUND() -> Self
        returns
            (TaskPriority(50)),
    {
        TaskPriority(50)
    }

    /// Return `true` if the priority is in the valid range, which every 8-bit
    /// priority is.
    pub fn is_valid(self) -> (r: bool)
        ensures
            r,
    {
        true
    }
}

/// User-space view of a task's lifecycle state.
#[derive(Debug, Clone, Copy, PartialEq, Eq, Structural)]
pub enum TaskState {
    /// Task is runnable and waiting in the ready queue.
    Ready,
    /// Task is currently executing on a CPU.
    Running,
    /// Task is blocked (on IPC, timer, notification, ...).
    Blocked,
    /// Task is in the process of being destroyed.
    Dying,
    /// Slot is unused.
    Free,
}

/// The task state that stands for a thread state.
pub open spec fn task_state_of(s: ThreadState) -> TaskState {
    match s {
        ThreadState::Free => TaskState::Free,
        ThreadState::Ready => TaskState::Ready,
        ThreadState::Running => TaskState::Running,
        ThreadState::Blocked => TaskState::Blocked,
        ThreadState::Dying => TaskState::Dying,
    }
}

/// The thread state that stands for a task state.
pub open spec fn thread_state_of(s: TaskState) -> ThreadState {
    match s {
        TaskState::Free => ThreadState::Free,
        TaskState::Ready => ThreadState::Ready,
        TaskState::Running => ThreadState::Running,
        TaskState::Blocked => ThreadState::Blocked,
        TaskState::Dying => ThreadState::Dying,
    }
}

impl From<ThreadState> for TaskState {
    fn from(s: ThreadState) -> (r: Self) {
        match s {
            ThreadState::Free => TaskState::Free,
            ThreadState::Ready => TaskState::Ready,
            ThreadState::Running => TaskState::Running,
            ThreadState::Blocked => TaskState::Blocked,
            ThreadState::Dying => TaskState::Dying,
        }
    }
}

impl vstd::std_specs::convert::FromSpecImpl<ThreadState> for TaskState {
    open spec fn obeys_from_spec() -> bool {
        true
    }

    open spec fn from_spec(s: ThreadState) -> TaskState {
        task_state_of(s)
    }
}

impl From<TaskState> for ThreadState {
    fn from(s: TaskState) -> (r: Self) {
        match s {
            TaskState::Free => ThreadState::Free,
            TaskState::Ready => ThreadState::Ready,
            TaskState::Running => ThreadState::Running,
            TaskState::Blocked => ThreadState::Blocked,
            TaskState::Dying => ThreadState::Dying,
        }
    }
}

impl vstd::std_specs::convert::FromSpecImpl<TaskState> for ThreadState {
    open spec fn obeys_from_spec() -> bool {
        true
    }

    open spec fn from_spec(s: TaskState) -> ThreadState {
        thread_state_of(s)
    }
}

/// Task states and thread states correspond one to one.
pub proof fn law_state_conversions_are_inverse(t: TaskState, s: ThreadState)
    ensures
        task_state_of(thread_state_of(t)) == t,
        thread_state_of(task_state_of(s)) == s,
{
}

/// Immutable snapshot of a task's metadata at a point in time.
#[derive(Debug, Clone, Copy, PartialEq, Eq, Structural)]
pub struct TaskInfo {
    /// Task identifier.
    pub id: TaskId,
    /// Owning process; 0 while the kernel does not record it.
    pub owner_pid: ProcessId,
    /// Effective scheduling priority.
    pub priority: TaskPriority,
    /// Base priority (before any donation).
    pub base_priority: TaskPriority,
    /// Current lifecycle state.
    pub state: TaskState,
    /// Address-space identifier (for TLB tagging).
    pub asid: usize,
}

/// Errors returned by user-space task operations.
#[derive(Debug, Clone, Copy, PartialEq, Eq, Structural)]
pub enum TaskError {
    /// The given `TaskId` does not reference a valid task.
    InvalidTask,
    /// The global thread table is full.
    TableFull,
    /// The priority value is out of range.
    InvalidPriority,
    /// The task is in an unexpected state for the operation.
    InvalidState,
    /// The null task ID was passed where a real task was required.
    NullTaskId,
    /// A bad argument was supplied.
    InvalidArgument,
    /// The requested operation is not yet implemented.
    NotImplemented,
}

/// Convenience alias.
pub type TaskResult<T> = Result<T, TaskError>;

/// The task error that stands for a scheduler error.
pub open spec fn task_error_of(e: ScheError) -> TaskError {
    match e {
        ScheError::InvalidThread => TaskError::InvalidTask,
        ScheError::ThreadTableFull => TaskError::TableFull,
        ScheError::PriorityQueueFull => TaskError::TableFull,
        ScheError::InvalidThreadState => TaskError::InvalidState,
        ScheError::NoRunnableThread => TaskError::InvalidState,
        ScheError::NullThreadId => TaskError::NullTaskId,
        ScheError::InvalidArgument => TaskError::InvalidArgument,
        ScheError::NotImplemented => TaskError::NotImplemented,
    }
}

/// Map a scheduler error to a user-space `TaskError`.
pub fn map_sche_error(e: ScheError) -> (r: TaskError)
    ensures
        r == task_error_of(e),
{
    match e {
        ScheError::InvalidThread => TaskError::InvalidTask,
        ScheError::ThreadTableFull => TaskError::TableFull,
        ScheError::PriorityQueueFull => TaskError::TableFull,
        ScheError::InvalidThreadState => TaskError::InvalidState,
        ScheError::NoRunnableThread => TaskError::InvalidState,
        ScheError::NullThreadId => TaskError::NullTaskId,
        ScheError::InvalidArgument => TaskError::InvalidArgument,
        ScheError::NotImplemented => TaskError::NotImplemented,
    }
}

} // verus!
