//! TaskManager: what user space makes of the scheduler's answers.
//!
//! `TaskManager` holds no data of its own: the authoritative state lives in the
//! kernel's thread table.  The scheduler is called outside this library; each
//! method here takes what the scheduler answered and gives the user-space view
//! of it.
use vstd::prelude::*;
use crate::kernel::{ScheError, ThreadControl, ThreadId};
use crate::task::types;
use crate::task::types::{
    map_sche_error, TaskId, TaskInfo, TaskPriority, TaskResult, TaskState,
};

verus! {

/// User-space task manager.
pub struct TaskManager;

/// The thread record after its base priority has become `priority`: the
/// effective priority is the larger of the base and the donated one.
pub open spec fn reprioritised(t: ThreadControl, priority: TaskPriority) -> ThreadControl {
    ThreadControl {
        base_priority: priority.0,
        priority: if t.donated_priority > priority.0 {
            t.donated_priority
        } else {
            priority.0
        },
        ..t
    }
}

impl TaskManager {
    /// Create a `TaskManager`.
    pub fn new() -> (r: Self)
        ensures
            r == TaskManager,
    {
        TaskManager
    }

    /// The task for a thread that the scheduler created, or the error with
    /// which it refused.
    pub fn create_task(&self, created: Result<ThreadId, ScheError>) -> (r: TaskResult<TaskId>)
        ensures
            r == (match created {
                Ok(t) => Ok(TaskId(t)),
                Err(e) => Err(types::task_error_of(e)),
            }),
    {
        match created {
            Ok(t) => Ok(TaskId(t)),
            Err(e) => Err(map_sche_error(e)),
        }
    }

    /// The outcome of destroying a thread.
    pub fn destroy_task(&self, destroyed: Result<(), ScheError>) -> (r: TaskResult<()>)
        ensures
            r == (match destroyed {
                Ok(()) => Ok(()),
                Err(e) => Err(types::task_error_of(e)),
            }),
    {
        match destroyed {
            Ok(()) => Ok(()),
            Err(e) => Err(map_sche_error(e)),
        }
    }

    /// The record to store for a thread whose base priority is being set.
    ///
    /// The effective priority is the larger of the base priority and the
    /// donated one.
    pub fn set_priority(
        &self,
        looked_up: Result<ThreadControl, ScheError>,
        priority: TaskPriority,
    ) -> (r: TaskResult<ThreadControl>)
        ensures
            r == (match looked_up {
                Ok(t) => Ok(reprioritised(t, priority)),
                Err(e) => Err(types::task_error_of(e)),
            }),
            r is Ok ==> r->Ok_0.priority == r->Ok_0.effective(),
    {
        match looked_up {
            Ok(t) => {
                let mut u = t;
                u.base_priority = priority.0;
                // Without a donation the base priority is the one in force.
                if u.donated_priority == 0 {
                    u.priority = priority.0;
                } else {
                    u.priority = if u.donated_priority > u.base_priority {
                        u.donated_priority
                    } else {
                        u.base_priority
                    };
                }
                Ok(u)
            },
            Err(e) => Err(map_sche_error(e)),
        }
    }

    /// Get the effective scheduling priority of a task.
    pub fn get_priority(&self, looked_up: Result<ThreadControl, ScheError>) -> (r: TaskResult<
        TaskPriority,
    >)
        ensures
            r == (match looked_up {
                Ok(t) => Ok(TaskPriority(t.effective())),
                Err(e) => Err(types::task_error_of(e)),
            }),
    {
        match looked_up {
            Ok(t) => Ok(TaskPriority(t.effective_priority())),
            Err(e) => Err(map_sche_error(e)),
        }
    }

    /// Get the base priority of a task (before any donation).
    pub fn get_base_priority(&self, looked_up: Result<ThreadControl, ScheError>) -> (r: TaskResult<
        TaskPriority,
    >)
        ensures
            r == (match looked_up {
                Ok(t) => Ok(TaskPriority(t.base_priority)),
                Err(e) => Err(types::task_error_of(e)),
            }),
    {
        match looked_up {
            Ok(t) => Ok(TaskPriority(t.base_priority)),
            Err(e) => Err(map_sche_error(e)),
        }
    }

    /// The task for the thread that is currently executing.
    pub fn current_task(&self, thread: ThreadId) -> (r: TaskId)
        ensures
            r == TaskId(thread),
    {
        TaskId(thread)
    }

    /// Get a snapshot of task metadata.
    pub fn task_info(&self, task: TaskId, looked_up: Result<ThreadControl, ScheError>) -> (r:
        TaskResult<TaskInfo>)
        ensures
            r == (match looked_up {
                Ok(t) => Ok(
                    TaskInfo {
                        id: task,
                        owner_pid: 0,
                        priority: TaskPriority(t.effective()),
                        base_priority: TaskPriority(t.base_priority),
                        state: types::task_state_of(t.state),
                        asid: t.asid,
                    },
                ),
                Err(e) => Err(types::task_error_of(e)),
            }),
    {
        match looked_up {
            Ok(t) => Ok(
                TaskInfo {
                    id: task,
                    owner_pid: 0,
                    priority: TaskPriority(t.effective_priority()),
                    base_priority: TaskPriority(t.base_priority),
                    state: TaskState::from(t.state),
                    asid: t.asid,
                },
            ),
            Err(e) => Err(map_sche_error(e)),
        }
    }
}

/// The priority in force is the larger of the base priority and the donated one.
/// Setting the base priority leaves a donation in force, and reads back.
pub proof fn law_priorities(t: ThreadControl, p: TaskPriority)
    ensures
        t.effective() >= t.base_priority,
        t.effective() >= t.donated_priority,
        t.effective() == t.base_priority || t.effective() == t.donated_priority,
        ({
            let u = reprioritised(t, p);
            &&& u.base_priority == p.0
            &&& u.donated_priority == t.donated_priority
            &&& u.priority == u.effective()
            &&& u.priority >= p.0
            &&& u.state == t.state
            &&& u.asid == t.asid
            &&& t.donated_priority <= p.0 ==> u.priority == p.0
            &&& t.donated_priority > p.0 ==> u.priority == t.donated_priority
        }),
{
}

/// A missing thread is told as such, and so is a full table; the other errors
/// keep their names.
pub proof fn law_errors(e: ScheError)
    ensures
        types::task_error_of(e) is InvalidTask <==> e is InvalidThread,
        types::task_error_of(e) is TableFull <==> e is ThreadTableFull || e is PriorityQueueFull,
        types::task_error_of(e) is InvalidState <==> e is InvalidThreadState
            || e is NoRunnableThread,
        types::task_error_of(e) is NullTaskId <==> e is NullThreadId,
        types::task_error_of(e) is InvalidArgument <==> e is InvalidArgument,
        types::task_error_of(e) is NotImplemented <==> e is NotImplemented,
{
}

} // verus!
