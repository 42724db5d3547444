//! Process system calls.
use vstd::prelude::*;
use crate::bytes;
use crate::linux::errno::{failure, EAGAIN, EINVAL, ENOENT, ENOEXEC, ENOMEM};
use crate::linux::task;
use crate::linux::task::{page_up, TaskStruct};
use crate::fs::protocol;
use crate::linux::fs::meant_path;
use crate::linux::fs;
use crate::linux::mm::PageRange;
use crate::linux::loader;
use crate::linux::misc;
use crate::linux::start::BootInfo;
use crate::proc::elf_loader::{elf_header, program_headers_of, USER_STACK_TOP};

verus! {

/// exit(status): where a zero is to be written before the thread exits.
pub fn sys_exit(task: &mut TaskStruct, status: u64) -> (r: Option<u64>)
    ensures
        r == (if old(task).clear_child_tid != 0 {
            Some(old(task).clear_child_tid)
        } else {
            None
        }),
        *final(task) == (TaskStruct { exit_code: exit_code(status), ..*old(task) }),
{
    let low: u64 = status % 0x1_0000_0000;
    task.exit_code = if low >= 0x8000_0000 {
        (low as i64 - 0x1_0000_0000) as i32
    } else {
        low as i32
    };
    if task.clear_child_tid != 0 {
        Some(task.clear_child_tid)
    } else {
        None
    }
}

/// The low 32 bits of a status, as a signed number.
pub open spec fn exit_code(status: u64) -> i32 {
    let low = status as int % 0x1_0000_0000;
    if low >= 0x8000_0000 {
        (low - 0x1_0000_0000) as i32
    } else {
        low as i32
    }
}

/// set_tid_address(tidptr)
pub fn sys_set_tid_address(task: &mut TaskStruct, tidptr: u64) -> (r: u64)
    ensures
        r == old(task).pid,
        *final(task) == (TaskStruct { clear_child_tid: tidptr, ..*old(task) }),
{
    task.clear_child_tid = tidptr;
    task.pid
}

/// getpid()
pub fn sys_getpid(task: &TaskStruct) -> (r: u64)
    ensures
        r == task.pid,
{
    task.pid
}

/// getuid(): root.
pub fn sys_getuid(_task: &TaskStruct) -> (r: u64)
    ensures
        r == 0,
{
    0
}

/// geteuid(): root.
pub fn sys_geteuid(_task: &TaskStruct) -> (r: u64)
    ensures
        r == 0,
{
    0
}

/// getgid(): root.
pub fn sys_getgid(_task: &TaskStruct) -> (r: u64)
    ensures
        r == 0,
{
    0
}

/// getegid(): root.
pub fn sys_getegid(_task: &TaskStruct) -> (r: u64)
    ensures
        r == 0,
{
    0
}

/// gettid(): a process has one thread, with its own number.
pub fn sys_gettid(task: &TaskStruct) -> (r: u64)
    ensures
        r == task.pid,
{
    task.pid
}

pub const PR_SET_NAME: u64 = 15;

pub const PR_GET_NAME: u64 = 16;

pub const PR_SET_SECCOMP: u64 = 22;

pub const PR_CAPBSET_DROP: u64 = 24;

pub const PR_SET_NO_NEW_PRIVS: u64 = 36;

pub const PR_GET_NO_NEW_PRIVS: u64 = 39;

pub const PR_SET_VMA: u64 = 0x53564d41;

/// prctl(option, arg2, ..): the result, and the bytes to store at `arg2`.
pub fn sys_prctl(task: &mut TaskStruct, option: u64, arg2: u64) -> (r: (u64, Vec<u8>))
    ensures
        *final(task) == (TaskStruct {
            no_new_privs: old(task).no_new_privs || option == PR_SET_NO_NEW_PRIVS,
            ..*old(task)
        }),
        r.1@ == (if option == PR_GET_NAME && arg2 != 0 {
            misc::nodename()
        } else {
            seq![]
        }),
        r.0 == (if option == PR_GET_NO_NEW_PRIVS {
            if old(task).no_new_privs {
                1u64
            } else {
                0
            }
        } else if option == PR_SET_NAME || option == PR_GET_NAME || option == PR_SET_NO_NEW_PRIVS
            || option == PR_SET_SECCOMP || option == PR_CAPBSET_DROP || option == PR_SET_VMA {
            0
        } else {
            failure(EINVAL)
        }),
{
    let none: Vec<u8> = Vec::new();
    assert(none@ =~= seq![]);
    if option == PR_GET_NAME {
        if arg2 != 0 {
            (0, misc::node_name())
        } else {
            (0, none)
        }
    } else if option == PR_SET_NO_NEW_PRIVS {
        task.no_new_privs = true;
        (0, none)
    } else if option == PR_GET_NO_NEW_PRIVS {
        if task.no_new_privs {
            (1, none)
        } else {
            (0, none)
        }
    } else if option == PR_SET_NAME || option == PR_SET_SECCOMP || option == PR_CAPBSET_DROP
        || option == PR_SET_VMA {
        (0, none)
    } else {
        (failure(EINVAL), none)
    }
}

/// clone(flags, child_sp, ..): the kernel's answer is the result.
pub fn sys_clone(ret: i64) -> (r: u64)
    ensures
        r == protocol::unsigned(ret as int),
{
    protocol::to_unsigned(ret)
}

// ---------------------------------------------------------------------------
// wait4
// ---------------------------------------------------------------------------

/// What a call of wait4 does with the kernel's answer.
#[derive(Debug, Clone, Copy, PartialEq, Eq, Structural)]
pub enum WaitStep {
    /// The result.
    Done(u64),
    /// Store the exit status of the child; then the result is this.
    Store { status: i32, result: u64 },
    /// No child exited yet: yield and ask again.
    Again,
}

pub const WNOHANG: u64 = 1;

/// What a call of wait4 does with the kernel's answer.
pub open spec fn wait_step(ret: i64, status: i32, wstatus: u64, options: u64) -> WaitStep {
    if ret == -(EAGAIN as int) {
        if options & WNOHANG != 0 {
            WaitStep::Done(0)
        } else {
            WaitStep::Again
        }
    } else if ret < 0 || wstatus == 0 {
        WaitStep::Done(protocol::unsigned(ret as int) as u64)
    } else {
        WaitStep::Store { status, result: ret as u64 }
    }
}

/// wait4(pid, wstatus, options, rusage)
pub fn sys_wait4(ret: i64, status: i32, wstatus: u64, options: u64) -> (r: WaitStep)
    ensures
        r == wait_step(ret, status, wstatus, options),
{
    if ret == -(EAGAIN as i64) {
        if options & WNOHANG != 0 {
            WaitStep::Done(0)
        } else {
            WaitStep::Again
        }
    } else if ret < 0 || wstatus == 0 {
        WaitStep::Done(protocol::to_unsigned(ret))
    } else {
        WaitStep::Store { status, result: ret as u64 }
    }
}

// ---------------------------------------------------------------------------
// execve
// ---------------------------------------------------------------------------

/// Largest program file.
pub const EXEC_MAX: u64 = 0x100_0000;

/// The program that execve is to run; an empty path fails.
pub fn sys_execve(raw: &[u8]) -> (r: Result<Vec<u8>, u64>)
    ensures
        match r {
            Ok(p) => p@ == meant_path(raw@) && p@.len() > 0,
            Err(e) => meant_path(raw@).len() == 0 && e == failure(ENOENT),
        },
{
    let path = fs::sys_openat(raw);
    if path.len() == 0 {
        Err(failure(ENOENT))
    } else {
        Ok(path)
    }
}

/// Where a program file of this size is read to: whole pages from the next
/// address for mappings on, and one page more for the boot information.  A file
/// that is empty or too large is no program.
pub fn plan_exec_buffer(task: &TaskStruct, file_size: u64) -> (r: Result<PageRange, u64>)
    requires
        task.mmap_base <= u64::MAX - 0x200_0000,
    ensures
        r == (if file_size == 0 || file_size > EXEC_MAX {
            Err::<PageRange, u64>(failure(ENOEXEC))
        } else {
            Ok(
                PageRange {
                    start: task.mmap_base,
                    end: (task.mmap_base + page_up(file_size as int) + 4096) as u64,
                },
            )
        }),
{
    if file_size == 0 || file_size > EXEC_MAX {
        return Err(failure(ENOEXEC));
    }
    let size: u64 = task::round_up(file_size);
    Ok(PageRange { start: task.mmap_base, end: task.mmap_base + size + 4096 })
}

/// The answer of execve when page `va` of the buffer could not be mapped, and the
/// pages before it, which are to be unmapped again.
pub fn exec_map_failed(range: PageRange, va: u64) -> (r: (u64, PageRange))
    ensures
        r.0 == failure(ENOMEM),
        r.1 == (PageRange { start: range.start, end: va }),
{
    (failure(ENOMEM), PageRange { start: range.start, end: va })
}

/// What the kernel is told of a program that was read to the buffer `range`, and
/// where that is written: the last page of the buffer.  A file that is no
/// program fails.
pub fn exec_boot(file: &[u8], range: PageRange) -> (r: Result<(u64, BootInfo), u64>)
    requires
        loader::executable(file@),
        4096 <= range.end,
    ensures
        r == (match elf_header(file@) {
            None => Err::<(u64, BootInfo), u64>(failure(ENOEXEC)),
            Some(h) => Ok(
                (
                    (range.end - 4096) as u64,
                    BootInfo {
                        program_entry: h.entry,
                        stack_top: USER_STACK_TOP,
                        brk: page_up(loader::top_of(program_headers_of(file@))) as u64,
                        phdr_addr: (loader::base_of(program_headers_of(file@))
                            + h.ph_offset) as u64,
                        phent_size: h.ph_entry_size as u64,
                        phnum: h.ph_count as u64,
                    },
                ),
            ),
        }),
{
    match loader::exec_image(file) {
        None => Err(failure(ENOEXEC)),
        Some(image) => Ok(
            (
                range.end - 4096,
                BootInfo {
                    program_entry: image.entry,
                    stack_top: USER_STACK_TOP,
                    brk: image.brk,
                    phdr_addr: image.phdr_addr,
                    phent_size: image.phent_size as u64,
                    phnum: image.phnum as u64,
                },
            ),
        ),
    }
}

/// One more answer to a read of the program file: how much was read in all, or
/// none when the file is at its end.
pub fn exec_read_more(total: u64, n: u64) -> (r: Option<u64>)
    requires
        total + n <= u64::MAX,
    ensures
        r == (if n == 0 {
            None
        } else {
            Some((total + n) as u64)
        }),
{
    if n == 0 {
        None
    } else {
        Some(total + n)
    }
}

/// The result of execve when the kernel did not start the program.
pub fn finish_execve(ret: i64) -> (r: u64)
    ensures
        r == (if ret < 0 {
            protocol::unsigned(ret as int)
        } else {
            0
        }),
{
    if ret < 0 {
        protocol::to_unsigned(ret)
    } else {
        0
    }
}

} // verus!
