//! The numbers of the system calls.
use vstd::prelude::*;
use crate::linux::errno::{failure, ENOSYS};

verus! {

/// The system calls.
#[derive(Debug, Clone, Copy, PartialEq, Eq, Structural)]
pub enum Call {
    Getcwd,
    Ioctl,
    Openat,
    Close,
    Read,
    Write,
    Writev,
    Fstat,
    Exit,
    ExitGroup,
    SetTidAddress,
    Uname,
    Getpid,
    Getuid,
    Geteuid,
    Getgid,
    Getegid,
    Brk,
    Munmap,
    Mmap,
    Getrandom,
}

/// The call with this number; none for one that is not known.
pub open spec fn call_of(nr: u64) -> Option<Call> {
    if nr == 17 {
        Some(Call::Getcwd)
    } else if nr == 29 {
        Some(Call::Ioctl)
    } else if nr == 56 {
        Some(Call::Openat)
    } else if nr == 57 {
        Some(Call::Close)
    } else if nr == 63 {
        Some(Call::Read)
    } else if nr == 64 {
        Some(Call::Write)
    } else if nr == 66 {
        Some(Call::Writev)
    } else if nr == 80 {
        Some(Call::Fstat)
    } else if nr == 93 {
        Some(Call::Exit)
    } else if nr == 94 {
        Some(Call::ExitGroup)
    } else if nr == 96 {
        Some(Call::SetTidAddress)
    } else if nr == 160 {
        Some(Call::Uname)
    } else if nr == 172 {
        Some(Call::Getpid)
    } else if nr == 174 {
        Some(Call::Getuid)
    } else if nr == 175 {
        Some(Call::Geteuid)
    } else if nr == 176 {
        Some(Call::Getgid)
    } else if nr == 177 {
        Some(Call::Getegid)
    } else if nr == 214 {
        Some(Call::Brk)
    } else if nr == 215 {
        Some(Call::Munmap)
    } else if nr == 222 {
        Some(Call::Mmap)
    } else if nr == 278 {
        Some(Call::Getrandom)
    } else {
        None
    }
}

/// Which call a number asks for; one that is not known fails.
pub fn dispatch(nr: u64) -> (r: Result<Call, u64>)
    ensures
        r == (match call_of(nr) {
            Some(c) => Ok::<Call, u64>(c),
            None => Err(failure(ENOSYS)),
        }),
{
    match nr {
        17 => Ok(Call::Getcwd),
        29 => Ok(Call::Ioctl),
        56 => Ok(Call::Openat),
        57 => Ok(Call::Close),
        63 => Ok(Call::Read),
        64 => Ok(Call::Write),
        66 => Ok(Call::Writev),
        80 => Ok(Call::Fstat),
        93 => Ok(Call::Exit),
        94 => Ok(Call::ExitGroup),
        96 => Ok(Call::SetTidAddress),
        160 => Ok(Call::Uname),
        172 => Ok(Call::Getpid),
        174 => Ok(Call::Getuid),
        175 => Ok(Call::Geteuid),
        176 => Ok(Call::Getgid),
        177 => Ok(Call::Getegid),
        214 => Ok(Call::Brk),
        215 => Ok(Call::Munmap),
        222 => Ok(Call::Mmap),
        278 => Ok(Call::Getrandom),
        _ => Err(failure(ENOSYS)),
    }
}

/// Registers of a program that made a system call: x0 to x30, the program
/// counter, the status word and the stack pointer.
pub const SAVED_REGS: usize = 34;

/// The number and the arguments of a system call.
#[derive(Debug, Clone, Copy, PartialEq, Eq, Structural)]
pub struct SyscallArgs {
    pub nr: u64,
    pub a0: u64,
    pub a1: u64,
    pub a2: u64,
    pub a3: u64,
    pub a4: u64,
    pub a5: u64,
}

/// What a program asks for: the number is in x8, the arguments are in x0 to x5.
pub fn linux_syscall_handler(regs: &[u64; 34]) -> (r: SyscallArgs)
    ensures
        r == (SyscallArgs {
            nr: regs@[8],
            a0: regs@[0],
            a1: regs@[1],
            a2: regs@[2],
            a3: regs@[3],
            a4: regs@[4],
            a5: regs@[5],
        }),
{
    SyscallArgs {
        nr: regs[8],
        a0: regs[0],
        a1: regs[1],
        a2: regs[2],
        a3: regs[3],
        a4: regs[4],
        a5: regs[5],
    }
}

} // verus!
