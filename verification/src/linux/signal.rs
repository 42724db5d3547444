//! Signals (stubs): every request is accepted and nothing is done.
use vstd::prelude::*;

verus! {

/// rt_sigaction(signum, act, oldact, sigsetsize)
pub fn sys_rt_sigaction(_signum: u64, _act: u64, _oldact: u64, _sigsetsize: u64) -> (r: u64)
    ensures
        r == 0,
{
    0
}

/// rt_sigprocmask(how, set, oldset, sigsetsize)
pub fn sys_rt_sigprocmask(_how: u64, _set: u64, _oldset: u64, _sigsetsize: u64) -> (r: u64)
    ensures
        r == 0,
{
    0
}

/// sigaltstack(ss, oss)
pub fn sys_sigaltstack(_ss: u64, _oss: u64) -> (r: u64)
    ensures
        r == 0,
{
    0
}

} // verus!
