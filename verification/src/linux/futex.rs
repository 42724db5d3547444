//! Futexes (stub).
use vstd::prelude::*;
use crate::linux::errno::{failure, ENOSYS};

verus! {

/// futex(uaddr, futex_op, val, timeout, uaddr2, val3): waiting returns at once,
/// and waking wakes nobody; the low 7 bits say which is asked for.
pub fn sys_futex(
    _uaddr: u64,
    futex_op: u64,
    _val: u64,
    _timeout: u64,
    _uaddr2: u64,
    _val3: u64,
) -> (r: u64)
    ensures
        r == (if futex_op % 128 <= 1 {
            0
        } else {
            failure(ENOSYS)
        }),
{
    if futex_op % 128 <= 1 {
        0
    } else {
        failure(ENOSYS)
    }
}

} // verus!
