//! Error numbers, and how a system call returns them.
use vstd::prelude::*;

verus! {

pub const ENOENT: u16 = 2;

pub const EIO: u16 = 5;

pub const ENOEXEC: u16 = 8;

pub const EBADF: u16 = 9;

pub const EAGAIN: u16 = 11;

pub const ENOMEM: u16 = 12;

pub const EINVAL: u16 = 22;

pub const EMFILE: u16 = 24;

pub const ENOTTY: u16 = 25;

pub const ENOSYS: u16 = 38;

/// What a call returns that fails with an error: the negative number, in 64
/// bits.
#[verifier::allow_in_spec]
pub fn failure(e: u16) -> u64
    requires
        e > 0,
    returns
        ((0x1_0000_0000_0000_0000 - e) as u64),
{
    0xFFFF_FFFF_FFFF_FFFF - e as u64 + 1
}

/// A result that is an error, read as a signed number.
pub open spec fn is_failure(r: u64) -> bool {
    r >= 0x8000_0000_0000_0000
}

/// A failure reads as the negative error number.
pub proof fn law_failures_are_negative(e: u16)
    requires
        e > 0,
    ensures
        is_failure(failure(e)),
        failure(e) as int - 0x1_0000_0000_0000_0000 == -(e as int),
{
}

} // verus!
