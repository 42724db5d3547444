//! Time: there is no clock, it is always the epoch.
use vstd::prelude::*;
use crate::bytes;
use crate::linux::errno::{failure, EINVAL};

verus! {

/// The bytes of a time: two words.
pub open spec fn zero_time(tp: u64) -> Seq<u8> {
    if tp != 0 {
        bytes::zeros(16)
    } else {
        seq![]
    }
}

fn time_bytes(tp: u64) -> (r: Vec<u8>)
    ensures
        r@ == zero_time(tp),
{
    if tp != 0 {
        let b: Vec<u8> = vec![0u8;16];
        assert(b@ =~= bytes::zeros(16));
        b
    } else {
        let b: Vec<u8> = Vec::new();
        assert(b@ =~= seq![]);
        b
    }
}

/// clock_gettime(clk_id, tp): the result, and the bytes to store at `tp`.  Only
/// the real-time clock and the monotonic clock are known; the time is stored in
/// any case.
pub fn sys_clock_gettime(clk_id: u64, tp: u64) -> (r: (u64, Vec<u8>))
    ensures
        r.1@ == zero_time(tp),
        r.0 == (if clk_id <= 1 {
            0
        } else {
            failure(EINVAL)
        }),
{
    let b = time_bytes(tp);
    if clk_id <= 1 {
        (0, b)
    } else {
        (failure(EINVAL), b)
    }
}

/// gettimeofday(tv, tz): the result, and the bytes to store at `tv`.
pub fn sys_gettimeofday(tv: u64, _tz: u64) -> (r: (u64, Vec<u8>))
    ensures
        r.0 == 0,
        r.1@ == zero_time(tv),
{
    (0, time_bytes(tv))
}

/// times(buf): no clock ticks.
pub fn sys_times(_buf: u64) -> (r: u64)
    ensures
        r == 0,
{
    0
}

/// nanosleep(req, rem): done at once.
pub fn sys_nanosleep(_req: u64, _rem: u64) -> (r: u64)
    ensures
        r == 0,
{
    0
}

/// The time that is told is two words of zero; nothing is stored at address 0.
pub proof fn law_time(tp: u64)
    ensures
        tp == 0 ==> zero_time(tp).len() == 0,
        tp != 0 ==> zero_time(tp).len() == 16 && bytes::le64(zero_time(tp), 0) == 0 && bytes::le64(
            zero_time(tp),
            8,
        ) == 0,
{
    assert forall|k: int| 0 <= k < 16 implies #[trigger] bytes::zeros(16)[k] == 0 by {}
}

} // verus!
