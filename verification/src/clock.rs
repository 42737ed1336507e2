//! When a file counts as stale.
use vstd::prelude::*;

verus! {

/// The time that has passed between `modified` and `now`, both in
/// nanoseconds relative to the Unix epoch.
pub open spec fn elapsed(now: int, modified: int) -> int {
    now - modified
}

/// A file is stale when strictly more than `age` nanoseconds lie between
/// its last modification and the reference time.
pub open spec fn stale(now: int, modified: int, age: int) -> bool {
    elapsed(now, modified) > age
}

/// Decides whether a file last modified at `modified` is stale at `now`
/// under the threshold `age`. The span between two times can exceed what
/// either of them holds, so it is measured without a sign.
pub fn is_stale(now: i128, modified: i128, age: u128) -> (r: bool)
    ensures
        r == stale(now as int, modified as int, age as int),
{
    if modified >= now {
        false
    } else if modified >= 0 || now < 0 {
        let span: i128 = now - modified;
        (span as u128) > age
    } else {
        let before: u128 = (-(modified + 1)) as u128 + 1;
        let span: u128 = (now as u128) + before;
        span > age
    }
}

} // verus!
