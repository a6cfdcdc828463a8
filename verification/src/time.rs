use vstd::prelude::*;

verus! {

/// One second, in nanoseconds. Times in this library are nanoseconds since
/// the Unix epoch, which holds every time to its full precision.
pub const NANOS_PER_SECOND: i128 = 1_000_000_000;

/// Whether more than `span` passed from `t` to `now`.
pub fn elapsed_more_than(t: i128, now: i128, span: i128) -> (res: bool)
    requires
        span >= 0,
    ensures
        res == (now - t > span),
{
    // now - t > span exactly when t < now - span; when now - span is below
    // the smallest time, no t is.
    if now < i128::MIN + span {
        false
    } else {
        t < now - span
    }
}

} // verus!
