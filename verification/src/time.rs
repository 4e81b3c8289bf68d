//! Points in time and spans of time.
use rand::Rng;
use vstd::prelude::*;

verus! {

/// The longest span of time, in nanoseconds: the most seconds that a `u64` counts, and
/// 999999999 nanoseconds.
pub const MAX_DURATION_NANOS: u128 = 18446744073709551615999999999;

/// A span of time, in nanoseconds.
#[derive(Clone, Copy, Debug, PartialEq, Eq, Structural)]
pub struct Duration {
    pub nanos: u128,
}

/// A point in time, in nanoseconds after (or, where negative, before) a fixed point that all
/// instants of a resolver share.
#[derive(Clone, Copy, Debug, PartialEq, Eq, Structural)]
pub struct Instant {
    pub nanos: i128,
}

/// How long after `earlier` the point `later` comes, in nanoseconds, or 0 if it does not.
pub open spec fn nanos_since(later: Instant, earlier: Instant) -> int {
    if later.nanos > earlier.nanos {
        later.nanos - earlier.nanos
    } else {
        0
    }
}

/// A later point comes as long after an earlier one as it takes to get from one to the other;
/// a point that is not later comes no time after it.
pub proof fn the_span_leads_from_one_point_to_the_other(later: Instant, earlier: Instant)
    ensures
        later.nanos >= earlier.nanos ==> earlier.nanos + nanos_since(later, earlier) == later.nanos,
        later.nanos <= earlier.nanos ==> nanos_since(later, earlier) == 0,
{
}

/// The longest span of time is one nanosecond short of 2 to the 64th seconds.
pub proof fn the_longest_span_fills_its_seconds()
    ensures
        MAX_DURATION_NANOS + 1 == 0x1_0000_0000_0000_0000 * 1_000_000_000,
{
}

impl Instant {
    /// The span from `earlier` to this point, or none at all if this point is not later.
    pub fn saturating_duration_since(&self, earlier: Instant) -> (span: Duration)
        ensures
            span.nanos == nanos_since(*self, earlier),
            self.nanos >= earlier.nanos ==> earlier.nanos + span.nanos == self.nanos,
            self.nanos <= earlier.nanos ==> span.nanos == 0,
    {
        if self.nanos <= earlier.nanos {
            Duration { nanos: 0 }
        } else if self.nanos >= 0 && earlier.nanos < 0 {
            let before: u128 = (-(earlier.nanos + 1)) as u128 + 1;
            Duration { nanos: self.nanos as u128 + before }
        } else {
            Duration { nanos: (self.nanos - earlier.nanos) as u128 }
        }
    }
}

/// `rand::Rng::gen_range` on the generator that `rand::thread_rng` gives, for the range from
/// 0 up to and without `end`: some number of that range. Which one is a matter of chance, and
/// nothing is said of it. On an empty range the call would panic.
#[verifier::external_body]
fn random_below(end: u128) -> (n: u128)
    requires
        end > 0,
    ensures
        n < end,
{
    rand::thread_rng().gen_range(0..end)
}

/// A random span of time, shorter than `max`.
pub fn rng_jitter(max: Duration) -> (jitter: Duration)
    requires
        max.nanos > 0,
    ensures
        jitter.nanos < max.nanos,
{
    Duration { nanos: random_below(max.nanos) }
}

} // verus!
