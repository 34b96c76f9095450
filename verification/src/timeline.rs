//! Per-entity progress along the curve's parameter domain.
//!
//! Each tracked entity advances a scalar parameter by its speed each
//! tick, wrapping at the end of the domain, and is placed by sampling
//! the curve there.  Values are in the curve's fixed-point scale
//! ([`crate::curve::FP_ONE`] per piece); speeds and tick lengths are
//! fixed-point too, with `FP_ONE` standing for one.

use crate::curve::FP_ONE;
use vstd::prelude::*;

verus! {

/// Divisor applied to every advance: progress moves at half the raw
/// `speed * dt` rate.  Kept as a named constant because the rate has
/// no deeper rationale than observed pacing.
pub const TIMELINE_RATE_DIV: u64 = 2;

/// A progress value along the curve, with its traversal speed in
/// fixed-point domain steps per second (times `FP_ONE`).
#[derive(Clone, Copy, Debug, PartialEq, Eq, Structural)]
pub struct TimelinePosition {
    pub t: u64,
    pub speed: u32,
}

impl Default for TimelinePosition {
    /// Progress starts at the domain start, at unit speed.
    fn default() -> (r: Self)
        ensures
            r.t == 0,
            r.speed == FP_ONE,
    {
        TimelinePosition { t: 0, speed: 0x10000 }
    }
}

impl TimelinePosition {
    /// Advances progress by `speed * dt`, scaled down by `FP_ONE` (the
    /// fixed point) and by [`TIMELINE_RATE_DIV`], wrapping at
    /// `domain_end`.  `dt` is the tick length in fixed-point seconds.
    pub fn tick(&mut self, dt: u32, domain_end: u64)
        requires
            0 < domain_end <= 0x1_0000_0000_0000,
            old(self).t < domain_end,
        ensures
            final(self).speed == old(self).speed,
            final(self).t == (old(self).t + (old(self).speed * dt / (FP_ONE as int))
                / (TIMELINE_RATE_DIV as int)) % (domain_end as int),
            final(self).t < domain_end,
    {
        proof {
            crate::num::lemma_mul_bound(
                self.speed as int,
                dt as int,
                0xFFFF_FFFF,
                0xFFFF_FFFF,
            );
        }
        let advance = ((self.speed as u64) * (dt as u64) / FP_ONE) / TIMELINE_RATE_DIV;
        self.t = (self.t + advance) % domain_end;
    }
}

} // verus!
