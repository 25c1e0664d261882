//! Reward rate schedules.
//!
//! Multipliers are fixed-point values in millionths, so the whole reward
//! computation stays in integer arithmetic with one fixed truncation order.

use vstd::prelude::*;
use vstd::arithmetic::div_mod::{lemma_fundamental_div_mod, lemma_hoist_over_denominator};

verus! {

/// Seconds in one day.
pub const SECONDS_PER_DAY: u64 = 86_400;

/// A multiplier of one, in millionths.
pub const MULTIPLIER_SCALE: u64 = 1_000_000;

/// The largest value a reward figure can take before it is clamped.
pub open spec fn clamp_u64(x: int) -> int {
    if x > u64::MAX {
        u64::MAX as int
    } else {
        x
    }
}

/// The multiplier for `region`: the value of its first entry, or one (in
/// millionths) for a region the schedule does not name.
pub open spec fn lookup_multiplier(ms: Seq<(Seq<char>, u64)>, region: Seq<char>) -> u64
    decreases ms.len(),
{
    if ms.len() == 0 {
        MULTIPLIER_SCALE
    } else if ms[0].0 == region {
        ms[0].1
    } else {
        lookup_multiplier(ms.drop_first(), region)
    }
}

/// A parameterised reward formula.
#[derive(Debug, Clone)]
pub struct RateSchedule {
    /// Base rate per byte per day, in tokens.
    pub base_rate_per_byte_day: u64,
    /// Rate per retrieval operation, in tokens.
    pub retrieval_rate: u64,
    /// Rate per processed operation, in tokens; available to callers but not
    /// folded into `calculate`.
    pub operation_rate: u64,
    /// Multiplier applied to the uptime fraction, in millionths.
    pub uptime_multiplier_micros: u64,
    /// Region-specific multipliers in millionths, keyed by region name.
    pub region_multipliers: Vec<(String, u64)>,
}

impl RateSchedule {
    /// The reward `calculate` owes before clamping:
    /// `⌊base_rate · bytes · duration / 86400⌋ + retrieval_rate · retrievals`.
    pub open spec fn calc_spec(&self, duration_secs: u64, bytes: u64, retrievals: u64) -> int {
        self.base_rate_per_byte_day * bytes * duration_secs / (SECONDS_PER_DAY as int)
            + self.retrieval_rate * retrievals
    }

    /// Reward for `bytes` stored over `duration_secs`, plus the retrieval
    /// component.  The result saturates at `u64::MAX`.
    pub fn calculate(&self, duration_secs: u64, bytes: u64, retrievals: u64) -> (r: u64)
        ensures
            r == clamp_u64(self.calc_spec(duration_secs, bytes, retrievals)),
    {
        let spd: u128 = SECONDS_PER_DAY as u128;
        let rate: u64 = self.base_rate_per_byte_day;
        proof {
            lemma_u64_mul_fits(rate, bytes);
            lemma_u64_mul_fits(self.retrieval_rate, retrievals);
        }
        let prod: u128 = (rate as u128) * (bytes as u128);
        let q: u128 = prod / spd;
        let rem: u128 = prod % spd;
        let d: u128 = duration_secs as u128;
        let retrieval_total: u128 = (self.retrieval_rate as u128) * (retrievals as u128);
        let ghost value = self.calc_spec(duration_secs, bytes, retrievals);
        proof {
            lemma_storage_reward_split(
                self.base_rate_per_byte_day as int,
                bytes as int,
                duration_secs as int,
                q as int,
                rem as int,
            );
        }
        let total: u128 = match q.checked_mul(d) {
            Some(qd) => {
                let tail: u128 = {
                    proof {
                        lemma_small_mul_fits(rem, d);
                    }
                    rem * d / spd
                };
                match qd.checked_add(tail) {
                    Some(storage) => {
                        match storage.checked_add(retrieval_total) {
                            Some(whole) => whole,
                            None => u128::MAX,
                        }
                    },
                    None => u128::MAX,
                }
            },
            None => u128::MAX,
        };
        if total > u64::MAX as u128 {
            u64::MAX
        } else {
            total as u64
        }
    }
}

/// A product of two 64-bit values fits in 128 bits.
pub proof fn lemma_u64_mul_fits(a: u64, b: u64)
    ensures
        a * b <= u128::MAX,
        a * b >= 0,
{
    assert(a * b <= u128::MAX && a * b >= 0) by (nonlinear_arith)
        requires
            a <= u64::MAX,
            b <= u64::MAX,
    ;
}

/// A product of a value below one day of seconds and a 64-bit value fits in
/// 128 bits.
proof fn lemma_small_mul_fits(rem: u128, d: u128)
    requires
        rem < SECONDS_PER_DAY,
        d <= u64::MAX,
    ensures
        rem * d <= u128::MAX,
        rem * d >= 0,
{
    assert(rem * d <= u128::MAX && rem * d >= 0) by (nonlinear_arith)
        requires
            rem < SECONDS_PER_DAY,
            d <= u64::MAX,
    ;
}

/// Splitting `⌊B·bytes·d / 86400⌋` around the division of `B·bytes`:
/// with `q` and `rem` the quotient and remainder of `B·bytes` by 86400,
/// the storage reward is `q·d + ⌊rem·d / 86400⌋`.
proof fn lemma_storage_reward_split(b: int, bytes: int, d: int, q: int, rem: int)
    requires
        b >= 0,
        bytes >= 0,
        d >= 0,
        q == (b * bytes) / (SECONDS_PER_DAY as int),
        rem == (b * bytes) % (SECONDS_PER_DAY as int),
    ensures
        b * bytes * d / (SECONDS_PER_DAY as int) == q * d + rem * d / (SECONDS_PER_DAY as int),
        rem * d / (SECONDS_PER_DAY as int) >= 0,
        q * d >= 0,
{
    let spd = SECONDS_PER_DAY as int;
    let prod = b * bytes;
    lemma_fundamental_div_mod(prod, spd);
    assert(prod * d == rem * d + (q * d) * spd) by (nonlinear_arith)
        requires
            prod == spd * q + rem,
    ;
    lemma_hoist_over_denominator(rem * d, q * d, SECONDS_PER_DAY as nat);
    assert(prod * d == b * bytes * d) by (nonlinear_arith)
        requires
            prod == b * bytes,
    ;
    assert(q * d >= 0) by (nonlinear_arith)
        requires
            q >= 0,
            d >= 0,
    ;
    assert(rem * d >= 0) by (nonlinear_arith)
        requires
            rem >= 0,
            d >= 0,
    ;
}

/// Look up the multiplier for a region; a region the schedule does not name
/// gets a multiplier of one.
pub fn region_multiplier(schedule: &RateSchedule, region: &String) -> (r: u64)
    ensures
        r == lookup_multiplier(schedule.region_multipliers.deep_view(), region@),
{
    let ghost ms = schedule.region_multipliers.deep_view();
    proof {
        assert(ms.skip(0) =~= ms);
    }
    let mut i: usize = 0;
    while i < schedule.region_multipliers.len()
        invariant
            ms == schedule.region_multipliers.deep_view(),
            ms.len() == schedule.region_multipliers.len(),
            i <= ms.len(),
            lookup_multiplier(ms, region@) == lookup_multiplier(ms.skip(i as int), region@),
        decreases schedule.region_multipliers.len() - i,
    {
        proof {
            assert(ms.skip(i as int).drop_first() =~= ms.skip(i + 1));
            assert(ms.skip(i as int)[0] == ms[i as int]);
        }
        if schedule.region_multipliers[i].0 == *region {
            return schedule.region_multipliers[i].1;
        }
        i = i + 1;
    }
    proof {
        assert(ms.skip(ms.len() as int).len() == 0);
    }
    MULTIPLIER_SCALE
}

} // verus!
