//! Per-receipt reward accounting.
//!
//! For a query window a receipt contributes the schedule reward over the
//! overlap of its service period with the window, scaled by the uptime
//! factor and then by the region multipliers, in that fixed truncation
//! order.

use vstd::prelude::*;
use vstd::arithmetic::div_mod::{lemma_div_by_multiple, lemma_div_is_ordered, lemma_div_multiples_vanish, lemma_fundamental_div_mod, lemma_fundamental_div_mod_converse, lemma_mod_bound};
use vstd::arithmetic::mul::lemma_mul_inequality;
use crate::receipt::StorageReceipt;
use crate::schedule::{clamp_u64, lemma_u64_mul_fits, lookup_multiplier, region_multiplier, RateSchedule, MULTIPLIER_SCALE, SECONDS_PER_DAY};

verus! {

/// One hundred percent of a multiplier of one: the divisor of the combined
/// uptime factor.
pub const UPTIME_SCALE: u64 = 100_000_000;

/// How many seconds of `[a, b)` the service period `[start, end)` covers.
pub open spec fn overlap_duration(start: u64, end: u64, a: u64, b: u64) -> int {
    let lo = if a > start { a as int } else { start as int };
    let hi = if b < end { b as int } else { end as int };
    if hi > lo {
        hi - lo
    } else {
        0
    }
}

/// Apply the region multipliers one after another, clamping each step.
pub open spec fn region_fold(
    ms: Seq<(Seq<char>, u64)>,
    regions: Seq<Seq<char>>,
    x: int,
) -> int
    decreases regions.len(),
{
    if regions.len() == 0 {
        x
    } else {
        region_fold(
            ms,
            regions.drop_first(),
            clamp_u64(x * lookup_multiplier(ms, regions[0]) / (MULTIPLIER_SCALE as int)),
        )
    }
}

/// The uptime-scaled reward before region multipliers:
/// `⌊base · uptime_percentage · uptime_multiplier / 10^8⌋`.
pub open spec fn uptime_scaled(base: int, pct: u8, multiplier_micros: u64) -> int {
    base * pct * multiplier_micros / (UPTIME_SCALE as int)
}

/// What one receipt contributes to a query window: nothing without overlap,
/// otherwise the schedule reward over the overlap, scaled by uptime, then by
/// the region multipliers.
pub open spec fn receipt_contribution(
    s: RateSchedule,
    r: StorageReceipt,
    a: u64,
    b: u64,
) -> int {
    let d = overlap_duration(r.service_period.0, r.service_period.1, a, b);
    if d == 0 {
        0
    } else {
        let base = clamp_u64(
            s.calc_spec(d as u64, r.storage_metrics.bytes_stored, r.storage_metrics.retrievals),
        );
        let scaled = clamp_u64(
            uptime_scaled(base, r.storage_metrics.uptime_percentage, s.uptime_multiplier_micros),
        );
        region_fold(s.region_multipliers.deep_view(), r.storage_metrics.regions.deep_view(), scaled)
    }
}

/// The total over a list of receipts, accumulated in order with saturation.
pub open spec fn rewards_total(s: RateSchedule, rs: Seq<StorageReceipt>, a: u64, b: u64) -> int
    decreases rs.len(),
{
    if rs.len() == 0 {
        0
    } else {
        clamp_u64(rewards_total(s, rs.drop_last(), a, b) + receipt_contribution(s, rs.last(), a, b))
    }
}

/// A fold over clamped steps stays a valid reward figure.
proof fn lemma_region_fold_in_range(
    ms: Seq<(Seq<char>, u64)>,
    regions: Seq<Seq<char>>,
    x: int,
)
    requires
        0 <= x <= u64::MAX,
    ensures
        0 <= region_fold(ms, regions, x) <= u64::MAX,
    decreases regions.len(),
{
    if regions.len() > 0 {
        let m = lookup_multiplier(ms, regions[0]);
        assert(x * m >= 0) by (nonlinear_arith)
            requires
                x >= 0,
                m >= 0,
        ;
        lemma_region_fold_in_range(
            ms,
            regions.drop_first(),
            clamp_u64(x * m / (MULTIPLIER_SCALE as int)),
        );
    }
}

/// A contribution is a valid reward figure.
pub proof fn lemma_contribution_in_range(s: RateSchedule, r: StorageReceipt, a: u64, b: u64)
    ensures
        0 <= receipt_contribution(s, r, a, b) <= u64::MAX,
{
    let d = overlap_duration(r.service_period.0, r.service_period.1, a, b);
    if d != 0 {
        let base = clamp_u64(
            s.calc_spec(d as u64, r.storage_metrics.bytes_stored, r.storage_metrics.retrievals),
        );
        let pct = r.storage_metrics.uptime_percentage;
        let mult = s.uptime_multiplier_micros;
        assert(base * pct * mult >= 0) by (nonlinear_arith)
            requires
                base >= 0,
                pct >= 0,
                mult >= 0,
        ;
        lemma_region_fold_in_range(
            s.region_multipliers.deep_view(),
            r.storage_metrics.regions.deep_view(),
            clamp_u64(uptime_scaled(base, pct, mult)),
        );
    }
}

/// If a figure is at least `2^64` before truncating division by a scale not
/// larger than `10^8`, it clamps to `u64::MAX`.
proof fn lemma_overflow_clamps(p: int, scale: int, bound: int)
    requires
        scale == UPTIME_SCALE || scale == MULTIPLIER_SCALE,
        p > bound,
        bound >= u128::MAX,
    ensures
        clamp_u64(p / scale) == u64::MAX,
{
    let k = (u64::MAX + 1) * scale;
    assert(k <= u128::MAX);
    lemma_div_is_ordered(k, p, scale);
    lemma_div_multiples_vanish(u64::MAX + 1, scale);
}

/// Reward contributed by one receipt to the window `[a, b)`.
pub fn receipt_reward(s: &RateSchedule, r: &StorageReceipt, a: u64, b: u64) -> (out: u64)
    ensures
        out == receipt_contribution(*s, *r, a, b),
{
    let start = r.service_period.0;
    let end = r.service_period.1;
    let lo = if a > start { a } else { start };
    let hi = if b < end { b } else { end };
    if hi <= lo {
        return 0;
    }
    let d = hi - lo;
    let base = s.calculate(d, r.storage_metrics.bytes_stored, r.storage_metrics.retrievals);
    let pct = r.storage_metrics.uptime_percentage;
    let mult = s.uptime_multiplier_micros;
    proof {
        lemma_u64_mul_fits(base, pct as u64);
    }
    let w1: u128 = (base as u128) * (pct as u128);
    let ghost p = base * pct * mult;
    let scaled: u64 = match w1.checked_mul(mult as u128) {
        Some(w2) => {
            let wide = w2 / (UPTIME_SCALE as u128);
            if wide > u64::MAX as u128 {
                u64::MAX
            } else {
                wide as u64
            }
        },
        None => {
            proof {
                assert(p == w1 * mult) by (nonlinear_arith)
                    requires
                        w1 == base * pct,
                        p == base * pct * mult,
                ;
                lemma_overflow_clamps(p, UPTIME_SCALE as int, u128::MAX as int);
            }
            u64::MAX
        },
    };
    let ghost ms = s.region_multipliers.deep_view();
    let ghost regions = r.storage_metrics.regions.deep_view();
    proof {
        assert(regions.skip(0) =~= regions);
    }
    let mut x: u64 = scaled;
    let mut i: usize = 0;
    while i < r.storage_metrics.regions.len()
        invariant
            ms == s.region_multipliers.deep_view(),
            regions == r.storage_metrics.regions.deep_view(),
            regions.len() == r.storage_metrics.regions.len(),
            i <= regions.len(),
            region_fold(ms, regions.skip(i as int), x as int) == region_fold(
                ms,
                regions,
                scaled as int,
            ),
        decreases r.storage_metrics.regions.len() - i,
    {
        proof {
            assert(regions.skip(i as int).drop_first() =~= regions.skip(i + 1));
            assert(regions.skip(i as int)[0] == regions[i as int]);
            assert(r.storage_metrics.regions[i as int]@ == regions[i as int]);
        }
        let m = region_multiplier(s, &r.storage_metrics.regions[i]);
        proof {
            lemma_u64_mul_fits(x, m);
        }
        let w: u128 = (x as u128) * (m as u128);
        let stepped = w / (MULTIPLIER_SCALE as u128);
        x = if stepped > u64::MAX as u128 {
            u64::MAX
        } else {
            stepped as u64
        };
        i = i + 1;
    }
    proof {
        assert(regions.skip(regions.len() as int).len() == 0);
    }
    x
}

/// Total reward a list of receipts contributes to the window `[a, b)`.
pub fn rewards_for_receipts(
    s: &RateSchedule,
    receipts: &Vec<StorageReceipt>,
    a: u64,
    b: u64,
) -> (out: u64)
    ensures
        out == rewards_total(*s, receipts@, a, b),
{
    let mut total: u64 = 0;
    let mut i: usize = 0;
    while i < receipts.len()
        invariant
            i <= receipts@.len(),
            total == rewards_total(*s, receipts@.take(i as int), a, b),
        decreases receipts@.len() - i,
    {
        let c = receipt_reward(s, &receipts[i], a, b);
        proof {
            assert(receipts@.take(i + 1).drop_last() =~= receipts@.take(i as int));
            assert(receipts@.take(i + 1).last() == receipts@[i as int]);
            lemma_contribution_in_range(*s, receipts@[i as int], a, b);
        }
        total = match total.checked_add(c) {
            Some(t) => t,
            None => u64::MAX,
        };
        i = i + 1;
    }
    proof {
        assert(receipts@.take(receipts@.len() as int) =~= receipts@);
    }
    total
}

/// Whether a receipt's service period covers time on both sides of a split
/// point.
pub open spec fn spans_split(r: StorageReceipt, a: u64, b: u64, c: u64) -> bool {
    overlap_duration(r.service_period.0, r.service_period.1, a, b) > 0 && overlap_duration(
        r.service_period.0,
        r.service_period.1,
        b,
        c,
    ) > 0
}

/// How many receipts cover time on both sides of a split point.
pub open spec fn span_count(rs: Seq<StorageReceipt>, a: u64, b: u64, c: u64) -> int
    decreases rs.len(),
{
    if rs.len() == 0 {
        0
    } else {
        span_count(rs.drop_last(), a, b, c) + if spans_split(rs.last(), a, b, c) {
            1int
        } else {
            0int
        }
    }
}

/// The reward total without saturation, for stating laws about sums.
pub open spec fn rewards_total_exact(s: RateSchedule, rs: Seq<StorageReceipt>, a: u64, b: u64) -> int
    decreases rs.len(),
{
    if rs.len() == 0 {
        0
    } else {
        rewards_total_exact(s, rs.drop_last(), a, b) + receipt_contribution(s, rs.last(), a, b)
    }
}

/// Exact totals are never negative.
pub proof fn lemma_rewards_total_exact_nonneg(
    s: RateSchedule,
    rs: Seq<StorageReceipt>,
    a: u64,
    b: u64,
)
    ensures
        rewards_total_exact(s, rs, a, b) >= 0,
    decreases rs.len(),
{
    if rs.len() > 0 {
        lemma_rewards_total_exact_nonneg(s, rs.drop_last(), a, b);
        lemma_contribution_in_range(s, rs.last(), a, b);
    }
}

/// When the exact total fits in 64 bits, the saturating total equals it.
pub proof fn lemma_rewards_total_no_clamp(
    s: RateSchedule,
    rs: Seq<StorageReceipt>,
    a: u64,
    b: u64,
)
    requires
        rewards_total_exact(s, rs, a, b) <= u64::MAX,
    ensures
        rewards_total(s, rs, a, b) == rewards_total_exact(s, rs, a, b),
    decreases rs.len(),
{
    if rs.len() > 0 {
        lemma_contribution_in_range(s, rs.last(), a, b);
        lemma_rewards_total_exact_nonneg(s, rs.drop_last(), a, b);
        lemma_rewards_total_no_clamp(s, rs.drop_last(), a, b);
    }
}

/// Dividing a sum truncates at most one unit away:
/// `⌊x/k⌋ + ⌊y/k⌋ <= ⌊(x+y)/k⌋ <= ⌊x/k⌋ + ⌊y/k⌋ + 1`.
proof fn lemma_floor_add(x: int, y: int, k: int)
    requires
        x >= 0,
        y >= 0,
        k > 0,
    ensures
        x / k + y / k <= (x + y) / k <= x / k + y / k + 1,
{
    let q1 = x / k;
    let r1 = x % k;
    let q2 = y / k;
    let r2 = y % k;
    lemma_fundamental_div_mod(x, k);
    lemma_fundamental_div_mod(y, k);
    lemma_mod_bound(x, k);
    lemma_mod_bound(y, k);
    if r1 + r2 < k {
        assert(x + y == (q1 + q2) * k + (r1 + r2)) by (nonlinear_arith)
            requires
                x == k * q1 + r1,
                y == k * q2 + r2,
        ;
        lemma_fundamental_div_mod_converse(x + y, k, q1 + q2, r1 + r2);
    } else {
        assert(x + y == (q1 + q2 + 1) * k + (r1 + r2 - k)) by (nonlinear_arith)
            requires
                x == k * q1 + r1,
                y == k * q2 + r2,
        ;
        lemma_fundamental_div_mod_converse(x + y, k, q1 + q2 + 1, r1 + r2 - k);
    }
}

/// Scaling by a factor of at most one never grows a value:
/// `0 <= ⌊x·p/m⌋ <= x` when `0 <= p <= m`.
proof fn lemma_scale_le(x: int, p: int, m: int)
    requires
        x >= 0,
        0 <= p <= m,
        0 < m,
    ensures
        0 <= x * p / m <= x,
{
    lemma_mul_inequality(p, m, x);
    assert(x * p == p * x && x * m == m * x) by (nonlinear_arith);
    lemma_div_is_ordered(x * p, x * m, m);
    lemma_div_by_multiple(x, m);
    assert(x * p >= 0) by (nonlinear_arith)
        requires
            x >= 0,
            p >= 0,
    ;
}

/// The conditions under which the window-splitting law holds of a
/// schedule: no per-retrieval reward (a retrieval would be counted once
/// per window it is billed in), no region multipliers, and an uptime
/// multiplier of at most one, so every scaling step truncates downward.
pub open spec fn split_law_schedule(s: RateSchedule) -> bool {
    &&& s.retrieval_rate == 0
    &&& s.region_multipliers.deep_view().len() == 0
    &&& s.uptime_multiplier_micros <= MULTIPLIER_SCALE
}

/// The conditions on one receipt: a true percentage, and a base reward
/// over the whole window that does not saturate.
pub open spec fn split_law_receipt(s: RateSchedule, r: StorageReceipt, a: u64, c: u64) -> bool {
    &&& r.storage_metrics.uptime_percentage <= 100
    &&& s.calc_spec(
        overlap_duration(r.service_period.0, r.service_period.1, a, c) as u64,
        r.storage_metrics.bytes_stored,
        r.storage_metrics.retrievals,
    ) <= u64::MAX
}

/// With no region multipliers, the fold is the identity on reward figures.
proof fn lemma_region_fold_identity(ms: Seq<(Seq<char>, u64)>, regions: Seq<Seq<char>>, x: int)
    requires
        ms.len() == 0,
        0 <= x <= u64::MAX,
    ensures
        region_fold(ms, regions, x) == x,
    decreases regions.len(),
{
    if regions.len() > 0 {
        let m = MULTIPLIER_SCALE as int;
        assert(lookup_multiplier(ms, regions[0]) == MULTIPLIER_SCALE);
        lemma_scale_le(x, m, m);
        assert(x * m / m == x) by {
            lemma_div_by_multiple(x, m);
        }
        lemma_region_fold_identity(ms, regions.drop_first(), x);
    }
}

/// Under the law's conditions a contribution is exactly the uptime-scaled
/// base reward over the overlap, with no clamping anywhere.
proof fn lemma_contribution_formula(s: RateSchedule, r: StorageReceipt, a: u64, b: u64, lo: u64, hi: u64)
    requires
        split_law_schedule(s),
        r.storage_metrics.uptime_percentage <= 100,
        lo <= a,
        b <= hi,
        split_law_receipt(s, r, lo, hi),
    ensures
        receipt_contribution(s, r, a, b) == ({
            let d = overlap_duration(r.service_period.0, r.service_period.1, a, b);
            if d == 0 {
                0
            } else {
                uptime_scaled(
                    s.calc_spec(
                        d as u64,
                        r.storage_metrics.bytes_stored,
                        r.storage_metrics.retrievals,
                    ),
                    r.storage_metrics.uptime_percentage,
                    s.uptime_multiplier_micros,
                )
            }
        }),
        receipt_contribution(s, r, a, b) >= 0,
{
    let start = r.service_period.0;
    let end = r.service_period.1;
    let d = overlap_duration(start, end, a, b);
    let dw = overlap_duration(start, end, lo, hi);
    if d != 0 {
        let bytes = r.storage_metrics.bytes_stored;
        let ret = r.storage_metrics.retrievals;
        let pct = r.storage_metrics.uptime_percentage as int;
        let mult = s.uptime_multiplier_micros as int;
        let kk = SECONDS_PER_DAY as int;
        let bb = s.base_rate_per_byte_day * bytes;
        assert(bb >= 0) by (nonlinear_arith)
            requires
                bb == s.base_rate_per_byte_day * bytes,
                s.base_rate_per_byte_day >= 0,
                bytes >= 0,
        ;
        // the overlap grows with the window, so the base reward cannot
        // saturate on a subwindow
        assert(0 <= d <= dw);
        assert(s.retrieval_rate * ret == 0);
        let base = s.calc_spec(d as u64, bytes, ret);
        let base_w = s.calc_spec(dw as u64, bytes, ret);
        assert(base == bb * d / kk && base_w == bb * dw / kk) by (nonlinear_arith)
            requires
                base == s.base_rate_per_byte_day * bytes * (d as u64) / kk + s.retrieval_rate
                    * ret,
                base_w == s.base_rate_per_byte_day * bytes * (dw as u64) / kk + s.retrieval_rate
                    * ret,
                s.retrieval_rate * ret == 0,
                bb == s.base_rate_per_byte_day * bytes,
                d == d as u64,
                dw == dw as u64,
        ;
        assert(bb * d <= bb * dw) by {
            lemma_mul_inequality(d, dw, bb);
            assert(d * bb == bb * d && dw * bb == bb * dw) by (nonlinear_arith);
        }
        assert(bb * d >= 0) by (nonlinear_arith)
            requires
                bb >= 0,
                d >= 0,
        ;
        lemma_div_is_ordered(bb * d, bb * dw, kk);
        assert(base / 1 == base) by (nonlinear_arith);
        assert(base >= 0) by {
            lemma_div_is_ordered(0, bb * d, kk);
        }
        assert(0 <= base <= base_w <= u64::MAX);
        assert(clamp_u64(base) == base);
        // the uptime factor is at most one, so the scaled figure fits too
        let p = pct * mult;
        let mm = UPTIME_SCALE as int;
        assert(0 <= p <= mm) by (nonlinear_arith)
            requires
                p == pct * mult,
                mm == 100_000_000,
                0 <= pct <= 100,
                0 <= mult <= 1_000_000,
        ;
        let scaled = uptime_scaled(base, r.storage_metrics.uptime_percentage,
            s.uptime_multiplier_micros);
        assert(scaled == base * p / mm) by (nonlinear_arith)
            requires
                scaled == base * pct * mult / mm,
                p == pct * mult,
        ;
        lemma_scale_le(base, p, mm);
        assert(clamp_u64(scaled) == scaled);
        lemma_region_fold_identity(
            s.region_multipliers.deep_view(),
            r.storage_metrics.regions.deep_view(),
            scaled,
        );
    }
}

/// Splitting a window splits the overlap.
proof fn lemma_overlap_additive(start: u64, end: u64, a: u64, b: u64, c: u64)
    requires
        a <= b <= c,
    ensures
        overlap_duration(start, end, a, c) == overlap_duration(start, end, a, b)
            + overlap_duration(start, end, b, c),
{
}

/// One receipt's contribution to a split window: the two halves never
/// exceed the whole, and the whole exceeds the halves by at most three
/// units of truncation — and by nothing at all unless the receipt spans
/// the split point.
proof fn lemma_contribution_split(s: RateSchedule, r: StorageReceipt, a: u64, b: u64, c: u64)
    requires
        a <= b <= c,
        split_law_schedule(s),
        split_law_receipt(s, r, a, c),
    ensures
        ({
            let whole = receipt_contribution(s, r, a, c);
            let left = receipt_contribution(s, r, a, b);
            let right = receipt_contribution(s, r, b, c);
            &&& left + right <= whole
            &&& whole <= left + right + if spans_split(r, a, b, c) {
                3int
            } else {
                0int
            }
        }),
{
    let start = r.service_period.0;
    let end = r.service_period.1;
    let d1 = overlap_duration(start, end, a, b);
    let d2 = overlap_duration(start, end, b, c);
    let dac = overlap_duration(start, end, a, c);
    lemma_overlap_additive(start, end, a, b, c);
    lemma_contribution_formula(s, r, a, c, a, c);
    lemma_contribution_formula(s, r, a, b, a, c);
    lemma_contribution_formula(s, r, b, c, a, c);
    if d1 == 0 || d2 == 0 {
        // one half carries the whole overlap and the other contributes
        // nothing
    } else {
        let bytes = r.storage_metrics.bytes_stored;
        let ret = r.storage_metrics.retrievals;
        let pct = r.storage_metrics.uptime_percentage as int;
        let mult = s.uptime_multiplier_micros as int;
        let kk = SECONDS_PER_DAY as int;
        let mm = UPTIME_SCALE as int;
        let p = pct * mult;
        assert(0 <= p <= mm) by (nonlinear_arith)
            requires
                p == pct * mult,
                mm == 100_000_000,
                0 <= pct <= 100,
                0 <= mult <= 1_000_000,
        ;
        let bb = s.base_rate_per_byte_day * bytes;
        assert(bb >= 0) by (nonlinear_arith)
            requires
                bb == s.base_rate_per_byte_day * bytes,
                s.base_rate_per_byte_day >= 0,
                bytes >= 0,
        ;
        let x1 = bb * d1;
        let x2 = bb * d2;
        assert(x1 >= 0 && x2 >= 0) by (nonlinear_arith)
            requires
                x1 == bb * d1,
                x2 == bb * d2,
                bb >= 0,
                d1 > 0,
                d2 > 0,
        ;
        let g1 = x1 / kk;
        let g2 = x2 / kk;
        let gac = bb * dac / kk;
        assert(bb * dac == x1 + x2) by (nonlinear_arith)
            requires
                dac == d1 + d2,
                x1 == bb * d1,
                x2 == bb * d2,
        ;
        lemma_floor_add(x1, x2, kk);
        assert(g1 + g2 <= gac <= g1 + g2 + 1);
        // tie the g values to the calc_spec values used by the formula
        let base1 = s.calc_spec(d1 as u64, bytes, ret);
        let base2 = s.calc_spec(d2 as u64, bytes, ret);
        let baseac = s.calc_spec(dac as u64, bytes, ret);
        assert(s.retrieval_rate * ret == 0);
        assert(base1 == g1 && base2 == g2 && baseac == gac) by (nonlinear_arith)
            requires
                base1 == s.base_rate_per_byte_day * bytes * (d1 as u64) / kk + s.retrieval_rate
                    * ret,
                base2 == s.base_rate_per_byte_day * bytes * (d2 as u64) / kk + s.retrieval_rate
                    * ret,
                baseac == s.base_rate_per_byte_day * bytes * (dac as u64) / kk + s.retrieval_rate
                    * ret,
                s.retrieval_rate * ret == 0,
                bb == s.base_rate_per_byte_day * bytes,
                g1 == bb * (d1 as u64) / kk,
                g2 == bb * (d2 as u64) / kk,
                gac == bb * (dac as u64) / kk,
                d1 == d1 as u64,
                d2 == d2 as u64,
                dac == dac as u64,
        ;
        // the uptime scaling keeps superadditivity and loses at most three
        // more units
        let h1 = uptime_scaled(base1, r.storage_metrics.uptime_percentage,
            s.uptime_multiplier_micros);
        let h2 = uptime_scaled(base2, r.storage_metrics.uptime_percentage,
            s.uptime_multiplier_micros);
        let hac = uptime_scaled(baseac, r.storage_metrics.uptime_percentage,
            s.uptime_multiplier_micros);
        assert(h1 == g1 * p / mm) by (nonlinear_arith)
            requires
                h1 == base1 * pct * mult / mm,
                base1 == g1,
                p == pct * mult,
        ;
        assert(h2 == g2 * p / mm) by (nonlinear_arith)
            requires
                h2 == base2 * pct * mult / mm,
                base2 == g2,
                p == pct * mult,
        ;
        assert(hac == gac * p / mm) by (nonlinear_arith)
            requires
                hac == baseac * pct * mult / mm,
                baseac == gac,
                p == pct * mult,
        ;
        assert(g1 * p + g2 * p == (g1 + g2) * p && (g1 + g2) * p + p == (g1 + g2 + 1) * p)
            by (nonlinear_arith);
        assert(g1 * p >= 0 && g2 * p >= 0 && p >= 0) by (nonlinear_arith)
            requires
                g1 >= 0,
                g2 >= 0,
                p >= 0,
        ;
        // lower bound
        lemma_floor_add(g1 * p, g2 * p, mm);
        assert((g1 + g2) * p <= gac * p) by {
            lemma_mul_inequality(g1 + g2, gac, p);
        }
        lemma_div_is_ordered((g1 + g2) * p, gac * p, mm);
        assert(h1 + h2 <= hac);
        // upper bound
        assert(gac * p <= (g1 + g2 + 1) * p) by {
            lemma_mul_inequality(gac, g1 + g2 + 1, p);
        }
        lemma_div_is_ordered(gac * p, (g1 + g2 + 1) * p, mm);
        lemma_floor_add((g1 + g2) * p, p, mm);
        assert(p / mm <= 1) by {
            lemma_div_is_ordered(p, mm, mm);
            lemma_div_by_multiple(1, mm);
            assert(mm * 1 == mm) by (nonlinear_arith);
            assert(mm / mm == 1) by {
                lemma_div_by_multiple(1, mm);
                assert(1 * mm == mm) by (nonlinear_arith);
            }
        }
        assert(hac <= h1 + h2 + 3);
    }
}

/// Reward additivity over adjacent windows (the exact totals): for any
/// split point, the whole window's total is never less than the two
/// halves' totals together, and exceeds them by at most three units per
/// receipt that spans the split.  With no split-spanning receipts the
/// totals agree exactly.
pub proof fn lemma_rewards_total_split(
    s: RateSchedule,
    rs: Seq<StorageReceipt>,
    a: u64,
    b: u64,
    c: u64,
)
    requires
        a <= b <= c,
        split_law_schedule(s),
        forall|i: int| 0 <= i < rs.len() ==> split_law_receipt(s, #[trigger] rs[i], a, c),
    ensures
        rewards_total_exact(s, rs, a, b) + rewards_total_exact(s, rs, b, c)
            <= rewards_total_exact(s, rs, a, c),
        rewards_total_exact(s, rs, a, c) <= rewards_total_exact(s, rs, a, b)
            + rewards_total_exact(s, rs, b, c) + 3 * span_count(rs, a, b, c),
        span_count(rs, a, b, c) >= 0,
    decreases rs.len(),
{
    if rs.len() > 0 {
        assert forall|i: int|
            0 <= i < rs.drop_last().len() implies split_law_receipt(
            s,
            #[trigger] rs.drop_last()[i],
            a,
            c,
        ) by {
            assert(rs.drop_last()[i] == rs[i]);
        }
        lemma_rewards_total_split(s, rs.drop_last(), a, b, c);
        assert(rs.last() == rs[rs.len() - 1]);
        lemma_contribution_split(s, rs.last(), a, b, c);
    }
}

/// Reward additivity as the engine computes it: when the whole window's
/// exact total fits in 64 bits, the saturating totals the engine returns
/// obey the same bounds.
pub proof fn lemma_rewards_window_additive(
    s: RateSchedule,
    rs: Seq<StorageReceipt>,
    a: u64,
    b: u64,
    c: u64,
)
    requires
        a <= b <= c,
        split_law_schedule(s),
        forall|i: int| 0 <= i < rs.len() ==> split_law_receipt(s, #[trigger] rs[i], a, c),
        rewards_total_exact(s, rs, a, c) <= u64::MAX,
    ensures
        rewards_total(s, rs, a, b) + rewards_total(s, rs, b, c) <= rewards_total(s, rs, a, c),
        rewards_total(s, rs, a, c) <= rewards_total(s, rs, a, b) + rewards_total(s, rs, b, c) + 3
            * span_count(rs, a, b, c),
{
    lemma_rewards_total_split(s, rs, a, b, c);
    lemma_rewards_total_exact_nonneg(s, rs, a, b);
    lemma_rewards_total_exact_nonneg(s, rs, b, c);
    lemma_rewards_total_no_clamp(s, rs, a, c);
    lemma_rewards_total_no_clamp(s, rs, a, b);
    lemma_rewards_total_no_clamp(s, rs, b, c);
}

} // verus!
