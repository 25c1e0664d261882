//! Fixed-point distribution ratios.

use vstd::prelude::*;
use vstd::arithmetic::div_mod::{lemma_div_is_ordered, lemma_div_multiples_vanish};
use vstd::arithmetic::mul::lemma_mul_inequality;
use crate::errors::EngineError;

verus! {

/// One in raw units: a ratio stores a fraction of one scaled by `10^6`.
pub const RATIO_SCALE: u64 = 1_000_000;

/// A payment distribution ratio in `[0, 1]`, held as a fixed-point value with
/// six decimal digits of precision.
#[derive(Debug, Clone, Copy, PartialEq, Eq, Structural)]
pub struct Ratio {
    raw: u64,
}

impl Ratio {
    /// The fraction this ratio stands for, scaled by `10^6`.
    pub closed spec fn raw_spec(&self) -> u64 {
        self.raw
    }

    /// A ratio is well formed when it does not exceed one.
    pub open spec fn wf(&self) -> bool {
        self.raw_spec() <= RATIO_SCALE
    }

    /// The amount a ratio allots out of `value`: `(value * raw) / 10^6`,
    /// truncated.
    pub open spec fn apply_to_spec(&self, value: u64) -> int {
        (value * self.raw_spec()) / (RATIO_SCALE as int)
    }

    /// The ratio with the given raw value.
    pub closed spec fn spec_from_raw(raw: u64) -> Ratio {
        Ratio { raw }
    }

    /// Build a ratio from a raw value scaled by `10^6`.  Raw values above the
    /// scale stand for fractions above one and are rejected.
    pub fn from_raw(raw: u64) -> (r: Result<Ratio, EngineError>)
        ensures
            r is Ok <==> raw <= RATIO_SCALE,
            r is Ok ==> r->Ok_0 == Ratio::spec_from_raw(raw) && r->Ok_0.raw_spec() == raw,
            r is Err ==> r->Err_0 is InvalidArgument,
    {
        if raw <= RATIO_SCALE {
            Ok(Ratio { raw })
        } else {
            Err(EngineError::InvalidArgument("ratio must lie between 0 and 1".to_owned()))
        }
    }

    /// The raw fixed-point value.
    pub fn raw_value(&self) -> (r: u64)
        ensures
            r == self.raw_spec(),
    {
        self.raw
    }

    /// Apply this ratio to an amount, truncating toward zero.  The result
    /// never exceeds the amount, since the ratio is at most one.
    pub fn apply_to(&self, value: u64) -> (r: u64)
        requires
            self.wf(),
        ensures
            r == self.apply_to_spec(value),
            r <= value,
    {
        proof {
            lemma_apply_to_bound(*self, value);
        }
        (((value as u128) * (self.raw as u128)) / (RATIO_SCALE as u128)) as u64
    }
}

impl DeepView for Ratio {
    type V = Ratio;

    open spec fn deep_view(&self) -> Ratio {
        *self
    }
}

/// A ratio is its raw value: two ratios with the same raw value are equal.
pub proof fn lemma_ratio_eq(a: Ratio, b: Ratio)
    requires
        a.raw_spec() == b.raw_spec(),
    ensures
        a == b,
{
}

/// The ratio built from a raw value carries that raw value.
pub broadcast proof fn lemma_spec_from_raw(raw: u64)
    ensures
        (#[trigger] Ratio::spec_from_raw(raw)).raw_spec() == raw,
{
}

/// A well-formed ratio never allots more than the amount it is applied to.
pub proof fn lemma_apply_to_bound(r: Ratio, value: u64)
    requires
        r.wf(),
    ensures
        0 <= r.apply_to_spec(value) <= value,
{
    let s = RATIO_SCALE as int;
    lemma_mul_inequality(r.raw as int, s, value as int);
    assert(value * r.raw == r.raw * value) by (nonlinear_arith);
    assert(s * value == value * s) by (nonlinear_arith);
    lemma_div_is_ordered(value * r.raw, value * s, s);
    lemma_div_multiples_vanish(value as int, s);
}

} // verus!
