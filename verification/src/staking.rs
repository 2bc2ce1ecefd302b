//! Staking parameters and the payout of an era.
//!
//! Portions are counted in parts per billion. The arithmetic on them is that
//! of `sp_runtime::Perbill`, which is called for every result.

use vstd::prelude::*;
use sp_runtime::Perbill;
use crate::primitives::{Balance, TOKEN};

verus! {

pub const MIN_VALIDATOR_BOND: u128 = 25_000 * TOKEN;

pub const MIN_NOMINATOR_BOND: u128 = 100 * TOKEN;

pub const MAX_NOMINATORS_REWARDED_PER_VALIDATOR: u32 = 1024;

pub const YEARLY_INFLATION: Balance = 30_000_000 * TOKEN;

/// The validators' share of a payout, in percent.
pub const VALIDATOR_REWARD_PERCENT: u32 = 90;

/// Milliseconds in a Julian year of 365.25 days.
pub const MILLISECONDS_PER_YEAR: u64 = 31_557_600_000;

/// The number of parts that make a whole.
pub const BILLION: u32 = 1_000_000_000;

/// The portion `p / q` in parts per billion, rounded down; the whole where
/// `q` is zero or `p` exceeds `q`.
pub open spec fn spec_ratio_parts(p: u64, q: u64) -> int {
    if q == 0 || p > q {
        BILLION as int
    } else {
        (BILLION * p) / (q as int)
    }
}

/// `x` percent in parts per billion; the whole where `x` exceeds a hundred.
pub open spec fn spec_percent_parts(x: u32) -> int {
    if x > 100 {
        BILLION as int
    } else {
        x * (BILLION / 100)
    }
}

/// `parts` billionths of `x`, rounded to the nearest integer and down where
/// two are equally near. Whole billions of `x` are scaled exactly; only what
/// the remainder of `x` yields is rounded.
pub open spec fn spec_scale(parts: u32, x: u128) -> int {
    let whole = (x / (BILLION as u128)) * parts;
    let rest = (x % (BILLION as u128)) * parts;
    whole + rest / (BILLION as int) + if rest % (BILLION as int) > BILLION / 2 {
        1int
    } else {
        0int
    }
}

/// `Perbill::from_rational(p, q)`, in parts. By the source, the ratio is an
/// error turned into one where `q` is zero or `p > q`; otherwise it is
/// `10^9 * p / q`, computed in 128 bits and rounded down.
#[verifier::external_body]
fn ratio_parts(p: u64, q: u64) -> (parts: u32)
    ensures
        parts == spec_ratio_parts(p, q),
{
    Perbill::from_rational(p, q).deconstruct()
}

/// `Perbill::from_percent(x)`, in parts. By the source, `x` is capped at a
/// hundred and multiplied by `10^9 / 100`.
#[verifier::external_body]
fn percent_parts(x: u32) -> (parts: u32)
    ensures
        parts == spec_percent_parts(x),
{
    Perbill::from_percent(x).deconstruct()
}

/// `Perbill::from_parts(parts) * x`. By the source, the product is
/// `(x / 10^9) * parts` plus the remainder of `x` times `parts` over `10^9`,
/// the latter rounded to the nearest integer, down where equally near.
#[verifier::external_body]
fn scale(parts: u32, x: u128) -> (scaled: u128)
    requires
        parts <= BILLION,
    ensures
        scaled == spec_scale(parts, x),
{
    Perbill::from_parts(parts) * x
}

/// A ratio is at most the whole.
pub proof fn lemma_ratio_bound(p: u64, q: u64)
    ensures
        0 <= spec_ratio_parts(p, q) <= BILLION,
{
    if q != 0 && p <= q {
        let b = BILLION as int;
        assert(b * p <= b * q) by (nonlinear_arith)
            requires
                0 <= p <= q,
                b >= 0,
        ;
        assert((b * p) / (q as int) <= b) by (nonlinear_arith)
            requires
                q > 0,
                b * p <= b * q,
        ;
        assert((b * p) / (q as int) >= 0) by (nonlinear_arith)
            requires
                q > 0,
                b * p >= 0,
        ;
        assert(b * p >= 0) by (nonlinear_arith)
            requires
                p >= 0,
                b >= 0,
        ;
    }
}

/// A portion of an amount is at most the amount.
pub proof fn lemma_scale_bound(parts: u32, x: u128)
    requires
        parts <= BILLION,
    ensures
        0 <= spec_scale(parts, x) <= x,
{
    let b = BILLION as int;
    let q = (x / (BILLION as u128)) as int;
    let r = (x % (BILLION as u128)) as int;
    let p = parts as int;
    assert(x == q * b + r && 0 <= r < b && q >= 0) by (nonlinear_arith)
        requires
            q == x as int / b,
            r == x as int % b,
            b == 1_000_000_000,
            x >= 0,
    ;
    assert(0 <= q * p <= q * b) by (nonlinear_arith)
        requires
            0 <= p <= b,
            q >= 0,
    ;
    assert(0 <= r * p <= r * b) by (nonlinear_arith)
        requires
            0 <= p <= b,
            r >= 0,
    ;
    let m = r * p;
    assert(m / b + (if m % b > b / 2 {
        1int
    } else {
        0int
    }) <= r && m / b >= 0) by (nonlinear_arith)
        requires
            0 <= m <= r * b,
            b == 1_000_000_000,
    ;
}

/// A portion of a whole, in parts per billion.
#[derive(Debug, Clone, Copy, PartialEq, Eq, Structural)]
pub struct Portion {
    parts: u32,
}

impl Portion {
    /// The parts per billion, as a mathematical integer.
    pub closed spec fn spec_parts(self) -> int {
        self.parts as int
    }

    /// The invariant of a portion: it is at most the whole.
    pub closed spec fn wf(self) -> bool {
        self.parts <= BILLION
    }

    /// `x` percent; the whole where `x` exceeds a hundred.
    pub fn from_percent(x: u32) -> (portion: Portion)
        ensures
            portion.wf(),
            portion.spec_parts() == spec_percent_parts(x),
    {
        proof {
            assert(BILLION / 100 == 10_000_000);
        }
        Portion { parts: percent_parts(x) }
    }

    /// The portion `p / q`, rounded down to a billionth; the whole where `q`
    /// is zero or `p` exceeds `q`.
    pub fn from_rational(p: u64, q: u64) -> (portion: Portion)
        ensures
            portion.wf(),
            portion.spec_parts() == spec_ratio_parts(p, q),
    {
        proof {
            lemma_ratio_bound(p, q);
        }
        Portion { parts: ratio_parts(p, q) }
    }

    /// The parts per billion.
    pub fn parts(self) -> (parts: u32)
        ensures
            parts == self.spec_parts(),
    {
        self.parts
    }

    /// This portion of `x`.
    pub fn of(self, x: u128) -> (scaled: u128)
        requires
            self.wf(),
        ensures
            scaled == spec_scale(self.spec_parts() as u32, x),
            scaled <= x,
    {
        proof {
            lemma_scale_bound(self.parts, x);
        }
        scale(self.parts, x)
    }
}

/// What is paid out for an era of the given length: to the validators, and
/// to the rest.
pub open spec fn spec_era_payout(miliseconds_per_era: u64) -> (int, int) {
    let portion = spec_ratio_parts(miliseconds_per_era, MILLISECONDS_PER_YEAR) as u32;
    let total = spec_scale(portion, YEARLY_INFLATION) as u128;
    let validators = spec_scale(spec_percent_parts(VALIDATOR_REWARD_PERCENT) as u32, total);
    (validators, total - validators)
}

/// The payout of an era of the given length. The era's portion of a year, at
/// most the whole, is taken of the yearly inflation; of that the validators
/// get their share and the rest gets what remains.
pub fn era_payout(miliseconds_per_era: u64) -> (payout: (Balance, Balance))
    ensures
        payout.0 == spec_era_payout(miliseconds_per_era).0,
        payout.1 == spec_era_payout(miliseconds_per_era).1,
        payout.0 + payout.1 <= YEARLY_INFLATION,
{
    let portion = Portion::from_rational(miliseconds_per_era, MILLISECONDS_PER_YEAR);
    let total_payout = portion.of(YEARLY_INFLATION);
    let validator_reward = Portion::from_percent(VALIDATOR_REWARD_PERCENT);
    let validators_payout = validator_reward.of(total_payout);
    let rest = total_payout - validators_payout;
    (validators_payout, rest)
}

} // verus!
