//! Confidence levels and the outlier-exclusion count they induce.
//!
//! A confidence `c` in `[0, 1]` determines how many of the `n` comparison
//! partitions may be ignored as outliers when scoring a candidate core:
//! `num_to_exclude = round_half_up((1 - c) * n)`.

use vstd::prelude::*;

verus! {

/// A confidence level in `[0, 1]`, held exactly as the fraction
/// `numerator / denominator`.
#[derive(Clone, Copy, Debug, PartialEq, Eq, Structural)]
pub struct Confidence {
    pub numerator: u32,
    pub denominator: u32,
}

impl Confidence {
    /// The fraction is well formed: a positive denominator and a value in `[0, 1]`.
    pub open spec fn wf(self) -> bool {
        0 < self.denominator && self.numerator <= self.denominator
    }

    /// The confidence `numerator / denominator`.
    pub fn new(numerator: u32, denominator: u32) -> (c: Confidence)
        requires
            0 < denominator,
            numerator <= denominator,
        ensures
            c.wf(),
            c == (Confidence { numerator, denominator }),
    {
        Confidence { numerator, denominator }
    }
}

/// `round_half_up((1 - conf) * n)`, written over integers:
/// `floor(((d - m) * n * 2 + d) / (2 * d))` for the confidence `m / d`.
pub open spec fn spec_num_to_exclude(num_partitions: int, conf: Confidence) -> int {
    ((conf.denominator - conf.numerator) * num_partitions * 2 + conf.denominator) / (
    2 * conf.denominator)
}

/// How many comparison partitions a scorer working at confidence `conf`
/// discards as outliers, out of `num_partitions` comparison partitions.
pub fn get_num_to_exclude(num_partitions: usize, conf: &Confidence) -> (k: usize)
    requires
        conf.wf(),
    ensures
        k == spec_num_to_exclude(num_partitions as int, *conf),
        k <= num_partitions,
{
    let d = conf.denominator as u128;
    let m = conf.numerator as u128;
    let n = num_partitions as u128;
    let dm = d - m;
    proof {
        assert(dm * n * 2 + d <= 0xFFFF_FFFFu128 * 0xFFFF_FFFF_FFFF_FFFFu128 * 2 + 0xFFFF_FFFF)
            by (nonlinear_arith)
            requires
                dm <= 0xFFFF_FFFF,
                n <= 0xFFFF_FFFF_FFFF_FFFF,
                d <= 0xFFFF_FFFF,
        ;
        assert(dm * n >= 0 && d >= 0) by (nonlinear_arith)
            requires
                dm >= 0,
                n >= 0,
                d >= 0,
        ;
        lemma_num_to_exclude_bound(num_partitions as int, *conf);
    }
    let k = (dm * n * 2 + d) / (2 * d);
    k as usize
}

/// The exclusion count never exceeds the number of comparison partitions.
proof fn lemma_num_to_exclude_bound(n: int, conf: Confidence)
    requires
        conf.wf(),
        n >= 0,
    ensures
        0 <= spec_num_to_exclude(n, conf) <= n,
{
    let d = conf.denominator as int;
    let m = conf.numerator as int;
    let a = (d - m) * n * 2 + d;
    let b = 2 * d;
    assert(a >= 0) by (nonlinear_arith)
        requires
            d > 0,
            0 <= m <= d,
            n >= 0,
            a == (d - m) * n * 2 + d,
    ;
    assert(a / b >= 0) by {
        vstd::arithmetic::div_mod::lemma_div_pos_is_pos(a, b);
    }
    assert(a <= n * b + d) by (nonlinear_arith)
        requires
            d > 0,
            0 <= m <= d,
            n >= 0,
            b == 2 * d,
            a == (d - m) * n * 2 + d,
    ;
    assert((n * b + d) / b == n) by {
        vstd::arithmetic::div_mod::lemma_fundamental_div_mod_converse(n * b + d, b, n, d);
    }
    assert(a / b <= (n * b + d) / b) by {
        vstd::arithmetic::div_mod::lemma_div_is_ordered(a, n * b + d, b);
    }
}

/// Law: for a fixed number of comparison partitions, raising the confidence
/// can only lower (or keep constant) the number of comparison partitions that
/// the scorer excludes as outliers.
///
/// `c1 <= c2` is stated as the cross-multiplied comparison of the two
/// fractions.
pub proof fn lemma_num_to_exclude_monotone(n: int, c1: Confidence, c2: Confidence)
    requires
        c1.wf(),
        c2.wf(),
        n >= 0,
        c1.numerator * c2.denominator <= c2.numerator * c1.denominator,
    ensures
        spec_num_to_exclude(n, c2) <= spec_num_to_exclude(n, c1),
{
    let d1 = c1.denominator as int;
    let m1 = c1.numerator as int;
    let d2 = c2.denominator as int;
    let m2 = c2.numerator as int;
    let a1 = (d1 - m1) * n * 2 + d1;
    let b1 = 2 * d1;
    let a2 = (d2 - m2) * n * 2 + d2;
    let b2 = 2 * d2;
    let q2 = a2 / b2;
    assert(a2 >= 0 && q2 >= 0 && b2 * q2 <= a2) by {
        assert(a2 >= 0) by (nonlinear_arith)
            requires
                d2 > 0,
                0 <= m2 <= d2,
                n >= 0,
                a2 == (d2 - m2) * n * 2 + d2,
        ;
        vstd::arithmetic::div_mod::lemma_div_pos_is_pos(a2, b2);
        vstd::arithmetic::div_mod::lemma_fundamental_div_mod(a2, b2);
        assert(a2 % b2 >= 0) by {
            vstd::arithmetic::div_mod::lemma_mod_bound(a2, b2);
        }
    }
    // Cross-multiplied, the fraction a1/b1 dominates a2/b2 exactly because
    // m1 * d2 <= m2 * d1.
    assert(a1 * b2 >= a2 * b1) by (nonlinear_arith)
        requires
            a1 == (d1 - m1) * n * 2 + d1,
            b1 == 2 * d1,
            a2 == (d2 - m2) * n * 2 + d2,
            b2 == 2 * d2,
            m1 * d2 <= m2 * d1,
            n >= 0,
            d1 > 0,
            d2 > 0,
    ;
    assert(q2 * b1 <= a1) by (nonlinear_arith)
        requires
            b2 * q2 <= a2,
            a1 * b2 >= a2 * b1,
            b1 > 0,
            b2 > 0,
            q2 >= 0,
    ;
    assert(a1 / b1 >= q2) by {
        vstd::arithmetic::div_mod::lemma_div_is_ordered(q2 * b1, a1, b1);
        vstd::arithmetic::div_mod::lemma_div_by_multiple(q2, b1);
    }
}

} // verus!
