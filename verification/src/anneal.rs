//! The annealing schedule of the core search: geometric cooling and the
//! Metropolis acceptance rule, in integer fixed point.
//!
//! Temperatures are held in Q32 fixed point (one unit of temperature is
//! [`TEMP_ONE`]) and acceptance probabilities in Q64 fixed point. A proposed
//! flip that worsens the weighted score by `delta < 0` is accepted with
//! probability close to `exp(delta / temperature)`: the exponential is
//! evaluated as a product of the tabulated Q64 values of `exp(-1)` and
//! `exp(-2^-j)`, one factor per unit and per fraction bit of
//! `-delta / temperature`.

use vstd::prelude::*;

use crate::rng::{rng_draw, SearchRng};

verus! {

/// One unit of temperature, in Q32 fixed point.
pub const TEMP_ONE: u64 = 0x1_0000_0000;

/// One, in Q64 fixed point.
pub const Q64_ONE: u128 = 0x1_0000_0000_0000_0000;

/// `exp(-1)` in Q64 fixed point.
pub const EXP_NEG_ONE: u64 = 6786177901268885275;

/// `exp(-2^-16)` in Q64 fixed point.
pub const EXP_FRAC_0: u64 = 18446462600880313685;

/// `exp(-2^-15)` in Q64 fixed point.
pub const EXP_FRAC_1: u64 = 18446181132345977515;

/// `exp(-2^-14)` in Q64 fixed point.
pub const EXP_FRAC_2: u64 = 18445618208161748320;

/// `exp(-2^-13)` in Q64 fixed point.
pub const EXP_FRAC_3: u64 = 18444492411329227605;

/// `exp(-2^-12)` in Q64 fixed point.
pub const EXP_FRAC_4: u64 = 18442241023793258496;

/// `exp(-2^-11)` in Q64 fixed point.
pub const EXP_FRAC_5: u64 = 18437739073120195921;

/// `exp(-2^-10)` in Q64 fixed point.
pub const EXP_FRAC_6: u64 = 18428738468430479223;

/// `exp(-2^-9)` in Q64 fixed point.
pub const EXP_FRAC_7: u64 = 18410750438167364678;

/// `exp(-2^-8)` in Q64 fixed point.
pub const EXP_FRAC_8: u64 = 18374827034086858297;

/// `exp(-2^-7)` in Q64 fixed point.
pub const EXP_FRAC_9: u64 = 18303190372430456780;

/// `exp(-2^-6)` in Q64 fixed point.
pub const EXP_FRAC_10: u64 = 18160753814917686420;

/// `exp(-2^-5)` in Q64 fixed point.
pub const EXP_FRAC_11: u64 = 17879197424118840458;

/// `exp(-2^-4)` in Q64 fixed point.
pub const EXP_FRAC_12: u64 = 17329112349219823219;

/// `exp(-2^-3)` in Q64 fixed point.
pub const EXP_FRAC_13: u64 = 16279194507819420732;

/// `exp(-2^-2)` in Q64 fixed point.
pub const EXP_FRAC_14: u64 = 14366338729722795843;

/// `exp(-2^-1)` in Q64 fixed point.
pub const EXP_FRAC_15: u64 = 11188515852577165300;

/// Temperature after one cooling step: multiplied by 0.99, floored at the
/// smallest positive Q32 value so that the temperature never reaches zero.
pub open spec fn spec_cool(t: int) -> int {
    if t * 99 / 100 == 0 {
        1
    } else {
        t * 99 / 100
    }
}

/// One geometric cooling step.
pub fn cool(t: u64) -> (r: u64)
    requires
        t <= TEMP_ONE,
    ensures
        r == spec_cool(t as int),
        1 <= r <= TEMP_ONE,
{
    let c = t * 99 / 100;
    if c == 0 {
        1
    } else {
        c
    }
}

/// `p * c`, in Q64 fixed point.
pub open spec fn spec_mul_q64(p: int, c: int) -> int {
    p * c / 0x1_0000_0000_0000_0000
}

/// Multiplies the Q64 probability `p` by the Q64 factor `c`.
fn mul_q64(p: u128, c: u64) -> (r: u128)
    requires
        p <= Q64_ONE,
    ensures
        r == spec_mul_q64(p as int, c as int),
        r <= p,
{
    proof {
        assert(p * c <= Q64_ONE * 0xFFFF_FFFF_FFFF_FFFFu64) by (nonlinear_arith)
            requires
                p <= Q64_ONE,
                c <= 0xFFFF_FFFF_FFFF_FFFFu64,
                p >= 0,
        ;
        assert(p * c / 0x1_0000_0000_0000_0000 <= p) by (nonlinear_arith)
            requires
                p >= 0,
                0 <= c < 0x1_0000_0000_0000_0000,
        ;
    }
    p * (c as u128) / 0x1_0000_0000_0000_0000
}

/// The tabulated Q64 value of `exp(-2^(j-16))`.
pub open spec fn spec_frac_factor(j: int) -> u64 {
    if j == 0 {
        EXP_FRAC_0
    } else if j == 1 {
        EXP_FRAC_1
    } else if j == 2 {
        EXP_FRAC_2
    } else if j == 3 {
        EXP_FRAC_3
    } else if j == 4 {
        EXP_FRAC_4
    } else if j == 5 {
        EXP_FRAC_5
    } else if j == 6 {
        EXP_FRAC_6
    } else if j == 7 {
        EXP_FRAC_7
    } else if j == 8 {
        EXP_FRAC_8
    } else if j == 9 {
        EXP_FRAC_9
    } else if j == 10 {
        EXP_FRAC_10
    } else if j == 11 {
        EXP_FRAC_11
    } else if j == 12 {
        EXP_FRAC_12
    } else if j == 13 {
        EXP_FRAC_13
    } else if j == 14 {
        EXP_FRAC_14
    } else {
        EXP_FRAC_15
    }
}

/// The tabulated Q64 value of `exp(-2^(j-16))`.
fn frac_factor(j: u64) -> (r: u64)
    requires
        j < 16,
    ensures
        r == spec_frac_factor(j as int),
{
    if j == 0 {
        EXP_FRAC_0
    } else if j == 1 {
        EXP_FRAC_1
    } else if j == 2 {
        EXP_FRAC_2
    } else if j == 3 {
        EXP_FRAC_3
    } else if j == 4 {
        EXP_FRAC_4
    } else if j == 5 {
        EXP_FRAC_5
    } else if j == 6 {
        EXP_FRAC_6
    } else if j == 7 {
        EXP_FRAC_7
    } else if j == 8 {
        EXP_FRAC_8
    } else if j == 9 {
        EXP_FRAC_9
    } else if j == 10 {
        EXP_FRAC_10
    } else if j == 11 {
        EXP_FRAC_11
    } else if j == 12 {
        EXP_FRAC_12
    } else if j == 13 {
        EXP_FRAC_13
    } else if j == 14 {
        EXP_FRAC_14
    } else {
        EXP_FRAC_15
    }
}

/// Multiplies `p` by the tabulated factor of every set bit of `f` below bit
/// `j`, from the highest down.
pub open spec fn spec_apply_frac_below(p: int, f: int, j: nat) -> int
    decreases j,
{
    if j == 0 {
        p
    } else {
        let stepped = if f / (vstd::arithmetic::power2::pow2((j - 1) as nat) as int) % 2 == 1 {
            spec_mul_q64(p, spec_frac_factor(j - 1) as int)
        } else {
            p
        };
        spec_apply_frac_below(stepped, f, (j - 1) as nat)
    }
}

/// Multiplies `p` by the Q64 value of `exp(-f / 2^16)`, one tabulated factor
/// per set bit of the 16-bit fraction `f`.
pub open spec fn spec_apply_frac(p: int, f: int) -> int {
    spec_apply_frac_below(p, f, 16)
}

/// Applies the fraction-bit factors of [`spec_apply_frac`].
fn apply_frac(p0: u128, f: u64) -> (r: u128)
    requires
        p0 <= Q64_ONE,
    ensures
        r == spec_apply_frac(p0 as int, f as int),
        r <= p0,
{
    let mut p = p0;
    let mut j: u64 = 16;
    let mut bit: u64 = 0x1_0000;
    proof {
        vstd::arithmetic::power2::lemma2_to64();
    }
    while j > 0
        invariant
            j <= 16,
            p <= p0 <= Q64_ONE,
            bit == vstd::arithmetic::power2::pow2(j as nat),
            spec_apply_frac_below(p as int, f as int, j as nat) == spec_apply_frac(
                p0 as int,
                f as int,
            ),
        decreases j,
    {
        proof {
            vstd::arithmetic::power2::lemma_pow2_unfold(j as nat);
            assert(vstd::arithmetic::power2::pow2((j - 1) as nat) >= 1) by {
                vstd::arithmetic::power2::lemma_pow2_pos((j - 1) as nat);
            }
        }
        j = j - 1;
        bit = bit / 2;
        if f / bit % 2 == 1 {
            p = mul_q64(p, frac_factor(j));
        }
    }
    p
}

/// Multiplies `p` by the Q64 value of `exp(-1)`, `n` times.
pub open spec fn spec_pow_e(p: int, n: nat) -> int
    decreases n,
{
    if n == 0 {
        p
    } else {
        spec_pow_e(spec_mul_q64(p, EXP_NEG_ONE as int), (n - 1) as nat)
    }
}

/// Applies the whole-unit factors of [`spec_pow_e`].
fn pow_e(p0: u128, n: u64) -> (r: u128)
    requires
        p0 <= Q64_ONE,
    ensures
        r == spec_pow_e(p0 as int, n as nat),
        r <= p0,
{
    let mut p = p0;
    let mut i: u64 = 0;
    while i < n
        invariant
            0 <= i <= n,
            p <= p0 <= Q64_ONE,
            spec_pow_e(p as int, (n - i) as nat) == spec_pow_e(p0 as int, n as nat),
        decreases n - i,
    {
        p = mul_q64(p, EXP_NEG_ONE);
        i = i + 1;
    }
    p
}

/// The Q64 acceptance threshold for a score change of `delta` at temperature
/// `temp`: an improvement is always accepted, a worsening with probability
/// `exp(delta / temp)`, evaluated in fixed point and cut off to zero once the
/// exponent falls below -50.
pub open spec fn spec_threshold(delta: int, temp: int) -> int {
    if delta >= 0 {
        Q64_ONE as int
    } else {
        let y = (-delta) * 0x1_0000_0000_0000 / temp;
        if y >= 50 * 0x1_0000 {
            0
        } else {
            spec_pow_e(spec_apply_frac(Q64_ONE as int, y % 0x1_0000), (y / 0x1_0000) as nat)
        }
    }
}

/// The acceptance threshold for a worsening move (`delta < 0`).
fn threshold_neg(delta: i64, temp: u64) -> (r: u128)
    requires
        delta < 0,
        1 <= temp,
    ensures
        r == spec_threshold(delta as int, temp as int),
{
    let nd = (-(delta as i128)) as u128;
    proof {
        assert(nd * 0x1_0000_0000_0000u128 <= 0x8000_0000_0000_0000u128
            * 0x1_0000_0000_0000u128) by (nonlinear_arith)
            requires
                0 < nd <= 0x8000_0000_0000_0000u128,
        ;
    }
    let y = nd * 0x1_0000_0000_0000 / (temp as u128);
    if y >= 50 * 0x1_0000 {
        0
    } else {
        let n = (y / 0x1_0000) as u64;
        let f = (y % 0x1_0000) as u64;
        let p = apply_frac(Q64_ONE, f);
        pow_e(p, n)
    }
}

/// Whether one Metropolis draw accepts a score change of `delta` at
/// temperature `temp`: improvements always, worsenings when the 64-bit draw
/// falls below the [`spec_threshold`] probability.
pub open spec fn spec_accept(seed: u64, idx: nat, delta: int, temp: int) -> bool {
    delta >= 0 || (rng_draw(seed, idx) as int) < spec_threshold(delta, temp)
}

/// Draws once from `rng` and decides whether to accept a flip whose weighted
/// score changes by `delta` at temperature `temp`.
pub fn accept_flip(rng: &mut SearchRng, delta: i64, temp: u64) -> (acc: bool)
    requires
        1 <= temp,
    ensures
        final(rng).seed == old(rng).seed,
        final(rng).draws@ == old(rng).draws@ + 1,
        acc == spec_accept(old(rng).seed@, old(rng).draws@, delta as int, temp as int),
{
    let u = rng.next_u64();
    if delta >= 0 {
        true
    } else {
        let p = threshold_neg(delta, temp);
        (u as u128) < p
    }
}

} // verus!
