//! Exact rational weights.
//!
//! The engine reports every score as a ratio of two unsigned integers rather
//! than as a floating-point number, so `tf` of a three-word document is the
//! exact pair 2/3 and a caller is free to divide at the very edge.  A ratio
//! with a zero denominator stands for the undefined quotient that the scoring
//! formulas produce on an empty document or an empty posting set.

use vstd::prelude::*;

verus! {

/// An unsigned rational number `num / den`, kept unreduced.
///
/// `den == 0` encodes an undefined quotient (the engine never divides).
#[derive(Clone, Copy, PartialEq, Eq, Structural, Debug)]
pub struct Ratio {
    pub num: u128,
    pub den: u128,
}

/// The floor of the base-two logarithm, with `log2(0) == 0` by convention so
/// that scoring an empty corpus stays total.
pub open spec fn log2(n: nat) -> nat
    decreases n,
{
    if n < 2 {
        0
    } else {
        log2(n / 2) + 1
    }
}

/// The floor logarithm never exceeds its argument.
pub proof fn lemma_log2_le(n: nat)
    ensures
        log2(n) <= n,
    decreases n,
{
    if n >= 2 {
        lemma_log2_le(n / 2);
    }
}

/// Floor of the base-two logarithm of `n`, with `ilog2(0) == 0`.
pub fn ilog2(n: u64) -> (r: u64)
    ensures
        r as nat == log2(n as nat),
{
    let mut v: u64 = n;
    let mut r: u64 = 0;
    proof {
        lemma_log2_le(n as nat);
    }
    while v >= 2
        invariant
            log2(n as nat) == log2(v as nat) + r,
            r <= log2(n as nat),
            log2(n as nat) <= u64::MAX,
        decreases v,
    {
        v = v / 2;
        r = r + 1;
    }
    r
}

/// `a * b` when the product fits in `u128`, `None` otherwise.
pub fn mul_checked(a: u128, b: u128) -> (r: Option<u128>)
    ensures
        match r {
            Some(p) => p == a * b,
            None => a * b > u128::MAX,
        },
{
    a.checked_mul(b)
}

/// The element-wise product of two ratios, when both coordinates fit.
pub fn mul_ratio(a: Ratio, b: Ratio) -> (r: Option<Ratio>)
    ensures
        match r {
            Some(p) => p.num == a.num * b.num && p.den == a.den * b.den,
            None => a.num * b.num > u128::MAX || a.den * b.den > u128::MAX,
        },
{
    let num = mul_checked(a.num, b.num);
    let den = mul_checked(a.den, b.den);
    match (num, den) {
        (Some(n), Some(d)) => Some(Ratio { num: n, den: d }),
        _ => None,
    }
}

} // verus!
