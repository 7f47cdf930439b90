//! Fixed-point base-2 logarithm.
//!
//! Entropy scores are kept in exact integer arithmetic: a logarithm is
//! represented scaled by 2^16, as its integer part plus a linear
//! interpolation of the fractional part. The approximation is monotone and
//! exact on powers of two, which is what the scorer's ordering and bounds
//! rest on.
use vstd::prelude::*;
use vstd::arithmetic::power2::pow2;
use vstd::arithmetic::power2::lemma_pow2_pos;
use vstd::arithmetic::power2::lemma_pow2_unfold;
use vstd::arithmetic::power2::lemma_pow2_adds;
use vstd::arithmetic::power2::lemma_pow2_strictly_increases;
use vstd::arithmetic::power2::lemma2_to64;
use vstd::arithmetic::power2::lemma2_to64_rest;
use vstd::arithmetic::div_mod::lemma_div_is_ordered;
use vstd::arithmetic::div_mod::lemma_div_denominator;
use vstd::arithmetic::div_mod::lemma_fundamental_div_mod;

verus! {

/// Fixed-point units per bit: logarithms are scaled by 2^16.
pub const LOG_SCALE: u64 = 65536;

/// The integer part of the base-2 logarithm of `x` (0 for `x < 2`).
pub open spec fn floor_log2(x: nat) -> nat
    decreases x,
{
    if x < 2 {
        0
    } else {
        1 + floor_log2(x / 2)
    }
}

/// The scaled logarithm: integer part in the high bits, a linearly
/// interpolated fraction in the low 16. Zero maps to zero so that empty
/// histogram buckets contribute nothing.
pub open spec fn log2_fix(x: nat) -> nat {
    if x < 1 {
        0
    } else {
        floor_log2(x) * (LOG_SCALE as nat) + ((((x - pow2(floor_log2(x))) * (LOG_SCALE as int))
            / (pow2(floor_log2(x)) as int)) as nat)
    }
}

proof fn lemma_pow2_le(a: nat, b: nat)
    requires
        a <= b,
    ensures
        pow2(a) <= pow2(b),
{
    if a < b {
        lemma_pow2_strictly_increases(a, b);
    }
}

pub proof fn lemma_floor_log2_bounds(x: nat)
    requires
        x >= 1,
    ensures
        pow2(floor_log2(x)) <= x < pow2(floor_log2(x) + 1),
    decreases x,
{
    lemma2_to64();
    if x < 2 {
        assert(floor_log2(x) == 0);
    } else {
        lemma_floor_log2_bounds(x / 2);
        let f = floor_log2(x / 2);
        lemma_pow2_unfold(f + 1);
        lemma_pow2_unfold(f + 2);
        assert(x == 2 * (x / 2) + x % 2) by {
            lemma_fundamental_div_mod(x as int, 2);
        }
    }
}

pub proof fn lemma_floor_log2_mono(x: nat, y: nat)
    requires
        1 <= x <= y,
    ensures
        floor_log2(x) <= floor_log2(y),
{
    lemma_floor_log2_bounds(x);
    lemma_floor_log2_bounds(y);
    if floor_log2(x) > floor_log2(y) {
        lemma_pow2_le(floor_log2(y) + 1, floor_log2(x));
        assert(false);
    }
}

/// The interpolated fraction always stays below one whole bit.
pub proof fn lemma_log2_fix_frac(x: nat)
    requires
        x >= 1,
    ensures
        log2_fix(x) < (floor_log2(x) + 1) * (LOG_SCALE as nat),
        floor_log2(x) * (LOG_SCALE as nat) <= log2_fix(x),
{
    let f = floor_log2(x);
    let p = pow2(f);
    lemma_floor_log2_bounds(x);
    lemma_pow2_pos(f);
    lemma_pow2_unfold(f + 1);
    let diff = (x - p) as nat;
    let frac = (diff * (LOG_SCALE as nat)) as int / p as int;
    assert(frac >= 0) by {
        lemma_div_is_ordered(0, (diff * (LOG_SCALE as nat)) as int, p as int);
    }
    assert(frac < LOG_SCALE as int) by {
        if frac >= LOG_SCALE as int {
            lemma_fundamental_div_mod((diff * (LOG_SCALE as nat)) as int, p as int);
            assert(p as int * frac <= diff * (LOG_SCALE as nat));
            assert(p as int * (LOG_SCALE as int) <= p as int * frac) by (nonlinear_arith)
                requires
                    frac >= LOG_SCALE as int,
                    p >= 1,
            ;
            assert(diff * (LOG_SCALE as nat) < p * (LOG_SCALE as nat)) by (nonlinear_arith)
                requires
                    diff < p,
            ;
            assert(false);
        }
    }
}

/// Monotonicity law of the scaled logarithm.
pub proof fn lemma_log2_fix_mono(x: nat, y: nat)
    requires
        x <= y,
    ensures
        log2_fix(x) <= log2_fix(y),
{
    if x < 1 {
    } else {
        let fx = floor_log2(x);
        let fy = floor_log2(y);
        lemma_floor_log2_mono(x, y);
        lemma_log2_fix_frac(x);
        lemma_log2_fix_frac(y);
        if fx == fy {
            let p = pow2(fx);
            lemma_pow2_pos(fx);
            lemma_floor_log2_bounds(x);
            let nx = (x - p) * (LOG_SCALE as int);
            let ny = (y - p) * (LOG_SCALE as int);
            assert(0 <= nx <= ny);
            lemma_div_is_ordered(0, nx, p as int);
            lemma_div_is_ordered(nx, ny, p as int);
        } else {
            assert(log2_fix(x) < (fx + 1) * (LOG_SCALE as nat));
            assert((fx + 1) * (LOG_SCALE as nat) <= fy * (LOG_SCALE as nat)) by (nonlinear_arith)
                requires
                    fx + 1 <= fy,
            ;
        }
    }
}

/// The logarithm of 1 is exactly zero.
pub proof fn lemma_log2_fix_one()
    ensures
        log2_fix(1) == 0,
{
    lemma2_to64();
    assert(floor_log2(1) == 0);
}

/// A bound used for overflow reasoning: words of any realistic count keep
/// scaled logarithms tiny.
pub proof fn lemma_log2_fix_le(x: nat, b: nat)
    requires
        x >= 1,
        x < pow2(b + 1),
    ensures
        log2_fix(x) <= (b + 1) * (LOG_SCALE as nat),
{
    lemma_floor_log2_bounds(x);
    lemma_log2_fix_frac(x);
    let f = floor_log2(x);
    if f > b {
        lemma_pow2_le(b + 1, f);
        assert(false);
    }
    assert((f + 1) * (LOG_SCALE as nat) <= (b + 1) * (LOG_SCALE as nat)) by (nonlinear_arith)
        requires
            f <= b,
    ;
}

/// Computes the scaled base-2 logarithm at run time.
pub fn log2_fixed(x: u64) -> (r: u64)
    requires
        x >= 1,
    ensures
        r as nat == log2_fix(x as nat),
{
    let mut t: u64 = x;
    let mut k: u64 = 0;
    proof {
        lemma2_to64();
        lemma2_to64_rest();
        assert((x as nat) / pow2(0) == x as nat);
        lemma_floor_log2_bounds(x as nat);
        if floor_log2(x as nat) >= 64 {
            lemma_pow2_le(64, floor_log2(x as nat));
            assert(false);
        }
    }
    while t >= 2
        invariant
            1 <= t,
            t as nat == (x as nat) / pow2(k as nat),
            floor_log2(x as nat) == k as nat + floor_log2(t as nat),
            floor_log2(x as nat) <= 63,
            k as nat <= floor_log2(x as nat),
            x >= 1,
        decreases t,
    {
        proof {
            lemma_pow2_pos(k as nat);
            lemma_div_denominator(x as int, pow2(k as nat) as int, 2);
            lemma_pow2_adds(k as nat, 1);
            lemma2_to64();
            assert(pow2(k as nat) * 2 == pow2(k as nat + 1));
            assert((t as nat) / 2 == (x as nat) / pow2(k as nat + 1));
        }
        t = t / 2;
        k = k + 1;
    }
    proof {
        assert(floor_log2(t as nat) == 0);
        assert(k as nat == floor_log2(x as nat));
        lemma_floor_log2_bounds(x as nat);
        if k >= 64 {
            lemma2_to64_rest();
            lemma_pow2_le(64, k as nat);
            assert(false);
        }
    }
    let mut p: u64 = 1;
    let mut j: u64 = 0;
    while j < k
        invariant
            j <= k,
            k < 64,
            p as nat == pow2(j as nat),
            pow2(k as nat) <= x as nat,
            x >= 1,
        decreases k - j,
    {
        proof {
            lemma_pow2_le(j as nat + 1, k as nat);
            lemma_pow2_unfold(j as nat + 1);
        }
        p = p * 2;
        j = j + 1;
    }
    let diff = x - p;
    proof {
        lemma_floor_log2_bounds(x as nat);
        lemma_pow2_unfold(k as nat + 1);
        assert(diff < p);
        lemma_pow2_pos(k as nat);
    }
    let num: u128 = (diff as u128) * 65536;
    let fr128: u128 = num / (p as u128);
    proof {
        let d = diff as nat;
        let pn = p as nat;
        let frac = (d * 65536) as int / pn as int;
        assert(frac >= 0) by {
            lemma_div_is_ordered(0, (d * 65536) as int, pn as int);
        }
        assert(frac < 65536) by {
            if frac >= 65536 {
                lemma_fundamental_div_mod((d * 65536) as int, pn as int);
                assert(pn as int * frac <= d * 65536);
                assert(pn as int * 65536 <= pn as int * frac) by (nonlinear_arith)
                    requires
                        frac >= 65536,
                        pn >= 1,
                ;
                assert(d * 65536 < pn * 65536) by (nonlinear_arith)
                    requires
                        d < pn,
                ;
                assert(false);
            }
        }
        assert(fr128 as int == frac);
    }
    let fr: u64 = fr128 as u64;
    let r = k * 65536 + fr;
    proof {
        assert(k as nat * 65536 <= 63 * 65536) by (nonlinear_arith)
            requires
                k as nat <= 63,
        ;
    }
    r
}

} // verus!
