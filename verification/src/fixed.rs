//! Fixed-point arithmetic: integer square root, binary logarithm, and a
//! fixed-point approximation of the inverse hyperbolic sine on values in
//! micro-units (six decimal places).

use vstd::prelude::*;
use vstd::arithmetic::power2::{pow2, lemma2_to64, lemma2_to64_rest, lemma_pow2_strictly_increases};

verus! {

/// `r` is the floor of the square root of `n`.
pub open spec fn is_sqrt_floor(n: int, r: int) -> bool {
    0 <= r && r * r <= n && n < (r + 1) * (r + 1)
}

/// The floor of the square root of a non-negative integer.
pub closed spec fn sqrt_floor(n: int) -> int {
    choose|r: int| is_sqrt_floor(n, r)
}

/// Every non-negative integer has a square-root floor.
proof fn lemma_sqrt_exists(n: nat)
    ensures
        exists|r: int| is_sqrt_floor(n as int, r),
    decreases n,
{
    if n == 0 {
        assert(is_sqrt_floor(0, 0));
    } else {
        lemma_sqrt_exists((n - 1) as nat);
        let r = choose|r: int| #[trigger] is_sqrt_floor(n - 1, r);
        if (r + 1) * (r + 1) <= n {
            assert(is_sqrt_floor(n as int, r + 1)) by (nonlinear_arith)
                requires
                    is_sqrt_floor(n - 1, r),
                    (r + 1) * (r + 1) <= n,
            ;
        } else {
            assert(is_sqrt_floor(n as int, r));
        }
    }
}

/// The square-root floor is unique.
proof fn lemma_sqrt_unique(n: int, a: int, b: int)
    requires
        is_sqrt_floor(n, a),
        is_sqrt_floor(n, b),
    ensures
        a == b,
{
    assert(a == b) by (nonlinear_arith)
        requires
            is_sqrt_floor(n, a),
            is_sqrt_floor(n, b),
    ;
}

proof fn lemma_sqrt_floor_is_sqrt(n: nat)
    ensures
        is_sqrt_floor(n as int, sqrt_floor(n as int)),
{
    lemma_sqrt_exists(n);
}

/// Integer square root by binary search.
pub fn isqrt_u128(n: u128) -> (r: u128)
    requires
        n < 0x4000000000000000000000000000000u128 * 16 + 0x10000000000000000u128,
    ensures
        r as int == sqrt_floor(n as int),
        is_sqrt_floor(n as int, r as int),
        r <= 0x8000000000000000u128,
{
    let mut lo: u128 = 0;
    let mut hi: u128 = 0x8000000000000001u128;
    assert(hi * hi == 0x4000000000000000000000000000000u128 * 16 + 0x10000000000000000u128 + 1);
    while lo + 1 < hi
        invariant
            lo < hi <= 0x8000000000000001u128,
            lo * lo <= n,
            n < hi * hi,
        decreases hi - lo,
    {
        let mid = lo + (hi - lo) / 2;
        assert(lo < mid < hi);
        assert(mid * mid <= 0x8000000000000001u128 * 0x8000000000000001u128) by (nonlinear_arith)
            requires
                0 <= mid <= 0x8000000000000001u128,
        ;
        if mid * mid <= n {
            lo = mid;
        } else {
            hi = mid;
        }
    }
    proof {
        assert(is_sqrt_floor(n as int, lo as int));
        lemma_sqrt_floor_is_sqrt(n as nat);
        lemma_sqrt_unique(n as int, lo as int, sqrt_floor(n as int));
    }
    lo
}

/// The floor of the binary logarithm, 0 for inputs below 2.
pub open spec fn log2_floor(n: int) -> int
    decreases n,
{
    if n < 2 {
        0
    } else {
        1 + log2_floor(n / 2)
    }
}

/// Floor of the binary logarithm, with the power-of-two bracketing bounds.
pub fn log2_u128(t: u128) -> (k: u64)
    requires
        t >= 1,
    ensures
        k as int == log2_floor(t as int),
        pow2(k as nat) <= t < pow2((k + 1) as nat),
        k <= 127,
{
    let mut m: u128 = t;
    let mut k: u64 = 0;
    proof {
        assert(pow2(0) == 1) by {
            lemma2_to64();
        }
    }
    while m >= 2
        invariant
            1 <= m <= t,
            k <= 127,
            log2_floor(t as int) == k + log2_floor(m as int),
            pow2(k as nat) * m <= t,
            t < pow2(k as nat) * (m + 1),
        decreases m,
    {
        proof {
            let p = pow2(k as nat);
            assert(p > 0) by {
                vstd::arithmetic::power2::lemma_pow2_pos(k as nat);
            }
            assert(pow2((k + 1) as nat) == p * 2) by {
                vstd::arithmetic::power2::lemma_pow2_unfold((k + 1) as nat);
            }
            assert(p * 2 * (m as int / 2) <= p * (m as int)) by (nonlinear_arith)
                requires
                    p > 0,
                    m >= 2,
            ;
            assert(p * (m as int + 1) <= p * 2 * (m as int / 2 + 1)) by (nonlinear_arith)
                requires
                    p > 0,
                    m >= 2,
            ;
            if k >= 127 {
                assert(p == 0x80000000000000000000000000000000) by {
                    lemma2_to64();
                    lemma2_to64_rest();
                    vstd::arithmetic::power2::lemma_pow2_adds(64, 63);
                }
                assert(p * m >= p * 2) by (nonlinear_arith)
                    requires
                        p > 0,
                        m >= 2,
                ;
                assert(false);
            }
        }
        m = m / 2;
        k = k + 1;
    }
    proof {
        assert(log2_floor(m as int) == 0);
        assert(pow2(k as nat) <= t);
        assert(t < pow2(k as nat) * 2);
        assert(pow2((k + 1) as nat) == pow2(k as nat) * 2) by {
            vstd::arithmetic::power2::lemma_pow2_unfold((k + 1) as nat);
        }
    }
    k
}

/// 2 to the `k`, computed by repeated doubling.
pub fn pow2_u128(k: u64) -> (p: u128)
    requires
        k <= 127,
    ensures
        p as nat == pow2(k as nat),
        p >= 1,
{
    let mut p: u128 = 1;
    let mut i: u64 = 0;
    proof {
        assert(pow2(0) == 1) by {
            lemma2_to64();
        }
    }
    while i < k
        invariant
            i <= k <= 127,
            p as nat == pow2(i as nat),
            p >= 1,
        decreases k - i,
    {
        proof {
            assert(pow2((i + 1) as nat) == pow2(i as nat) * 2) by {
                vstd::arithmetic::power2::lemma_pow2_unfold((i + 1) as nat);
            }
            if i + 1 < 128 {
                lemma_pow2_strictly_increases((i + 1) as nat, 128);
            }
            assert(pow2(128) == 0x100000000000000000000000000000000) by {
                lemma2_to64();
                lemma2_to64_rest();
                vstd::arithmetic::power2::lemma_pow2_adds(64, 64);
            }
        }
        p = p * 2;
        i = i + 1;
    }
    p
}

/// The fixed-point approximation of the inverse hyperbolic sine on a value
/// in micro-units: `asinh(x) = ln(x + sqrt(x * x + 1))`, computed as an odd
/// function over integer square root and a truncated logarithm series in
/// binary fixed point with 32 fractional bits.
pub open spec fn asinh_micro(v: int) -> int {
    let a = if v < 0 { -v } else { v };
    let s = sqrt_floor(a * a + 1_000_000_000_000);
    let t = a + s;
    let k = log2_floor(t);
    let m = (t * 0x100000000) / pow2(k as nat) as int;
    let z = ((m - 0x100000000) * 0x100000000) / (m + 0x100000000);
    let z2 = (z * z) / 0x100000000;
    let z3 = (z2 * z) / 0x100000000;
    let z5 = (z3 * z2) / 0x100000000;
    let z7 = (z5 * z2) / 0x100000000;
    let z9 = (z7 * z2) / 0x100000000;
    let lnm = 2 * (z + z3 / 3 + z5 / 5 + z7 / 7 + z9 / 9);
    let lt = k * 2977044472 + lnm - 59337166024;
    let mag = if lt < 0 { 0 } else { (lt * 1_000_000) / 0x100000000 };
    if v < 0 { -mag } else { mag }
}

/// Product of two binary fixed-point numbers with 32 fractional bits.
fn mul_q32(x: u128, y: u128) -> (r: u128)
    requires
        x < 0x100000000,
        y < 0x100000000,
    ensures
        r as int == (x as int * y as int) / 0x100000000,
        r < 0x100000000,
{
    proof {
        assert(x * y < 0x100000000u128 * 0x100000000u128) by (nonlinear_arith)
            requires
                x < 0x100000000u128,
                y < 0x100000000u128,
        ;
        vstd::arithmetic::div_mod::lemma_multiply_divide_lt(
            x as int * y as int,
            0x100000000,
            0x100000000,
        );
    }
    (x * y) / 0x100000000
}

/// Fixed-point inverse hyperbolic sine of a value in micro-units.
pub fn fixed_asinh(v: i64) -> (r: i64)
    ensures
        r as int == asinh_micro(v as int),
{
    let a: u128 = if v >= 0 {
        v as u128
    } else {
        (-(v as i128)) as u128
    };
    assert(a as int == (if (v as int) < 0 { -(v as int) } else { v as int }));
    assert(a <= 0x8000000000000000u128);
    assert(a * a <= 0x8000000000000000u128 * 0x8000000000000000u128) by (nonlinear_arith)
        requires
            0 <= a <= 0x8000000000000000u128,
    ;
    let n: u128 = a * a + 1_000_000_000_000;
    let s = isqrt_u128(n);
    proof {
        assert(1_000_000 * 1_000_000 <= n);
        assert((s + 1) * (s + 1) > 1_000_000 * 1_000_000);
        assert(s + 1 > 1_000_000) by (nonlinear_arith)
            requires
                (s + 1) * (s + 1) > 1_000_000 * 1_000_000,
                s >= 0,
        ;
    }
    let t: u128 = a + s;
    let k = log2_u128(t);
    proof {
        if k > 64 {
            assert(pow2(65) == 0x20000000000000000) by {
                lemma2_to64();
                lemma2_to64_rest();
                vstd::arithmetic::power2::lemma_pow2_adds(64, 1);
            }
            if k > 65 {
                lemma_pow2_strictly_increases(65, k as nat);
            }
            assert(false);
        }
    }
    let p = pow2_u128(k);
    let tq: u128 = t * 0x100000000;
    let m: u128 = tq / p;
    proof {
        let ghost ti = t as int;
        let ghost pi = p as int;
        assert(pow2((k + 1) as nat) == 2 * pow2(k as nat)) by {
            vstd::arithmetic::power2::lemma_pow2_unfold((k + 1) as nat);
        }
        assert(ti < 2 * pi);
        assert(pi * 0x100000000 <= ti * 0x100000000) by (nonlinear_arith)
            requires
                pi <= ti,
        ;
        vstd::arithmetic::div_mod::lemma_div_is_ordered(pi * 0x100000000, ti * 0x100000000, pi);
        vstd::arithmetic::div_mod::lemma_div_multiples_vanish(0x100000000, pi);
        assert(m >= 0x100000000);
        assert(ti * 0x100000000 < pi * 0x200000000) by (nonlinear_arith)
            requires
                ti < 2 * pi,
        ;
        vstd::arithmetic::div_mod::lemma_multiply_divide_lt(
            ti * 0x100000000,
            pi,
            0x200000000,
        );
        assert(m < 0x200000000);
    }
    let z: u128 = ((m - 0x100000000) * 0x100000000) / (m + 0x100000000);
    proof {
        let ghost numer = (m - 0x100000000) as int * 0x100000000;
        let ghost denom = (m + 0x100000000) as int;
        assert(numer < denom * 0x100000000) by (nonlinear_arith)
            requires
                numer == (m - 0x100000000) as int * 0x100000000,
                denom == (m + 0x100000000) as int,
                0x100000000 <= m < 0x200000000,
        ;
        vstd::arithmetic::div_mod::lemma_multiply_divide_lt(numer, denom, 0x100000000);
        assert(z < 0x100000000);
    }
    let z2: u128 = mul_q32(z, z);
    let z3: u128 = mul_q32(z2, z);
    let z5: u128 = mul_q32(z3, z2);
    let z7: u128 = mul_q32(z5, z2);
    let z9: u128 = mul_q32(z7, z2);
    let lnm: u128 = 2 * (z + z3 / 3 + z5 / 5 + z7 / 7 + z9 / 9);
    let lt: i128 = (k as i128) * 2977044472 + (lnm as i128) - 59337166024;
    let mag: i128 = if lt < 0 {
        0
    } else {
        ((lt as u128 * 1_000_000) / 0x100000000) as i128
    };
    proof {
        if lt >= 0 {
            vstd::arithmetic::div_mod::lemma_multiply_divide_le(
                lt * 1_000_000,
                0x100000000,
                0x10000000000000,
            );
        }
    }
    if v < 0 {
        -(mag as i64)
    } else {
        mag as i64
    }
}

} // verus!
