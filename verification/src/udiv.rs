//! The wide divisor: quotient and remainder of a 128-bit value divided by
//! 10^19, the largest power of ten that fits in 64 bits. No native
//! 128-bit division is used: the quotient comes from multiplying by a
//! fixed-point reciprocal of the divisor and taking the high bits, with
//! the approximation proved exact for every dividend.
#![allow(unused_imports)]
use vstd::prelude::*;
use vstd::arithmetic::div_mod::*;
use vstd::arithmetic::mul::*;

verus! {

/// 10^19 as a divisor constant.
pub const POW10_19: u64 = 10_000_000_000_000_000_000;

/// 2^64, the limb radix.
const TWO64: u128 = 18446744073709551616;

/// 2^62: the reciprocal carries 62 fractional bits beyond the high limb.
const TWO62: u128 = 4611686018427387904;

/// 2^19, the even factor of 10^19.
const TWO19: u128 = 524288;

/// 5^19, the odd factor of 10^19.
const FIVE19: u64 = 19073486328125;

/// 2^83: below this bound the dividend shifted right by 19 bits fits a
/// 64-bit word and a native 64-bit division suffices.
const TWO83: u128 = 9671406556917033397649408;

/// The fixed-point reciprocal of 10^19 with 190 fractional bits, rounded
/// up: the least `m` with `m * 10^19 >= 2^190`.
const RECIP: u128 = 156927543384667019095894735580191660403;

/// The upper 128 bits of the 256-bit product of `x` and `y`, computed by
/// 64-bit limb arithmetic.
fn u128_mulhi(x: u128, y: u128) -> (r: u128)
    ensures
        r == (x as int * y as int) / 340282366920938463463374607431768211456int,
{
    let x_lo = x % TWO64;
    let x_hi = x / TWO64;
    let y_lo = y % TWO64;
    let y_hi = y / TWO64;
    proof {
        lemma_mod_bound(x as int, TWO64 as int);
        lemma_mod_bound(y as int, TWO64 as int);
        lemma_div_is_ordered(x as int, 340282366920938463463374607431768211455int, TWO64 as int);
        lemma_div_is_ordered(y as int, 340282366920938463463374607431768211455int, TWO64 as int);
        lemma_fundamental_div_mod_converse(
            340282366920938463463374607431768211455int,
            18446744073709551616,
            18446744073709551615,
            18446744073709551615,
        );
        assert(x_hi <= 18446744073709551615 && y_hi <= 18446744073709551615);
        lemma_mul_upper_bound(
            x_lo as int,
            18446744073709551615,
            y_lo as int,
            18446744073709551615,
        );
        lemma_mul_upper_bound(
            x_lo as int,
            18446744073709551615,
            y_hi as int,
            18446744073709551615,
        );
        lemma_mul_upper_bound(
            x_hi as int,
            18446744073709551615,
            y_lo as int,
            18446744073709551615,
        );
        lemma_mul_upper_bound(
            x_hi as int,
            18446744073709551615,
            y_hi as int,
            18446744073709551615,
        );
    }
    let a = x_lo * y_lo;
    let carry = a / TWO64;
    proof {
        lemma_div_is_ordered(a as int, 340282366920938463426481119284349108225int, TWO64 as int);
        lemma_fundamental_div_mod_converse(
            340282366920938463426481119284349108225int,
            18446744073709551616,
            18446744073709551614,
            1,
        );
        assert(carry <= 18446744073709551614);
    }
    let m = x_lo * y_hi + carry;
    let high1 = m / TWO64;
    let m_lo = m % TWO64;
    let c = x_hi * y_lo;
    let s = c + m_lo;
    let high2 = s / TWO64;
    proof {
        lemma_mod_bound(m as int, TWO64 as int);
        lemma_div_is_ordered(m as int, 340282366920938463463374607431768211455int, TWO64 as int);
        lemma_div_is_ordered(s as int, 340282366920938463463374607431768211455int, TWO64 as int);
        assert(high1 <= 18446744073709551615 && high2 <= 18446744073709551615);
    }
    let r = x_hi * y_hi + high1 + high2;
    proof {
        let b = 18446744073709551616int;
        let xl = x_lo as int;
        let xh = x_hi as int;
        let yl = y_lo as int;
        let yh = y_hi as int;
        lemma_fundamental_div_mod(x as int, b);
        lemma_fundamental_div_mod(y as int, b);
        assert(x == b * xh + xl && y == b * yh + yl);
        assert((b * xh + xl) * (b * yh + yl) == b * b * (xh * yh) + b * (xh * yl) + b * (xl * yh)
            + xl * yl) by {
            lemma_mul_is_distributive_add(b * xh + xl, b * yh, yl);
            lemma_mul_is_distributive_add_other_way(b * yh, b * xh, xl);
            lemma_mul_is_distributive_add_other_way(yl, b * xh, xl);
            assert((b * xh) * (b * yh) == b * b * (xh * yh)) by (nonlinear_arith);
            assert(xl * (b * yh) == b * (xl * yh)) by (nonlinear_arith);
            assert((b * xh) * yl == b * (xh * yl)) by (nonlinear_arith);
        };
        let a0 = a as int % b;
        lemma_fundamental_div_mod(a as int, b);
        assert(xl * yl == b * (carry as int) + a0);
        let t0 = s as int % b;
        lemma_fundamental_div_mod(s as int, b);
        lemma_fundamental_div_mod(m as int, b);
        assert(m == b * (high1 as int) + m_lo);
        assert(c as int + m_lo as int == b * (high2 as int) + t0);
        assert(x as int * y as int == b * b * (xh * yh) + b * (xh * yl) + b * (xl * yh) + xl
            * yl);
        assert(b * (xl * yh) + b * (carry as int) == b * (m as int));
        assert(b * (m as int) == b * (b * (high1 as int)) + b * (m_lo as int));
        assert(b * (xh * yl) == b * (c as int));
        assert(b * (c as int) + b * (m_lo as int) == b * (b * (high2 as int)) + b * t0);
        assert(b * (b * (high1 as int)) == b * b * (high1 as int));
        assert(b * (b * (high2 as int)) == b * b * (high2 as int));
        assert(x as int * y as int == b * b * (xh * yh) + b * b * (high1 as int) + b * b * (
        high2 as int) + b * t0 + a0);
        assert(r as int == xh * yh + high1 as int + high2 as int);
        assert(b * b * (r as int) == b * b * (xh * yh) + b * b * (high1 as int) + b * b * (
        high2 as int));
        assert(x as int * y as int == b * b * (r as int) + (b * t0 + a0));
        lemma_mod_bound(s as int, b);
        lemma_mod_bound(a as int, b);
        assert(0 <= b * t0 + a0 < 340282366920938463463374607431768211456int);
        lemma_fundamental_div_mod_converse(
            x as int * y as int,
            340282366920938463463374607431768211456int,
            r as int,
            b * t0 + a0,
        );
    }
    r
}

/// The reciprocal multiplication is exact: taking the top bits of
/// `n * RECIP` yields the true quotient by 10^19 for every 128-bit `n`.
proof fn lemma_recip_exact(n: int)
    requires
        0 <= n < 340282366920938463463374607431768211456int,
    ensures
        (n * 156927543384667019095894735580191660403)
            / 1569275433846670190958947355801916604025588861116008628224int == n
            / 10000000000000000000,
{
    let d = 10000000000000000000int;
    let m = 156927543384667019095894735580191660403int;
    let p = 1569275433846670190958947355801916604025588861116008628224int;
    let e = 4411138883991371776int;
    assert(d * m == p + e);
    let q = n / d;
    let r = n % d;
    lemma_fundamental_div_mod(n, d);
    lemma_mod_bound(n, d);
    let qmax = 34028236692093846346int;
    assert((340282366920938463463374607431768211455int) / d == qmax) by {
        lemma_fundamental_div_mod_converse(
            340282366920938463463374607431768211455int,
            10000000000000000000,
            34028236692093846346,
            3374607431768211455,
        );
    };
    lemma_div_is_ordered(n, 340282366920938463463374607431768211455int, d);
    lemma_div_pos_is_pos(n, d);
    assert(0 <= q <= qmax);
    assert(n * m == (q * d + r) * m);
    assert((q * d + r) * m == q * (d * m) + r * m) by (nonlinear_arith);
    assert(q * (d * m) == q * p + q * e) by {
        lemma_mul_is_distributive_add(q, p, e);
    };
    lemma_mul_nonnegative(q, e);
    lemma_mul_nonnegative(r, m);
    if q <= qmax - 1 {
        lemma_mul_inequality(q, qmax - 1, e);
        lemma_mul_inequality(r, d - 1, m);
        assert((qmax - 1) * e + (d - 1) * m < p);
    } else {
        assert(q == qmax);
        assert(r == n - qmax * d);
        assert(r <= 3374607431768211455);
        lemma_mul_inequality(r, 3374607431768211455, m);
        assert(qmax * e + 3374607431768211455 * m < p);
    }
    assert(0 <= q * e + r * m < p);
    lemma_fundamental_div_mod_converse(n * m, p, q, q * e + r * m);
}

/// Divide `n` by 10^19, returning the quotient and the remainder. The
/// remainder always fits in 64 bits, which lets the caller hand it to the
/// native 64-bit digit writer.
pub fn udivmod_1e19(n: u128) -> (r: (u128, u64))
    ensures
        r.0 == n / (POW10_19 as u128),
        r.1 == n % (POW10_19 as u128),
{
    let quot: u128;
    if n < TWO83 {
        proof {
            lemma_div_is_ordered(n as int, 9671406556917033397649407, TWO19 as int);
            lemma_fundamental_div_mod_converse(
                9671406556917033397649407,
                524288,
                18446744073709551615,
                524287,
            );
            lemma_div_pos_is_pos(n as int, TWO19 as int);
        }
        let small = (n / TWO19) as u64;
        quot = (small / FIVE19) as u128;
        proof {
            lemma_div_denominator(n as int, TWO19 as int, FIVE19 as int);
            lemma_div_pos_is_pos(small as int, FIVE19 as int);
            assert(TWO19 as int * FIVE19 as int == POW10_19 as int);
        }
    } else {
        let hi = u128_mulhi(n, RECIP);
        quot = hi / TWO62;
        proof {
            lemma_mul_nonnegative(n as int, RECIP as int);
            lemma_div_denominator(
                n as int * RECIP as int,
                340282366920938463463374607431768211456int,
                TWO62 as int,
            );
            assert(340282366920938463463374607431768211456int * 4611686018427387904int
                == 1569275433846670190958947355801916604025588861116008628224int);
            lemma_recip_exact(n as int);
            lemma_div_pos_is_pos(n as int, POW10_19 as int);
        }
    }
    proof {
        assert(quot == n / (POW10_19 as u128));
        lemma_fundamental_div_mod(n as int, POW10_19 as int);
        lemma_mod_bound(n as int, POW10_19 as int);
        assert(n as int == (POW10_19 as int) * (quot as int) + n as int % (POW10_19 as int));
        assert(quot as int * (POW10_19 as int) <= n as int);
    }
    let rem = (n - quot * (POW10_19 as u128)) as u64;
    (quot, rem)
}

} // verus!
