//! Exact fixed-point decimal prices.
//!
//! The book keys its levels by an integer count of ticks at the instrument's
//! tick scale: the decimal value `mantissa / 10^scale` equals `t` ticks at
//! tick scale `tick_scale` exactly when `t * 10^scale == mantissa *
//! 10^tick_scale`. Conversion is exact: a decimal that is negative or not a
//! whole number of ticks, or whose tick count does not fit `u64`, is
//! rejected, never rounded. Prices that compare equal as decimals therefore
//! get the same key, and tick-count order is decimal-value order.

use vstd::arithmetic::mul::{lemma_mul_equality_converse, lemma_mul_inequality};
use vstd::prelude::*;

verus! {

/// `10^n`.
pub open spec fn pow10(n: nat) -> nat
    decreases n,
{
    if n == 0 {
        1
    } else {
        10 * pow10((n - 1) as nat)
    }
}

/// The decimal `mantissa / 10^scale` is exactly `t` ticks of size
/// `10^-tick_scale`.
pub open spec fn is_ticks(t: int, mantissa: int, scale: nat, tick_scale: nat) -> bool {
    t * pow10(scale) == mantissa * pow10(tick_scale)
}

proof fn lemma_pow10_pos(n: nat)
    ensures
        pow10(n) >= 1,
    decreases n,
{
    if n > 0 {
        lemma_pow10_pos((n - 1) as nat);
    }
}

proof fn lemma_pow10_add(a: nat, b: nat)
    ensures
        pow10(a + b) == pow10(a) * pow10(b),
    decreases a,
{
    if a == 0 {
        assert(pow10(a) == 1);
        assert(pow10(a + b) == pow10(b));
    } else {
        lemma_pow10_add((a - 1) as nat, b);
        assert(pow10(a + b) == 10 * pow10(((a - 1) + b) as nat));
        assert(pow10(a) == 10 * pow10((a - 1) as nat));
        assert(pow10(a + b) == pow10(a) * pow10(b)) by (nonlinear_arith)
            requires
                pow10(a + b) == 10 * pow10(((a - 1) + b) as nat),
                pow10(((a - 1) + b) as nat) == pow10((a - 1) as nat) * pow10(b),
                pow10(a) == 10 * pow10((a - 1) as nat),
        ;
    }
}

/// When scaling up, the tick count is forced: it is `mantissa * 10^(tick_scale - scale)`.
proof fn lemma_ticks_value_up(t: int, mantissa: int, scale: nat, tick_scale: nat)
    requires
        scale <= tick_scale,
        is_ticks(t, mantissa, scale, tick_scale),
    ensures
        t == mantissa * pow10((tick_scale - scale) as nat),
{
    let d = (tick_scale - scale) as nat;
    lemma_pow10_add(scale, d);
    lemma_pow10_pos(scale);
    assert(mantissa * (pow10(scale) * pow10(d)) == (mantissa * pow10(d)) * pow10(scale))
        by (nonlinear_arith);
    lemma_mul_equality_converse(pow10(scale) as int, t, mantissa * pow10(d));
}

/// When scaling down, any tick count satisfies `t * 10^(scale - tick_scale) == mantissa`.
proof fn lemma_ticks_value_down(t: int, mantissa: int, scale: nat, tick_scale: nat)
    requires
        tick_scale <= scale,
        is_ticks(t, mantissa, scale, tick_scale),
    ensures
        t * pow10((scale - tick_scale) as nat) == mantissa,
{
    let d = (scale - tick_scale) as nat;
    lemma_pow10_add(tick_scale, d);
    lemma_pow10_pos(tick_scale);
    assert(t * (pow10(tick_scale) * pow10(d)) == (t * pow10(d)) * pow10(tick_scale))
        by (nonlinear_arith);
    lemma_mul_equality_converse(pow10(tick_scale) as int, t * pow10(d), mantissa);
}

/// The count of ticks of size `10^-tick_scale` that equals the decimal
/// `mantissa / 10^scale` exactly, or `None` if the decimal is negative, is
/// not a whole number of ticks, or counts more than `u64::MAX` ticks.
pub fn ticks_from_parts(mantissa: i128, scale: u32, tick_scale: u32) -> (r: Option<u64>)
    ensures
        match r {
            Some(t) => mantissa >= 0 && is_ticks(
                t as int,
                mantissa as int,
                scale as nat,
                tick_scale as nat,
            ),
            None => mantissa < 0 || (forall|t: int|
                0 <= t <= u64::MAX ==> !is_ticks(
                    t,
                    mantissa as int,
                    scale as nat,
                    tick_scale as nat,
                )),
        },
{
    if mantissa < 0 {
        return None;
    }
    if mantissa == 0 {
        proof {
            assert(0int * pow10(scale as nat) == 0) by (nonlinear_arith);
            assert(0int * pow10(tick_scale as nat) == 0) by (nonlinear_arith);
        }
        return Some(0);
    }
    let mut m: u128 = mantissa as u128;
    proof {
        assert(m as int == mantissa as int);
        assert(pow10(0) == 1);
    }
    if scale <= tick_scale {
        let diff = tick_scale - scale;
        let mut j: u32 = 0;
        while j < diff
            invariant
                0 < mantissa,
                scale + diff == tick_scale,
                j <= diff,
                m as int == (mantissa as int) * pow10(j as nat),
            decreases diff - j,
        {
            if m > u64::MAX as u128 {
                proof {
                    lemma_scaled_too_large(
                        mantissa as int,
                        scale as nat,
                        tick_scale as nat,
                        j as nat,
                        m as int,
                    );
                }
                return None;
            }
            proof {
                assert(((mantissa as int) * pow10(j as nat)) * 10 == (mantissa as int) * (10
                    * pow10(j as nat))) by (nonlinear_arith);
            }
            m = m * 10;
            j += 1;
        }
        if m > u64::MAX as u128 {
            proof {
                lemma_scaled_too_large(
                    mantissa as int,
                    scale as nat,
                    tick_scale as nat,
                    diff as nat,
                    m as int,
                );
            }
            return None;
        }
        proof {
            lemma_pow10_add(scale as nat, diff as nat);
            assert(((mantissa as int) * pow10(diff as nat)) * pow10(scale as nat) == (
            mantissa as int) * (pow10(scale as nat) * pow10(diff as nat))) by (nonlinear_arith);
        }
        Some(m as u64)
    } else {
        let diff = scale - tick_scale;
        let mut j: u32 = 0;
        while j < diff
            invariant
                0 < mantissa,
                tick_scale + diff == scale,
                j <= diff,
                1 <= m,
                (m as int) * pow10(j as nat) == mantissa as int,
            decreases diff - j,
        {
            if m % 10 != 0 {
                proof {
                    lemma_not_whole_ticks(
                        mantissa as int,
                        scale as nat,
                        tick_scale as nat,
                        j as nat,
                        m as int,
                    );
                }
                return None;
            }
            proof {
                assert(m == 10 * (m / 10) + m % 10);
                assert(((m as int) / 10) * (10 * pow10(j as nat)) == (10 * ((m as int) / 10))
                    * pow10(j as nat)) by (nonlinear_arith);
            }
            m = m / 10;
            j += 1;
        }
        if m > u64::MAX as u128 {
            proof {
                assert forall|t: int| 0 <= t <= u64::MAX implies !is_ticks(
                    t,
                    mantissa as int,
                    scale as nat,
                    tick_scale as nat,
                ) by {
                    if is_ticks(t, mantissa as int, scale as nat, tick_scale as nat) {
                        let d = diff as nat;
                        lemma_ticks_value_down(t, mantissa as int, scale as nat, tick_scale as nat);
                        lemma_pow10_pos(d);
                        assert(pow10(d) as int * t == t * pow10(d)) by (nonlinear_arith);
                        assert(pow10(d) as int * (m as int) == (m as int) * pow10(d))
                            by (nonlinear_arith);
                        lemma_mul_equality_converse(pow10(d) as int, t, m as int);
                    }
                }
            }
            return None;
        }
        proof {
            let d = diff as nat;
            lemma_pow10_add(tick_scale as nat, d);
            assert((m as int) * (pow10(tick_scale as nat) * pow10(d)) == ((m as int) * pow10(d))
                * pow10(tick_scale as nat)) by (nonlinear_arith);
        }
        Some(m as u64)
    }
}

/// Once the partly scaled-up mantissa exceeds `u64::MAX`, no representable
/// tick count exists.
proof fn lemma_scaled_too_large(mantissa: int, scale: nat, tick_scale: nat, j: nat, m: int)
    requires
        0 < mantissa,
        scale <= tick_scale,
        j <= tick_scale - scale,
        m == mantissa * pow10(j),
        m > u64::MAX,
    ensures
        forall|t: int| 0 <= t <= u64::MAX ==> !is_ticks(t, mantissa, scale, tick_scale),
{
    let d = (tick_scale - scale) as nat;
    assert forall|t: int| 0 <= t <= u64::MAX implies !is_ticks(t, mantissa, scale, tick_scale) by {
        if is_ticks(t, mantissa, scale, tick_scale) {
            lemma_ticks_value_up(t, mantissa, scale, tick_scale);
            lemma_pow10_add(j, (d - j) as nat);
            lemma_pow10_pos((d - j) as nat);
            lemma_pow10_pos(j);
            assert(pow10(d) >= pow10(j)) by {
                lemma_mul_inequality(1, pow10((d - j) as nat) as int, pow10(j) as int);
                assert(pow10(j) * pow10((d - j) as nat) >= pow10(j) * 1) by (nonlinear_arith)
                    requires
                        pow10((d - j) as nat) >= 1,
                        pow10(j) >= 1,
                ;
            }
            assert(mantissa * pow10(d) >= mantissa * pow10(j)) by (nonlinear_arith)
                requires
                    0 < mantissa,
                    pow10(d) >= pow10(j),
            ;
        }
    }
}

/// If scaling down hits a digit that is not zero, the decimal is not a whole
/// number of ticks.
proof fn lemma_not_whole_ticks(mantissa: int, scale: nat, tick_scale: nat, j: nat, m: int)
    requires
        0 < mantissa,
        tick_scale <= scale,
        j < scale - tick_scale,
        m * pow10(j) == mantissa,
        m % 10 != 0,
    ensures
        forall|t: int| 0 <= t <= u64::MAX ==> !is_ticks(t, mantissa, scale, tick_scale),
{
    let d = (scale - tick_scale) as nat;
    assert forall|t: int| 0 <= t <= u64::MAX implies !is_ticks(t, mantissa, scale, tick_scale) by {
        if is_ticks(t, mantissa, scale, tick_scale) {
            lemma_ticks_value_down(t, mantissa, scale, tick_scale);
            // t * 10^d == m * 10^j, so cancelling 10^j leaves t * 10^(d-j) == m,
            // and d - j >= 1 makes m a multiple of 10.
            lemma_pow10_add(j, (d - j) as nat);
            lemma_pow10_pos(j);
            assert(t * (pow10((d - j) as nat) * pow10(j)) == (t * pow10((d - j) as nat)) * pow10(
                j,
            )) by (nonlinear_arith);
            assert(pow10((d - j) as nat) * pow10(j) == pow10(j) * pow10((d - j) as nat));
            assert(pow10(j) as int * (t * pow10((d - j) as nat)) == (t * pow10((d - j) as nat))
                * pow10(j)) by (nonlinear_arith);
            assert(pow10(j) as int * m == m * pow10(j)) by (nonlinear_arith);
            lemma_mul_equality_converse(pow10(j) as int, t * pow10((d - j) as nat), m);
            let e = (d - j - 1) as nat;
            assert(pow10((d - j) as nat) == 10 * pow10(e));
            assert(t * (10 * pow10(e)) == (t * pow10(e)) * 10) by (nonlinear_arith);
            assert(m == (t * pow10(e)) * 10);
            assert(((t * pow10(e)) * 10) % 10 == 0) by (nonlinear_arith);
        }
    }
}

} // verus!
