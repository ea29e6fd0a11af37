//! The server's clocks as whole numbers.
//!
//! The output clock (unix time, possibly scaled) counts nanoseconds. Arrival
//! times on a receiver's own clock count femtoseconds: a nanosecond is a foot
//! of flight path, so a solve works far below it.

use vstd::prelude::*;

verus! {

/// Nanoseconds in one second.
pub const SECOND_NS: i64 = 1_000_000_000;

/// Femtoseconds in one second.
pub const SECOND_FS: i128 = 1_000_000_000_000_000;

/// Femtoseconds in one nanosecond.
pub const NANOSECOND_FS: i128 = 1_000_000;

/// `then` lies less than `limit` before `now`.
pub open spec fn recent(now: int, then: int, limit: int) -> bool {
    now - then < limit
}

/// Whether `then` lies less than `limit` before `now`.
pub fn within(now: i64, then: i64, limit: i64) -> (r: bool)
    ensures
        r == recent(now as int, then as int, limit as int),
{
    (now as i128) - (then as i128) < limit as i128
}

/// `x` held to the range that a receiver-clock time can take.
pub open spec fn clip(x: int) -> i128 {
    if x < i128::MIN {
        i128::MIN
    } else if x > i128::MAX {
        i128::MAX
    } else {
        x as i128
    }
}

/// The sum of two receiver-clock times, held to their range.
pub fn later(a: i128, b: i128) -> (r: i128)
    ensures
        r == clip(a + b),
{
    match a.checked_add(b) {
        Some(r) => r,
        None => if a < 0 {
            i128::MIN
        } else {
            i128::MAX
        },
    }
}

/// The difference of two receiver-clock times, held to their range.
pub fn lag(a: i128, b: i128) -> (r: i128)
    ensures
        r == clip(a - b),
{
    match a.checked_sub(b) {
        Some(r) => r,
        None => if a < b {
            i128::MIN
        } else {
            i128::MAX
        },
    }
}

/// A receiver-clock time a number of times, held to the range.
pub fn multiplied(a: i128, k: i128) -> (r: i128)
    requires
        k > 0,
    ensures
        r == clip(a * k),
{
    match a.checked_mul(k) {
        Some(r) => r,
        None => {
            proof {
                let (ai, ki) = (a as int, k as int);
                assert(ai < 0 ==> ai * ki < 0) by (nonlinear_arith)
                    requires
                        ki > 0,
                ;
                assert(ai >= 0 ==> ai * ki >= 0) by (nonlinear_arith)
                    requires
                        ki > 0,
                ;
            }
            if a < 0 {
                i128::MIN
            } else {
                i128::MAX
            }
        },
    }
}

/// `x / k`, rounded down.
pub fn share(x: i128, k: i128) -> (r: i128)
    requires
        k > 0,
    ensures
        r == x as int / k as int,
{
    if x >= 0 {
        x / k
    } else {
        let m: i128 = -(x + 1);
        let q: i128 = m / k;
        proof {
            let (xi, ki, mi, qi) = (x as int, k as int, m as int, q as int);
            vstd::arithmetic::div_mod::lemma_fundamental_div_mod(mi, ki);
            assert(xi == ki * (-qi - 1) + (ki - 1 - mi % ki)) by (nonlinear_arith)
                requires
                    mi == -(xi + 1),
                    mi == ki * qi + mi % ki,
            ;
            vstd::arithmetic::div_mod::lemma_fundamental_div_mod_converse(
                xi,
                ki,
                -qi - 1,
                ki - 1 - mi % ki,
            );
        }
        -q - 1
    }
}

/// What `x` has beyond a multiple of `k`.
pub fn left_over(x: i128, k: i128) -> (r: i128)
    requires
        k > 0,
    ensures
        r == x as int % k as int,
        0 <= r < k,
{
    proof {
        assert(0 <= x as int % k as int) by (nonlinear_arith)
            requires
                k > 0,
        ;
        assert((x as int % k as int) < k) by (nonlinear_arith)
            requires
                k > 0,
        ;
    }
    if x >= 0 {
        x % k
    } else {
        let m: i128 = -(x + 1);
        let over: i128 = m % k;
        proof {
            let (xi, ki, mi) = (x as int, k as int, m as int);
            let qi = mi / ki;
            vstd::arithmetic::div_mod::lemma_fundamental_div_mod(mi, ki);
            assert(xi == ki * (-qi - 1) + (ki - 1 - mi % ki)) by (nonlinear_arith)
                requires
                    mi == -(xi + 1),
                    mi == ki * qi + mi % ki,
            ;
            assert(0 <= mi % ki < ki) by (nonlinear_arith)
                requires
                    ki > 0,
            ;
            vstd::arithmetic::div_mod::lemma_fundamental_div_mod_converse(
                xi,
                ki,
                -qi - 1,
                ki - 1 - mi % ki,
            );
        }
        k - 1 - over
    }
}

/// Time passed since `created`, on a clock that never goes back.
pub open spec fn age(now: u64, created: u64) -> nat {
    if now >= created {
        (now - created) as nat
    } else {
        0
    }
}

/// Time passed since `created`, on a clock that never goes back.
pub fn age_of(now: u64, created: u64) -> (r: u64)
    ensures
        r == age(now, created),
{
    if now >= created {
        now - created
    } else {
        0
    }
}

/// An output-clock time in femtoseconds.
pub fn in_fs(ns: i64) -> (r: i128)
    ensures
        r == ns * NANOSECOND_FS,
{
    (ns as i128) * NANOSECOND_FS
}

} // verus!
