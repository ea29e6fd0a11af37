//! Numbers as a double holds them: 53 binary digits, halfway values to even.
//!
//! Sums, products and quotients are what the processor gives: the double
//! nearest to the exact result. Signs and infinities have no place here, and the
//! bottom of the exponent range only where a count fades.

use vstd::prelude::*;
#[allow(unused_imports)]
use vstd::arithmetic::power2::{
    lemma2_to64, lemma2_to64_rest, lemma_pow2_adds, lemma_pow2_pos, lemma_pow2_strictly_increases,
    lemma_pow2_unfold, pow2,
};
#[allow(unused_imports)]
use crate::bias::rounded;

verus! {

/// The least whole number with 53 binary digits.
pub const DIGITS_52: u128 = 4_503_599_627_370_496;

/// The least whole number with 54 binary digits.
pub const DIGITS_53: u128 = 9_007_199_254_740_992;

/// Exponents that sums, products and quotients take.
pub const REACH: i32 = 4_000;

/// The exponent of the least double: everything is a multiple of two to this
/// power.
pub const BOTTOM: i32 = -1_074;

// The digits and exponents of the constants below.
pub const ONE_M: u64 = 4_503_599_627_370_496;

pub const ONE_E: i32 = -52;

pub const QUARTER_E: i32 = -54;

pub const TEN_M: u64 = 5_629_499_534_213_120;

pub const TEN_E: i32 = -49;

pub const HUNDRED_M: u64 = 7_036_874_417_766_400;

pub const HUNDRED_E: i32 = -46;

pub const THOUSAND_M: u64 = 8_796_093_022_208_000;

pub const THOUSAND_E: i32 = -43;

pub const FIFTHS_M: u64 = 7_205_759_403_792_794;

pub const FIFTHS_E: i32 = -53;

pub const HUNDREDTH_M: u64 = 5_764_607_523_034_235;

pub const HUNDREDTH_E: i32 = -59;

/// The whole number nearest to `n / d`; halfway, the even one.
pub open spec fn nearest(n: int, d: int) -> int
    recommends
        d > 0,
{
    if 2 * (n % d) < d || (2 * (n % d) == d && (n / d) % 2 == 0) {
        n / d
    } else {
        n / d + 1
    }
}

/// `n / d` in 53 binary digits and an exponent, where it has at least so many
/// before the point.
pub open spec fn coarse(n: int, d: int) -> (int, int)
    decreases n - d,
{
    if d <= 0 || n < DIGITS_53 * d {
        (nearest(n, d), 0)
    } else {
        let (m, e) = coarse(n, 2 * d);
        (m, e + 1)
    }
}

/// `n / d` in 53 binary digits and an exponent, where it has no more before the
/// point.
pub open spec fn fine(n: int, d: int) -> (int, int)
    decreases DIGITS_53 * d - n,
{
    if n <= 0 || d <= 0 || n >= DIGITS_52 * d {
        (nearest(n, d), 0)
    } else {
        let (m, e) = fine(2 * n, d);
        (m, e - 1)
    }
}

/// The same number with 53 digits, where rounding up has made a 54th.
pub open spec fn tidy(x: (int, int)) -> (int, int) {
    if x.0 == DIGITS_53 {
        (DIGITS_52 as int, x.1 + 1)
    } else {
        x
    }
}

/// The double nearest to `n / d`: its digits and its exponent.
pub open spec fn digits53(n: int, d: int) -> (int, int) {
    if n <= 0 {
        (0, 0)
    } else if n >= DIGITS_53 * d {
        tidy(coarse(n, d))
    } else {
        tidy(fine(n, d))
    }
}

/// A double that is not negative: `m` times two to the power `e`.
#[derive(Clone, Copy, PartialEq, Eq, Debug, Structural)]
pub struct Double {
    pub m: u64,
    pub e: i32,
}

/// The double with digits `x.0` and exponent `x.1 + e`.
pub open spec fn made(x: (int, int), e: int) -> Double {
    if x.0 == 0 {
        Double { m: 0, e: 0 }
    } else {
        Double { m: x.0 as u64, e: (x.1 + e) as i32 }
    }
}

impl Double {
    pub open spec fn zero() -> Double {
        Double { m: 0, e: 0 }
    }

    /// One.
    pub open spec fn one() -> Double {
        Double { m: ONE_M, e: ONE_E }
    }

    /// Ten.
    pub open spec fn ten() -> Double {
        Double { m: TEN_M, e: TEN_E }
    }

    /// A hundred.
    pub open spec fn hundred() -> Double {
        Double { m: HUNDRED_M, e: HUNDRED_E }
    }

    /// A thousand.
    pub open spec fn thousand() -> Double {
        Double { m: THOUSAND_M, e: THOUSAND_E }
    }

    /// The double nearest to 8/10.
    pub open spec fn four_fifths() -> Double {
        Double { m: FIFTHS_M, e: FIFTHS_E }
    }

    /// A quarter.
    pub open spec fn quarter() -> Double {
        Double { m: ONE_M, e: QUARTER_E }
    }

    /// The double nearest to 1/100.
    pub open spec fn hundredth() -> Double {
        Double { m: HUNDREDTH_M, e: HUNDREDTH_E }
    }

    /// It has 53 digits, or is zero.
    pub open spec fn is_normal(self) -> bool {
        self == Double::zero() || DIGITS_52 <= self.m < DIGITS_53
    }

    /// It can be reckoned with.
    pub open spec fn is_usable(self) -> bool {
        self.is_normal() && -REACH <= self.e <= REACH
    }

    /// The double nearest to `n / d`.
    pub open spec fn of(n: int, d: int) -> Double {
        made(digits53(n, d), 0)
    }

    /// The double nearest to the sum.
    pub open spec fn plus(self, o: Double) -> Double {
        if self.m == 0 {
            o
        } else if o.m == 0 {
            self
        } else {
            made(digits53(self.together(o), 1), self.low(o))
        }
    }

    /// The lesser exponent of the two.
    pub open spec fn low(self, o: Double) -> int {
        if self.e < o.e {
            self.e as int
        } else {
            o.e as int
        }
    }

    /// The exact sum, in units of the lesser exponent.
    pub open spec fn together(self, o: Double) -> int {
        self.m * pow2((self.e - self.low(o)) as nat) + o.m * pow2((o.e - self.low(o)) as nat)
    }

    /// The double nearest to the product.
    pub open spec fn times(self, o: Double) -> Double {
        made(digits53((self.m * o.m) as int, 1), self.e + o.e)
    }

    /// The double nearest to the product, as a multiple of the least double.
    pub open spec fn faded(self, by: Double) -> Double {
        let n = (self.m * by.m) as int;
        let e = self.e + by.e;
        if digits53(n, 1).1 + e >= BOTTOM {
            self.times(by)
        } else {
            made(digits53(nearest(n, pow2((BOTTOM - e) as nat) as int), 1), BOTTOM as int)
        }
    }

    /// The double nearest to the quotient.
    pub open spec fn over(self, o: Double) -> Double {
        made(digits53(self.m as int, o.m as int), self.e - o.e)
    }

    /// The factor before the digits.
    pub open spec fn raise(self) -> int {
        if self.e > 0 {
            pow2(self.e as nat) as int
        } else {
            1
        }
    }

    /// The factor below the digits.
    pub open spec fn lower(self) -> int {
        if self.e < 0 {
            pow2((-self.e) as nat) as int
        } else {
            1
        }
    }

    /// How many parts of size `1 / parts` it is, to the nearest; halfway, the
    /// even number.
    pub open spec fn in_parts(self, parts: int) -> int {
        nearest(parts * (self.m * self.raise()), self.lower())
    }

    /// The nearest whole number; halfway, the greater one. It is held to 64 bits.
    pub open spec fn whole(self) -> u64 {
        let x = rounded(self.m * self.raise(), self.lower());
        if x > u64::MAX {
            u64::MAX
        } else {
            x as u64
        }
    }
}

proof fn lemma_powers()
    ensures
        pow2(52) == DIGITS_52,
        pow2(53) == DIGITS_53,
        pow2(60) == 0x1000_0000_0000_0000,
        pow2(120) == 0x100_0000_0000_0000_0000_0000_0000_0000,
{
    lemma2_to64();
    lemma2_to64_rest();
    lemma_pow2_adds(60, 60);
}

/// A small power has a small exponent.
proof fn lemma_small_power(k: nat)
    requires
        pow2(k) < 0x100_0000_0000_0000_0000_0000_0000_0000,
    ensures
        k < 120,
{
    lemma_powers();
    if k > 120 {
        lemma_pow2_strictly_increases(120, k);
    }
}

proof fn lemma_coarse(n: int, d: int, k: nat)
    requires
        d > 0,
        DIGITS_52 * (d * pow2(k)) <= n < DIGITS_53 * (d * pow2(k)),
    ensures
        coarse(n, d) == (nearest(n, d * pow2(k)), k as int),
    decreases k,
{
    if k == 0 {
        lemma2_to64();
        assert(d * 1 == d);
    } else {
        let j = (k - 1) as nat;
        lemma_pow2_unfold(k);
        lemma_pow2_pos(j);
        let (w, v) = (pow2(k) as int, pow2(j) as int);
        assert(d * w == (2 * d) * v && 2 * d <= d * w) by (nonlinear_arith)
            requires
                w == 2 * v,
                v >= 1,
                d > 0,
        ;
        lemma_coarse(n, 2 * d, j);
    }
}

proof fn lemma_fine(n: int, d: int, k: nat)
    requires
        n > 0,
        d > 0,
        DIGITS_52 * d <= n * pow2(k) < DIGITS_53 * d,
    ensures
        fine(n, d) == (nearest(n * pow2(k), d), -(k as int)),
    decreases k,
{
    if k == 0 {
        lemma2_to64();
        assert(n * 1 == n);
    } else {
        let j = (k - 1) as nat;
        lemma_pow2_unfold(k);
        lemma_pow2_pos(j);
        let (w, v) = (pow2(k) as int, pow2(j) as int);
        assert(n * w == (2 * n) * v && 2 * n <= n * w) by (nonlinear_arith)
            requires
                w == 2 * v,
                v >= 1,
                n > 0,
        ;
        lemma_fine(2 * n, d, j);
    }
}

/// The double nearest to `n / d` is the nearest number of whole parts, the
/// parts being powers of two of such a size that it takes 53 binary digits to
/// count them.
pub proof fn law_doubles_have_53_digits(n: int, d: int, k: nat)
    requires
        n > 0,
        d > 0,
    ensures
        DIGITS_52 * d <= n * pow2(k) < DIGITS_53 * d ==> digits53(n, d) == tidy(
            (nearest(n * pow2(k), d), -(k as int)),
        ),
        DIGITS_52 * (d * pow2(k)) <= n < DIGITS_53 * (d * pow2(k)) ==> digits53(n, d) == tidy(
            (nearest(n, d * pow2(k)), k as int),
        ),
{
    lemma_pow2_pos(k);
    let w = pow2(k) as int;
    if DIGITS_52 * d <= n * w < DIGITS_53 * d {
        assert(n <= n * w) by (nonlinear_arith)
            requires
                n > 0,
                w >= 1,
        ;
        lemma_fine(n, d, k);
    }
    if DIGITS_52 * (d * w) <= n < DIGITS_53 * (d * w) {
        lemma_coarse(n, d, k);
        if n < DIGITS_53 * d {
            if k > 0 {
                lemma_pow2_unfold(k);
                lemma_pow2_pos((k - 1) as nat);
                assert(d * w >= 2 * d) by (nonlinear_arith)
                    requires
                        w >= 2,
                        d > 0,
                ;
            } else {
                lemma2_to64();
                assert(d * 1 == d);
            }
        }
    }
}

pub proof fn lemma_nearest(n: int, d: int)
    requires
        n >= 0,
        d > 0,
    ensures
        nearest(n, d) >= 0,
        2 * (nearest(n, d) * d) <= 2 * n + d,
        2 * (nearest(n, d) * d) >= 2 * n - d,
{
    let (q, r) = (n / d, n % d);
    vstd::arithmetic::div_mod::lemma_fundamental_div_mod(n, d);
    assert(0 <= r < d && q >= 0) by (nonlinear_arith)
        requires
            r == n % d,
            q == n / d,
            d > 0,
            n >= 0,
    ;
    assert(q * d == n - r && (q + 1) * d == n - r + d) by (nonlinear_arith)
        requires
            n == d * q + r,
    ;
}

/// A whole number between two bounds has a rounded quotient between them.
pub proof fn lemma_nearest_between(n: int, d: int, a: int, b: int)
    requires
        d > 0,
        a * d <= n <= b * d,
        a >= 0,
    ensures
        a <= nearest(n, d) <= b,
{
    let (q, r) = (n / d, n % d);
    vstd::arithmetic::div_mod::lemma_fundamental_div_mod(n, d);
    assert(0 <= r < d) by (nonlinear_arith)
        requires
            r == n % d,
            d > 0,
    ;
    assert(a <= q <= b && (q == b ==> r == 0)) by (nonlinear_arith)
        requires
            n == d * q + r,
            0 <= r < d,
            a * d <= n <= b * d,
    ;
}

/// A whole number with at least 53 digits has an exponent, and is rounded by
/// half of its last part at most.
proof fn lemma_whole_digits(n: int) -> (k: nat)
    requires
        n >= DIGITS_52,
    ensures
        DIGITS_52 * pow2(k) <= n < DIGITS_53 * pow2(k),
        digits53(n, 1) == tidy((nearest(n, pow2(k) as int), k as int)),
        DIGITS_52 <= nearest(n, pow2(k) as int) <= DIGITS_53,
        DIGITS_52 <= digits53(n, 1).0 < DIGITS_53,
        k <= digits53(n, 1).1 <= k + 1,
        digits53(n, 1).0 * pow2(digits53(n, 1).1 as nat) == nearest(n, pow2(k) as int) * pow2(k),
        DIGITS_53 * (digits53(n, 1).0 * pow2(digits53(n, 1).1 as nat)) <= (DIGITS_53 + 1) * n,
        DIGITS_53 * (digits53(n, 1).0 * pow2(digits53(n, 1).1 as nat)) >= (DIGITS_53 - 1) * n,
{
    let k = lemma_exponent(n, n);
    let w = pow2(k) as int;
    lemma_pow2_pos(k);
    assert(1 * w == w);
    law_doubles_have_53_digits(n, 1, k);
    lemma_nearest(n, w);
    lemma_nearest_between(n, w, DIGITS_52 as int, DIGITS_53 as int);
    lemma_pow2_unfold(k + 1);
    let q = nearest(n, w);
    let x = digits53(n, 1);
    assert(DIGITS_53 * w == 2 * (DIGITS_52 * w)) by (nonlinear_arith)
        requires
            DIGITS_53 == 2 * DIGITS_52,
    ;
    if q == DIGITS_53 {
        assert(x == (DIGITS_52 as int, (k + 1) as int));
        assert(DIGITS_52 * (2 * w) == DIGITS_53 * w) by (nonlinear_arith)
            requires
                DIGITS_53 == 2 * DIGITS_52,
        ;
    }
    let v = q * w;
    assert(x.0 * pow2(x.1 as nat) == v);
    assert(DIGITS_53 * v <= (DIGITS_53 + 1) * n && DIGITS_53 * v >= (DIGITS_53 - 1) * n)
        by (nonlinear_arith)
        requires
            2 * v <= 2 * n + w,
            2 * v >= 2 * n - w,
            DIGITS_52 * w <= n,
            DIGITS_53 == 2 * DIGITS_52,
            w >= 1,
    ;
    k
}

proof fn lemma_exponent(n: int, fuel: int) -> (k: nat)
    requires
        DIGITS_52 <= n <= fuel,
    ensures
        DIGITS_52 * pow2(k) <= n < DIGITS_53 * pow2(k),
    decreases fuel,
{
    lemma2_to64();
    if n < DIGITS_53 {
        0
    } else {
        let j = lemma_exponent(n / 2, fuel - 1);
        let v = pow2(j) as int;
        lemma_pow2_unfold(j + 1);
        assert(DIGITS_52 * (2 * v) == 2 * (DIGITS_52 * v) && DIGITS_53 * (2 * v) == 2 * (DIGITS_53
            * v)) by (nonlinear_arith);
        j + 1
    }
}

/// The sum of two doubles: it has 53 digits, is not below the lesser exponent
/// nor far above the greater, and hardly less than either.
pub proof fn lemma_plus(a: Double, b: Double)
    requires
        a.is_usable(),
        b.is_usable(),
    ensures
        a.plus(b).is_normal(),
        a.m == 0 && b.m == 0 ==> a.plus(b) == Double::zero(),
        a.m > 0 || b.m > 0 ==> a.plus(b).m > 0,
        a.m > 0 && b.m > 0 ==> a.plus(b).e >= a.e && a.plus(b).e >= b.e,
        a.m > 0 && b.m > 0 ==> a.plus(b).e == digits53(a.together(b), 1).1 + a.low(b),
        a.m > 0 && b.m > 0 ==> DIGITS_53 * (a.plus(b).m * pow2((a.plus(b).e - a.low(b)) as nat))
            <= (DIGITS_53 + 1) * a.together(b),
        a.m > 0 && b.m > 0 ==> DIGITS_53 * (a.plus(b).m * pow2((a.plus(b).e - a.low(b)) as nat))
            >= (DIGITS_53 - 1) * a.together(b),
        a.m > 0 && b.m > 0 ==> a.plus(b).e <= (if a.e < b.e {
            b.e
        } else {
            a.e
        }) + 2,
        b.m > 0 ==> a.plus(b).e >= b.e && DIGITS_53 * (a.plus(b).m * pow2(
            (a.plus(b).e - b.e) as nat,
        )) >= (DIGITS_53 - 1) * b.m,
{
    if b.m > 0 && a.m == 0 {
        lemma2_to64();
        assert(b.m * 1 == b.m);
    }
    if a.m > 0 && b.m > 0 {
        let low = if a.e < b.e {
            a.e as int
        } else {
            b.e as int
        };
        let (i, j) = ((a.e - low) as nat, (b.e - low) as nat);
        let (p, q) = (pow2(i) as int, pow2(j) as int);
        lemma_pow2_pos(i);
        lemma_pow2_pos(j);
        let n = a.m * pow2(i) + b.m * pow2(j);
        assert(a.m * p >= DIGITS_52 * p && b.m * q >= DIGITS_52 * q && a.m * p < DIGITS_53 * p
            && b.m * q < DIGITS_53 * q) by (nonlinear_arith)
            requires
                DIGITS_52 <= a.m < DIGITS_53,
                DIGITS_52 <= b.m < DIGITS_53,
                p >= 1,
                q >= 1,
        ;
        assert(DIGITS_52 * p >= DIGITS_52) by (nonlinear_arith)
            requires
                p >= 1,
        ;
        let k = lemma_whole_digits(n);
        let x = digits53(n, 1);
        lemma_at_least(n, k, i);
        lemma_at_least(n, k, j);
        let top = if i < j {
            j
        } else {
            i
        };
        if i < top {
            lemma_pow2_strictly_increases(i, top);
        }
        if j < top {
            lemma_pow2_strictly_increases(j, top);
        }
        let t = pow2(top) as int;
        assert(DIGITS_53 * p <= DIGITS_53 * t && DIGITS_53 * q <= DIGITS_53 * t) by (nonlinear_arith)
            requires
                p <= t,
                q <= t,
        ;
        lemma_pow2_unfold(top + 1);
        assert(DIGITS_53 * (2 * t) == 2 * (DIGITS_53 * t)) by (nonlinear_arith);
        lemma_at_most(n, k, top + 1);
        assert(a.plus(b) == made(x, low));
        let d = (x.1 + low - b.e) as nat;
        assert(x.1 == d + j);
        lemma_pow2_adds(d, j);
        let g = pow2(d) as int;
        assert(DIGITS_53 * (x.0 * g) >= (DIGITS_53 - 1) * b.m) by (nonlinear_arith)
            requires
                DIGITS_53 * (x.0 * (g * q)) >= (DIGITS_53 - 1) * n,
                n >= b.m * q,
                q >= 1,
                DIGITS_53 > 1,
        ;
    }
}

proof fn lemma_at_least(n: int, k: nat, j: nat)
    requires
        DIGITS_52 * pow2(j) <= n < DIGITS_53 * pow2(k),
    ensures
        k >= j,
{
    if k < j {
        lemma_pow2_unfold(k + 1);
        if k + 1 < j {
            lemma_pow2_strictly_increases(k + 1, j);
        }
        let (v, w) = (pow2(k) as int, pow2(j) as int);
        assert(DIGITS_53 * v <= DIGITS_52 * w) by (nonlinear_arith)
            requires
                w >= 2 * v,
                DIGITS_53 == 2 * DIGITS_52,
        ;
    }
}

proof fn lemma_at_most(n: int, k: nat, j: nat)
    requires
        DIGITS_52 * pow2(k) <= n <= DIGITS_53 * pow2(j),
    ensures
        k <= j + 1,
        n < DIGITS_53 * pow2(j) ==> k <= j,
        k == j + 1 ==> n == DIGITS_52 * pow2(k),
{
    if k > j {
        lemma_pow2_unfold(j + 1);
        if j + 1 < k {
            lemma_pow2_strictly_increases(j + 1, k);
        }
        let (v, w) = (pow2(j) as int, pow2(k) as int);
        assert(DIGITS_53 * v == DIGITS_52 * (2 * v)) by (nonlinear_arith)
            requires
                DIGITS_53 == 2 * DIGITS_52,
        ;
        assert(w > 2 * v ==> DIGITS_52 * w > DIGITS_52 * (2 * v)) by (nonlinear_arith)
            requires
                DIGITS_52 > 0,
        ;
    }
}

/// The product of two doubles has 53 digits, and its exponent is known but for
/// two.
pub proof fn lemma_times(a: Double, b: Double)
    requires
        a.is_usable(),
        b.is_usable(),
        a.m > 0,
        b.m > 0,
    ensures
        a.times(b).is_normal(),
        a.times(b).m > 0,
        a.times(b).e == digits53((a.m * b.m) as int, 1).1 + a.e + b.e,
        a.e + b.e + 52 <= a.times(b).e <= a.e + b.e + 54,
        DIGITS_53 * (a.times(b).m * pow2((a.times(b).e - a.e - b.e) as nat)) <= (DIGITS_53 + 1) * (
        a.m * b.m),
        DIGITS_53 * (a.times(b).m * pow2((a.times(b).e - a.e - b.e) as nat)) >= (DIGITS_53 - 1) * (
        a.m * b.m),
        a.times(b).e == a.e + b.e + 54 ==> a.times(b).m == DIGITS_52,
        a.m * b.m < DIGITS_53 * DIGITS_52 ==> a.times(b).e <= a.e + b.e + 53,
        a.m * b.m < DIGITS_53 * DIGITS_52 && a.times(b).e == a.e + b.e + 53 ==> a.times(b).m
            == DIGITS_52,
{
    let n = (a.m * b.m) as int;
    lemma_powers();
    let (x, y) = (a.m as int, b.m as int);
    assert(DIGITS_52 * DIGITS_52 <= x * y < DIGITS_53 * DIGITS_53) by (nonlinear_arith)
        requires
            DIGITS_52 <= x < DIGITS_53,
            DIGITS_52 <= y < DIGITS_53,
            DIGITS_52 > 0,
    ;
    let k = lemma_whole_digits(n);
    lemma_at_least(n, k, 52);
    lemma_at_most(n, k, 53);
    if n < DIGITS_53 * DIGITS_52 {
        lemma_at_most(n, k, 52);
    }
}

/// The quotient of two doubles has 53 digits, and its exponent is known but for
/// two.
pub proof fn lemma_over(a: Double, b: Double)
    requires
        a.is_usable(),
        b.is_usable(),
        a.m > 0,
        b.m > 0,
    ensures
        a.over(b).is_normal(),
        a.over(b).m > 0,
        a.over(b).e == digits53(a.m as int, b.m as int).1 + a.e - b.e,
        a.e - b.e - 53 <= a.over(b).e <= a.e - b.e - 51,
        DIGITS_53 * (a.over(b).m * b.m) <= (DIGITS_53 + 1) * (a.m * pow2(
            (a.e - b.e - a.over(b).e) as nat,
        )),
        DIGITS_53 * (a.over(b).m * b.m) >= (DIGITS_53 - 1) * (a.m * pow2(
            (a.e - b.e - a.over(b).e) as nat,
        )),
{
    lemma_powers();
    let (n, d) = (a.m as int, b.m as int);
    let k: nat = if n >= d {
        52
    } else {
        53
    };
    let p = pow2(k) as int;
    assert(DIGITS_52 * d <= n * p < DIGITS_53 * d) by (nonlinear_arith)
        requires
            DIGITS_52 <= n < DIGITS_53,
            DIGITS_52 <= d < DIGITS_53,
            n >= d ==> p == DIGITS_52,
            n < d ==> p == DIGITS_53,
            DIGITS_53 == 2 * DIGITS_52,
    ;
    law_doubles_have_53_digits(n, d, k);
    assert(n * p >= 0) by (nonlinear_arith)
        requires
            n >= 0,
            p >= 0,
    ;
    lemma_nearest(n * p, d);
    lemma_nearest_between(n * p, d, DIGITS_52 as int, DIGITS_53 as int);
    let q = nearest(n * p, d);
    assert(DIGITS_53 * (q * d) <= (DIGITS_53 + 1) * (n * p) && DIGITS_53 * (q * d) >= (DIGITS_53
        - 1) * (n * p)) by (nonlinear_arith)
        requires
            2 * (q * d) <= 2 * (n * p) + d,
            2 * (q * d) >= 2 * (n * p) - d,
            DIGITS_52 * d <= n * p,
            DIGITS_53 == 2 * DIGITS_52,
    ;
    if q == DIGITS_53 {
        let j = (k - 1) as nat;
        lemma_pow2_unfold(k);
        let h = pow2(j) as int;
        assert(DIGITS_53 * (DIGITS_52 * d) <= (DIGITS_53 + 1) * (n * h) && DIGITS_53 * (DIGITS_52
            * d) >= (DIGITS_53 - 1) * (n * h)) by (nonlinear_arith)
            requires
                DIGITS_53 * (q * d) <= (DIGITS_53 + 1) * (n * p),
                DIGITS_53 * (q * d) >= (DIGITS_53 - 1) * (n * p),
                q == 2 * DIGITS_52,
                p == 2 * h,
        ;
    }
}

/// The least exponent of a count: that of the least double.
pub const LEAST_E: i32 = -1_126;

impl Double {
    /// A count: not above 2^53, where one more no longer makes it greater.
    pub open spec fn is_count(self) -> bool {
        &&& self.is_normal()
        &&& LEAST_E <= self.e
        &&& self.e <= 0 || (self.e == 1 && self.m == DIGITS_52)
    }
}

/// One more is a count.
pub proof fn lemma_one_more(a: Double)
    requires
        a.is_count(),
    ensures
        a.plus(Double::one()).is_count(),
{
    let u = Double::one();
    lemma_plus(a, u);
    if a.m > 0 {
        lemma_powers();
        lemma2_to64();
        let low = if a.e < u.e {
            a.e as int
        } else {
            u.e as int
        };
        let (i, j) = ((a.e - low) as nat, (u.e - low) as nat);
        let (p, q) = (pow2(i) as int, pow2(j) as int);
        let n = a.m * pow2(i) + u.m * pow2(j);
        lemma_pow2_pos(i);
        lemma_pow2_pos(j);
        assert(a.m * p >= DIGITS_52) by (nonlinear_arith)
            requires
                a.m >= DIGITS_52,
                p >= 1,
        ;
        assert(u.m * q >= 0) by (nonlinear_arith)
            requires
                u.m >= 0,
                q >= 0,
        ;
        let k = lemma_whole_digits(n);
        let w = (-low) as nat;
        lemma_pow2_adds(52, j);
        assert(u.m * q == pow2(w));
        if a.e == 1 {
            assert(n == DIGITS_52 * DIGITS_53 + DIGITS_52);
            lemma_at_least(n, k, 53);
            lemma_at_most(n, k, 53);
            assert(k == 53);
            vstd::arithmetic::div_mod::lemma_fundamental_div_mod_converse(
                n,
                DIGITS_53 as int,
                DIGITS_52 as int,
                DIGITS_52 as int,
            );
        } else {
            let t = pow2(w) as int;
            lemma_pow2_pos(w);
            if a.e == 0 {
                assert(a.m * p <= DIGITS_53 * t - t) by (nonlinear_arith)
                    requires
                        a.m <= DIGITS_53 - 1,
                        p == t,
                        t >= 1,
                ;
            } else {
                lemma_pow2_unfold(w);
                let h = pow2((w - 1) as nat) as int;
                if i < w - 1 {
                    lemma_pow2_strictly_increases(i, (w - 1) as nat);
                }
                assert(a.m * p + t <= DIGITS_53 * t) by (nonlinear_arith)
                    requires
                        a.m < DIGITS_53,
                        0 <= p <= h,
                        t == 2 * h,
                        DIGITS_53 >= 2,
                ;
            }
            assert(n <= DIGITS_53 * t);
            lemma_at_most(n, k, w);
            if k == w + 1 {
                let v = pow2(k) as int;
                lemma_pow2_pos(k);
                vstd::arithmetic::div_mod::lemma_fundamental_div_mod_converse(
                    n,
                    v,
                    DIGITS_52 as int,
                    0,
                );
            }
        }
    }
}

/// A whole number with at most 53 digits has an exponent of 52 digits less at
/// least.
proof fn lemma_small_digits(n: int)
    requires
        0 < n <= DIGITS_53,
    ensures
        DIGITS_52 <= digits53(n, 1).0 < DIGITS_53,
        -52 <= digits53(n, 1).1 <= 1,
{
    if n == DIGITS_53 {
        let k = lemma_whole_digits(n);
        lemma2_to64();
        lemma_at_most(n, k, 0);
    } else {
        lemma_small_fine(n);
    }
}

proof fn lemma_small_fine(n: int)
    requires
        0 < n < DIGITS_53,
    ensures
        fine(n, 1).0 == n * pow2((-fine(n, 1).1) as nat),
        DIGITS_52 <= fine(n, 1).0 < DIGITS_53,
        -52 <= fine(n, 1).1 <= 0,
    decreases DIGITS_53 - n,
{
    lemma2_to64();
    if n >= DIGITS_52 {
        assert(n * 1 == n);
    } else {
        lemma_small_fine(2 * n);
        let (m, e) = fine(2 * n, 1);
        let v = pow2((-e) as nat) as int;
        lemma_pow2_unfold((1 - e) as nat);
        assert((2 * n) * v == n * (2 * v) && 2 * v <= n * (2 * v)) by (nonlinear_arith)
            requires
                n >= 1,
                v >= 0,
        ;
        lemma_powers();
        if e == -52 {
            lemma_pow2_unfold(53);
        }
    }
}

/// What fades stays a count.
pub proof fn lemma_less(a: Double, by: Double)
    requires
        a.is_count(),
        by == Double::four_fifths() || by == Double::quarter(),
    ensures
        a.faded(by).is_count(),
{
    let n = (a.m * by.m) as int;
    let e = a.e + by.e;
    if a.m == 0 {
        lemma_nothing_fades(by);
    } else {
        lemma_times(a, by);
        if a.e == 1 {
            assert(a.m * by.m < DIGITS_53 * DIGITS_52);
        }
        if digits53(n, 1).1 + e < BOTTOM {
            let sh = (BOTTOM - e) as nat;
            let p = pow2(sh) as int;
            lemma_pow2_pos(sh);
            let (x, y) = (a.m as int, by.m as int);
            assert(x * y >= DIGITS_52) by (nonlinear_arith)
                requires
                    x >= DIGITS_52,
                    y >= DIGITS_52,
                    DIGITS_52 >= 1,
            ;
            let k = lemma_whole_digits(n);
            lemma_pow2_strictly_increases(k, sh);
            let w = pow2(k) as int;
            assert(DIGITS_53 * w <= DIGITS_53 * p) by (nonlinear_arith)
                requires
                    w <= p,
            ;
            lemma_nearest_between(n, p, 0, DIGITS_53 as int);
            let q = nearest(n, p);
            if q > 0 {
                lemma_small_digits(q);
            }
        }
    }
}

/// Nothing stays nothing.
pub proof fn lemma_nothing_fades(by: Double)
    requires
        by == Double::four_fifths() || by == Double::quarter(),
    ensures
        Double::zero().faded(by) == Double::zero(),
{
    assert(0 * by.m == 0);
}

/// A number with 53 digits keeps them when it is raised by 52 places.
pub proof fn lemma_power_digits(m: int)
    requires
        DIGITS_52 <= m < DIGITS_53,
    ensures
        digits53(m * ONE_M, 1) == (m, 52int),
{
    lemma_powers();
    let p = ONE_M as int;
    assert(p == DIGITS_52 && pow2(52) == p);
    assert(DIGITS_52 * (1 * p) <= m * p < DIGITS_53 * (1 * p) && m * p > 0) by (nonlinear_arith)
        requires
            DIGITS_52 <= m < DIGITS_53,
            p > 0,
            DIGITS_52 > 0,
    ;
    law_doubles_have_53_digits(m * p, 1, 52);
    vstd::arithmetic::div_mod::lemma_fundamental_div_mod_converse(m * p, p, m, 0);
}

/// Two to the power `k`.
fn power(k: u32) -> (r: u128)
    requires
        k <= 120,
    ensures
        r == pow2(k as nat),
        1 <= r <= 0x100_0000_0000_0000_0000_0000_0000_0000,
{
    let mut p: u128 = 1;
    let mut i: u32 = 0;
    proof {
        lemma2_to64();
        lemma_powers();
    }
    while i < k
        invariant
            i <= k <= 120,
            p == pow2(i as nat),
            1 <= p,
            pow2(120) == 0x100_0000_0000_0000_0000_0000_0000_0000,
        decreases k - i,
    {
        proof {
            lemma_pow2_unfold((i + 1) as nat);
            lemma_pow2_strictly_increases(i as nat, 120);
        }
        p = 2 * p;
        i = i + 1;
    }
    proof {
        if k < 120 {
            lemma_pow2_strictly_increases(k as nat, 120);
        }
    }
    p
}

/// The whole number nearest to `n / d`; halfway, the even one.
fn round_even(n: u128, d: u128) -> (r: u128)
    requires
        0 < d <= 0x4000_0000_0000_0000_0000_0000_0000_0000,
        n <= 0x8000_0000_0000_0000_0000_0000_0000_0000,
    ensures
        r == nearest(n as int, d as int),
{
    let q: u128 = n / d;
    let over: u128 = n % d;
    proof {
        let (ni, di) = (n as int, d as int);
        assert(0 <= ni % di < di && ni / di <= ni) by (nonlinear_arith)
            requires
                di > 0,
                ni >= 0,
        ;
    }
    if 2 * over < d || (2 * over == d && q % 2 == 0) {
        q
    } else {
        q + 1
    }
}

fn find_coarse(n: u128, d: u128) -> (r: (u128, i32))
    requires
        0 < d,
        DIGITS_52 * d <= n <= 0x8000_0000_0000_0000_0000_0000_0000_0000,
    ensures
        (r.0 as int, r.1 as int) == coarse(n as int, d as int),
        DIGITS_52 <= r.0 <= DIGITS_53,
        0 <= r.1 <= 120,
        DIGITS_52 * (d * pow2(r.1 as nat)) <= n,
    decreases n - d,
{
    proof {
        lemma2_to64();
    }
    if d > n / DIGITS_53 {
        proof {
            lemma_nearest_between(n as int, d as int, DIGITS_52 as int, DIGITS_53 as int);
            assert(d * 1 == d);
        }
        (round_even(n, d), 0)
    } else {
        let (m, e) = find_coarse(n, 2 * d);
        proof {
            let (di, v) = (d as int, pow2(e as nat) as int);
            lemma_pow2_unfold((e + 1) as nat);
            assert((2 * di) * v == di * (2 * v) && v <= (2 * di) * v) by (nonlinear_arith)
                requires
                    di >= 1,
                    v >= 0,
            ;
            lemma_small_power(e as nat);
        }
        (m, e + 1)
    }
}

fn find_fine(n: u128, d: u128) -> (r: (u128, i32))
    requires
        0 < n < DIGITS_53 * d,
        d <= 0x4_0000_0000_0000_0000,
    ensures
        (r.0 as int, r.1 as int) == fine(n as int, d as int),
        DIGITS_52 <= r.0 <= DIGITS_53,
        -120 <= r.1 <= 0,
        n * pow2((-r.1) as nat) < DIGITS_53 * d,
    decreases DIGITS_53 * d - n,
{
    proof {
        lemma2_to64();
    }
    if n >= DIGITS_52 * d {
        proof {
            lemma_nearest_between(n as int, d as int, DIGITS_52 as int, DIGITS_53 as int);
            assert(n * 1 == n);
        }
        (round_even(n, d), 0)
    } else {
        let (m, e) = find_fine(2 * n, d);
        proof {
            let (ni, v) = (n as int, pow2((-e) as nat) as int);
            lemma_pow2_unfold((1 - e) as nat);
            assert((2 * ni) * v == ni * (2 * v) && v <= (2 * ni) * v) by (nonlinear_arith)
                requires
                    ni >= 1,
                    v >= 0,
            ;
            lemma_small_power((-e) as nat);
        }
        (m, e - 1)
    }
}

fn find_digits(n: u128, d: u128) -> (r: (u64, i32))
    requires
        0 < d <= 0x4_0000_0000_0000_0000,
        n <= 0x8000_0000_0000_0000_0000_0000_0000_0000,
    ensures
        (r.0 as int, r.1 as int) == digits53(n as int, d as int),
        n > 0 ==> DIGITS_52 <= r.0 < DIGITS_53,
        -120 <= r.1 <= 121,
        d >= 0x1_0000_0000_0000 ==> r.1 <= 60,
{
    if n == 0 {
        return (0, 0);
    }
    let (m, e) = if n >= DIGITS_53 * d {
        let (m, e) = find_coarse(n, d);
        proof {
            lemma2_to64_rest();
            if e > 59 {
                lemma_pow2_strictly_increases(59, e as nat);
            }
            let (di, w) = (d as int, pow2(e as nat) as int);
            assert(di >= 0x1_0000_0000_0000 && w >= 0x800_0000_0000_0000 ==> di * w
                >= 0x1_0000_0000_0000 * 0x800_0000_0000_0000) by (nonlinear_arith);
        }
        (m, e)
    } else {
        find_fine(n, d)
    };
    if m == DIGITS_53 {
        (DIGITS_52 as u64, e + 1)
    } else {
        (m as u64, e)
    }
}

impl Double {
    pub fn new() -> (r: Double)
        ensures
            r == Double::zero(),
    {
        Double { m: 0, e: 0 }
    }

    /// The double nearest to `n / d`.
    pub fn ratio(n: u128, d: u128) -> (r: Double)
        requires
            0 < d <= 0x4_0000_0000_0000_0000,
            n <= 0x8000_0000_0000_0000_0000_0000_0000_0000,
        ensures
            r == Double::of(n as int, d as int),
            r.is_normal(),
            n > 0 ==> r.m > 0,
            -120 <= r.e <= 121,
            d >= 0x1_0000_0000_0000 ==> r.e <= 60,
    {
        let (m, e) = find_digits(n, d);
        if m == 0 {
            Double { m: 0, e: 0 }
        } else {
            Double { m, e }
        }
    }

    /// The double nearest to the sum.
    pub fn sum(&self, o: &Double) -> (r: Double)
        requires
            self.is_usable(),
            o.is_usable(),
        ensures
            r == self.plus(*o),
    {
        if self.m == 0 {
            return *o;
        }
        if o.m == 0 {
            return *self;
        }
        let (hi, lo): (Double, Double) = if self.e < o.e {
            (*o, *self)
        } else {
            (*self, *o)
        };
        let apart: i32 = hi.e - lo.e;
        proof {
            lemma2_to64();
            lemma_powers();
            assert(lo.m * 1 == lo.m);
        }
        if apart <= 60 {
            let p: u128 = power(apart as u32);
            proof {
                if apart < 60 {
                    lemma_pow2_strictly_increases(apart as nat, 60);
                }
                let (h, w) = (hi.m as int, p as int);
                assert(0 <= h * w <= DIGITS_53 * 0x1000_0000_0000_0000) by (nonlinear_arith)
                    requires
                        0 <= h <= DIGITS_53,
                        0 <= w <= 0x1000_0000_0000_0000,
                ;
            }
            let (m, e) = find_digits(hi.m as u128 * p + lo.m as u128, 1);
            Double { m, e: e + lo.e }
        } else {
            proof {
                let k = apart as nat;
                let p = pow2(k) as int;
                lemma_pow2_strictly_increases(60, k);
                let (h, l) = (hi.m as int, lo.m as int);
                let n = h * p + l;
                assert(DIGITS_52 * p <= n < DIGITS_53 * p && 0 < p <= n) by (nonlinear_arith)
                    requires
                        n == h * p + l,
                        DIGITS_52 <= h <= DIGITS_53 - 1,
                        0 < l < p,
                        DIGITS_52 >= 1,
                ;
                vstd::arithmetic::div_mod::lemma_fundamental_div_mod_converse(n, p, h, l);
                assert(1 * p == p);
                law_doubles_have_53_digits(n, 1, k);
            }
            hi
        }
    }

    /// The double nearest to the product.
    pub fn product(&self, o: &Double) -> (r: Double)
        requires
            self.is_usable(),
            o.is_usable(),
        ensures
            r == self.times(*o),
    {
        proof {
            let (x, y) = (self.m as int, o.m as int);
            assert(0 <= x * y <= DIGITS_53 * DIGITS_53 && (x == 0 || y == 0 <==> x * y == 0))
                by (nonlinear_arith)
                requires
                    0 <= x <= DIGITS_53,
                    0 <= y <= DIGITS_53,
            ;
        }
        let (m, e) = find_digits(self.m as u128 * o.m as u128, 1);
        if m == 0 {
            Double { m: 0, e: 0 }
        } else {
            Double { m, e: e + (self.e + o.e) }
        }
    }

    /// The double nearest to the product, as a multiple of the least double.
    pub fn fade(&self, by: &Double) -> (r: Double)
        requires
            self.is_count(),
            *by == Double::four_fifths() || *by == Double::quarter(),
        ensures
            r == self.faded(*by),
            r.is_count(),
    {
        proof {
            lemma_less(*self, *by);
            let (x, y) = (self.m as int, by.m as int);
            assert(0 <= x * y <= DIGITS_53 * DIGITS_53 && (x == 0 <==> x * y == 0))
                by (nonlinear_arith)
                requires
                    0 <= x <= DIGITS_53,
                    0 < y <= DIGITS_53,
            ;
        }
        if self.m == 0 {
            proof {
                lemma_nothing_fades(*by);
            }
            return Double { m: 0, e: 0 };
        }
        proof {
            lemma_times(*self, *by);
        }
        let n: u128 = self.m as u128 * by.m as u128;
        let low: i32 = self.e + by.e;
        let (m, e) = find_digits(n, 1);
        if e + low >= BOTTOM {
            return Double { m, e: e + low };
        }
        let rest: u128 = round_even(n, power((BOTTOM - low) as u32));
        proof {
            let p = pow2((BOTTOM - low) as nat) as int;
            lemma_pow2_pos((BOTTOM - low) as nat);
            assert(0 <= n <= n * p) by (nonlinear_arith)
                requires
                    n >= 0,
                    p >= 1,
            ;
            lemma_nearest_between(n as int, p, 0, n as int);
        }
        let (m, e) = find_digits(rest, 1);
        if m == 0 {
            Double { m: 0, e: 0 }
        } else {
            Double { m, e: e + BOTTOM }
        }
    }

    /// The double nearest to the quotient.
    pub fn quotient(&self, o: &Double) -> (r: Double)
        requires
            self.is_usable(),
            o.is_usable(),
            o.m > 0,
        ensures
            r == self.over(*o),
    {
        let (m, e) = find_digits(self.m as u128, o.m as u128);
        if m == 0 {
            Double { m: 0, e: 0 }
        } else {
            Double { m, e: e + (self.e - o.e) }
        }
    }

    /// How many parts of size `1 / parts` it is.
    pub fn find_parts(&self, parts: u64) -> (r: u128)
        requires
            self.is_normal(),
            self.e <= 60,
            parts <= 1000,
        ensures
            r == self.in_parts(parts as int),
    {
        proof {
            let (k, m) = (parts as int, self.m as int);
            assert(0 <= k * m <= 1000 * DIGITS_53) by (nonlinear_arith)
                requires
                    0 <= k <= 1000,
                    0 <= m <= DIGITS_53,
            ;
            assert(m * 1 == m);
        }
        let n: u128 = parts as u128 * self.m as u128;
        if self.e >= 0 {
            let p: u128 = power(self.e as u32);
            proof {
                lemma2_to64();
                lemma_powers();
                if self.e < 60 {
                    lemma_pow2_strictly_increases(self.e as nat, 60);
                }
                let (a, w, k, m) = (n as int, p as int, parts as int, self.m as int);
                assert(0 <= a * w <= (1000 * DIGITS_53) * 0x1000_0000_0000_0000)
                    by (nonlinear_arith)
                    requires
                        0 <= a <= 1000 * DIGITS_53,
                        0 <= w <= 0x1000_0000_0000_0000,
                ;
                assert(k * (m * w) == (k * m) * w) by (nonlinear_arith);
                assert(self.raise() == w);
            }
            n * p
        } else if self.e >= -100 {
            round_even(n, power((-self.e) as u32))
        } else {
            proof {
                lemma_far_below(n as int, (-self.e) as nat);
            }
            0
        }
    }

    /// The nearest whole number; halfway, the greater one.
    pub fn find_whole(&self) -> (r: u64)
        requires
            self.is_normal(),
            self.e > i32::MIN,
        ensures
            r == self.whole(),
    {
        proof {
            lemma2_to64();
            assert(self.m * 1 == self.m);
        }
        if self.e >= 12 {
            proof {
                if self.e > 12 {
                    lemma_pow2_strictly_increases(12, self.e as nat);
                }
                let (m, w) = (self.m as int, self.raise());
                assert(m * w >= DIGITS_52 * 4096) by (nonlinear_arith)
                    requires
                        m >= DIGITS_52,
                        w >= 4096,
                ;
                let y = m * w;
                lemma_whole_stays(y);
            }
            u64::MAX
        } else if self.e >= 0 {
            let p: u128 = power(self.e as u32);
            proof {
                if self.e < 12 {
                    lemma_pow2_strictly_increases(self.e as nat, 12);
                }
                let (m, w) = (self.m as int, p as int);
                assert(0 <= m * w <= DIGITS_53 * 4096) by (nonlinear_arith)
                    requires
                        0 <= m <= DIGITS_53,
                        0 <= w <= 4096,
                ;
                assert(self.raise() == w);
                let y = m * w;
                lemma_whole_stays(y);
            }
            let x: u128 = self.m as u128 * p;
            if x > u64::MAX as u128 {
                u64::MAX
            } else {
                x as u64
            }
        } else if self.e >= -100 {
            let p: u128 = power((-self.e) as u32);
            let x: u128 = (2 * (self.m as u128) + p) / (2 * p);
            proof {
                let (m, w) = (self.m as int, p as int);
                assert((2 * m + w) / (2 * w) <= m + 1) by (nonlinear_arith)
                    requires
                        m >= 0,
                        w >= 1,
                ;
            }
            x as u64
        } else {
            proof {
                lemma_far_below(self.m as int, (-self.e) as nat);
            }
            0
        }
    }
}

/// A whole number is its own nearest.
pub proof fn lemma_whole_stays(n: int)
    requires
        n >= 0,
    ensures
        rounded(n, 1) == n,
{
    assert((2 * n + 1) / 2 == n);
}

/// A number far below one rounds to nothing.
proof fn lemma_far_below(n: int, k: nat)
    requires
        0 <= n <= 1000 * DIGITS_53,
        k > 100,
    ensures
        nearest(n, pow2(k) as int) == 0,
        rounded(n, pow2(k) as int) == 0,
{
    lemma_powers();
    lemma_pow2_strictly_increases(60, 100);
    lemma_pow2_strictly_increases(100, k);
    lemma2_to64_rest();
    lemma_pow2_adds(60, 40);
    assert(pow2(100) == 0x1000_0000_0000_0000 * 0x100_0000_0000);
    let p = pow2(k) as int;
    vstd::arithmetic::div_mod::lemma_small_mod(n as nat, p as nat);
    vstd::arithmetic::div_mod::lemma_basic_div(n, p);
    vstd::arithmetic::div_mod::lemma_basic_div(2 * n + p, 2 * p);
}


/// How many places a quotient below 2^52 has to be raised to have 53 digits.
proof fn lemma_places(n: int, d: int) -> (k: nat)
    requires
        0 < n < DIGITS_53 * d,
        d > 0,
    ensures
        DIGITS_52 * d <= n * pow2(k) < DIGITS_53 * d,
    decreases DIGITS_53 * d - n,
{
    lemma2_to64();
    if n >= DIGITS_52 * d {
        assert(n * 1 == n);
        0
    } else {
        let j = lemma_places(2 * n, d);
        lemma_pow2_unfold(j + 1);
        let v = pow2(j) as int;
        assert((2 * n) * v == n * (2 * v)) by (nonlinear_arith);
        j + 1
    }
}

/// A quotient of moderate size in thousandths: it is off by little more than
/// half of one.
pub proof fn law_thousandths_are_near(n: int, d: int)
    requires
        0 <= n < 0x40_0000_0000 * d,
        0 < d <= 0x1000_0000_0000_0000,
    ensures
        Double::of(n, d).in_parts(1000) >= 0,
        -107 * d <= 200 * (Double::of(n, d).in_parts(1000) * d - 1000 * n) <= 107 * d,
{
    if n == 0 {
        let z = Double::zero();
        assert(Double::of(n, d) == z);
        assert(1000 * (0 * z.raise()) == 0);
        assert(nearest(0, 1) == 0);
        assert(0 * d == 0);
        lemma_zero_is_near(d);
    } else {
        let k = lemma_places(n, d);
        let p = pow2(k) as int;
        lemma_pow2_pos(k);
        law_doubles_have_53_digits(n, d, k);
        assert(n * p >= 0) by (nonlinear_arith)
            requires
                n >= 0,
                p >= 0,
        ;
        lemma_nearest(n * p, d);
        lemma_nearest_between(n * p, d, DIGITS_52 as int, DIGITS_53 as int);
        let q = nearest(n * p, d);
        assert(p >= 16_384) by (nonlinear_arith)
            requires
                4_503_599_627_370_496 * d <= n * p,
                0 <= n < 0x40_0000_0000 * d,
                d > 0,
                p >= 1,
        ;
        lemma2_to64();
        if k < 14 {
            lemma_pow2_strictly_increases(k, 14);
        }
        assert(p < 0x100_0000_0000_0000_0000_0000_0000_0000) by (nonlinear_arith)
            requires
                n * p < 9_007_199_254_740_992 * d,
                n >= 1,
                0 < d <= 0x1000_0000_0000_0000,
                p >= 0,
        ;
        lemma_small_power(k);
        let x = Double::of(n, d);
        lemma_not_tiny(n, d, k);
        let w = x.lower();
        let m = x.m as int;
        lemma_pow2_unfold(k);
        lemma_pow2_pos((k - 1) as nat);
        assert(m * p == q * w && w > 0) by {
            if q == DIGITS_53 {
                let h = pow2((k - 1) as nat) as int;
                assert(4_503_599_627_370_496 * (2 * h) == 9_007_199_254_740_992 * h)
                    by (nonlinear_arith);
            }
        }
        assert(m * 1 == m);
        lemma_nearest(1000 * m, w);
        let r = nearest(1000 * m, w);
        assert(x.in_parts(1000) == r);
        assert(-p <= 2 * (r * p - 1000 * q) <= p) by (nonlinear_arith)
            requires
                -w <= 2 * (r * w - 1000 * m) <= w,
                m * p == q * w,
                w > 0,
                p > 0,
        ;
        lemma_near(n, d, p, q, r);
    }
}

proof fn lemma_zero_is_near(d: int)
    requires
        d > 0,
    ensures
        -107 * d <= 200 * (0 * d - 1000 * 0) <= 107 * d,
{
}

proof fn lemma_not_tiny(n: int, d: int, k: nat)
    requires
        0 < n,
        d > 0,
        14 <= k <= 1000,
        digits53(n, d) == tidy((nearest(n * pow2(k), d), -(k as int))),
        DIGITS_52 <= nearest(n * pow2(k), d) <= DIGITS_53,
    ensures
        ({
            let x = Double::of(n, d);
            let q = nearest(n * pow2(k), d);
            &&& x.raise() == 1
            &&& q < DIGITS_53 ==> x.m == q && x.lower() == pow2(k)
            &&& q == DIGITS_53 ==> x.m == DIGITS_52 && x.lower() == pow2((k - 1) as nat)
        }),
{
}

proof fn lemma_near(n: int, d: int, p: int, q: int, r: int)
    requires
        d > 0,
        p >= 16_384,
        -d <= 2 * (q * d - n * p) <= d,
        -p <= 2 * (r * p - 1000 * q) <= p,
    ensures
        -107 * d <= 200 * (r * d - 1000 * n) <= 107 * d,
{
    let e = r * d - 1000 * n;
    let (a, b) = (r * p - 1000 * q, q * d - n * p);
    assert(e * p == a * d + 1000 * b) by (nonlinear_arith)
        requires
            e == r * d - 1000 * n,
            a == r * p - 1000 * q,
            b == q * d - n * p,
    ;
    let t = a * d;
    assert(-(p * d) <= 2 * t <= p * d) by (nonlinear_arith)
        requires
            t == a * d,
            -p <= 2 * a <= p,
            d > 0,
    ;
    let z = p * d;
    assert(16_384 * d <= z) by (nonlinear_arith)
        requires
            z == p * d,
            p >= 16_384,
            d > 0,
    ;
    let f = e * p;
    assert(-107 * z <= 200 * f <= 107 * z);
    assert(-107 * d <= 200 * e <= 107 * d) by (nonlinear_arith)
        requires
            -107 * (p * d) <= 200 * (e * p) <= 107 * (p * d),
            p > 0,
    ;
}


/// A sum is exact but for one part in 2^53: in units of the lesser exponent it
/// is the sum of both. Nothing added changes nothing, and the order is of no
/// account.
pub proof fn law_sums_are_near(a: Double, b: Double)
    requires
        a.is_usable(),
        b.is_usable(),
    ensures
        a.plus(b) == b.plus(a),
        b.m == 0 ==> a.plus(b) == a,
        a.m > 0 && b.m > 0 && a.e <= b.e ==> {
            let c = a.plus(b);
            let sum = a.m + b.m * pow2((b.e - a.e) as nat);
            let got = c.m * pow2((c.e - a.e) as nat);
            &&& c.e >= a.e
            &&& 9_007_199_254_740_991 * sum <= 9_007_199_254_740_992 * got
                <= 9_007_199_254_740_993 * sum
        },
{
    lemma_plus(a, b);
    lemma2_to64();
    assert(a.m * 1 == a.m);
    if a.m > 0 && b.m > 0 {
        assert(a.together(b) == b.together(a));
    }
}

/// A product and a quotient are exact but for one part in 2^53.
pub proof fn law_products_and_quotients_are_near(a: Double, b: Double)
    requires
        a.is_usable(),
        b.is_usable(),
        a.m > 0,
        b.m > 0,
    ensures
        ({
            let c = a.times(b);
            let product = a.m * b.m;
            let got = c.m * pow2((c.e - a.e - b.e) as nat);
            &&& c.e >= a.e + b.e
            &&& 9_007_199_254_740_991 * product <= 9_007_199_254_740_992 * got
                <= 9_007_199_254_740_993 * product
        }),
        ({
            let c = a.over(b);
            let whole = a.m * pow2((a.e - b.e - c.e) as nat);
            let got = c.m * b.m;
            &&& c.e <= a.e - b.e
            &&& 9_007_199_254_740_991 * whole <= 9_007_199_254_740_992 * got
                <= 9_007_199_254_740_993 * whole
        }),
{
    lemma_times(a, b);
    lemma_over(a, b);
}


/// The constants are the doubles nearest to the numbers that they stand for.
pub proof fn law_constants_are_what_they_say()
    ensures
        Double::one() == Double::of(1, 1),
        Double::ten() == Double::of(10, 1),
        Double::hundred() == Double::of(100, 1),
        Double::thousand() == Double::of(1000, 1),
        Double::quarter() == Double::of(1, 4),
        Double::four_fifths() == Double::of(4, 5),
        Double::hundredth() == Double::of(1, 100),
{
    lemma2_to64_rest();
    law_doubles_have_53_digits(1, 1, 52);
    law_doubles_have_53_digits(10, 1, 49);
    law_doubles_have_53_digits(100, 1, 46);
    law_doubles_have_53_digits(1000, 1, 43);
    law_doubles_have_53_digits(1, 4, 54);
    law_doubles_have_53_digits(4, 5, 53);
    law_doubles_have_53_digits(1, 100, 59);
    assert(nearest(4_503_599_627_370_496, 1) == 4_503_599_627_370_496);
    assert(nearest(5_629_499_534_213_120, 1) == 5_629_499_534_213_120);
    assert(nearest(7_036_874_417_766_400, 1) == 7_036_874_417_766_400);
    assert(nearest(8_796_093_022_208_000, 1) == 8_796_093_022_208_000);
    assert(nearest(18_014_398_509_481_984, 4) == 4_503_599_627_370_496);
    assert(nearest(36_028_797_018_963_968, 5) == 7_205_759_403_792_794);
    assert(nearest(576_460_752_303_423_488, 100) == 5_764_607_523_034_235);
}

/// Whole numbers and parts are the nearest ones, to a half; a whole number is
/// held to 64 bits.
pub proof fn law_whole_numbers_are_near(x: Double, parts: int)
    requires
        x.is_normal(),
        -100_000 <= x.e <= 0,
        parts >= 0,
    ensures
        ({
            let p = pow2((-x.e) as nat) as int;
            &&& -p <= 2 * (x.whole() * p - x.m) <= p
            &&& -p <= 2 * (x.in_parts(parts) * p - parts * x.m) <= p
        }),
{
    let p = pow2((-x.e) as nat) as int;
    lemma_pow2_pos((-x.e) as nat);
    lemma2_to64();
    let m = x.m as int;
    assert(m * 1 == m);
    crate::bias::lemma_rounded_near(m, p);
    let r = rounded(m, p);
    assert(p * r == r * p) by (nonlinear_arith);
    assert(0 <= r <= m + 1) by (nonlinear_arith)
        requires
            2 * (p * r - m) <= p,
            r >= 0,
            p >= 1,
            m >= 0,
    ;
    assert(parts * m >= 0) by (nonlinear_arith)
        requires
            parts >= 0,
            m >= 0,
    ;
    lemma_nearest(parts * m, p);
}

} // verus!
