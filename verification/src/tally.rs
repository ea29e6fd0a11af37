//! Counts that fade.

use vstd::prelude::*;
use crate::binary::{
    Double, FIFTHS_E, FIFTHS_M, HUNDREDTH_E, HUNDREDTH_M, HUNDRED_E, HUNDRED_M, ONE_E, ONE_M,
    QUARTER_E, TEN_E, TEN_M, THOUSAND_E, THOUSAND_M,
};
#[allow(unused_imports)]
use crate::binary::{
    lemma_less, lemma_nothing_fades, lemma_one_more, lemma_over, lemma_power_digits, lemma_plus, lemma_times, lemma_whole_stays,
    nearest, BOTTOM, DIGITS_53,
};
#[allow(unused_imports)]
use vstd::arithmetic::power2::{
    lemma2_to64_rest, lemma_pow2_adds, lemma_pow2_pos, pow2,
};

verus! {

/// A count that fades by a fifth.
#[derive(Clone, Copy, PartialEq, Eq, Debug, Structural)]
pub struct Tally {
    pub n: Double,
}

impl Tally {
    pub open spec fn zero() -> Tally {
        Tally { n: Double::zero() }
    }

    pub open spec fn is_fair(self) -> bool {
        self.n.is_count()
    }

    /// One more.
    pub open spec fn up(self) -> Tally {
        Tally { n: self.n.plus(Double::one()) }
    }

    /// Four fifths of it.
    pub open spec fn four_fifths(self) -> Tally {
        Tally { n: self.n.faded(Double::four_fifths()) }
    }

    pub fn new() -> (r: Tally)
        ensures
            r == Tally::zero(),
            r.is_fair(),
    {
        Tally { n: Double::new() }
    }

    /// Counts one more.
    pub fn count(&self) -> (r: Tally)
        requires
            self.is_fair(),
        ensures
            r == self.up(),
            r.is_fair(),
    {
        proof {
            lemma_one_more(self.n);
        }
        Tally { n: self.n.sum(&Double { m: ONE_M, e: ONE_E }) }
    }

    /// Fades to four fifths.
    pub fn fade_slowly(&self) -> (r: Tally)
        requires
            self.is_fair(),
        ensures
            r == self.four_fifths(),
            r.is_fair(),
    {
        Tally { n: self.n.fade(&Double { m: FIFTHS_M, e: FIFTHS_E }) }
    }
}

/// Fair tallies stay fair.
pub proof fn lemma_stays_fair(t: Tally)
    requires
        t.is_fair(),
    ensures
        t.up().is_fair(),
        t.four_fifths().is_fair(),
{
    lemma_one_more(t.n);
    lemma_less(t.n, Double::four_fifths());
}

/// Sync observations, whole.
pub open spec fn sync_count(good: Tally, bad: Tally) -> u64 {
    good.n.plus(bad.n).whole()
}

/// Share of refused sync observations in tenths of a percent, over one
/// hundredth more than their whole number.
pub open spec fn sync_bad_tenths(good: Tally, bad: Tally) -> u64 {
    Double::thousand().times(bad.n).over(
        Double::of(sync_count(good, bad) as int, 1).plus(Double::hundredth()),
    ).whole()
}

/// Sync observations, whole.
pub fn find_sync_count(good: Tally, bad: Tally) -> (r: u64)
    requires
        good.is_fair(),
        bad.is_fair(),
    ensures
        r == sync_count(good, bad),
{
    proof {
        lemma_plus(good.n, bad.n);
    }
    good.n.sum(&bad.n).find_whole()
}

/// Share of refused sync observations in tenths of a percent.
pub fn find_sync_bad(good: Tally, bad: Tally) -> (r: u64)
    requires
        good.is_fair(),
        bad.is_fair(),
    ensures
        r == sync_bad_tenths(good, bad),
{
    let count: u64 = find_sync_count(good, bad);
    let whole = Double::ratio(count as u128, 1);
    let thousand = Double { m: THOUSAND_M, e: THOUSAND_E };
    let hundredth = Double { m: HUNDREDTH_M, e: HUNDREDTH_E };
    let above = thousand.product(&bad.n);
    let below = whole.sum(&hundredth);
    proof {
        lemma_plus(whole, hundredth);
        if bad.n.m > 0 {
            lemma_times(thousand, bad.n);
            lemma_over(above, below);
        } else {
            assert(thousand.m * 0 == 0);
        }
    }
    above.quotient(&below).find_whole()
}

/// What the observations of a receiver were worth: how many were taken and
/// how many refused, fading together.
#[derive(Clone, Copy, PartialEq, Eq, Debug, Structural)]
pub struct Score {
    pub good: Double,
    pub bad: Double,
}

/// The same digits at a quarter of their worth.
pub open spec fn fourth(x: Double) -> Double {
    if x.m == 0 {
        x
    } else {
        Double { m: x.m, e: (x.e - 2) as i32 }
    }
}

/// A quarter of the count can be told apart from its neighbours, as it is above
/// the bottom of what a double holds.
pub open spec fn can_fade(x: Double) -> bool {
    x.m == 0 || x.e >= BOTTOM + 2
}

impl Score {
    pub open spec fn zero() -> Score {
        Score { good: Double::zero(), bad: Double::zero() }
    }

    pub open spec fn is_fair(self) -> bool {
        self.good.is_count() && self.bad.is_count()
    }

    /// One more observation.
    pub open spec fn counted(self, took: bool) -> Score {
        if took {
            Score { good: self.good.plus(Double::one()), ..self }
        } else {
            Score { bad: self.bad.plus(Double::one()), ..self }
        }
    }

    /// A quarter of both.
    pub open spec fn quarter(self) -> Score {
        Score {
            good: self.good.faded(Double::quarter()),
            bad: self.bad.faded(Double::quarter()),
        }
    }

    pub fn new() -> (r: Score)
        ensures
            r == Score::zero(),
            r.is_fair(),
    {
        Score { good: Double::new(), bad: Double::new() }
    }

    /// Counts one more observation.
    pub fn count(&self, took: bool) -> (r: Score)
        requires
            self.is_fair(),
        ensures
            r == self.counted(took),
            r.is_fair(),
    {
        proof {
            lemma_score_stays_fair(*self);
        }
        let one = Double { m: ONE_M, e: ONE_E };
        if took {
            Score { good: self.good.sum(&one), bad: self.bad }
        } else {
            Score { good: self.good, bad: self.bad.sum(&one) }
        }
    }

    /// Fades both to a quarter.
    pub fn fade(&self) -> (r: Score)
        requires
            self.is_fair(),
        ensures
            r == self.quarter(),
            r.is_fair(),
    {
        let quarter = Double { m: ONE_M, e: QUARTER_E };
        Score { good: self.good.fade(&quarter), bad: self.bad.fade(&quarter) }
    }

    /// The share that was refused as a percentage; nothing counted is nothing
    /// refused.
    pub open spec fn percent(self) -> Double {
        if self.good.plus(self.bad).m == 0 {
            Double::zero()
        } else {
            Double::hundred().times(self.bad).over(self.good.plus(self.bad))
        }
    }

    /// Tenths of a percent that were refused, halfway upwards.
    pub open spec fn outlier_tenths(self) -> u64 {
        self.percent().times(Double::ten()).whole()
    }

    /// Tenths of a percent that were refused, halfway to the even one.
    pub open spec fn percent_tenths(self) -> int {
        self.percent().in_parts(10)
    }

    /// The share that was refused as a percentage.
    fn find_percent(&self) -> (r: Double)
        requires
            self.is_fair(),
        ensures
            r == self.percent(),
            r.is_normal(),
            -2_000 <= r.e <= 0,
    {
        let all = self.good.sum(&self.bad);
        proof {
            lemma_percent(*self);
        }
        if all.m == 0 {
            return Double::new();
        }
        let hundred = Double { m: HUNDRED_M, e: HUNDRED_E };
        proof {
            lemma_plus(self.good, self.bad);
            if self.bad.m > 0 {
                lemma_times(hundred, self.bad);
            } else {
                assert(hundred.m * 0 == 0);
            }
        }
        hundred.product(&self.bad).quotient(&all)
    }

    /// Tenths of a percent that were refused.
    pub fn find_outlier_tenths(&self) -> (r: u64)
        requires
            self.is_fair(),
        ensures
            r == self.outlier_tenths(),
    {
        let p = self.find_percent();
        let ten = Double { m: TEN_M, e: TEN_E };
        proof {
            if p.m > 0 {
                lemma_times(p, ten);
            } else {
                assert(0 * ten.m == 0);
            }
        }
        p.product(&ten).find_whole()
    }

    /// The share that was refused as a percentage with one decimal, in tenths.
    pub fn find_percent_tenths(&self) -> (r: u64)
        requires
            self.is_fair(),
        ensures
            r == self.percent_tenths(),
            r <= 1000,
    {
        proof {
            law_shares_are_shares(*self);
        }
        self.find_percent().find_parts(10) as u64
    }
}

/// Fair scores stay fair.
pub proof fn lemma_score_stays_fair(s: Score)
    requires
        s.is_fair(),
    ensures
        s.counted(true).is_fair(),
        s.counted(false).is_fair(),
        s.quarter().is_fair(),
{
    lemma_one_more(s.good);
    lemma_one_more(s.bad);
    lemma_less(s.good, Double::quarter());
    lemma_less(s.bad, Double::quarter());
}

proof fn lemma_percent(s: Score)
    requires
        s.is_fair(),
    ensures
        s.percent().is_normal(),
        -2_000 <= s.percent().e <= 0,
        0 <= s.percent_tenths() <= 1000,
        s.bad.m == 0 ==> s.percent() == Double::zero(),
        s.good.m == 0 && s.bad.m > 0 ==> s.percent_tenths() == 1000,
{
    let all = s.good.plus(s.bad);
    let h = Double::hundred();
    lemma_plus(s.good, s.bad);
    if s.bad.m == 0 {
        assert(h.m * 0 == 0);
        assert(s.percent() == Double::zero());
        assert(Double::zero().in_parts(10) == 0) by {
            assert(nearest(0, 1) == 0);
        }
    } else {
        let v = h.times(s.bad);
        lemma_times(h, s.bad);
        lemma_over(v, all);
        lemma_share(s.bad, all, v, s.percent());
        if s.good.m == 0 {
            lemma_all_refused(s.bad, v, s.percent());
        }
    }
}

/// How little rounding adds to a hundred times a part over the whole.
proof fn lemma_share(b: Double, all: Double, v: Double, p: Double)
    requires
        b.is_count(),
        b.m > 0,
        all.is_normal(),
        all.m > 0,
        b.e <= all.e <= 3,
        DIGITS_53 * (all.m * pow2((all.e - b.e) as nat)) >= (DIGITS_53 - 1) * b.m,
        v.m > 0,
        b.e + 6 <= v.e <= b.e + 8,
        DIGITS_53 * (v.m * pow2((v.e + 46 - b.e) as nat)) <= (DIGITS_53 + 1) * (HUNDRED_M * b.m),
        p.is_normal(),
        p.m > 0,
        v.e - all.e - 53 <= p.e <= v.e - all.e - 51,
        DIGITS_53 * (p.m * all.m) <= (DIGITS_53 + 1) * (v.m * pow2((v.e - all.e - p.e) as nat)),
    ensures
        p.e < 0,
        0 <= p.in_parts(10) <= 1000,
{
    let (i, j, k) = (
        (all.e - b.e) as nat,
        (v.e + 46 - b.e) as nat,
        (v.e - all.e - p.e) as nat,
    );
    let (x, y, z) = (pow2(i) as int, pow2(j) as int, pow2(k) as int);
    let q = pow2((-p.e) as nat) as int;
    lemma_pow2_pos(i);
    lemma_pow2_pos(j);
    lemma_pow2_pos(k);
    lemma2_to64_rest();
    lemma_pow2_adds(j, (-p.e) as nat);
    lemma_pow2_adds(46, i);
    lemma_pow2_adds(46 + i, k);
    let t = pow2(46) as int;
    assert(y * q == (t * x) * z);
    lemma_share_bound(
        b.m as int,
        all.m as int,
        v.m as int,
        p.m as int,
        x,
        y,
        z,
        q,
        t,
    );
    assert(p.m * 1 == p.m);
    assert(10 * (p.m * p.raise()) == 10 * p.m);
    lemma_tenths(10 * p.m, q);
}

/// Rounding takes little from a hundred times the whole over the whole.
proof fn lemma_all_refused(b: Double, v: Double, p: Double)
    requires
        b.m > 0,
        v.m > 0,
        b.e + 6 <= v.e <= b.e + 8,
        DIGITS_53 * (v.m * pow2((v.e + 46 - b.e) as nat)) >= (DIGITS_53 - 1) * (HUNDRED_M * b.m),
        p.m > 0,
        p.e < 0,
        v.e - b.e - 53 <= p.e <= v.e - b.e - 51,
        DIGITS_53 * (p.m * b.m) >= (DIGITS_53 - 1) * (v.m * pow2((v.e - b.e - p.e) as nat)),
        p.in_parts(10) <= 1000,
    ensures
        p.in_parts(10) == 1000,
{
    let (j, k) = ((v.e + 46 - b.e) as nat, (v.e - b.e - p.e) as nat);
    let (y, z) = (pow2(j) as int, pow2(k) as int);
    let q = pow2((-p.e) as nat) as int;
    lemma_pow2_pos(j);
    lemma_pow2_pos(k);
    lemma_pow2_pos((-p.e) as nat);
    lemma2_to64_rest();
    lemma_pow2_adds(j, (-p.e) as nat);
    lemma_pow2_adds(46, k);
    let t = pow2(46) as int;
    assert(y * q == t * z);
    let (bm, vm, pm) = (b.m as int, v.m as int, p.m as int);
    let d: int = 9_007_199_254_740_992;
    assert((d * d) * ((pm * bm) * y) >= ((d - 1) * (d - 1)) * ((HUNDRED_M * bm) * z))
        by (nonlinear_arith)
        requires
            d * (pm * bm) >= (d - 1) * (vm * z),
            d * (vm * y) >= (d - 1) * (HUNDRED_M * bm),
            d > 1,
            y > 0,
            z > 0,
    ;
    let (e, f) = ((pm * bm) * y, bm * z);
    assert((HUNDRED_M * bm) * z == HUNDRED_M * f) by (nonlinear_arith)
        requires
            f == bm * z,
    ;
    assert(f > 0) by (nonlinear_arith)
        requires
            f == bm * z,
            bm > 0,
            z > 0,
    ;
    lemma_little_less(e, f, t);
    assert(t * f == bm * (y * q)) by (nonlinear_arith)
        requires
            f == bm * z,
            y * q == t * z,
    ;
    assert(20 * pm > 1999 * q) by (nonlinear_arith)
        requires
            20 * e > 1999 * (bm * (y * q)),
            e == (pm * bm) * y,
            bm > 0,
            y > 0,
    ;
    assert(p.m * 1 == p.m);
    let (w, r) = ((10 * pm) / q, (10 * pm) % q);
    vstd::arithmetic::div_mod::lemma_fundamental_div_mod(10 * pm, q);
    assert(0 <= r < q && w >= 999 && (w == 999 ==> 2 * r > q)) by (nonlinear_arith)
        requires
            r == (10 * pm) % q,
            10 * pm == q * w + r,
            q > 0,
            20 * pm > 1999 * q,
    ;
}

proof fn lemma_little_more(e: int, f: int, g: int, t: int)
    requires
        t == 70_368_744_177_664,
        f > 0,
        (DIGITS_53 * DIGITS_53) * e <= ((DIGITS_53 + 1) * (DIGITS_53 + 1)) * (HUNDRED_M * f),
        (DIGITS_53 - 1) * f <= DIGITS_53 * g,
    ensures
        20 * e <= 2001 * (t * g),
{
    assert(81129638414606681695789005144064 * e <= 81129638414606699710187514626049 * (7_036_874_417_766_400 * f)) by {
        assert(DIGITS_53 * DIGITS_53 == 81129638414606681695789005144064);
        assert((DIGITS_53 + 1) * (DIGITS_53 + 1) == 81129638414606699710187514626049)
            by (nonlinear_arith);
    }
    assert(9_007_199_254_740_991 * f <= 9_007_199_254_740_992 * g);
}

proof fn lemma_little_less(e: int, f: int, t: int)
    requires
        f > 0,
        t == 70_368_744_177_664,
        (DIGITS_53 * DIGITS_53) * e >= ((DIGITS_53 - 1) * (DIGITS_53 - 1)) * (HUNDRED_M * f),
    ensures
        20 * e > 1999 * (t * f),
{
    assert(81129638414606681695789005144064 * e >= 81129638414606663681390495662081 * (7_036_874_417_766_400 * f)) by {
        assert(DIGITS_53 * DIGITS_53 == 81129638414606681695789005144064);
        assert((DIGITS_53 - 1) * (DIGITS_53 - 1) == 81129638414606663681390495662081)
            by (nonlinear_arith);
    }
}

proof fn lemma_tenths(n: int, q: int)
    requires
        q > 0,
        0 <= 2 * n <= 2001 * q,
    ensures
        0 <= nearest(n, q) <= 1000,
{
    let (w, r) = (n / q, n % q);
    vstd::arithmetic::div_mod::lemma_fundamental_div_mod(n, q);
    assert(0 <= r < q && 0 <= w <= 1000 && (w == 1000 ==> 2 * r <= q)) by (nonlinear_arith)
        requires
            r == n % q,
            n == q * w + r,
            q > 0,
            0 <= 2 * n <= 2001 * q,
    ;
}

proof fn lemma_share_bound(
    b: int,
    all: int,
    v: int,
    p: int,
    x: int,
    y: int,
    z: int,
    q: int,
    t: int,
)
    requires
        b > 0,
        all > 0,
        v > 0,
        p > 0,
        x > 0,
        y > 0,
        z > 0,
        q >= 0,
        t == 70_368_744_177_664,
        y * q == (t * x) * z,
        DIGITS_53 * (all * x) >= (DIGITS_53 - 1) * b,
        DIGITS_53 * (v * y) <= (DIGITS_53 + 1) * (HUNDRED_M * b),
        DIGITS_53 * (p * all) <= (DIGITS_53 + 1) * (v * z),
    ensures
        20 * p <= 2001 * q,
        q > 0,
{
    let d: int = 9_007_199_254_740_992;
    let a = all * x;
    assert((d * d) * ((p * all) * y) <= ((d + 1) * (d + 1)) * ((HUNDRED_M * b) * z))
        by (nonlinear_arith)
        requires
            d * (p * all) <= (d + 1) * (v * z),
            d * (v * y) <= (d + 1) * (HUNDRED_M * b),
            d > 0,
            y > 0,
            z > 0,
    ;
    assert((d - 1) * (b * z) <= d * (a * z)) by (nonlinear_arith)
        requires
            d * a >= (d - 1) * b,
            z > 0,
    ;
    let (f, g) = (b * z, a * z);
    assert(f > 0) by (nonlinear_arith)
        requires
            f == b * z,
            b > 0,
            z > 0,
    ;
    assert((HUNDRED_M * b) * z == HUNDRED_M * f) by (nonlinear_arith)
        requires
            f == b * z,
    ;
    let e = (p * all) * y;
    lemma_little_more(e, f, g, t);
    assert(t * g == all * (y * q)) by (nonlinear_arith)
        requires
            g == (all * x) * z,
            y * q == (t * x) * z,
    ;
    assert(20 * p <= 2001 * q) by (nonlinear_arith)
        requires
            20 * e <= 2001 * (all * (y * q)),
            e == (p * all) * y,
            all > 0,
            y > 0,
    ;
}

/// A share is between nothing and all of it: nothing where nothing was refused,
/// and all where nothing was taken.
pub proof fn law_shares_are_shares(s: Score)
    requires
        s.is_fair(),
    ensures
        0 <= s.percent_tenths() <= 1000,
        s.bad.m == 0 ==> s.percent_tenths() == 0 && s.outlier_tenths() == 0,
        s.good.m == 0 && s.bad.m > 0 ==> s.percent_tenths() == 1000,
{
    lemma_percent(s);
    if s.bad.m == 0 {
        let z = Double::zero();
        assert(0 * TEN_M == 0);
        assert(z.times(Double::ten()) == z);
        assert(z.in_parts(10) == 0) by {
            assert(nearest(0, 1) == 0);
        }
        assert(0 * z.raise() == 0);
        lemma_whole_stays(0);
    }
}

/// A count above the bottom keeps its digits when it fades to a quarter.
proof fn lemma_fourth(x: Double)
    requires
        x.is_count(),
        can_fade(x),
    ensures
        x.faded(Double::quarter()) == fourth(x),
{
    let q = Double::quarter();
    if x.m == 0 {
        lemma_nothing_fades(q);
    } else {
        lemma_times(x, q);
        lemma_power_digits(x.m as int);
    }
}

/// Fading leaves the shares as they are, as long as neither count reaches the
/// bottom of what a double holds.
pub proof fn law_fading_keeps_the_share(s: Score)
    requires
        s.is_fair(),
        can_fade(s.good),
        can_fade(s.bad),
    ensures
        s.quarter().percent() == s.percent(),
        s.quarter().percent_tenths() == s.percent_tenths(),
        s.quarter().outlier_tenths() == s.outlier_tenths(),
        s.quarter().is_fair(),
{
    let t = s.quarter();
    lemma_fourth(s.good);
    lemma_fourth(s.bad);
    lemma_score_stays_fair(s);
    if t != s {
        let (all, less) = (s.good.plus(s.bad), t.good.plus(t.bad));
        lemma_plus(s.good, s.bad);
        lemma_plus(t.good, t.bad);
        if s.good.m > 0 && s.bad.m > 0 {
            assert(t.good.together(t.bad) == s.good.together(s.bad));
        }
        assert(less == fourth(all));
        let h = Double::hundred();
        if s.bad.m > 0 {
            lemma_times(h, s.bad);
            lemma_times(h, t.bad);
            assert(h.times(t.bad) == fourth(h.times(s.bad)));
            lemma_over(h.times(s.bad), all);
            lemma_over(h.times(t.bad), less);
        } else {
            assert(h.m * 0 == 0);
        }
    }
}


/// A tally fades to four fifths, to a few parts in 2^53.
pub proof fn law_tallies_fade_by_a_fifth(t: Tally)
    requires
        t.is_fair(),
        t.n.m > 0,
        t.n.e >= -1000,
    ensures
        ({
            let u = t.four_fifths().n;
            let got = u.m * pow2((u.e - t.n.e + 53) as nat);
            &&& u.e >= t.n.e - 53
            &&& -7 * t.n.m <= 5 * got - 4 * (t.n.m * 9_007_199_254_740_992) <= 7 * t.n.m
        }),
{
    let f = Double::four_fifths();
    lemma_times(t.n, f);
    let u = t.n.times(f);
    assert(t.four_fifths().n == u);
    let got = u.m * pow2((u.e - t.n.e + 53) as nat);
    let m = t.n.m as int;
    assert((t.n.m * f.m) as int == m * 7_205_759_403_792_794);
    assert(9_007_199_254_740_992 * got <= 9_007_199_254_740_993 * (m * 7_205_759_403_792_794));
    assert(9_007_199_254_740_992 * got >= 9_007_199_254_740_991 * (m * 7_205_759_403_792_794));
}

/// Every read fades both counts of a score to a quarter, exactly, as long as
/// they are above the bottom of what a double holds: the digits stay, and the
/// exponent falls by two.
pub proof fn law_scores_fade_to_a_quarter(s: Score)
    requires
        s.is_fair(),
    ensures
        s.good.m == 0 ==> s.quarter().good.m == 0,
        s.bad.m == 0 ==> s.quarter().bad.m == 0,
        s.good.m > 0 && s.good.e >= -1072 ==> s.quarter().good.m == s.good.m
            && s.quarter().good.e == s.good.e - 2,
        s.bad.m > 0 && s.bad.e >= -1072 ==> s.quarter().bad.m == s.bad.m && s.quarter().bad.e
            == s.bad.e - 2,
{
    if can_fade(s.good) {
        lemma_fourth(s.good);
    }
    if can_fade(s.bad) {
        lemma_fourth(s.bad);
    }
}

/// The share that is told is that of the refused among all, to little more than
/// half a tenth of a percent.
pub proof fn law_shares_are_near(s: Score)
    requires
        s.is_fair(),
        s.good.m > 0,
        s.bad.m > 0,
    ensures
        ({
            let low = if s.good.e < s.bad.e {
                s.good.e
            } else {
                s.bad.e
            };
            let good = s.good.m * pow2((s.good.e - low) as nat);
            let bad = s.bad.m * pow2((s.bad.e - low) as nat);
            let all = good + bad;
            -101 * all <= 100 * (2 * (s.percent_tenths() * all) - 2000 * bad) <= 101 * all
        }),
{
    let (g, b) = (s.good, s.bad);
    let all = g.plus(b);
    let h = Double::hundred();
    let v = h.times(b);
    let p = s.percent();
    lemma_plus(g, b);
    lemma_times(h, b);
    lemma_over(v, all);
    lemma_percent(s);
    lemma_share(b, all, v, p);
    let low = g.low(b);
    let (i, j, k, l) = (
        (all.e - b.e) as nat,
        (v.e + 46 - b.e) as nat,
        (v.e - all.e - p.e) as nat,
        (b.e - low) as nat,
    );
    let (x, y, z, a) = (pow2(i) as int, pow2(j) as int, pow2(k) as int, pow2(l) as int);
    let q = pow2((-p.e) as nat) as int;
    lemma_pow2_pos(i);
    lemma_pow2_pos(j);
    lemma_pow2_pos(k);
    lemma_pow2_pos(l);
    lemma_pow2_pos((-p.e) as nat);
    lemma_pow2_pos((g.e - low) as nat);
    lemma2_to64_rest();
    lemma_pow2_adds(j, (-p.e) as nat);
    lemma_pow2_adds(46, i);
    lemma_pow2_adds(46 + i, k);
    lemma_pow2_adds(i, l);
    let t = pow2(46) as int;
    let total = g.together(b);
    let part = b.m * a;
    let (bm, am, vm, pm) = (b.m as int, all.m as int, v.m as int, p.m as int);
    lemma_ratio(bm, am, vm, pm, x, y, z, q, t);
    assert(pow2((all.e - low) as nat) == x * a);
    let other = g.m * pow2((g.e - low) as nat);
    assert(other >= 0) by (nonlinear_arith)
        requires
            other == g.m * pow2((g.e - low) as nat),
            g.m >= 0,
    ;
    assert(total == other + part);
    assert(part >= 0) by (nonlinear_arith)
        requires
            part == bm * a,
            bm >= 0,
            a >= 0,
    ;
    lemma_ratio_of_sum(bm, am, pm, x, q, a, total, part);
    assert(p.m * 1 == p.m);
    assert(10 * (p.m * p.raise()) == 10 * p.m);
    let r = s.percent_tenths();
    crate::binary::lemma_nearest(10 * pm, q);
    assert(r == nearest(10 * pm, q));
    lemma_tenths_of_sum(pm, q, total, part, r);
}

proof fn lemma_ratio(
    b: int,
    all: int,
    v: int,
    p: int,
    x: int,
    y: int,
    z: int,
    q: int,
    t: int,
)
    requires
        b > 0,
        all > 0,
        v > 0,
        p > 0,
        x > 0,
        y > 0,
        z > 0,
        q > 0,
        t == 70_368_744_177_664,
        y * q == (t * x) * z,
        DIGITS_53 * (v * y) <= (DIGITS_53 + 1) * (HUNDRED_M * b),
        DIGITS_53 * (v * y) >= (DIGITS_53 - 1) * (HUNDRED_M * b),
        DIGITS_53 * (p * all) <= (DIGITS_53 + 1) * (v * z),
        DIGITS_53 * (p * all) >= (DIGITS_53 - 1) * (v * z),
    ensures
        (DIGITS_53 * DIGITS_53) * (p * (all * x)) <= ((DIGITS_53 + 1) * (DIGITS_53 + 1)) * (100 * (b
            * q)),
        (DIGITS_53 * DIGITS_53) * (p * (all * x)) >= ((DIGITS_53 - 1) * (DIGITS_53 - 1)) * (100 * (b
            * q)),
{
    let d: int = 9_007_199_254_740_992;
    assert((d * d) * ((p * all) * y) <= ((d + 1) * (d + 1)) * ((HUNDRED_M * b) * z))
        by (nonlinear_arith)
        requires
            d * (p * all) <= (d + 1) * (v * z),
            d * (v * y) <= (d + 1) * (HUNDRED_M * b),
            d > 0,
            y > 0,
            z > 0,
    ;
    assert((d * d) * ((p * all) * y) >= ((d - 1) * (d - 1)) * ((HUNDRED_M * b) * z))
        by (nonlinear_arith)
        requires
            d * (p * all) >= (d - 1) * (v * z),
            d * (v * y) >= (d - 1) * (HUNDRED_M * b),
            d > 1,
            y > 0,
            z > 0,
    ;
    let (m, n) = (p * (all * x), 100 * (b * q));
    let c = t * z;
    assert(c > 0) by (nonlinear_arith)
        requires
            c == t * z,
            t == 70_368_744_177_664,
            z > 0,
    ;
    assert(((p * all) * y) * q == m * c) by (nonlinear_arith)
        requires
            m == p * (all * x),
            c == t * z,
            y * q == (t * x) * z,
    ;
    assert(((HUNDRED_M * b) * z) * q == n * c) by (nonlinear_arith)
        requires
            n == 100 * (b * q),
            c == t * z,
            HUNDRED_M == 100 * t,
    ;
    lemma_scaled(d * d, (p * all) * y, (d + 1) * (d + 1), (HUNDRED_M * b) * z, q, m, n, c);
    lemma_scaled((d - 1) * (d - 1), (HUNDRED_M * b) * z, d * d, (p * all) * y, q, n, m, c);
    assert(d == DIGITS_53);
}

/// `a u <= b w` stays true when both sides are scaled and freed of a factor.
proof fn lemma_scaled(a: int, u: int, b: int, w: int, q: int, m: int, n: int, c: int)
    requires
        a * u <= b * w,
        q > 0,
        c > 0,
        u * q == m * c,
        w * q == n * c,
    ensures
        a * m <= b * n,
{
    assert((a * u) * q <= (b * w) * q) by (nonlinear_arith)
        requires
            a * u <= b * w,
            q > 0,
    ;
    assert((a * u) * q == (a * m) * c) by (nonlinear_arith)
        requires
            u * q == m * c,
    ;
    assert((b * w) * q == (b * n) * c) by (nonlinear_arith)
        requires
            w * q == n * c,
    ;
    let (f, g) = (a * m, b * n);
    assert(f <= g) by (nonlinear_arith)
        requires
            f * c <= g * c,
            c > 0,
    ;
}

proof fn lemma_ratio_of_sum(b: int, all: int, p: int, x: int, q: int, a: int, total: int, part: int)
    requires
        b > 0,
        all > 0,
        p > 0,
        x > 0,
        q > 0,
        a > 0,
        part == b * a,
        part <= total,
        (DIGITS_53 * DIGITS_53) * (p * (all * x)) <= ((DIGITS_53 + 1) * (DIGITS_53 + 1)) * (100 * (b
            * q)),
        (DIGITS_53 * DIGITS_53) * (p * (all * x)) >= ((DIGITS_53 - 1) * (DIGITS_53 - 1)) * (100 * (b
            * q)),
        DIGITS_53 * (all * (x * a)) <= (DIGITS_53 + 1) * total,
        DIGITS_53 * (all * (x * a)) >= (DIGITS_53 - 1) * total,
    ensures
        1_000_000 * (p * total) <= 100_000_100 * (part * q),
        1_000_000 * (p * total) >= 99_999_900 * (part * q),
{
    let d: int = 9_007_199_254_740_992;
    let w = all * (x * a);
    let (m, n) = (p * w, part * q);
    assert(n > 0 && m > 0) by (nonlinear_arith)
        requires
            n == (b * a) * q,
            m == p * (all * (x * a)),
            b > 0,
            a > 0,
            q > 0,
            p > 0,
            all > 0,
            x > 0,
    ;
    assert(a * (p * (all * x)) == m) by (nonlinear_arith)
        requires
            m == p * (all * (x * a)),
    ;
    assert(a * (100 * (b * q)) == 100 * n) by (nonlinear_arith)
        requires
            n == (b * a) * q,
    ;
    lemma_times_factor(d * d, p * (all * x), (d + 1) * (d + 1), 100 * (b * q), a);
    lemma_times_factor((d - 1) * (d - 1), 100 * (b * q), d * d, p * (all * x), a);
    assert((d * d) * m <= ((d + 1) * (d + 1)) * (100 * n));
    assert((d * d) * m >= ((d - 1) * (d - 1)) * (100 * n));
    let e = p * total;
    assert(d * m <= (d + 1) * e && d * m >= (d - 1) * e) by (nonlinear_arith)
        requires
            m == p * w,
            e == p * total,
            d * w <= (d + 1) * total,
            d * w >= (d - 1) * total,
            p > 0,
    ;
    lemma_small_excess(e, m, n);
}

proof fn lemma_times_factor(a: int, u: int, b: int, w: int, k: int)
    requires
        a * u <= b * w,
        k > 0,
    ensures
        a * (k * u) <= b * (k * w),
{
    assert(a * (k * u) <= b * (k * w)) by (nonlinear_arith)
        requires
            a * u <= b * w,
            k > 0,
    ;
}

proof fn lemma_small_excess(e: int, m: int, n: int)
    requires
        n > 0,
        m > 0,
        (DIGITS_53 * DIGITS_53) * m <= ((DIGITS_53 + 1) * (DIGITS_53 + 1)) * (100 * n),
        (DIGITS_53 * DIGITS_53) * m >= ((DIGITS_53 - 1) * (DIGITS_53 - 1)) * (100 * n),
        DIGITS_53 * m <= (DIGITS_53 + 1) * e,
        DIGITS_53 * m >= (DIGITS_53 - 1) * e,
    ensures
        1_000_000 * e <= 100_000_100 * n,
        1_000_000 * e >= 99_999_900 * n,
{
    assert(81129638414606681695789005144064 * m <= 81129638414606699710187514626049 * (100 * n)) by {
        assert(DIGITS_53 * DIGITS_53 == 81129638414606681695789005144064);
        assert((DIGITS_53 + 1) * (DIGITS_53 + 1) == 81129638414606699710187514626049)
            by (nonlinear_arith);
    }
    assert(81129638414606681695789005144064 * m >= 81129638414606663681390495662081 * (100 * n)) by {
        assert(DIGITS_53 * DIGITS_53 == 81129638414606681695789005144064);
        assert((DIGITS_53 - 1) * (DIGITS_53 - 1) == 81129638414606663681390495662081)
            by (nonlinear_arith);
    }
    assert(9_007_199_254_740_992 * m <= 9_007_199_254_740_993 * e);
    assert(9_007_199_254_740_992 * m >= 9_007_199_254_740_991 * e);
}

proof fn lemma_tenths_of_sum(p: int, q: int, total: int, part: int, r: int)
    requires
        q > 0,
        0 <= part <= total,
        -q <= 2 * (r * q - 10 * p) <= q,
        1_000_000 * (p * total) <= 100_000_100 * (part * q),
        1_000_000 * (p * total) >= 99_999_900 * (part * q),
    ensures
        -101 * total <= 100 * (2 * (r * total) - 2000 * part) <= 101 * total,
{
    let (f, g, h) = (p * total, part * q, q * total);
    let u = (r * total) * q;
    assert(-h <= 2 * u - 20 * f <= h) by (nonlinear_arith)
        requires
            -q <= 2 * (r * q - 10 * p) <= q,
            u == (r * total) * q,
            f == p * total,
            h == q * total,
            total >= 0,
    ;
    assert(0 <= g <= h) by (nonlinear_arith)
        requires
            g == part * q,
            h == q * total,
            0 <= part <= total,
            q > 0,
    ;
    assert(-101 * h <= 100 * (2 * u - 2000 * g) <= 101 * h);
    let w = 100 * (2 * (r * total) - 2000 * part);
    assert(w * q == 100 * (2 * u - 2000 * g)) by (nonlinear_arith)
        requires
            w == 100 * (2 * (r * total) - 2000 * part),
            u == (r * total) * q,
            g == part * q,
    ;
    assert(-101 * total <= w <= 101 * total) by (nonlinear_arith)
        requires
            -101 * (q * total) <= w * q <= 101 * (q * total),
            q > 0,
    ;
}


/// How sync observations are told: their sum to the nearest whole number, and
/// the refused ones as tenths of a percent of that number and a hundredth; and
/// the share of a receiver to the nearest tenth of a percent. Nothing refused is
/// told as nothing.
pub proof fn law_how_counts_are_told(good: Tally, bad: Tally, s: Score)
    requires
        good.is_fair(),
        bad.is_fair(),
        s.is_fair(),
    ensures
        sync_count(good, bad) == good.n.plus(bad.n).whole(),
        sync_bad_tenths(good, bad) == Double::of(1000, 1).times(bad.n).over(
            Double::of(good.n.plus(bad.n).whole() as int, 1).plus(Double::of(1, 100)),
        ).whole(),
        bad.n.m == 0 ==> sync_bad_tenths(good, bad) == 0,
        s.outlier_tenths() == s.percent().times(Double::of(10, 1)).whole(),
        s.good.plus(s.bad).m > 0 ==> s.percent() == Double::of(100, 1).times(s.bad).over(
            s.good.plus(s.bad),
        ),
        s.good.plus(s.bad).m == 0 ==> s.percent_tenths() == 0,
{
    crate::binary::law_constants_are_what_they_say();
    let z = Double::zero();
    assert(0 * z.raise() == 0);
    lemma_whole_stays(0);
    assert(nearest(0, 1) == 0);
    if bad.n.m == 0 {
        let t = Double::thousand();
        assert(t.m * 0 == 0);
        assert(t.times(bad.n) == z);
        let c = Double::of(good.n.plus(bad.n).whole() as int, 1).plus(Double::hundredth());
        assert(z.over(c) == z);
    }
}

} // verus!
