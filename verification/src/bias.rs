//! What a receiver's solve residuals say of its clock.

use vstd::prelude::*;
use crate::clock::{lag, later, multiplied};
#[allow(unused_imports)]
use crate::clock::clip;

verus! {

/// Attoseconds in a femtosecond. What is learned is a small part of each
/// residual, so it is kept this much finer.
pub const FEMTO_AS: i128 = 1000;

/// Scatter above which a receiver is left out of solves: 1.5 microseconds.
pub const QUARANTINE_MAD_AS: i128 = 1_500_000_000_000;

/// Residuals that a receiver needs before its scatter counts.
pub const QUARANTINE_MIN_N: u32 = 30;

/// Residuals that train at the fast rate.
pub const FAST_N: u32 = 50;

/// The learned systematic timing bias of one receiver, in attoseconds.
///
/// Wrong coordinates, cable delay and altitude error all show as a stable
/// signed residual. A slow average over well-observed solves learns it.
#[derive(Clone, Copy, PartialEq, Eq, Debug, Structural)]
pub struct RxBias {
    pub bias_as: i128,
    /// Average distance of a residual from the bias.
    pub mad_as: i128,
    pub n: u32,
}

/// What is learned of a residual: one part in ten at first, then in fifty.
pub open spec fn rate(n: u32) -> i128 {
    if n < FAST_N {
        10
    } else {
        50
    }
}

/// What is learned of a residual of one femtosecond, in attoseconds.
pub open spec fn gain(n: u32) -> i128 {
    if n < FAST_N {
        100
    } else {
        20
    }
}

/// How far `a` lies from `b`.
pub open spec fn apart(a: i128, b: i128) -> i128 {
    if a >= b {
        clip(a - b)
    } else {
        clip(b - a)
    }
}

/// The whole number nearest to `n / d`; halfway, the one farther from zero.
pub open spec fn rounded(n: int, d: int) -> int
    recommends
        d > 0,
{
    if n >= 0 {
        (2 * n + d) / (2 * d)
    } else {
        -((d - 2 * n) / (2 * d))
    }
}

impl RxBias {
    /// Nothing learned.
    pub open spec fn fresh() -> RxBias {
        RxBias { bias_as: 0, mad_as: 0, n: 0 }
    }

    /// The receiver scatters too much to be trusted.
    pub open spec fn quarantined(self) -> bool {
        self.n >= QUARANTINE_MIN_N && self.mad_as > QUARANTINE_MAD_AS
    }

    /// The bias in whole femtoseconds.
    pub open spec fn whole_fs(self) -> int {
        rounded(self.bias_as as int, FEMTO_AS as int)
    }

    /// The bias after one more residual, with the scatter left alone.
    pub open spec fn nudged(self, residual: i128) -> RxBias {
        RxBias {
            bias_as: clip(self.bias_as + clip(residual * gain(self.n))),
            mad_as: self.mad_as,
            n: if self.n == u32::MAX {
                0
            } else {
                (self.n + 1) as u32
            },
        }
    }

    /// The bias and the scatter after one more residual.
    pub open spec fn trained(self, residual: i128) -> RxBias {
        let b = self.nudged(residual);
        let off = apart(clip(residual * FEMTO_AS), b.bias_as);
        RxBias {
            mad_as: clip(
                self.mad_as + rounded(clip(off - self.mad_as) as int, rate(self.n) as int),
            ),
            ..b
        }
    }

    /// A residual lies within the line of the bias, once that has taken it in;
    /// the last 50 as below the line are left to rounding.
    pub open spec fn agrees(self, residual: i128) -> bool {
        apart(clip(residual * FEMTO_AS), self.nudged(residual).bias_as) <= QUARANTINE_MAD_AS - 50
    }

    /// The bias and the scatter after a list of residuals.
    pub open spec fn schooled(self, residuals: Seq<i128>) -> RxBias
        decreases residuals.len(),
    {
        if residuals.len() == 0 {
            self
        } else {
            self.schooled(residuals.drop_last()).trained(residuals.last())
        }
    }

    /// Nothing learned.
    pub fn new() -> (r: RxBias)
        ensures
            r == RxBias::fresh(),
    {
        RxBias { bias_as: 0, mad_as: 0, n: 0 }
    }

    /// Whether the receiver scatters too much to be trusted.
    pub fn is_quarantined(&self) -> (r: bool)
        ensures
            r == self.quarantined(),
    {
        self.n >= QUARANTINE_MIN_N && self.mad_as > QUARANTINE_MAD_AS
    }

    /// The bias in whole femtoseconds.
    pub fn in_fs(&self) -> (r: i128)
        ensures
            r == self.whole_fs(),
    {
        round_off(self.bias_as, FEMTO_AS)
    }

    /// Learns the bias from one residual.
    pub fn nudge(&self, residual: i128) -> (r: RxBias)
        ensures
            r == self.nudged(residual),
    {
        let gain: i128 = if self.n < FAST_N {
            100
        } else {
            20
        };
        RxBias {
            bias_as: later(self.bias_as, multiplied(residual, gain)),
            mad_as: self.mad_as,
            n: self.n.wrapping_add(1),
        }
    }

    /// Learns the bias and the scatter from one residual.
    pub fn train(&self, residual: i128) -> (r: RxBias)
        ensures
            r == self.trained(residual),
    {
        let b = self.nudge(residual);
        let at: i128 = multiplied(residual, FEMTO_AS);
        let off: i128 = if at >= b.bias_as {
            lag(at, b.bias_as)
        } else {
            lag(b.bias_as, at)
        };
        let rate: i128 = if self.n < FAST_N {
            10
        } else {
            50
        };
        RxBias {
            bias_as: b.bias_as,
            mad_as: later(self.mad_as, round_off(lag(off, self.mad_as), rate)),
            n: b.n,
        }
    }
}

fn round_size(m: u128, d: u128) -> (r: u128)
    requires
        2 <= d <= 0x1_0000_0000_0000_0000_0000_0000,
        m <= 0x8000_0000_0000_0000_0000_0000_0000_0000,
    ensures
        r == (2 * m + d) / (2 * d as int),
        r <= m,
        r <= i128::MAX || m > i128::MAX,
        m > i128::MAX ==> r <= m / 2 + 1,
{
    let q: u128 = m / d;
    let over: u128 = m % d;
    proof {
        lemma_rounding(m as int, d as int);
        lemma_rounded_within(m as int, d as int);
    }
    if 2 * over >= d {
        q + 1
    } else {
        q
    }
}

/// A rounded part of a number lies between zero and the number.
pub proof fn lemma_rounded_within(n: int, d: int)
    requires
        n >= 0,
        d >= 2,
    ensures
        0 <= rounded(n, d) <= n,
        rounded(n, d) <= n / 2 + 1,
{
    lemma_rounding(n, d);
    let (q, r) = (n / d, n % d);
    assert(0 <= q <= n / 2) by (nonlinear_arith)
        requires
            q == n / d,
            d >= 2,
            n >= 0,
    ;
    assert(n == 0 ==> r == 0) by (nonlinear_arith)
        requires
            r == n % d,
            d >= 2,
    ;
}

proof fn lemma_rounding(m: int, d: int)
    requires
        m >= 0,
        d > 0,
    ensures
        (2 * m + d) / (2 * d) == m / d + if 2 * (m % d) >= d {
            1int
        } else {
            0
        },
        0 <= m % d < d,
{
    let (q, r) = (m / d, m % d);
    vstd::arithmetic::div_mod::lemma_fundamental_div_mod(m, d);
    assert(0 <= r < d) by (nonlinear_arith)
        requires
            r == m % d,
            d > 0,
    ;
    if 2 * r >= d {
        assert(2 * m + d == (2 * d) * (q + 1) + (2 * r - d)) by (nonlinear_arith)
            requires
                m == d * q + r,
        ;
        vstd::arithmetic::div_mod::lemma_fundamental_div_mod_converse(
            2 * m + d,
            2 * d,
            q + 1,
            2 * r - d,
        );
    } else {
        assert(2 * m + d == (2 * d) * q + (2 * r + d)) by (nonlinear_arith)
            requires
                m == d * q + r,
        ;
        vstd::arithmetic::div_mod::lemma_fundamental_div_mod_converse(
            2 * m + d,
            2 * d,
            q,
            2 * r + d,
        );
    }
}

/// The whole number nearest to `n / d`; halfway, the one farther from zero.
pub fn round_off(n: i128, d: i128) -> (r: i128)
    requires
        2 <= d <= 0x1_0000_0000_0000_0000_0000_0000,
    ensures
        r == rounded(n as int, d as int),
        n >= 0 ==> 0 <= r <= n,
        n <= 0 ==> n <= r <= 0,
{
    if n >= 0 {
        round_size(n as u128, d as u128) as i128
    } else {
        let m: u128 = (-(n + 1)) as u128 + 1;
        -(round_size(m, d as u128) as i128)
    }
}

/// A rounded quotient is within a half of the quotient.
pub proof fn lemma_rounded_near(n: int, d: int)
    requires
        d > 0,
    ensures
        -d <= 2 * (d * rounded(n, d) - n) <= d,
        n >= 0 ==> rounded(n, d) >= 0,
        n <= 0 ==> rounded(n, d) <= 0,
{
    let m = if n >= 0 { n } else { -n };
    lemma_rounding(m, d);
    let (q, r) = (m / d, m % d);
    let w = (2 * m + d) / (2 * d);
    vstd::arithmetic::div_mod::lemma_fundamental_div_mod(m, d);
    assert(-d <= 2 * (d * w - m) <= d && w >= 0) by (nonlinear_arith)
        requires
            w == q + (if 2 * r >= d { 1int } else { 0 }),
            m == d * q + r,
            0 <= r < d,
            m >= 0,
            d > 0,
    ;
    assert(d * (-w) == -(d * w)) by (nonlinear_arith);
}

/// A receiver with few residuals is trusted whatever its scatter.
pub proof fn law_few_residuals_are_trusted(b: RxBias)
    requires
        b.n < QUARANTINE_MIN_N,
    ensures
        !b.quarantined(),
{
}

/// Learning the bias alone never puts a receiver out for its scatter: only a
/// receiver whose scatter was over the line already can be put out by it.
pub proof fn law_nudging_keeps_the_scatter(b: RxBias, residual: i128)
    ensures
        b.nudged(residual).quarantined() ==> b.mad_as > QUARANTINE_MAD_AS,
{
}

/// Residuals that cancel leave no trace in the bias.
pub proof fn law_opposite_residuals_cancel(b: RxBias, residual: i128)
    requires
        b.n + 1 < FAST_N || FAST_N <= b.n,
        b.n < u32::MAX,
        -0x1_0000_0000_0000_0000 <= residual <= 0x1_0000_0000_0000_0000,
        -0x1_0000_0000_0000_0000 <= b.bias_as <= 0x1_0000_0000_0000_0000,
    ensures
        b.nudged(residual).nudged((-residual) as i128).bias_as == b.bias_as,
{
    let (r, g) = (residual as int, gain(b.n) as int);
    assert(gain(b.nudged(residual).n) == g);
    assert((-r) * g == -(r * g)) by (nonlinear_arith);
    assert(-0x80_0000_0000_0000_0000 <= r * g <= 0x80_0000_0000_0000_0000) by (nonlinear_arith)
        requires
            -0x1_0000_0000_0000_0000 <= r <= 0x1_0000_0000_0000_0000,
            g == 100 || g == 20,
    ;
}

/// While a receiver is left out, every residual within the line of its bias
/// lowers its scatter.
pub proof fn law_agreement_lowers_the_scatter(b: RxBias, residual: i128)
    requires
        b.quarantined(),
        b.agrees(residual),
    ensures
        b.trained(residual).mad_as < b.mad_as,
{
    let off = apart(clip(residual * FEMTO_AS), b.nudged(residual).bias_as);
    let k = rate(b.n) as int;
    let gap = b.mad_as - off;
    assert(clip(off - b.mad_as) == -gap);
    assert(0 < (k + 2 * gap) / (2 * k) <= gap) by (nonlinear_arith)
        requires
            gap > 50,
            k == 10 || k == 50,
    ;
}

/// A receiver that was left out comes back: as long as it is trained on
/// residuals within the line of its bias, there is a moment at which it is
/// trusted again.
pub proof fn law_a_recovered_receiver_returns(b: RxBias, residuals: Seq<i128>)
    requires
        forall|i: int|
            0 <= i < residuals.len() ==> b.schooled(residuals.take(i)).agrees(
                #[trigger] residuals[i],
            ),
        residuals.len() >= b.mad_as - QUARANTINE_MAD_AS,
    ensures
        exists|i: int|
            0 <= i <= residuals.len() && !(#[trigger] b.schooled(
                residuals.take(i),
            )).quarantined(),
{
    if forall|i: int|
        0 <= i <= residuals.len() ==> (#[trigger] b.schooled(residuals.take(i))).quarantined() {
        lemma_schooled(b, residuals, residuals.len());
        let n = residuals.len() as int;
        assert(b.schooled(residuals.take(n)).quarantined());
        assert(b.schooled(residuals.take(0)).quarantined());
    }
}

proof fn lemma_schooled(b: RxBias, residuals: Seq<i128>, n: nat)
    requires
        n <= residuals.len(),
        forall|i: int|
            0 <= i < residuals.len() ==> b.schooled(residuals.take(i)).agrees(
                #[trigger] residuals[i],
            ),
        forall|i: int|
            0 <= i <= residuals.len() ==> (#[trigger] b.schooled(
                residuals.take(i),
            )).quarantined(),
    ensures
        b.schooled(residuals.take(n as int)).mad_as <= b.mad_as - n,
    decreases n,
{
    if n > 0 {
        lemma_schooled(b, residuals, (n - 1) as nat);
        let upto = residuals.take(n as int);
        assert(upto.drop_last() =~= residuals.take(n - 1));
        assert(upto.last() == residuals[n - 1]);
        law_agreement_lowers_the_scatter(b.schooled(residuals.take(n - 1)), residuals[n - 1]);
    }
}


/// A residual moves the bias by a tenth of itself, and by a fiftieth once there
/// were fifty; the scatter stays, or moves as much of the way to the residual's
/// distance from the new bias, to half an attosecond. Each one is counted.
pub proof fn law_residuals_teach_a_share(b: RxBias, residual: i128)
    requires
        -0x1_0000_0000_0000_0000_0000 <= residual <= 0x1_0000_0000_0000_0000_0000,
        -0x1_0000_0000_0000_0000_0000_0000 <= b.bias_as <= 0x1_0000_0000_0000_0000_0000_0000,
        0 <= b.mad_as <= 0x1_0000_0000_0000_0000_0000_0000,
        b.n < u32::MAX,
    ensures
        ({
            let (p, q) = (b.nudged(residual), b.trained(residual));
            let k: int = if b.n < 50 {
                10
            } else {
                50
            };
            let away = 1000 * residual - p.bias_as;
            let off = if away >= 0 {
                away
            } else {
                -away
            };
            &&& k * (p.bias_as - b.bias_as) == 1000 * residual
            &&& p.mad_as == b.mad_as
            &&& p.n == b.n + 1
            &&& q.bias_as == p.bias_as
            &&& q.n == b.n + 1
            &&& -k <= 2 * (k * (q.mad_as - b.mad_as) - (off - b.mad_as)) <= k
        }),
{
    let k = rate(b.n) as int;
    let p = b.nudged(residual);
    if b.n < 50 {
        assert(residual * gain(b.n) == residual * 100);
        assert(p.bias_as == b.bias_as + 100 * residual);
    } else {
        assert(residual * gain(b.n) == residual * 20);
        assert(p.bias_as == b.bias_as + 20 * residual);
    }
    assert(clip(residual * FEMTO_AS) == 1000 * residual);
    let off = apart(clip(residual * FEMTO_AS), p.bias_as);
    lemma_rounded_near(off - b.mad_as, k);
    let m = rounded(off - b.mad_as, k);
    assert(-0x1000_0000_0000_0000_0000_0000_0000 <= m <= 0x1000_0000_0000_0000_0000_0000_0000)
        by (nonlinear_arith)
        requires
            -k <= 2 * (k * m - (off - b.mad_as)) <= k,
            k == 10 || k == 50,
            -0x100_0000_0000_0000_0000_0000_0000 <= off - b.mad_as
                <= 0x100_0000_0000_0000_0000_0000_0000,
    ;
    assert(clip(off - b.mad_as) == off - b.mad_as);
    assert(b.trained(residual).mad_as == b.mad_as + m);
    assert(k * (b.trained(residual).mad_as - b.mad_as) == k * m);
}

/// A receiver is out with thirty residuals or more and a scatter of more than
/// 1.5 microseconds, and only so; its bias in femtoseconds is the nearest whole
/// number.
pub proof fn law_when_a_receiver_is_out(b: RxBias)
    ensures
        b.quarantined() <==> b.n >= 30 && b.mad_as > 1_500_000_000_000,
        -500 <= 1000 * b.whole_fs() - b.bias_as <= 500,
        !RxBias::fresh().quarantined(),
        RxBias::fresh().bias_as == 0,
        RxBias::fresh().n == 0,
{
    lemma_rounded_near(b.bias_as as int, 1000);
}

} // verus!
