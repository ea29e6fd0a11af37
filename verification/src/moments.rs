//! The date and the time of a stamp as SBS rows carry them, from 1970 to the
//! end of the year 9999.

use vstd::prelude::*;
#[allow(unused_imports)]
use crate::calendar::{
    clock_text, date_at, date_text, day_number, days_before_year, is_date_of, is_leap,
    law_dates_follow_days, lemma_has_date, over_millis, whole_days, whole_seconds, Date, DAY_S,
    EPOCH_YEAR, MILLI_FS,
};
#[allow(unused_imports)]
use crate::clock::SECOND_FS;
#[allow(unused_imports)]
use crate::order::{
    law_numbers_in_order, law_numbers_read_back, lemma_precedes_within, precedes, span, spelled,
};
#[allow(unused_imports)]
use crate::text::{digits, padded_digits, size, stamp_text, thousandths};
#[allow(unused_imports)]
use crate::binary::{law_thousandths_are_near, Double};
#[allow(unused_imports)]
use crate::order::law_decimals_read_back;

verus! {

/// The first second of the year 10000.
pub const YEAR_10000_S: i64 = 253_402_300_800;

/// A stamp that has a year of four digits, not before 1970.
pub open spec fn in_era(stamp_fs: int) -> bool {
    0 <= stamp_fs < YEAR_10000_S * SECOND_FS
}

/// The milliseconds since 1970 that a date and a time spell.
pub open spec fn read_back(d: Seq<char>, t: Seq<char>) -> int {
    day_number(
        spelled(d.subrange(0, 4)),
        spelled(d.subrange(5, 7)),
        spelled(d.subrange(8, 10)),
    ) * 86_400_000 + spelled(t.subrange(0, 2)) * 3_600_000 + spelled(t.subrange(3, 5)) * 60_000
        + spelled(t.subrange(6, 8)) * 1000 + spelled(t.subrange(9, 12))
}

/// Leap days up to the end of year `y`.
spec fn leaps(y: int) -> int {
    y / 4 - y / 100 + y / 400
}

proof fn lemma_days_before(y: int)
    requires
        y >= EPOCH_YEAR,
    ensures
        days_before_year(y) == 365 * (y - EPOCH_YEAR) + leaps(y - 1) - leaps(EPOCH_YEAR - 1),
    decreases y,
{
    if y > EPOCH_YEAR {
        lemma_days_before(y - 1);
        let z = y - 1;
        lemma_leap_day(z);
    }
}

#[verifier::spinoff_prover]
proof fn lemma_leap_day(z: int)
    ensures
        leaps(z) == leaps(z - 1) + if is_leap(z) {
            1int
        } else {
            0
        },
{
    lemma_counts(z, 4);
    lemma_counts(z, 100);
    lemma_counts(z, 400);
}

proof fn lemma_counts(z: int, k: int)
    requires
        k == 4 || k == 100 || k == 400,
    ensures
        z / k == (z - 1) / k + if z % k == 0 {
            1int
        } else {
            0
        },
{
}

/// The parts of the date and the time of a stamp, as numbers.
struct Moment {
    date: Date,
    hour: int,
    minute: int,
    second: int,
    milli: int,
}

spec fn moment(stamp_fs: int) -> Moment {
    let secs = whole_seconds(stamp_fs) as int;
    let tod = secs % (DAY_S as int);
    Moment {
        date: date_at(whole_days(secs)),
        hour: tod / 3600,
        minute: (tod / 60) % 60,
        second: tod % 60,
        milli: over_millis(stamp_fs) as int,
    }
}

proof fn lemma_moment(stamp_fs: int)
    requires
        in_era(stamp_fs),
    ensures
        ({
            let m = moment(stamp_fs);
            &&& m.date.is_real()
            &&& EPOCH_YEAR <= m.date.year <= 9999
            &&& 0 <= m.hour < 24
            &&& 0 <= m.minute < 60
            &&& 0 <= m.second < 60
            &&& 0 <= m.milli < 1000
            &&& stamp_fs / (MILLI_FS as int) == m.date.number() * 86_400_000 + m.hour * 3_600_000
                + m.minute * 60_000 + m.second * 1000 + m.milli
        }),
{
    let secs = stamp_fs / (SECOND_FS as int);
    assert(0 <= secs < YEAR_10000_S);
    assert(whole_seconds(stamp_fs) == secs);
    let days = secs / 86_400;
    let d = lemma_has_date(days);
    assert(is_date_of(d, days));
    let m = moment(stamp_fs);
    assert(is_date_of(m.date, days));
    lemma_in_years(m.date);
    let tod = secs % 86_400;
    lemma_time_of_day(tod);
    let over = stamp_fs % 1_000_000_000_000_000;
    assert(stamp_fs == 1_000_000_000_000_000 * secs + over);
    assert(stamp_fs / 1_000_000_000_000 == 1000 * secs + over / 1_000_000_000_000);
    assert(m.milli == over / 1_000_000_000_000);
    assert(secs == 86_400 * days + tod);
}

proof fn lemma_time_of_day(tod: int)
    requires
        0 <= tod < 86_400,
    ensures
        tod == (tod / 3600) * 3600 + ((tod / 60) % 60) * 60 + tod % 60,
        0 <= tod / 3600 < 24,
        0 <= (tod / 60) % 60 < 60,
{
}

/// What comes first in time comes first in its greatest part that differs.
proof fn lemma_greatest_part(p: Moment, q: Moment)
    requires
        0 <= p.minute < 60,
        0 <= q.minute < 60,
        0 <= p.second < 60,
        0 <= q.second < 60,
        0 <= p.milli < 1000,
        0 <= q.milli < 1000,
        p.hour * 3_600_000 + p.minute * 60_000 + p.second * 1000 + p.milli < q.hour * 3_600_000
            + q.minute * 60_000 + q.second * 1000 + q.milli,
    ensures
        p.hour <= q.hour,
        p.hour == q.hour ==> p.minute <= q.minute,
        p.hour == q.hour && p.minute == q.minute ==> p.second <= q.second,
        p.hour == q.hour && p.minute == q.minute && p.second == q.second ==> p.milli < q.milli,
{
}

proof fn lemma_in_years(d: Date)
    requires
        d.is_real(),
        0 <= d.number() < 2_932_897,
    ensures
        EPOCH_YEAR <= d.year <= 9999,
{
    let first = Date { year: EPOCH_YEAR, month: 1, day: 1 };
    assert(first.number() == 0);
    law_dates_follow_days(d, first);
    let end = Date { year: 10_000, month: 1, day: 1 };
    lemma_days_before(10_000);
    assert(end.number() == 2_932_897);
    law_dates_follow_days(d, end);
}

/// The date of a stamp is a day that exists, and is written with ten
/// characters; the time is written with twelve; and together they give the
/// stamp back to the millisecond.
pub proof fn law_moments_read_back(stamp_fs: int)
    requires
        in_era(stamp_fs),
    ensures
        date_at(whole_days(whole_seconds(stamp_fs) as int)).is_real(),
        date_text(stamp_fs).len() == 10,
        clock_text(stamp_fs).len() == 12,
        read_back(date_text(stamp_fs), clock_text(stamp_fs)) == stamp_fs / (MILLI_FS as int),
{
    lemma_moment(stamp_fs);
    let m = moment(stamp_fs);
    let (y, mo, d) = (m.date.year as nat, m.date.month as nat, m.date.day as nat);
    lemma_spans();
    assert(m.date.day <= 31);
    law_numbers_read_back(y, 4);
    law_numbers_read_back(mo, 2);
    law_numbers_read_back(d, 2);
    law_numbers_read_back(m.hour as nat, 2);
    law_numbers_read_back(m.minute as nat, 2);
    law_numbers_read_back(m.second as nat, 2);
    law_numbers_read_back(m.milli as nat, 3);
    let dt = date_text(stamp_fs);
    let tt = clock_text(stamp_fs);
    assert(dt.subrange(0, 4) =~= padded_digits(y, 10, 4));
    assert(dt.subrange(5, 7) =~= padded_digits(mo, 10, 2));
    assert(dt.subrange(8, 10) =~= padded_digits(d, 10, 2));
    assert(tt.subrange(0, 2) =~= padded_digits(m.hour as nat, 10, 2));
    assert(tt.subrange(3, 5) =~= padded_digits(m.minute as nat, 10, 2));
    assert(tt.subrange(6, 8) =~= padded_digits(m.second as nat, 10, 2));
    assert(tt.subrange(9, 12) =~= padded_digits(m.milli as nat, 10, 3));
}

proof fn lemma_spans()
    ensures
        span(10, 2) == 100,
        span(10, 3) == 1000,
        span(10, 4) == 10_000,
{
    reveal_with_fuel(span, 5);
}

/// A later stamp has a date and a time that stand later in a dictionary, or,
/// within the same millisecond, the same ones.
pub proof fn law_moments_in_order(a: int, b: int)
    requires
        in_era(a),
        in_era(b),
        a <= b,
    ensures
        a / (MILLI_FS as int) == b / (MILLI_FS as int) ==> date_text(a) + clock_text(a)
            == date_text(b) + clock_text(b),
        a / (MILLI_FS as int) < b / (MILLI_FS as int) ==> precedes(
            date_text(a) + clock_text(a),
            date_text(b) + clock_text(b),
        ),
{
    lemma_moment(a);
    lemma_moment(b);
    law_moments_read_back(a);
    law_moments_read_back(b);
    let (p, q) = (moment(a), moment(b));
    let (x, y) = (a / (MILLI_FS as int), b / (MILLI_FS as int));
    assert(x <= y);
    assert(p.date.number() <= q.date.number()) by {
        lemma_day_of(p, x);
        lemma_day_of(q, y);
    }
    law_dates_follow_days(p.date, q.date);
    law_dates_follow_days(q.date, p.date);
    if p.date.number() < q.date.number() {
        lemma_dates_in_order(p.date, q.date);
        lemma_precedes_within(
            Seq::empty(),
            date_text(a),
            date_text(b),
            clock_text(a),
            clock_text(b),
        );
        assert(Seq::<char>::empty() + date_text(a) + clock_text(a) =~= date_text(a) + clock_text(
            a,
        ));
        assert(Seq::<char>::empty() + date_text(b) + clock_text(b) =~= date_text(b) + clock_text(
            b,
        ));
    } else if a / (MILLI_FS as int) < b / (MILLI_FS as int) {
        assert(p.date == q.date);
        lemma_times_in_order(a, b);
        lemma_precedes_within(
            date_text(a),
            clock_text(a),
            clock_text(b),
            Seq::empty(),
            Seq::empty(),
        );
        assert(date_text(a) + clock_text(a) + Seq::<char>::empty() =~= date_text(a) + clock_text(
            a,
        ));
        assert(date_text(a) + clock_text(b) + Seq::<char>::empty() =~= date_text(b) + clock_text(
            b,
        ));
    } else {
        assert(p.date == q.date);
        lemma_same_part(p, q);
    }
}

proof fn lemma_day_of(p: Moment, ms: int)
    requires
        0 <= p.hour < 24,
        0 <= p.minute < 60,
        0 <= p.second < 60,
        0 <= p.milli < 1000,
        ms == p.date.number() * 86_400_000 + p.hour * 3_600_000 + p.minute * 60_000 + p.second
            * 1000 + p.milli,
    ensures
        p.date.number() == ms / 86_400_000,
{
}

proof fn lemma_same_part(p: Moment, q: Moment)
    requires
        0 <= p.minute < 60,
        0 <= q.minute < 60,
        0 <= p.second < 60,
        0 <= q.second < 60,
        0 <= p.milli < 1000,
        0 <= q.milli < 1000,
        p.hour * 3_600_000 + p.minute * 60_000 + p.second * 1000 + p.milli == q.hour * 3_600_000
            + q.minute * 60_000 + q.second * 1000 + q.milli,
    ensures
        p.hour == q.hour,
        p.minute == q.minute,
        p.second == q.second,
        p.milli == q.milli,
{
}

proof fn lemma_dates_in_order(p: Date, q: Date)
    requires
        p.is_real(),
        q.is_real(),
        EPOCH_YEAR <= p.year <= 9999,
        EPOCH_YEAR <= q.year <= 9999,
        p.number() < q.number(),
    ensures
        precedes(p.text(), q.text()),
{
    law_dates_follow_days(p, q);
    lemma_spans();
    let none = Seq::<char>::empty();
    let slash = seq!['/'];
    let (py, pm, pd) = (
        padded_digits(p.year as nat, 10, 4),
        padded_digits(p.month as nat, 10, 2),
        padded_digits(p.day as nat, 10, 2),
    );
    let (qy, qm, qd) = (
        padded_digits(q.year as nat, 10, 4),
        padded_digits(q.month as nat, 10, 2),
        padded_digits(q.day as nat, 10, 2),
    );
    if p.year < q.year {
        law_numbers_in_order(p.year as nat, q.year as nat, 10, 4);
        lemma_precedes_within(none, py, qy, slash + pm + slash + pd, slash + qm + slash + qd);
        assert(none + py + (slash + pm + slash + pd) =~= p.text());
        assert(none + qy + (slash + qm + slash + qd) =~= q.text());
    } else if p.month < q.month {
        law_numbers_in_order(p.month as nat, q.month as nat, 10, 2);
        lemma_precedes_within(py + slash, pm, qm, slash + pd, slash + qd);
        assert(py + slash + pm + (slash + pd) =~= p.text());
        assert(py + slash + qm + (slash + qd) =~= q.text());
    } else {
        law_numbers_in_order(p.day as nat, q.day as nat, 10, 2);
        let head = py + slash + pm + slash;
        lemma_precedes_within(head, pd, qd, none, none);
        assert(head + pd + none =~= p.text());
        assert(head + qd + none =~= q.text());
    }
}

#[verifier::rlimit(40)]
#[verifier::spinoff_prover]
proof fn lemma_times_in_order(a: int, b: int)
    requires
        in_era(a),
        in_era(b),
        moment(a).date == moment(b).date,
        a / (MILLI_FS as int) < b / (MILLI_FS as int),
    ensures
        precedes(clock_text(a), clock_text(b)),
{
    lemma_moment(a);
    lemma_moment(b);
    lemma_spans();
    let (p, q) = (moment(a), moment(b));
    lemma_greatest_part(p, q);
    let none = Seq::<char>::empty();
    let colon = seq![':'];
    let dot = seq!['.'];
    let (ph, pm, ps, pf) = (
        padded_digits(p.hour as nat, 10, 2),
        padded_digits(p.minute as nat, 10, 2),
        padded_digits(p.second as nat, 10, 2),
        padded_digits(p.milli as nat, 10, 3),
    );
    let (qh, qm, qs, qf) = (
        padded_digits(q.hour as nat, 10, 2),
        padded_digits(q.minute as nat, 10, 2),
        padded_digits(q.second as nat, 10, 2),
        padded_digits(q.milli as nat, 10, 3),
    );
    let (at, bt) = (clock_text(a), clock_text(b));
    if p.hour != q.hour {
        law_numbers_in_order(p.hour as nat, q.hour as nat, 10, 2);
        let (x, y) = (colon + pm + colon + ps + dot + pf, colon + qm + colon + qs + dot + qf);
        lemma_precedes_within(none, ph, qh, x, y);
        assert(none + ph + x =~= at);
        assert(none + qh + y =~= bt);
    } else if p.minute != q.minute {
        law_numbers_in_order(p.minute as nat, q.minute as nat, 10, 2);
        let (x, y) = (colon + ps + dot + pf, colon + qs + dot + qf);
        lemma_precedes_within(ph + colon, pm, qm, x, y);
        assert(ph + colon + pm + x =~= at);
        assert(ph + colon + qm + y =~= bt);
    } else if p.second != q.second {
        law_numbers_in_order(p.second as nat, q.second as nat, 10, 2);
        let head = ph + colon + pm + colon;
        lemma_precedes_within(head, ps, qs, dot + pf, dot + qf);
        assert(head + ps + (dot + pf) =~= at);
        assert(head + qs + (dot + qf) =~= bt);
    } else {
        law_numbers_in_order(p.milli as nat, q.milli as nat, 10, 3);
        let head = ph + colon + pm + colon + ps + dot;
        lemma_precedes_within(head, pf, qf, none, none);
        assert(head + pf + none =~= at);
        assert(head + qf + none =~= bt);
    }
}


/// A stamp is written in seconds with three decimals, to little more than half
/// a millisecond, and one before 1970 with a minus before it.
pub proof fn law_stamps_read_back(stamp_fs: int)
    requires
        in_era(stamp_fs),
    ensures
        ({
            let t = stamp_text(stamp_fs);
            let k = t.len() - 4;
            let ms = 1000 * spelled(t.take(k)) + spelled(t.skip(k + 1));
            &&& k > 0
            &&& t[k] == '.'
            &&& -600_000_000_000 <= ms * 1_000_000_000_000 - stamp_fs <= 600_000_000_000
            &&& stamp_fs > 0 ==> stamp_text(-stamp_fs) == seq!['-'] + t
        }),
{
    let d: int = 1_000_000_000_000_000;
    law_thousandths_are_near(stamp_fs, d);
    let n = Double::of(stamp_fs, d).in_parts(1000) as nat;
    let t = stamp_text(stamp_fs);
    assert(Seq::<char>::empty() + thousandths(n) =~= thousandths(n));
    assert(t == thousandths(n));
    let (a, b) = (digits(n / 1000, 10), padded_digits(n % 1000, 10, 3));
    law_decimals_read_back(n / 1000);
    lemma_spans();
    law_numbers_read_back(n % 1000, 3);
    assert(t.take(t.len() - 4) =~= a);
    assert(t.skip(t.len() - 3) =~= b);
    assert(n == 1000 * (n / 1000) + n % 1000);
}

} // verus!
