//! What a reader finds between the commas of a line.

use vstd::prelude::*;
#[allow(unused_imports)]
use crate::calendar::{clock_text, date_text};
#[allow(unused_imports)]
use crate::handshake::{Compression, Hello};
#[allow(unused_imports)]
use crate::lines::{csv_text, heartbeat_text, result_text, sbs_text, stats_text, truth_text};
#[allow(unused_imports)]
use crate::text::{
    ascii_upper, bool_text, digit_char, digits, icao_text, int_text, joined, padded_digits,
    padded_int, size, stamp_text, tenths, thousandths, zeros,
};

verus! {

/// A text without a comma.
pub open spec fn is_plain(s: Seq<char>) -> bool {
    forall|i: int| 0 <= i < s.len() ==> #[trigger] s[i] != ','
}

/// How much of a text stands before its first comma.
pub open spec fn up_to_comma(s: Seq<char>) -> nat
    decreases s.len(),
{
    if s.len() == 0 || s[0] == ',' {
        0
    } else {
        1 + up_to_comma(s.drop_first())
    }
}

/// The text between comma `k` and the next one; the first one starts the line.
pub open spec fn column(s: Seq<char>, k: nat) -> Seq<char>
    decreases k,
{
    let n = up_to_comma(s) as int;
    if k == 0 {
        s.take(n)
    } else if n < s.len() {
        column(s.skip(n + 1), (k - 1) as nat)
    } else {
        Seq::empty()
    }
}

proof fn lemma_up_to_comma(a: Seq<char>, rest: Seq<char>)
    requires
        is_plain(a),
    ensures
        up_to_comma(a) == a.len(),
        up_to_comma(a + ","@ + rest) == a.len(),
    decreases a.len(),
{
    reveal_strlit(",");
    let s = a + ","@ + rest;
    if a.len() == 0 {
        assert(s[0] == ',');
    } else {
        let b = a.drop_first();
        assert forall|i: int| 0 <= i < b.len() implies #[trigger] b[i] != ',' by {
            assert(b[i] == a[i + 1]);
        }
        lemma_up_to_comma(b, rest);
        assert(s.drop_first() =~= b + ","@ + rest);
        assert(s[0] == a[0]);
    }
}

proof fn lemma_step(a: Seq<char>, rest: Seq<char>, k: nat)
    requires
        is_plain(a),
    ensures
        column(a, 0) == a,
        column(a + ","@ + rest, 0) == a,
        column(a + ","@ + rest, k + 1) == column(rest, k),
{
    reveal_strlit(",");
    lemma_up_to_comma(a, rest);
    let s = a + ","@ + rest;
    assert(a.take(a.len() as int) =~= a);
    assert(s.take(a.len() as int) =~= a);
    assert(s.skip((a.len() + 1) as int) =~= rest);
}

/// All texts are plain.
pub open spec fn all_plain(list: Seq<Seq<char>>) -> bool {
    forall|i: int| 0 <= i < list.len() ==> is_plain(#[trigger] list[i])
}

proof fn lemma_columns_behind(list: Seq<Seq<char>>, rest: Seq<char>, j: nat)
    requires
        all_plain(list),
        list.len() > 0,
    ensures
        column(joined(list, ","@) + ","@ + rest, list.len() + j) == column(rest, j),
    decreases list.len(),
{
    let n = list.len() - 1;
    if n == 0 {
        assert(is_plain(list[0]));
        lemma_step(list[0], rest, j);
    } else {
        let head = list.drop_last();
        let last = list.last();
        assert(is_plain(list[n]));
        assert forall|i: int| 0 <= i < head.len() implies is_plain(#[trigger] head[i]) by {
            assert(head[i] == list[i]);
        }
        lemma_columns_behind(head, last + ","@ + rest, j + 1);
        lemma_step(last, rest, j);
        let h = joined(head, ","@);
        assert(joined(list, ","@) + ","@ + rest =~= h + ","@ + (last + ","@ + rest));
    }
}

/// Joined by commas, plain texts are the columns of a line, whatever follows
/// behind another comma.
pub proof fn law_columns_are_read_back(list: Seq<Seq<char>>, rest: Seq<char>, k: nat)
    requires
        all_plain(list),
        k < list.len(),
    ensures
        column(joined(list, ","@) + ","@ + rest, k) == list[k as int],
        column(joined(list, ","@), k) == list[k as int],
    decreases list.len(),
{
    let n = list.len() - 1;
    if n == 0 {
        assert(is_plain(list[0]));
        lemma_step(list[0], rest, 0);
    } else {
        let head = list.drop_last();
        let last = list.last();
        assert(is_plain(list[n]));
        assert forall|i: int| 0 <= i < head.len() implies is_plain(#[trigger] head[i]) by {
            assert(head[i] == list[i]);
        }
        let h = joined(head, ","@);
        assert(joined(list, ","@) + ","@ + rest =~= h + ","@ + (last + ","@ + rest));
        lemma_step(last, rest, 0);
        if k < n {
            law_columns_are_read_back(head, last + ","@ + rest, k);
            law_columns_are_read_back(head, last, k);
            assert(head[k as int] == list[k as int]);
        } else {
            lemma_columns_behind(head, last + ","@ + rest, 0);
            lemma_columns_behind(head, last, 0);
        }
    }
}

proof fn lemma_join(list: Seq<Seq<char>>, x: Seq<char>)
    requires
        list.len() > 0,
    ensures
        joined(list.push(x), ","@) == joined(list, ","@) + ","@ + x,
        all_plain(list) && is_plain(x) ==> all_plain(list.push(x)),
{
    assert(list.push(x).drop_last() =~= list);
    assert(list.push(x).last() == x);
    if all_plain(list) && is_plain(x) {
        assert forall|i: int| 0 <= i < list.push(x).len() implies is_plain(
            #[trigger] list.push(x)[i],
        ) by {
            if i < list.len() {
                assert(list.push(x)[i] == list[i]);
            }
        }
    }
}

proof fn lemma_plain_sum(a: Seq<char>, b: Seq<char>)
    requires
        is_plain(a),
        is_plain(b),
    ensures
        is_plain(a + b),
{
    assert forall|i: int| 0 <= i < (a + b).len() implies #[trigger] (a + b)[i] != ',' by {
        if i < a.len() {
            assert((a + b)[i] == a[i]);
        } else {
            assert((a + b)[i] == b[i - a.len()]);
        }
    }
}

proof fn lemma_plain_digits(n: nat, base: nat)
    requires
        2 <= base <= 16,
    ensures
        is_plain(digits(n, base)),
    decreases n,
{
    if n >= base {
        assert(n / base < n && n % base < base) by (nonlinear_arith)
            requires
                n >= base,
                base >= 2,
        ;
        lemma_plain_digits(n / base, base);
    }
}

proof fn lemma_plain_padded(n: nat, base: nat, width: nat)
    requires
        2 <= base <= 16,
    ensures
        is_plain(padded_digits(n, base, width)),
{
    lemma_plain_digits(n, base);
    lemma_plain_sum(zeros(width - digits(n, base).len()), digits(n, base));
}

proof fn lemma_plain_int(i: int)
    ensures
        is_plain(int_text(i)),
{
    lemma_plain_digits(if i < 0 { (-i) as nat } else { i as nat }, 10);
    if i < 0 {
        lemma_plain_sum(seq!['-'], digits((-i) as nat, 10));
    }
}

proof fn lemma_plain_padded_int(i: int, width: nat)
    ensures
        is_plain(padded_int(i, width)),
{
    let w = if width == 0 { 0 } else { (width - 1) as nat };
    lemma_plain_padded(if i < 0 { (-i) as nat } else { i as nat }, 10, if i < 0 { w } else { width });
    if i < 0 {
        lemma_plain_sum(seq!['-'], padded_digits((-i) as nat, 10, w));
    }
}

proof fn lemma_plain_thousandths(n: nat)
    ensures
        is_plain(thousandths(n)),
{
    lemma_plain_digits(n / 1000, 10);
    lemma_plain_padded(n % 1000, 10, 3);
    lemma_plain_sum(digits(n / 1000, 10), seq!['.']);
    lemma_plain_sum(digits(n / 1000, 10) + seq!['.'], padded_digits(n % 1000, 10, 3));
}

proof fn lemma_plain_stamp(fs: int)
    ensures
        is_plain(stamp_text(fs)),
{
    let n = crate::binary::Double::of(size(fs) as int, crate::clock::SECOND_FS as int).in_parts(
        1000,
    ) as nat;
    lemma_plain_thousandths(n);
    lemma_plain_sum(seq!['-'], thousandths(n));
    lemma_plain_sum(Seq::empty(), thousandths(n));
}

proof fn lemma_plain_icao(icao: u32)
    ensures
        is_plain(icao_text(icao)),
        is_plain(ascii_upper(icao_text(icao))),
{
    lemma_plain_padded(icao as nat, 16, 6);
    let s = icao_text(icao);
    assert forall|i: int| 0 <= i < s.len() implies #[trigger] ascii_upper(s)[i] != ',' by {
        assert(s[i] != ',');
    }
}

proof fn lemma_plain_moment(stamp_fs: int)
    ensures
        is_plain(date_text(stamp_fs)),
        is_plain(clock_text(stamp_fs)),
{
    let secs = crate::calendar::whole_seconds(stamp_fs) as int;
    let d = crate::calendar::date_at(crate::calendar::whole_days(secs));
    lemma_plain_padded_int(d.year as int, 4);
    lemma_plain_padded_int(d.month as int, 2);
    lemma_plain_padded_int(d.day as int, 2);
    let (a, b, c) = (
        padded_int(d.year as int, 4),
        padded_int(d.month as int, 2),
        padded_int(d.day as int, 2),
    );
    lemma_plain_sum(a, seq!['/']);
    lemma_plain_sum(a + seq!['/'], b);
    lemma_plain_sum(a + seq!['/'] + b, seq!['/']);
    lemma_plain_sum(a + seq!['/'] + b + seq!['/'], c);
    let tod = secs % (crate::calendar::DAY_S as int);
    let ms = crate::calendar::over_millis(stamp_fs) as int;
    lemma_plain_padded_int(tod / 3600, 2);
    lemma_plain_padded_int((tod / 60) % 60, 2);
    lemma_plain_padded_int(tod % 60, 2);
    lemma_plain_padded_int(ms, 3);
    let (h, m, s, l) = (
        padded_int(tod / 3600, 2),
        padded_int((tod / 60) % 60, 2),
        padded_int(tod % 60, 2),
        padded_int(ms, 3),
    );
    lemma_plain_sum(h, seq![':']);
    lemma_plain_sum(h + seq![':'], m);
    lemma_plain_sum(h + seq![':'] + m, seq![':']);
    lemma_plain_sum(h + seq![':'] + m + seq![':'], s);
    lemma_plain_sum(h + seq![':'] + m + seq![':'] + s, seq!['.']);
    lemma_plain_sum(h + seq![':'] + m + seq![':'] + s + seq!['.'], l);
}

/// The columns of a results row: the stamp, the address, two empty ones,
/// latitude, longitude, altitude, error, and the number of receivers twice.
pub proof fn law_columns_of_a_results_row(
    stamp_fs: int,
    icao: u32,
    alt_ft: int,
    users: Seq<Seq<char>>,
    lat: Seq<char>,
    lon: Seq<char>,
    err: Seq<char>,
)
    requires
        is_plain(lat),
        is_plain(lon),
        is_plain(err),
    ensures
        ({
            let row = csv_text(stamp_fs, icao, alt_ft, users, lat, lon, err);
            &&& column(row, 0) == stamp_text(stamp_fs)
            &&& column(row, 1) == icao_text(icao)
            &&& column(row, 2).len() == 0
            &&& column(row, 3).len() == 0
            &&& column(row, 4) == lat
            &&& column(row, 5) == lon
            &&& column(row, 6) == int_text(alt_ft)
            &&& column(row, 7) == err
            &&& column(row, 8) == digits(users.len(), 10)
            &&& column(row, 9) == digits(users.len(), 10)
            &&& users.len() >= 4 ==> ends_with(
                row,
                ",\""@ + joined(users, ","@) + "\","@ + digits((users.len() - 4) as nat, 10) + ",\n"@,
            )
            &&& users.len() < 4 ==> ends_with(
                row,
                ",\""@ + joined(users, ","@) + "\","@ + digits(0, 10) + ",\n"@,
            )
        }),
{
    let row = csv_text(stamp_fs, icao, alt_ft, users, lat, lon, err);
    let n = digits(users.len(), 10);
    let none = Seq::<char>::empty();
    let a0 = seq![stamp_text(stamp_fs)];
    lemma_plain_stamp(stamp_fs);
    lemma_plain_icao(icao);
    lemma_plain_int(alt_ft);
    lemma_plain_digits(users.len(), 10);
    assert(joined(a0, ","@) == stamp_text(stamp_fs));
    lemma_join(a0, icao_text(icao));
    let a1 = a0.push(icao_text(icao));
    lemma_join(a1, none);
    let a2 = a1.push(none);
    lemma_join(a2, none);
    let a3 = a2.push(none);
    lemma_join(a3, lat);
    let a4 = a3.push(lat);
    lemma_join(a4, lon);
    let a5 = a4.push(lon);
    lemma_join(a5, int_text(alt_ft));
    let a6 = a5.push(int_text(alt_ft));
    lemma_join(a6, err);
    let a7 = a6.push(err);
    lemma_join(a7, n);
    let a8 = a7.push(n);
    lemma_join(a8, n);
    let list = a8.push(n);
    let spare = digits(
        if users.len() < 4 {
            0
        } else {
            (users.len() - 4) as nat
        },
        10,
    );
    let rest = "\""@ + joined(users, ","@) + "\","@ + spare + ",\n"@;
    let h = joined(a1, ","@);
    lemma_three_commas(h);
    assert(h + ",,,"@ + lat == joined(a4, ","@));
    let front = joined(list, ","@);
    lemma_quote(front);
    assert(row == front + ",\""@ + joined(users, ","@) + "\","@ + spare + ",\n"@);
    assert(row =~= front + ","@ + rest) by {
        let f = front + ","@;
        assert(f + "\""@ + joined(users, ","@) + "\","@ + spare + ",\n"@ =~= f + rest);
    }
    let end = ",\""@ + joined(users, ","@) + "\","@ + spare + ",\n"@;
    assert(row =~= front + end);
    assert(row.skip(row.len() - end.len()) =~= end);
    law_columns_are_read_back(list, rest, 0);
    law_columns_are_read_back(list, rest, 1);
    law_columns_are_read_back(list, rest, 2);
    law_columns_are_read_back(list, rest, 3);
    law_columns_are_read_back(list, rest, 4);
    law_columns_are_read_back(list, rest, 5);
    law_columns_are_read_back(list, rest, 6);
    law_columns_are_read_back(list, rest, 7);
    law_columns_are_read_back(list, rest, 8);
    law_columns_are_read_back(list, rest, 9);
}

proof fn lemma_three_commas(h: Seq<char>)
    ensures
        h + ",,,"@ == h + ","@ + Seq::<char>::empty() + ","@ + Seq::<char>::empty() + ","@,
{
    reveal_strlit(",,,");
    reveal_strlit(",");
    assert(h + ",,,"@ =~= h + ","@ + Seq::<char>::empty() + ","@ + Seq::<char>::empty() + ","@);
}

proof fn lemma_quote(h: Seq<char>)
    ensures
        h + ",\""@ == h + ","@ + "\""@,
{
    reveal_strlit(",\"");
    reveal_strlit(",");
    reveal_strlit("\"");
    assert(h + ",\""@ =~= h + ","@ + "\""@);
}

/// The columns of a self-truth row: the stamp, the address, the distance, the
/// error, and the number of receivers at the end of the line.
pub proof fn law_columns_of_a_truth_row(
    stamp_fs: int,
    icao: u32,
    off: Seq<char>,
    err: Seq<char>,
    n: nat,
)
    requires
        is_plain(off),
        is_plain(err),
    ensures
        ({
            let row = truth_text(stamp_fs, icao, off, err, n);
            &&& column(row, 0) == stamp_text(stamp_fs)
            &&& column(row, 1) == icao_text(icao)
            &&& column(row, 2) == off
            &&& column(row, 3) == err
            &&& column(row, 4) == digits(n, 10) + "\n"@
        }),
{
    let row = truth_text(stamp_fs, icao, off, err, n);
    reveal_strlit("\n");
    let end = digits(n, 10) + "\n"@;
    lemma_plain_stamp(stamp_fs);
    lemma_plain_icao(icao);
    lemma_plain_digits(n, 10);
    lemma_plain_sum(digits(n, 10), "\n"@);
    let a0 = seq![stamp_text(stamp_fs)];
    assert(joined(a0, ","@) == stamp_text(stamp_fs));
    lemma_join(a0, icao_text(icao));
    let a1 = a0.push(icao_text(icao));
    lemma_join(a1, off);
    let a2 = a1.push(off);
    lemma_join(a2, err);
    let a3 = a2.push(err);
    lemma_join(a3, end);
    let list = a3.push(end);
    assert(row =~= joined(list, ","@));
    law_columns_are_read_back(list, off, 0);
    law_columns_are_read_back(list, off, 1);
    law_columns_are_read_back(list, off, 2);
    law_columns_are_read_back(list, off, 3);
    law_columns_are_read_back(list, off, 4);
}

/// The columns of a BaseStation message: the address in upper case is the
/// fifth, the date and the time of the fix follow twice, and altitude, latitude
/// and longitude are the twelfth, the fifteenth and the sixteenth of 22.
pub proof fn law_columns_of_a_feed_message(
    stamp_fs: int,
    icao: u32,
    alt_ft: int,
    lat: Seq<char>,
    lon: Seq<char>,
)
    requires
        is_plain(lat),
        is_plain(lon),
    ensures
        ({
            let row = sbs_text(stamp_fs, icao, alt_ft, lat, lon);
            &&& column(row, 0) == "MSG"@
            &&& column(row, 1) == "3"@
            &&& column(row, 4) == ascii_upper(icao_text(icao))
            &&& column(row, 6) == date_text(stamp_fs)
            &&& column(row, 7) == clock_text(stamp_fs)
            &&& column(row, 8) == date_text(stamp_fs)
            &&& column(row, 9) == clock_text(stamp_fs)
            &&& column(row, 10).len() == 0
            &&& column(row, 11) == int_text(alt_ft)
            &&& column(row, 12).len() == 0
            &&& column(row, 13).len() == 0
            &&& column(row, 14) == lat
            &&& column(row, 15) == lon
            &&& column(row, 16).len() == 0
            &&& column(row, 21) == "0\r\n"@
        }),
{
    let row = sbs_text(stamp_fs, icao, alt_ft, lat, lon);
    let none = Seq::<char>::empty();
    let (d, t) = (date_text(stamp_fs), clock_text(stamp_fs));
    let u = ascii_upper(icao_text(icao));
    let alt = int_text(alt_ft);
    lemma_plain_icao(icao);
    lemma_plain_moment(stamp_fs);
    lemma_plain_int(alt_ft);
    reveal_strlit("MSG");
    reveal_strlit("3");
    reveal_strlit("1");
    reveal_strlit("0\r\n");
    let a0 = seq!["MSG"@];
    assert(joined(a0, ","@) == "MSG"@);
    lemma_join(a0, "3"@);
    let a1 = a0.push("3"@);
    lemma_join(a1, "1"@);
    let a2 = a1.push("1"@);
    lemma_join(a2, "1"@);
    let a3 = a2.push("1"@);
    lemma_join(a3, u);
    let a4 = a3.push(u);
    lemma_message_start();
    assert("MSG,3,1,1,"@ + u == joined(a4, ","@));
    lemma_join(a4, "1"@);
    let a5 = a4.push("1"@);
    lemma_join(a5, d);
    let a6 = a5.push(d);
    lemma_one_between(joined(a4, ","@));
    assert("MSG,3,1,1,"@ + u + ",1,"@ + d == joined(a6, ","@));
    lemma_join(a6, t);
    let a7 = a6.push(t);
    lemma_join(a7, d);
    let a8 = a7.push(d);
    lemma_join(a8, t);
    let a9 = a8.push(t);
    lemma_join(a9, none);
    let a10 = a9.push(none);
    lemma_join(a10, alt);
    let a11 = a10.push(alt);
    lemma_two_commas(joined(a9, ","@));
    lemma_join(a11, none);
    let a12 = a11.push(none);
    lemma_join(a12, none);
    let a13 = a12.push(none);
    lemma_join(a13, lat);
    let a14 = a13.push(lat);
    lemma_three_commas(joined(a11, ","@));
    lemma_join(a14, lon);
    let a15 = a14.push(lon);
    lemma_join(a15, none);
    let a16 = a15.push(none);
    lemma_join(a16, none);
    let a17 = a16.push(none);
    lemma_join(a17, none);
    let a18 = a17.push(none);
    lemma_join(a18, none);
    let a19 = a18.push(none);
    lemma_join(a19, none);
    let a20 = a19.push(none);
    lemma_join(a20, "0\r\n"@);
    let list = a20.push("0\r\n"@);
    lemma_message_end(joined(a15, ","@));
    assert(row == joined(list, ","@));
    law_columns_are_read_back(list, none, 0);
    law_columns_are_read_back(list, none, 1);
    law_columns_are_read_back(list, none, 4);
    law_columns_are_read_back(list, none, 6);
    law_columns_are_read_back(list, none, 7);
    law_columns_are_read_back(list, none, 8);
    law_columns_are_read_back(list, none, 9);
    law_columns_are_read_back(list, none, 10);
    law_columns_are_read_back(list, none, 11);
    law_columns_are_read_back(list, none, 12);
    law_columns_are_read_back(list, none, 13);
    law_columns_are_read_back(list, none, 14);
    law_columns_are_read_back(list, none, 15);
    law_columns_are_read_back(list, none, 16);
    law_columns_are_read_back(list, none, 21);
}

proof fn lemma_message_start()
    ensures
        "MSG,3,1,1,"@ == "MSG"@ + ","@ + "3"@ + ","@ + "1"@ + ","@ + "1"@ + ","@,
{
    reveal_strlit("MSG,3,1,1,");
    reveal_strlit("MSG");
    reveal_strlit("3");
    reveal_strlit("1");
    reveal_strlit(",");
    assert("MSG,3,1,1,"@ =~= "MSG"@ + ","@ + "3"@ + ","@ + "1"@ + ","@ + "1"@ + ","@);
}

proof fn lemma_one_between(h: Seq<char>)
    ensures
        h + ",1,"@ == h + ","@ + "1"@ + ","@,
{
    reveal_strlit(",1,");
    reveal_strlit("1");
    reveal_strlit(",");
    assert(h + ",1,"@ =~= h + ","@ + "1"@ + ","@);
}

proof fn lemma_two_commas(h: Seq<char>)
    ensures
        h + ",,"@ == h + ","@ + Seq::<char>::empty() + ","@,
{
    reveal_strlit(",,");
    reveal_strlit(",");
    assert(h + ",,"@ =~= h + ","@ + Seq::<char>::empty() + ","@);
}

proof fn lemma_message_end(h: Seq<char>)
    ensures
        h + ",,,,,,0\r\n"@ == h + ","@ + Seq::<char>::empty() + ","@ + Seq::<char>::empty() + ","@
            + Seq::<char>::empty() + ","@ + Seq::<char>::empty() + ","@ + Seq::<char>::empty()
            + ","@ + "0\r\n"@,
{
    reveal_strlit(",,,,,,0\r\n");
    reveal_strlit("0\r\n");
    reveal_strlit(",");
    assert(h + ",,,,,,0\r\n"@ =~= h + ","@ + Seq::<char>::empty() + ","@ + Seq::<char>::empty()
        + ","@ + Seq::<char>::empty() + ","@ + Seq::<char>::empty() + ","@ + Seq::<char>::empty()
        + ","@ + "0\r\n"@);
}

/// `s` ends with `end`.
pub open spec fn ends_with(s: Seq<char>, end: Seq<char>) -> bool {
    end.len() <= s.len() && s.skip(s.len() - end.len()) == end
}

/// What stands between the commas of a result message: the stamp, the address,
/// latitude, longitude and altitude, each under its name, and the number of
/// receivers at the end.
pub proof fn law_columns_of_a_result_message(
    stamp_fs: int,
    icao: u32,
    alt_ft: int,
    n: nat,
    lat: Seq<char>,
    lon: Seq<char>,
)
    requires
        is_plain(lat),
        is_plain(lon),
    ensures
        ({
            let row = result_text(stamp_fs, icao, alt_ft, n, lat, lon);
            &&& column(row, 0) == "{\"result\":{\"@\":"@ + stamp_text(stamp_fs)
            &&& column(row, 1) == "\"addr\":\""@ + icao_text(icao) + "\""@
            &&& column(row, 2) == "\"lat\":"@ + lat
            &&& column(row, 3) == "\"lon\":"@ + lon
            &&& column(row, 4) == "\"alt\":"@ + int_text(alt_ft)
            &&& ends_with(row, "\"nstations\":"@ + digits(n, 10) + "}}\n"@)
        }),
{
    let row = result_text(stamp_fs, icao, alt_ft, n, lat, lon);
    lemma_plain_stamp(stamp_fs);
    lemma_plain_icao(icao);
    lemma_plain_int(alt_ft);
    reveal_strlit("{\"result\":{\"@\":");
    reveal_strlit("\"addr\":\"");
    reveal_strlit("\"");
    reveal_strlit("\"lat\":");
    reveal_strlit("\"lon\":");
    reveal_strlit("\"alt\":");
    let c0 = "{\"result\":{\"@\":"@ + stamp_text(stamp_fs);
    let c1 = "\"addr\":\""@ + icao_text(icao) + "\""@;
    let c2 = "\"lat\":"@ + lat;
    let c3 = "\"lon\":"@ + lon;
    let c4 = "\"alt\":"@ + int_text(alt_ft);
    lemma_plain_sum("{\"result\":{\"@\":"@, stamp_text(stamp_fs));
    lemma_plain_sum("\"addr\":\""@, icao_text(icao));
    lemma_plain_sum("\"addr\":\""@ + icao_text(icao), "\""@);
    lemma_plain_sum("\"lat\":"@, lat);
    lemma_plain_sum("\"lon\":"@, lon);
    lemma_plain_sum("\"alt\":"@, int_text(alt_ft));
    let a0 = seq![c0];
    assert(joined(a0, ","@) == c0);
    lemma_join(a0, c1);
    let a1 = a0.push(c1);
    lemma_join(a1, c2);
    let a2 = a1.push(c2);
    lemma_join(a2, c3);
    let a3 = a2.push(c3);
    lemma_join(a3, c4);
    let list = a3.push(c4);
    lemma_result_parts(c0, icao_text(icao), lat, lon, int_text(alt_ft));
    let front = joined(list, ","@);
    lemma_result_tail();
    let mid = "\"callsign\":null,\"squawk\":null,\"hdop\":0.0,\"vdop\":0.0,\"tdop\":0.0,\"gdop\":0.0,"@;
    let end = "\"nstations\":"@ + digits(n, 10) + "}}\n"@;
    let rest = mid + end;
    assert(row =~= front + ","@ + rest);
    assert(row.skip(row.len() - end.len()) =~= end);
    law_columns_are_read_back(list, rest, 0);
    law_columns_are_read_back(list, rest, 1);
    law_columns_are_read_back(list, rest, 2);
    law_columns_are_read_back(list, rest, 3);
    law_columns_are_read_back(list, rest, 4);
}

proof fn lemma_result_parts(
    c0: Seq<char>,
    addr: Seq<char>,
    lat: Seq<char>,
    lon: Seq<char>,
    alt: Seq<char>,
)
    ensures
        c0 + ",\"addr\":\""@ + addr + "\",\"lat\":"@ + lat + ",\"lon\":"@ + lon + ",\"alt\":"@ + alt
            == c0 + ","@ + ("\"addr\":\""@ + addr + "\""@) + ","@ + ("\"lat\":"@ + lat) + ","@ + (
        "\"lon\":"@ + lon) + ","@ + ("\"alt\":"@ + alt),
{
    reveal_strlit(",");
    reveal_strlit("\"");
    reveal_strlit(",\"addr\":\"");
    reveal_strlit("\"addr\":\"");
    reveal_strlit("\",\"lat\":");
    reveal_strlit("\"lat\":");
    reveal_strlit(",\"lon\":");
    reveal_strlit("\"lon\":");
    reveal_strlit(",\"alt\":");
    reveal_strlit("\"alt\":");
    let p1 = c0 + ",\"addr\":\""@ + addr;
    let q1 = c0 + ","@ + ("\"addr\":\""@ + addr);
    assert(p1 =~= q1);
    let p2 = p1 + "\",\"lat\":"@ + lat;
    let q2 = c0 + ","@ + ("\"addr\":\""@ + addr + "\""@) + ","@ + ("\"lat\":"@ + lat);
    assert(p1 + "\""@ =~= c0 + ","@ + ("\"addr\":\""@ + addr + "\""@));
    assert(p2 =~= p1 + "\""@ + ","@ + ("\"lat\":"@ + lat));
    assert(p2 == q2);
    let p3 = p2 + ",\"lon\":"@ + lon;
    let q3 = q2 + ","@ + ("\"lon\":"@ + lon);
    assert(p3 =~= q3);
    assert(p3 + ",\"alt\":"@ + alt =~= q3 + ","@ + ("\"alt\":"@ + alt));
}

proof fn lemma_result_tail()
    ensures
        ",\"callsign\":null,\"squawk\":null,\"hdop\":0.0,\"vdop\":0.0,\"tdop\":0.0,\"gdop\":0.0,\"nstations\":"@
            == ","@ + "\"callsign\":null,\"squawk\":null,\"hdop\":0.0,\"vdop\":0.0,\"tdop\":0.0,\"gdop\":0.0,"@
            + "\"nstations\":"@,
{
    reveal_strlit(
        ",\"callsign\":null,\"squawk\":null,\"hdop\":0.0,\"vdop\":0.0,\"tdop\":0.0,\"gdop\":0.0,\"nstations\":",
    );
    reveal_strlit(
        "\"callsign\":null,\"squawk\":null,\"hdop\":0.0,\"vdop\":0.0,\"tdop\":0.0,\"gdop\":0.0,",
    );
    reveal_strlit(",");
    reveal_strlit("\"nstations\":");
    assert(
    ",\"callsign\":null,\"squawk\":null,\"hdop\":0.0,\"vdop\":0.0,\"tdop\":0.0,\"gdop\":0.0,\"nstations\":"@
        =~= ","@ + "\"callsign\":null,\"squawk\":null,\"hdop\":0.0,\"vdop\":0.0,\"tdop\":0.0,\"gdop\":0.0,"@
        + "\"nstations\":"@);
}

/// What stands between the commas of a statistics message: the peers, the
/// timeout, and the share with one decimal.
pub proof fn law_columns_of_a_stats_message(peers: nat, quarantined: bool, outliers: nat)
    ensures
        ({
            let row = stats_text(peers, quarantined, outliers);
            &&& column(row, 0) == "{\"stats\":{\"peer_count\":"@ + digits(peers, 10)
            &&& quarantined ==> column(row, 1) == "\"bad_sync_timeout\":60"@
            &&& !quarantined ==> column(row, 1) == "\"bad_sync_timeout\":0"@
            &&& column(row, 2) == "\"outlier_percent\":"@ + tenths(outliers) + "}}\n"@
        }),
{
    let row = stats_text(peers, quarantined, outliers);
    let out = digits(
        if quarantined {
            60
        } else {
            0
        },
        10,
    );
    lemma_plain_digits(peers, 10);
    lemma_plain_digits(60, 10);
    lemma_plain_digits(0, 10);
    lemma_plain_digits(outliers / 10, 10);
    lemma_plain_digits(outliers % 10, 10);
    lemma_plain_sum(digits(outliers / 10, 10), seq!['.']);
    lemma_plain_sum(digits(outliers / 10, 10) + seq!['.'], digits(outliers % 10, 10));
    reveal_strlit("{\"stats\":{\"peer_count\":");
    reveal_strlit("\"bad_sync_timeout\":");
    reveal_strlit("\"bad_sync_timeout\":60");
    reveal_strlit("\"bad_sync_timeout\":0");
    reveal_strlit("\"outlier_percent\":");
    reveal_strlit(",\"bad_sync_timeout\":");
    reveal_strlit(",\"outlier_percent\":");
    reveal_strlit("}}\n");
    reveal_strlit(",");
    let c0 = "{\"stats\":{\"peer_count\":"@ + digits(peers, 10);
    let c1 = "\"bad_sync_timeout\":"@ + out;
    let c2 = "\"outlier_percent\":"@ + tenths(outliers) + "}}\n"@;
    lemma_plain_sum("{\"stats\":{\"peer_count\":"@, digits(peers, 10));
    lemma_plain_sum("\"bad_sync_timeout\":"@, out);
    lemma_plain_sum("\"outlier_percent\":"@, tenths(outliers));
    lemma_plain_sum("\"outlier_percent\":"@ + tenths(outliers), "}}\n"@);
    let a0 = seq![c0];
    assert(joined(a0, ","@) == c0);
    lemma_join(a0, c1);
    let a1 = a0.push(c1);
    lemma_join(a1, c2);
    let list = a1.push(c2);
    assert(c0 + ",\"bad_sync_timeout\":"@ + out =~= c0 + ","@ + c1);
    let h = c0 + ","@ + c1;
    assert(h + ",\"outlier_percent\":"@ + tenths(outliers) + "}}\n"@ =~= h + ","@ + c2);
    assert(row == joined(list, ","@));
    law_columns_are_read_back(list, c0, 0);
    law_columns_are_read_back(list, c0, 1);
    law_columns_are_read_back(list, c0, 2);
    reveal_with_fuel(digits, 3);
    if quarantined {
        assert(out =~= seq!['6', '0']);
        assert(c1 =~= "\"bad_sync_timeout\":60"@);
    } else {
        assert(out =~= seq!['0']);
        assert(c1 =~= "\"bad_sync_timeout\":0"@);
    }
}

/// The name of a compression mode.
pub open spec fn mode_name(c: Compression) -> Seq<char> {
    match c {
        Compression::Zlib2 => "zlib2"@,
        Compression::Zlib => "zlib"@,
        Compression::Plain => "none"@,
    }
}

/// What stands between the commas of the line that accepts a client: the mode,
/// whether it gets results, and whether it gets statistics.
pub proof fn law_columns_of_a_welcome(h: Hello)
    ensures
        ({
            let row = h.reply_text();
            &&& column(row, 0) == "{\"compress\":\""@ + mode_name(h.compress) + "\""@
            &&& column(row, 4) == if h.wants_results {
                "\"return_results\":true"@
            } else {
                "\"return_results\":false"@
            }
            &&& column(row, 6) == if h.wants_stats {
                "\"return_stats\":true"@
            } else {
                "\"return_stats\":false"@
            }
        }),
{
    let row = h.reply_text();
    let mode = h.compress.text();
    let (b, c) = (bool_text(h.wants_results), bool_text(h.wants_stats));
    reveal_strlit("zlib2");
    reveal_strlit("zlib");
    reveal_strlit("none");
    reveal_strlit("true");
    reveal_strlit("false");
    reveal_strlit("{\"compress\":\"");
    reveal_strlit("\"");
    reveal_strlit(",");
    reveal_strlit("\"reconnect_in\":300");
    reveal_strlit("\"selective_traffic\":true");
    reveal_strlit("\"heartbeat\":true");
    reveal_strlit("\"return_results\":");
    reveal_strlit("\"return_results\":true");
    reveal_strlit("\"return_results\":false");
    reveal_strlit("\"rate_reports\":true");
    reveal_strlit("\"return_stats\":");
    reveal_strlit("\"return_stats\":true");
    reveal_strlit("\"return_stats\":false");
    let c0 = "{\"compress\":\""@ + mode + "\""@;
    let c4 = "\"return_results\":"@ + b;
    let c6 = "\"return_stats\":"@ + c;
    lemma_plain_sum("{\"compress\":\""@, mode);
    lemma_plain_sum("{\"compress\":\""@ + mode, "\""@);
    lemma_plain_sum("\"return_results\":"@, b);
    lemma_plain_sum("\"return_stats\":"@, c);
    let a0 = seq![c0];
    assert(joined(a0, ","@) == c0);
    lemma_join(a0, "\"reconnect_in\":300"@);
    let a1 = a0.push("\"reconnect_in\":300"@);
    lemma_join(a1, "\"selective_traffic\":true"@);
    let a2 = a1.push("\"selective_traffic\":true"@);
    lemma_join(a2, "\"heartbeat\":true"@);
    let a3 = a2.push("\"heartbeat\":true"@);
    lemma_join(a3, c4);
    let a4 = a3.push(c4);
    lemma_join(a4, "\"rate_reports\":true"@);
    let a5 = a4.push("\"rate_reports\":true"@);
    lemma_join(a5, c6);
    let list = a5.push(c6);
    lemma_welcome("{\"compress\":\""@ + mode, b, c);
    let rest = "\"motd\":\"FlightPortrait network MLAT (mlatd)\"}\n"@;
    assert(row == joined(list, ","@) + ","@ + rest);
    law_columns_are_read_back(list, rest, 0);
    law_columns_are_read_back(list, rest, 4);
    law_columns_are_read_back(list, rest, 6);
    assert(h.wants_results ==> c4 =~= "\"return_results\":true"@);
    assert(!h.wants_results ==> c4 =~= "\"return_results\":false"@);
    assert(h.wants_stats ==> c6 =~= "\"return_stats\":true"@);
    assert(!h.wants_stats ==> c6 =~= "\"return_stats\":false"@);
}

proof fn lemma_welcome(p: Seq<char>, b: Seq<char>, c: Seq<char>)
    ensures
        p
            + "\",\"reconnect_in\":300,\"selective_traffic\":true,\"heartbeat\":true,\"return_results\":"@
            + b + ",\"rate_reports\":true,\"return_stats\":"@ + c
            + ",\"motd\":\"FlightPortrait network MLAT (mlatd)\"}\n"@ == p + "\""@ + ","@
            + "\"reconnect_in\":300"@ + ","@ + "\"selective_traffic\":true"@ + ","@
            + "\"heartbeat\":true"@ + ","@ + ("\"return_results\":"@ + b) + ","@
            + "\"rate_reports\":true"@ + ","@ + ("\"return_stats\":"@ + c) + ","@
            + "\"motd\":\"FlightPortrait network MLAT (mlatd)\"}\n"@,
{
    let l = "\",\"reconnect_in\":300,\"selective_traffic\":true,\"heartbeat\":true,\"return_results\":"@;
    let m = ",\"rate_reports\":true,\"return_stats\":"@;
    let e = ",\"motd\":\"FlightPortrait network MLAT (mlatd)\"}\n"@;
    assert(l == "\""@ + ","@ + "\"reconnect_in\":300"@ + ","@ + "\"selective_traffic\":true"@ + ","@
        + "\"heartbeat\":true"@ + ","@ + "\"return_results\":"@) by {
        reveal_strlit(
            "\",\"reconnect_in\":300,\"selective_traffic\":true,\"heartbeat\":true,\"return_results\":",
        );
        reveal_strlit("\"");
        reveal_strlit(",");
        reveal_strlit("\"reconnect_in\":300");
        reveal_strlit("\"selective_traffic\":true");
        reveal_strlit("\"heartbeat\":true");
        reveal_strlit("\"return_results\":");
        assert(l =~= "\""@ + ","@ + "\"reconnect_in\":300"@ + ","@ + "\"selective_traffic\":true"@
            + ","@ + "\"heartbeat\":true"@ + ","@ + "\"return_results\":"@);
    }
    assert(m == ","@ + "\"rate_reports\":true"@ + ","@ + "\"return_stats\":"@) by {
        reveal_strlit(",\"rate_reports\":true,\"return_stats\":");
        reveal_strlit(",");
        reveal_strlit("\"rate_reports\":true");
        reveal_strlit("\"return_stats\":");
        assert(m =~= ","@ + "\"rate_reports\":true"@ + ","@ + "\"return_stats\":"@);
    }
    assert(e == ","@ + "\"motd\":\"FlightPortrait network MLAT (mlatd)\"}\n"@) by {
        reveal_strlit(",\"motd\":\"FlightPortrait network MLAT (mlatd)\"}\n");
        reveal_strlit(",");
        reveal_strlit("\"motd\":\"FlightPortrait network MLAT (mlatd)\"}\n");
        assert(e =~= ","@ + "\"motd\":\"FlightPortrait network MLAT (mlatd)\"}\n"@);
    }
    let k = "\"return_results\":"@;
    let h = p + "\""@ + ","@ + "\"reconnect_in\":300"@ + ","@ + "\"selective_traffic\":true"@ + ","@
        + "\"heartbeat\":true"@ + ","@;
    assert(p + l =~= h + k);
    assert(p + l + b =~= h + (k + b));
    let g = h + (k + b) + ","@ + "\"rate_reports\":true"@ + ","@;
    let j = "\"return_stats\":"@;
    assert(h + (k + b) + m =~= g + j);
    assert(g + j + c =~= g + (j + c));
    assert(g + (j + c) + e =~= g + (j + c) + ","@
        + "\"motd\":\"FlightPortrait network MLAT (mlatd)\"}\n"@);
}


/// A heartbeat carries the output clock, which counts nanoseconds, as a stamp.
pub proof fn law_what_a_heartbeat_carries(now: int)
    ensures
        heartbeat_text(now) == "{\"heartbeat\":{\"server_time\":"@ + stamp_text(now * 1_000_000)
            + "}}\n"@,
{
}

/// Joined texts stand in order with the separator between neighbours, and
/// nowhere else.
pub proof fn law_joined_texts(list: Seq<Seq<char>>, x: Seq<char>, sep: Seq<char>)
    ensures
        joined(Seq::empty(), sep).len() == 0,
        joined(seq![x], sep) == x,
        list.len() > 0 ==> joined(list.push(x), sep) == joined(list, sep) + sep + x,
{
    assert(list.push(x).drop_last() =~= list);
    assert(list.push(x).last() == x);
}

} // verus!
