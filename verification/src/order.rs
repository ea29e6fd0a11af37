//! Texts in dictionary order, and numbers of a fixed width read back.

use vstd::prelude::*;
#[allow(unused_imports)]
use crate::text::{
    ascii_upper, digit_char, digits, icao_text, int_text, padded_digits, tenths, zeros,
};

verus! {

/// The two texts are the same up to position `k`, where `a` has the lesser
/// character.
pub open spec fn parts_at(a: Seq<char>, b: Seq<char>, k: int) -> bool {
    &&& 0 <= k < a.len()
    &&& k < b.len()
    &&& forall|j: int| 0 <= j < k ==> #[trigger] a[j] == b[j]
    &&& a[k] < b[k]
}

/// `a` stands before `b` in a dictionary.
pub open spec fn precedes(a: Seq<char>, b: Seq<char>) -> bool {
    ||| a.len() < b.len() && b.take(a.len() as int) == a
    ||| exists|k: int| #[trigger] parts_at(a, b, k)
}

/// What is before and behind texts of the same length does not bear on their
/// order, where the first is the same.
pub proof fn lemma_precedes_within(
    head: Seq<char>,
    a: Seq<char>,
    b: Seq<char>,
    x: Seq<char>,
    y: Seq<char>,
)
    requires
        a.len() == b.len(),
        precedes(a, b),
    ensures
        precedes(head + a + x, head + b + y),
{
    let k = choose|k: int| #[trigger] parts_at(a, b, k);
    let (p, q) = (head + a + x, head + b + y);
    assert forall|j: int| 0 <= j < head.len() + k implies #[trigger] p[j] == q[j] by {
        if j >= head.len() {
            assert(a[j - head.len()] == b[j - head.len()]);
        }
    }
    assert(p[head.len() + k] == a[k] && q[head.len() + k] == b[k]);
    assert(parts_at(p, q, head.len() + k));
}

/// How many numbers `width` digits can tell apart.
pub open spec fn span(base: nat, width: nat) -> nat
    decreases width,
{
    if width == 0 {
        1
    } else {
        base * span(base, (width - 1) as nat)
    }
}

/// The last `width` digits of `n`.
pub open spec fn fixed(n: nat, base: nat, width: nat) -> Seq<char>
    decreases width,
{
    if width == 0 {
        Seq::empty()
    } else {
        fixed(n / base, base, (width - 1) as nat).push(digit_char(n % base))
    }
}

proof fn lemma_span(n: nat, base: nat, width: nat)
    requires
        base >= 2,
        width >= 1,
        n < span(base, width),
    ensures
        n / base < span(base, (width - 1) as nat),
        n % base < base,
{
    let s = span(base, (width - 1) as nat);
    assert(n / base < s) by (nonlinear_arith)
        requires
            base >= 2,
            n < base * s,
    ;
    assert(n % base < base) by (nonlinear_arith)
        requires
            base >= 2,
    ;
}

/// Padding writes exactly the last digits, where the number fits.
pub proof fn lemma_padded(n: nat, base: nat, width: nat)
    requires
        2 <= base <= 16,
        width >= 1,
        n < span(base, width),
    ensures
        padded_digits(n, base, width) == fixed(n, base, width),
        fixed(n, base, width).len() == width,
    decreases width,
{
    lemma_span(n, base, width);
    let w = (width - 1) as nat;
    if n < base {
        assert(n / base == 0 && n % base == n) by (nonlinear_arith)
            requires
                n < base,
        ;
        lemma_zeros(base, w);
        assert(padded_digits(n, base, width) =~= zeros(w as int).push(digit_char(n)));
    } else {
        if width == 1 {
            assert(span(base, 0) == 1);
            assert(span(base, 1) == base) by (nonlinear_arith)
                requires
                    span(base, 1) == base * 1,
            ;
        }
        lemma_padded(n / base, base, w);
        assert(padded_digits(n, base, width) =~= padded_digits(n / base, base, w).push(
            digit_char(n % base),
        ));
    }
}

proof fn lemma_zeros(base: nat, width: nat)
    requires
        base >= 2,
    ensures
        fixed(0, base, width) == zeros(width as int),
    decreases width,
{
    if width > 0 {
        lemma_zeros(base, (width - 1) as nat);
        assert(0nat / base == 0 && 0nat % base == 0) by (nonlinear_arith)
            requires
                base >= 2,
        ;
        assert(digit_char(0) == '0');
        assert(zeros(width as int) =~= zeros(width - 1).push('0'));
    } else {
        assert(zeros(0) =~= Seq::<char>::empty());
    }
}

/// Numbers of the same width stand in a dictionary as they count.
pub proof fn law_numbers_in_order(n: nat, m: nat, base: nat, width: nat)
    requires
        2 <= base <= 16,
        width >= 1,
        n < m < span(base, width),
    ensures
        precedes(padded_digits(n, base, width), padded_digits(m, base, width)),
        padded_digits(n, base, width).len() == width,
        padded_digits(m, base, width).len() == width,
{
    lemma_padded(n, base, width);
    lemma_padded(m, base, width);
    lemma_fixed_order(n, m, base, width);
}

proof fn lemma_fixed_order(n: nat, m: nat, base: nat, width: nat)
    requires
        2 <= base <= 16,
        n < m < span(base, width),
    ensures
        exists|k: int|
            #[trigger] parts_at(fixed(n, base, width), fixed(m, base, width), k),
        fixed(n, base, width).len() == width,
        fixed(m, base, width).len() == width,
    decreases width,
{
    if width > 0 {
        lemma_span(n, base, width);
        lemma_span(m, base, width);
        let w = (width - 1) as nat;
        let (p, q) = (fixed(n, base, width), fixed(m, base, width));
        let (a, b) = (fixed(n / base, base, w), fixed(m / base, base, w));
        assert(n / base <= m / base && (n / base == m / base ==> n % base < m % base))
            by (nonlinear_arith)
            requires
                n < m,
                base >= 2,
        ;
        lemma_fixed_len(n / base, base, w);
        lemma_fixed_len(m / base, base, w);
        if n / base < m / base {
            lemma_fixed_order(n / base, m / base, base, w);
            let k = choose|k: int| #[trigger] parts_at(a, b, k);
            assert forall|j: int| 0 <= j < k implies #[trigger] p[j] == q[j] by {
                assert(a[j] == b[j]);
            }
            assert(parts_at(p, q, k));
        } else {
            assert(parts_at(p, q, w as int));
        }
    }
}

/// Digits of a fixed width are that many.
pub proof fn lemma_fixed_len(n: nat, base: nat, width: nat)
    requires
        base > 0,
    ensures
        fixed(n, base, width).len() == width,
    decreases width,
{
    if width > 0 {
        lemma_fixed_len(n / base, base, (width - 1) as nat);
    }
}

/// The number that a text of decimal digits spells.
pub open spec fn spelled(s: Seq<char>) -> int
    decreases s.len(),
{
    if s.len() == 0 {
        0
    } else {
        10 * spelled(s.drop_last()) + (s.last() as int - 48)
    }
}

/// A decimal number of a fixed width is read back as it was.
pub proof fn law_numbers_read_back(n: nat, width: nat)
    requires
        width >= 1,
        n < span(10, width),
    ensures
        spelled(padded_digits(n, 10, width)) == n,
        padded_digits(n, 10, width).len() == width,
{
    lemma_padded(n, 10, width);
    lemma_spelled(n, width);
}

proof fn lemma_spelled(n: nat, width: nat)
    requires
        n < span(10, width),
    ensures
        spelled(fixed(n, 10, width)) == n,
    decreases width,
{
    if width > 0 {
        lemma_span(n, 10, width);
        let w = (width - 1) as nat;
        lemma_spelled(n / 10, w);
        assert(fixed(n, 10, width).drop_last() =~= fixed(n / 10, 10, w));
    }
}


/// The worth of a hexadecimal digit of either case.
pub open spec fn hex_worth(c: char) -> int {
    if 'a' <= c <= 'f' {
        c as int - 87
    } else if 'A' <= c <= 'F' {
        c as int - 55
    } else {
        c as int - 48
    }
}

/// The number that a text of hexadecimal digits spells.
pub open spec fn spelled_in_hex(s: Seq<char>) -> int
    decreases s.len(),
{
    if s.len() == 0 {
        0
    } else {
        16 * spelled_in_hex(s.drop_last()) + hex_worth(s.last())
    }
}

/// A decimal number is read back as it was, and has no needless zero before it.
pub proof fn law_decimals_read_back(n: nat)
    ensures
        spelled(digits(n, 10)) == n,
        digits(n, 10).len() > 0,
        n > 0 ==> digits(n, 10)[0] != '0',
        forall|i: int| 0 <= i < digits(n, 10).len() ==> '0' <= #[trigger] digits(n, 10)[i] <= '9',
    decreases n,
{
    let d = digits(n, 10);
    if n < 10 {
        assert(d.drop_last() =~= Seq::<char>::empty());
        assert(spelled(d.drop_last()) == 0);
    } else {
        law_decimals_read_back(n / 10);
        assert(d.drop_last() =~= digits(n / 10, 10));
    }
}

/// A signed number is read back as it was: a minus stands before its digits
/// where it is less than nothing, and nowhere else.
pub proof fn law_signed_numbers_read_back(i: int)
    ensures
        i >= 0 ==> spelled(int_text(i)) == i && int_text(i)[0] != '-',
        i < 0 ==> int_text(i)[0] == '-' && spelled(int_text(i).drop_first()) == -i,
{
    law_decimals_read_back(if i < 0 { (-i) as nat } else { i as nat });
    if i < 0 {
        assert(int_text(i).drop_first() =~= digits((-i) as nat, 10));
    }
}

/// An address is read back as it was, in either case, from six digits.
pub proof fn law_addresses_read_back(icao: u32)
    requires
        icao < 0x100_0000,
    ensures
        icao_text(icao).len() == 6,
        spelled_in_hex(icao_text(icao)) == icao,
        ascii_upper(icao_text(icao)).len() == 6,
        spelled_in_hex(ascii_upper(icao_text(icao))) == icao,
        forall|i: int|
            0 <= i < 6 ==> !('A' <= #[trigger] icao_text(icao)[i] <= 'Z') && !('a' <= ascii_upper(
                icao_text(icao),
            )[i] <= 'z'),
{
    reveal_with_fuel(span, 7);
    assert(span(16, 6) == 0x100_0000);
    lemma_padded(icao as nat, 16, 6);
    lemma_hex(icao as nat, 6);
    let (s, t) = (icao_text(icao), ascii_upper(icao_text(icao)));
    lemma_hex_upper(s);
    assert forall|i: int| 0 <= i < 6 implies !('A' <= #[trigger] s[i] <= 'Z') && !('a' <= t[i]
        <= 'z') by {
        assert(is_low_digit(s[i]));
    }
}

/// A hexadecimal digit in lower case.
pub open spec fn is_low_digit(c: char) -> bool {
    '0' <= c <= '9' || 'a' <= c <= 'f'
}

proof fn lemma_hex(n: nat, width: nat)
    requires
        n < span(16, width),
    ensures
        spelled_in_hex(fixed(n, 16, width)) == n,
        forall|i: int| 0 <= i < width ==> is_low_digit(#[trigger] fixed(n, 16, width)[i]),
        fixed(n, 16, width).len() == width,
    decreases width,
{
    if width > 0 {
        lemma_span(n, 16, width);
        let w = (width - 1) as nat;
        lemma_hex(n / 16, w);
        assert(fixed(n, 16, width).drop_last() =~= fixed(n / 16, 16, w));
    }
}

proof fn lemma_hex_upper(s: Seq<char>)
    requires
        forall|i: int| 0 <= i < s.len() ==> is_low_digit(#[trigger] s[i]),
    ensures
        spelled_in_hex(ascii_upper(s)) == spelled_in_hex(s),
    decreases s.len(),
{
    if s.len() > 0 {
        let rest = s.drop_last();
        assert forall|i: int| 0 <= i < rest.len() implies is_low_digit(#[trigger] rest[i]) by {
            assert(rest[i] == s[i]);
        }
        lemma_hex_upper(rest);
        assert(ascii_upper(s).drop_last() =~= ascii_upper(rest));
        assert(is_low_digit(s[s.len() - 1]));
    }
}

/// A share in tenths is read back: what is before the point in whole, and one
/// digit behind it.
pub proof fn law_tenths_read_back(n: nat)
    ensures
        ({
            let t = tenths(n);
            let k = t.len() - 2;
            &&& k > 0
            &&& t[k] == '.'
            &&& 10 * spelled(t.take(k)) + spelled(t.skip(k + 1)) == n
        }),
{
    law_decimals_read_back(n / 10);
    law_decimals_read_back(n % 10);
    let t = tenths(n);
    let (a, b) = (digits(n / 10, 10), digits(n % 10, 10));
    assert(b.len() == 1);
    assert(t.take(t.len() - 2) =~= a);
    assert(t.skip(t.len() - 1) =~= b);
}

} // verus!
