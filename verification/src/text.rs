//! Text building blocks: decimal and hexadecimal numbers, zero padding,
//! joined lists.

use vstd::prelude::*;
use crate::binary::Double;
use crate::clock::SECOND_FS;

verus! {

/// `String::push`: the character goes to the end of the string.
pub assume_specification[ String::push ](s: &mut String, ch: char)
    ensures
        final(s)@ == old(s)@.push(ch),
;

/// The character of one digit, in lower case above nine.
pub open spec fn digit_char(d: nat) -> char
    recommends
        d < 16,
{
    if d < 10 {
        (48 + d) as char
    } else {
        (87 + d) as char
    }
}

/// `n` written in base `base`, without leading zeros; zero is one digit.
pub open spec fn digits(n: nat, base: nat) -> Seq<char>
    decreases n,
{
    if base < 2 || n < base {
        seq![digit_char(n)]
    } else {
        proof {
            assert(n / base < n) by (nonlinear_arith)
                requires
                    n >= base,
                    base >= 2,
            ;
        }
        digits(n / base, base).push(digit_char(n % base))
    }
}

/// `n` zeros.
pub open spec fn zeros(n: int) -> Seq<char> {
    Seq::new(if n < 0 { 0 } else { n as nat }, |i: int| '0')
}

/// `n` in base `base`, with leading zeros up to `width` characters.
pub open spec fn padded_digits(n: nat, base: nat, width: nat) -> Seq<char> {
    zeros(width - digits(n, base).len()) + digits(n, base)
}

/// A signed decimal number.
pub open spec fn int_text(i: int) -> Seq<char> {
    if i < 0 {
        seq!['-'] + digits((-i) as nat, 10)
    } else {
        digits(i as nat, 10)
    }
}

/// A signed decimal number with zeros up to `width` characters; the sign
/// counts as one of them and stands before the zeros.
pub open spec fn padded_int(i: int, width: nat) -> Seq<char> {
    if i < 0 {
        seq!['-'] + padded_digits((-i) as nat, 10, if width == 0 { 0 } else { (width - 1) as nat })
    } else {
        padded_digits(i as nat, 10, width)
    }
}

/// The texts of `list` in order with `sep` between neighbours.
pub open spec fn joined(list: Seq<Seq<char>>, sep: Seq<char>) -> Seq<char>
    decreases list.len(),
{
    if list.len() == 0 {
        Seq::empty()
    } else if list.len() == 1 {
        list[0]
    } else {
        joined(list.drop_last(), sep) + sep + list.last()
    }
}

/// The contents of a sequence of strings.
pub open spec fn texts(list: Seq<String>) -> Seq<Seq<char>> {
    list.map_values(|s: String| s@)
}

fn digit(d: u128) -> (c: char)
    requires
        d < 16,
    ensures
        c == digit_char(d as nat),
{
    if d < 10 {
        (48 + d) as u8 as char
    } else {
        (87 + d) as u8 as char
    }
}

/// Writes `n` in base `base`.
pub fn write_digits(n: u128, base: u128) -> (r: String)
    requires
        2 <= base <= 16,
    ensures
        r@ == digits(n as nat, base as nat),
    decreases n,
{
    let mut out = String::new();
    if n < base {
        out.push(digit(n));
        assert(out@ =~= seq![digit_char(n as nat)]);
        out
    } else {
        assert(n / base < n) by (nonlinear_arith)
            requires
                n >= base,
                base >= 2,
        ;
        assert(n % base < base) by (nonlinear_arith)
            requires
                base >= 2,
        ;
        let mut head = write_digits(n / base, base);
        head.push(digit(n % base));
        head
    }
}

/// Appends `n` zeros.
fn push_zeros(out: &mut String, n: usize)
    ensures
        final(out)@ == old(out)@ + zeros(n as int),
{
    let ghost before = out@;
    let mut i: usize = 0;
    while i < n
        invariant
            i <= n,
            out@ == before + zeros(i as int),
        decreases n - i,
    {
        out.push('0');
        i = i + 1;
        assert(out@ =~= before + zeros(i as int));
    }
}

/// Writes `n` in base `base` with leading zeros up to `width` characters.
pub fn write_padded_digits(n: u64, base: u64, width: usize) -> (r: String)
    requires
        2 <= base <= 16,
    ensures
        r@ == padded_digits(n as nat, base as nat, width as nat),
{
    let body = write_digits(n as u128, base as u128);
    let have: usize = body.as_str().unicode_len();
    let mut out = String::new();
    if have < width {
        push_zeros(&mut out, width - have);
    }
    out.append(body.as_str());
    assert(out@ =~= padded_digits(n as nat, base as nat, width as nat));
    out
}

/// The magnitude of a number.
fn magnitude(i: i64) -> (r: u64)
    ensures
        r as int == if i < 0 { -(i as int) } else { i as int },
{
    if i >= 0 {
        i as u64
    } else if i == i64::MIN {
        9_223_372_036_854_775_808u64
    } else {
        (-i) as u64
    }
}

/// Writes a signed decimal number.
pub fn write_int(i: i64) -> (r: String)
    ensures
        r@ == int_text(i as int),
{
    let body = write_digits(magnitude(i) as u128, 10);
    if i < 0 {
        let mut out = String::new();
        out.push('-');
        out.append(body.as_str());
        assert(out@ =~= int_text(i as int));
        out
    } else {
        body
    }
}

/// Writes a signed decimal number with zeros up to `width` characters.
pub fn write_padded_int(i: i64, width: usize) -> (r: String)
    ensures
        r@ == padded_int(i as int, width as nat),
{
    if i < 0 {
        let inner: usize = if width == 0 { 0 } else { width - 1 };
        let body = write_padded_digits(magnitude(i), 10, inner);
        let mut out = String::new();
        out.push('-');
        out.append(body.as_str());
        assert(out@ =~= padded_int(i as int, width as nat));
        out
    } else {
        write_padded_digits(magnitude(i), 10, width)
    }
}

/// Joins the strings of `list` with `sep` between neighbours.
pub fn join(list: &Vec<String>, sep: &str) -> (r: String)
    ensures
        r@ == joined(texts(list@), sep@),
{
    let mut out = String::new();
    let mut i: usize = 0;
    while i < list.len()
        invariant
            i <= list.len(),
            out@ == joined(texts(list@).take(i as int), sep@),
        decreases list.len() - i,
    {
        proof {
            let upto = texts(list@).take(i + 1);
            assert(upto.drop_last() =~= texts(list@).take(i as int));
            assert(upto.last() == list@[i as int]@);
        }
        if i > 0 {
            out.append(sep);
        }
        out.append(list[i].as_str());
        proof {
            let upto = texts(list@).take(i + 1);
            if i == 0 {
                assert(out@ =~= upto[0]);
            }
        }
        i = i + 1;
    }
    assert(texts(list@).take(list@.len() as int) =~= texts(list@));
    out
}

/// Whether two texts are the same.
pub fn same_text(a: &str, b: &str) -> (r: bool)
    ensures
        r == (a@ == b@),
{
    a.to_owned() == b.to_owned()
}

/// `s` starts with `prefix`.
pub open spec fn begins_with(s: Seq<char>, prefix: Seq<char>) -> bool {
    prefix.len() <= s.len() && s.take(prefix.len() as int) == prefix
}

/// Whether `s` starts with `prefix`.
pub fn starts_with(s: &str, prefix: &str) -> (r: bool)
    ensures
        r == begins_with(s@, prefix@),
{
    let n: usize = prefix.unicode_len();
    if n <= s.unicode_len() {
        same_text(s.substring_char(0, n), prefix)
    } else {
        false
    }
}

/// Whether `c` occurs in `s`.
pub fn has_char(s: &str, c: char) -> (r: bool)
    ensures
        r == s@.contains(c),
{
    let n: usize = s.unicode_len();
    let mut i: usize = 0;
    while i < n
        invariant
            i <= n,
            n == s@.len(),
            forall|k: int| 0 <= k < i ==> s@[k] != c,
        decreases n - i,
    {
        if s.get_char(i) == c {
            return true;
        }
        i = i + 1;
    }
    false
}

/// Whether `s` is one of `list`.
pub fn lists(list: &Vec<String>, s: &str) -> (r: bool)
    ensures
        r == texts(list@).contains(s@),
{
    let mut i: usize = 0;
    while i < list.len()
        invariant
            i <= list@.len(),
            forall|k: int| 0 <= k < i ==> (#[trigger] list@[k])@ != s@,
        decreases list@.len() - i,
    {
        if same_text(list[i].as_str(), s) {
            assert(texts(list@)[i as int] == s@);
            return true;
        }
        i = i + 1;
    }
    proof {
        if texts(list@).contains(s@) {
            let k = choose|k: int| 0 <= k < texts(list@).len() && texts(list@)[k] == s@;
            assert(list@[k]@ == s@);
        }
    }
    false
}

/// `true` or `false`.
pub open spec fn bool_text(b: bool) -> Seq<char> {
    if b {
        "true"@
    } else {
        "false"@
    }
}

/// Writes `true` or `false`.
pub fn write_bool(b: bool) -> (r: &'static str)
    ensures
        r@ == bool_text(b),
{
    if b {
        "true"
    } else {
        "false"
    }
}

/// A number of thousandths with three decimals.
pub open spec fn thousandths(n: nat) -> Seq<char> {
    digits(n / 1000, 10) + seq!['.'] + padded_digits(n % 1000, 10, 3)
}

/// The magnitude of a number.
pub open spec fn size(i: int) -> nat {
    if i < 0 {
        (-i) as nat
    } else {
        i as nat
    }
}

/// A time in seconds with three decimals, given in femtoseconds: the double
/// nearest to it is what is rounded.
pub open spec fn stamp_text(fs: int) -> Seq<char> {
    (if fs < 0 {
        seq!['-']
    } else {
        Seq::empty()
    }) + thousandths(Double::of(size(fs) as int, SECOND_FS as int).in_parts(1000) as nat)
}

fn size_of(i: i128) -> (r: u128)
    ensures
        r == size(i as int),
        r <= 0x8000_0000_0000_0000_0000_0000_0000_0000,
{
    if i >= 0 {
        i as u128
    } else {
        (-(i + 1)) as u128 + 1
    }
}

/// Writes a time in seconds with three decimals, given in femtoseconds.
pub fn write_stamp(fs: i128) -> (r: String)
    ensures
        r@ == stamp_text(fs as int),
{
    let millis: u128 = Double::ratio(size_of(fs), SECOND_FS as u128).find_parts(1000);
    let mut out = String::new();
    if fs < 0 {
        out.push('-');
    }
    out.append(write_digits(millis / 1000, 10).as_str());
    out.push('.');
    out.append(write_padded_digits((millis % 1000) as u64, 10, 3).as_str());
    assert(out@ =~= stamp_text(fs as int));
    out
}

/// A number of tenths with one decimal.
pub open spec fn tenths(n: nat) -> Seq<char> {
    digits(n / 10, 10) + seq!['.'] + digits(n % 10, 10)
}

/// Writes a number of tenths with one decimal.
pub fn write_tenths(n: u64) -> (r: String)
    ensures
        r@ == tenths(n as nat),
{
    let mut out = write_digits((n / 10) as u128, 10);
    out.push('.');
    out.append(write_digits((n % 10) as u128, 10).as_str());
    assert(out@ =~= tenths(n as nat));
    out
}

/// ASCII letters in upper case, everything else as it is.
pub open spec fn ascii_upper(s: Seq<char>) -> Seq<char> {
    s.map_values(|c: char| if 'a' <= c <= 'z' { (c as u32 - 32) as char } else { c })
}

/// Writes ASCII letters in upper case.
pub fn upper(s: &str) -> (r: String)
    ensures
        r@ == ascii_upper(s@),
{
    let mut out = String::new();
    let n: usize = s.unicode_len();
    let mut i: usize = 0;
    while i < n
        invariant
            i <= n,
            n == s@.len(),
            out@ == ascii_upper(s@).take(i as int),
        decreases n - i,
    {
        let c: char = s.get_char(i);
        if 'a' <= c && c <= 'z' {
            out.push((c as u8 - 32) as char);
        } else {
            out.push(c);
        }
        i = i + 1;
        assert(out@ =~= ascii_upper(s@).take(i as int));
    }
    assert(out@ =~= ascii_upper(s@));
    out
}

/// An aircraft address: six hexadecimal digits in lower case.
pub open spec fn icao_text(icao: u32) -> Seq<char> {
    padded_digits(icao as nat, 16, 6)
}

/// Writes an aircraft address.
pub fn write_icao(icao: u32) -> (r: String)
    ensures
        r@ == icao_text(icao),
{
    write_padded_digits(icao as u64, 16, 6)
}

} // verus!
