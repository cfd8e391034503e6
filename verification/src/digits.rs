//! Positional numerals: the mathematical model behind every textual and
//! binary form of an identifier, with the facts that make the forms
//! interchangeable.

use vstd::prelude::*;
use vstd::arithmetic::power::*;
use vstd::arithmetic::div_mod::*;

verus! {

/// What a byte stands for as a digit of the alphabet `0-9`, `a-z`, `A-Z`,
/// restricted to the digits below `base` (base 16 keeps `0-9a-f`).
pub open spec fn digit_value(base: nat, b: u8) -> Option<nat> {
    let v: int = if 48 <= b <= 57 {
        b - 48
    } else if 97 <= b <= 122 {
        b - 97 + 10
    } else if 65 <= b <= 90 {
        b - 65 + 36
    } else {
        -1
    };
    if 0 <= v < base {
        Some(v as nat)
    } else {
        None
    }
}

/// The byte that writes digit `d` (below 62) in the alphabet `0-9`, `a-z`, `A-Z`.
pub open spec fn digit_byte(d: nat) -> u8 {
    if d < 10 {
        (48 + d) as u8
    } else if d < 36 {
        (97 + d - 10) as u8
    } else {
        (65 + d - 36) as u8
    }
}

/// Every byte of `s` is a digit below `base`.
pub open spec fn is_numeral(base: nat, s: Seq<u8>) -> bool {
    forall|i: int| 0 <= i < s.len() ==> (#[trigger] digit_value(base, s[i])) is Some
}

/// The digits that the bytes of `s` stand for.
pub open spec fn numeral_digits(base: nat, s: Seq<u8>) -> Seq<nat> {
    s.map_values(|b: u8| digit_value(base, b).unwrap())
}

/// The number that a sequence of digits writes, most significant digit first.
pub open spec fn digits_value(base: nat, ds: Seq<nat>) -> nat
    decreases ds.len(),
{
    if ds.len() == 0 {
        0
    } else {
        digits_value(base, ds.drop_last()) * base + ds.last()
    }
}

/// The lowest `width` digits of `n`, most significant first (zero-padded).
pub open spec fn low_digits(base: nat, n: nat, width: nat) -> Seq<nat>
    decreases width,
{
    if width == 0 || base == 0 {
        Seq::empty()
    } else {
        low_digits(base, n / base, (width - 1) as nat).push(n % base)
    }
}

/// The number a text of digits below `base` stands for, or `None` when a
/// byte of it is no such digit.
pub open spec fn parse_numeral(base: nat, s: Seq<u8>) -> Option<nat> {
    if is_numeral(base, s) {
        Some(digits_value(base, numeral_digits(base, s)))
    } else {
        None
    }
}

/// `n` written with exactly `width` digits of `base` (its lowest digits,
/// zero-padded on the left).
pub open spec fn render_numeral(base: nat, n: nat, width: nat) -> Seq<u8> {
    low_digits(base, n, width).map_values(|d: nat| digit_byte(d))
}

/// Reading `s` digit by digit never leaves the range of `u128`: each prefix
/// made of digits only has a value that fits.
pub open spec fn numeral_fits_u128(base: nat, s: Seq<u8>) -> bool {
    forall|k: int|
        0 <= k <= s.len() && #[trigger] is_numeral(base, s.take(k)) ==> digits_value(
            base,
            numeral_digits(base, s.take(k)),
        ) <= u128::MAX
}

/// All digits of `ds` are below `base`.
pub open spec fn digits_below(base: nat, ds: Seq<nat>) -> bool {
    forall|i: int| 0 <= i < ds.len() ==> #[trigger] ds[i] < base
}

/// The byte of a digit reads back as that digit.
pub proof fn lemma_digit_byte_value(base: nat, d: nat)
    requires
        d < base <= 62,
    ensures
        digit_value(base, digit_byte(d)) == Some(d),
{
}

/// A byte that reads as a digit is the byte of that digit.
pub proof fn lemma_digit_value_byte(base: nat, b: u8)
    requires
        base <= 62,
        digit_value(base, b) is Some,
    ensures
        digit_byte(digit_value(base, b).unwrap()) == b,
        digit_value(base, b).unwrap() < base,
{
}

/// The alphabet of digits is `0-9`, then `a-z`, then `A-Z`, each in its
/// usual order: digits 0, 10 and 36 are written `0`, `a` and `A`, and within
/// each of the three blocks the next digit is written by the next byte.
pub proof fn lemma_digit_alphabet(d: nat)
    ensures
        digit_byte(0) == 48u8,
        digit_byte(10) == 97u8,
        digit_byte(36) == 65u8,
        d + 1 < 62 && d + 1 != 10 && d + 1 != 36 ==> digit_byte(d + 1) == digit_byte(d) + 1,
{
}

/// Reading bytes follows the same alphabet: `0`, `a` and `A` are digits 0,
/// 10 and 36 in base 62, and within each block of `0-9`, `a-z` and `A-Z` the
/// next byte is the next digit.
pub proof fn lemma_digit_value_alphabet(b: u8)
    ensures
        digit_value(62, 48u8) == Some(0nat),
        digit_value(62, 97u8) == Some(10nat),
        digit_value(62, 65u8) == Some(36nat),
        (48 <= b < 57 || 97 <= b < 122 || 65 <= b < 90) ==> digit_value(62, b) is Some
            && digit_value(62, (b + 1) as u8) == Some(digit_value(62, b).unwrap() + 1),
{
}

/// The lowest digits of a number have the requested width and are digits.
pub proof fn lemma_low_digits_shape(base: nat, n: nat, width: nat)
    requires
        base > 0,
    ensures
        low_digits(base, n, width).len() == width,
        digits_below(base, low_digits(base, n, width)),
    decreases width,
{
    if width > 0 {
        lemma_low_digits_shape(base, n / base, (width - 1) as nat);
        let prev = low_digits(base, n / base, (width - 1) as nat);
        assert(low_digits(base, n, width) == prev.push(n % base));
        assert forall|i: int| 0 <= i < width implies #[trigger] low_digits(base, n, width)[i]
            < base by {
            if i < width - 1 {
                assert(low_digits(base, n, width)[i] == prev[i]);
            }
        }
    }
}

/// The lowest `width` digits of `n` write `n` modulo `base` to the `width`.
pub proof fn lemma_low_digits_value(base: nat, n: nat, width: nat)
    requires
        base > 0,
    ensures
        digits_value(base, low_digits(base, n, width)) == n as int % pow(base as int, width),
    decreases width,
{
    reveal(pow);
    if width == 0 {
        assert(n % 1 == 0);
    } else {
        let w1 = (width - 1) as nat;
        lemma_low_digits_value(base, n / base, w1);
        let prev = low_digits(base, n / base, w1);
        assert(low_digits(base, n, width).drop_last() == prev);
        lemma_pow_positive(base as int, w1);
        lemma_mod_breakdown(n as int, base as int, pow(base as int, w1));
        assert(pow(base as int, width) == base * pow(base as int, w1));
        assert(digits_value(base, low_digits(base, n, width)) == digits_value(base, prev) * base
            + n % base);
        assert((n / base) as int % pow(base as int, w1) * base == base * ((n as int / base as int)
            % pow(base as int, w1))) by (nonlinear_arith);
    }
}

/// Digits below `base` write a number below `base` to their count.
pub proof fn lemma_digits_value_bound(base: nat, ds: Seq<nat>)
    requires
        base > 0,
        digits_below(base, ds),
    ensures
        digits_value(base, ds) < pow(base as int, ds.len()),
    decreases ds.len(),
{
    reveal(pow);
    if ds.len() > 0 {
        let prev = ds.drop_last();
        assert(digits_below(base, prev)) by {
            assert forall|i: int| 0 <= i < prev.len() implies #[trigger] prev[i] < base by {
                assert(prev[i] == ds[i]);
            }
        }
        lemma_digits_value_bound(base, prev);
        let p = pow(base as int, prev.len());
        let v = digits_value(base, prev);
        let d = ds.last();
        assert(ds[ds.len() - 1] < base);
        assert(v * base + d < p * base) by (nonlinear_arith)
            requires
                v < p,
                d < base,
        ;
        assert(pow(base as int, ds.len()) == base * p);
    }
}

/// Writing the number of some digits with as many digits gives them back.
pub proof fn lemma_low_digits_of_value(base: nat, ds: Seq<nat>)
    requires
        base > 0,
        digits_below(base, ds),
    ensures
        low_digits(base, digits_value(base, ds), ds.len()) == ds,
    decreases ds.len(),
{
    if ds.len() > 0 {
        let prev = ds.drop_last();
        assert(digits_below(base, prev)) by {
            assert forall|i: int| 0 <= i < prev.len() implies #[trigger] prev[i] < base by {
                assert(prev[i] == ds[i]);
            }
        }
        lemma_low_digits_of_value(base, prev);
        let v = digits_value(base, prev);
        let d = ds.last();
        assert(ds[ds.len() - 1] < base);
        lemma_fundamental_div_mod_converse(
            digits_value(base, ds) as int,
            base as int,
            v as int,
            d as int,
        );
        assert(low_digits(base, digits_value(base, ds), ds.len()) =~= prev.push(d));
        assert(prev.push(d) =~= ds);
    }
}

/// The value of a prefix of digits never exceeds the value of all of them.
pub proof fn lemma_prefix_value_le(base: nat, ds: Seq<nat>, k: int)
    requires
        base > 0,
        0 <= k <= ds.len(),
    ensures
        digits_value(base, ds.take(k)) <= digits_value(base, ds),
    decreases ds.len(),
{
    if k == ds.len() {
        assert(ds.take(k) =~= ds);
    } else {
        let prev = ds.drop_last();
        lemma_prefix_value_le(base, prev, k);
        assert(prev.take(k) =~= ds.take(k));
        let v = digits_value(base, prev);
        assert(v <= v * base) by (nonlinear_arith)
            requires
                base > 0,
        ;
    }
}

/// Writing `width + 1` digits puts digit number `width` (from the least
/// significant end) in front of the lowest `width` digits.
pub proof fn lemma_low_digits_prepend(base: nat, n: nat, width: nat)
    requires
        base > 0,
    ensures
        pow(base as int, width) > 0,
        low_digits(base, n, width + 1) == seq![((n as int / pow(base as int, width)) % base as int)
            as nat] + low_digits(base, n, width),
    decreases width,
{
    reveal(pow);
    lemma_pow_positive(base as int, width);
    if width == 0 {
        assert(n as int / 1 == n);
        assert(low_digits(base, n / base, 0) =~= Seq::<nat>::empty());
        assert(low_digits(base, n, 1) == low_digits(base, n / base, 0).push(n % base));
        assert(low_digits(base, n, 1) =~= seq![n % base]);
        assert(low_digits(base, n, 0) =~= Seq::<nat>::empty());
        assert(seq![n % base] =~= seq![n % base] + Seq::<nat>::empty());
    } else {
        let w1 = (width - 1) as nat;
        lemma_low_digits_prepend(base, n / base, w1);
        lemma_pow_positive(base as int, w1);
        lemma_div_denominator(n as int, base as int, pow(base as int, w1));
        assert(pow(base as int, width) == base * pow(base as int, w1));
        let top = ((n as int / pow(base as int, width)) % base as int) as nat;
        assert(((n / base) as int / pow(base as int, w1)) == n as int / pow(base as int, width));
        let rest = low_digits(base, n / base, w1);
        assert(low_digits(base, n / base, width) == seq![top] + rest);
        assert(low_digits(base, n, width + 1) == low_digits(base, n / base, width).push(n % base));
        assert(low_digits(base, n, width) == rest.push(n % base));
        assert((seq![top] + rest).push(n % base) =~= seq![top] + rest.push(n % base));
    }
}

/// Every prefix of a numeral is a numeral, with the digits of the prefix.
pub proof fn lemma_numeral_prefix(base: nat, s: Seq<u8>, k: int)
    requires
        is_numeral(base, s),
        0 <= k <= s.len(),
    ensures
        is_numeral(base, s.take(k)),
        numeral_digits(base, s.take(k)) == numeral_digits(base, s).take(k),
{
    assert forall|i: int| 0 <= i < s.take(k).len() implies (#[trigger] digit_value(
        base,
        s.take(k)[i],
    )) is Some by {
        assert(s.take(k)[i] == s[i]);
    }
    assert(numeral_digits(base, s.take(k)) =~= numeral_digits(base, s).take(k));
}

/// A numeral whose value fits in `u128` can be read without leaving `u128`.
pub proof fn lemma_numeral_fits(base: nat, s: Seq<u8>)
    requires
        base > 0,
        parse_numeral(base, s) matches Some(v) && v <= u128::MAX,
    ensures
        numeral_fits_u128(base, s),
{
    assert forall|k: int| 0 <= k <= s.len() && #[trigger] is_numeral(base, s.take(k)) implies digits_value(
        base,
        numeral_digits(base, s.take(k)),
    ) <= u128::MAX by {
        lemma_numeral_prefix(base, s, k);
        lemma_prefix_value_le(base, numeral_digits(base, s), k);
    }
}

/// Writing a number below `base` to the `width` with `width` digits gives
/// ASCII digits that read back as that number.
pub proof fn lemma_render_then_parse(base: nat, n: nat, width: nat)
    requires
        1 < base <= 62,
        n < pow(base as int, width),
    ensures
        render_numeral(base, n, width).len() == width,
        forall|i: int|
            0 <= i < width ==> #[trigger] render_numeral(base, n, width)[i] < 128,
        parse_numeral(base, render_numeral(base, n, width)) == Some(n),
        n <= u128::MAX ==> numeral_fits_u128(base, render_numeral(base, n, width)),
{
    let ds = low_digits(base, n, width);
    let text = render_numeral(base, n, width);
    lemma_low_digits_shape(base, n, width);
    lemma_low_digits_value(base, n, width);
    lemma_small_mod(n, pow(base as int, width) as nat);
    assert forall|i: int| 0 <= i < width implies #[trigger] text[i] < 128 && digit_value(
        base,
        text[i],
    ) == Some(ds[i]) by {
        assert(text[i] == digit_byte(ds[i]));
        assert(ds[i] < base);
        lemma_digit_byte_value(base, ds[i]);
    }
    assert(is_numeral(base, text));
    assert(numeral_digits(base, text) =~= ds);
    if n <= u128::MAX {
        lemma_numeral_fits(base, text);
    }
}

/// Reading a numeral and writing its value back with as many digits gives
/// the numeral back; its value is below `base` to its length.
pub proof fn lemma_parse_then_render(base: nat, s: Seq<u8>)
    requires
        1 < base <= 62,
        parse_numeral(base, s) is Some,
    ensures
        parse_numeral(base, s).unwrap() < pow(base as int, s.len()),
        render_numeral(base, parse_numeral(base, s).unwrap(), s.len()) == s,
{
    let ds = numeral_digits(base, s);
    assert forall|i: int| 0 <= i < ds.len() implies #[trigger] ds[i] < base by {
        assert(digit_value(base, s[i]) is Some);
        lemma_digit_value_byte(base, s[i]);
    }
    lemma_digits_value_bound(base, ds);
    lemma_low_digits_of_value(base, ds);
    let text = render_numeral(base, digits_value(base, ds), s.len());
    assert forall|i: int| 0 <= i < s.len() implies #[trigger] text[i] == s[i] by {
        assert(digit_value(base, s[i]) is Some);
        lemma_digit_value_byte(base, s[i]);
    }
    assert(text =~= s);
}

/// Byte strings in lexicographic order, the order of `str` and `[u8]`: at
/// the first place where they differ the first has the smaller byte, or it
/// is a proper prefix of the second.
pub open spec fn lex_less(x: Seq<u8>, y: Seq<u8>) -> bool {
    (exists|i: int|
        0 <= i < x.len() && i < y.len() && #[trigger] x.take(i) == y.take(i) && x[i] < y[i]) || (
    x.len() < y.len() && y.take(x.len() as int) == x)
}

/// For strings of one length, lexicographic order is decided by all but the
/// last byte, and by the last byte where the rest is equal.
pub proof fn lemma_lex_less_push(x: Seq<u8>, y: Seq<u8>)
    requires
        x.len() == y.len(),
        x.len() > 0,
    ensures
        lex_less(x, y) <==> lex_less(x.drop_last(), y.drop_last()) || (x.drop_last()
            == y.drop_last() && x.last() < y.last()),
{
    let n = x.len() as int;
    let x1 = x.drop_last();
    let y1 = y.drop_last();
    if lex_less(x, y) {
        let i = choose|i: int|
            0 <= i < x.len() && i < y.len() && #[trigger] x.take(i) == y.take(i) && x[i] < y[i];
        if i < n - 1 {
            assert(x1.take(i) =~= x.take(i));
            assert(y1.take(i) =~= y.take(i));
            assert(x1[i] == x[i] && y1[i] == y[i]);
            assert(lex_less(x1, y1));
        } else {
            assert(x1 =~= x.take(i));
            assert(y1 =~= y.take(i));
        }
    }
    if lex_less(x1, y1) {
        let i = choose|i: int|
            0 <= i < x1.len() && i < y1.len() && #[trigger] x1.take(i) == y1.take(i) && x1[i]
                < y1[i];
        assert(x1.take(i) =~= x.take(i));
        assert(y1.take(i) =~= y.take(i));
        assert(x.take(i) == y.take(i) && x[i] < y[i]);
    }
    if x1 == y1 && x.last() < y.last() {
        assert(x.take(n - 1) =~= x1);
        assert(y.take(n - 1) =~= y1);
        assert(x.take(n - 1) == y.take(n - 1) && x[n - 1] < y[n - 1]);
    }
}

/// Numbers written with `width` digits of a base up to 36 are in the order
/// of their texts, and equal exactly where their texts are.
pub proof fn lemma_render_order(base: nat, n: nat, m: nat, width: nat)
    requires
        1 < base <= 36,
    ensures
        pow(base as int, width) > 0,
        n as int % pow(base as int, width) < m as int % pow(base as int, width) <==> lex_less(
            render_numeral(base, n, width),
            render_numeral(base, m, width),
        ),
        n as int % pow(base as int, width) == m as int % pow(base as int, width) <==> render_numeral(
            base,
            n,
            width,
        ) == render_numeral(base, m, width),
    decreases width,
{
    reveal(pow);
    lemma_pow_positive(base as int, width);
    let rn = render_numeral(base, n, width);
    let rm = render_numeral(base, m, width);
    if width == 0 {
        assert(rn =~= Seq::<u8>::empty());
        assert(rm =~= Seq::<u8>::empty());
        assert(!lex_less(rn, rm));
    } else {
        let w1 = (width - 1) as nat;
        lemma_render_order(base, n / base, m / base, w1);
        let p = pow(base as int, w1);
        lemma_pow_positive(base as int, w1);
        assert(pow(base as int, width) == base * p);
        lemma_mod_breakdown(n as int, base as int, p);
        lemma_mod_breakdown(m as int, base as int, p);
        let nn = (n / base) as int % p;
        let mm = (m / base) as int % p;
        let d = n % base;
        let e = m % base;
        let rn1 = render_numeral(base, n / base, w1);
        let rm1 = render_numeral(base, m / base, w1);
        assert(rn =~= rn1.push(digit_byte(d)));
        assert(rm =~= rm1.push(digit_byte(e)));
        lemma_low_digits_shape(base, n / base, w1);
        lemma_low_digits_shape(base, m / base, w1);
        assert(rn.drop_last() =~= rn1);
        assert(rm.drop_last() =~= rm1);
        lemma_lex_less_push(rn, rm);
        assert(d < e <==> digit_byte(d) < digit_byte(e));
        assert(d == e <==> digit_byte(d) == digit_byte(e));
        assert(rn == rm <==> rn1 == rm1 && digit_byte(d) == digit_byte(e)) by {
            if rn == rm {
                assert(rn.drop_last() == rm.drop_last());
                assert(rn.last() == rm.last());
            }
        }
        assert(base * nn + d < base * mm + e <==> nn < mm || (nn == mm && d < e))
            by (nonlinear_arith)
            requires
                d < base,
                e < base,
                0 <= nn,
                0 <= mm,
        ;
        assert(base * nn + d == base * mm + e <==> nn == mm && d == e) by (nonlinear_arith)
            requires
                d < base,
                e < base,
                0 <= nn,
                0 <= mm,
        ;
    }
}

/// For joined strings whose parts have matching lengths, lexicographic
/// order is decided by the first parts, and by the second where the first
/// are equal.
pub proof fn lemma_lex_less_concat(a: Seq<u8>, b: Seq<u8>, c: Seq<u8>, d: Seq<u8>)
    requires
        a.len() == b.len(),
        c.len() == d.len(),
    ensures
        lex_less(a + c, b + d) <==> lex_less(a, b) || (a == b && lex_less(c, d)),
        a + c == b + d <==> a == b && c == d,
    decreases c.len(),
{
    if a + c == b + d {
        assert(a =~= (a + c).take(a.len() as int));
        assert(b =~= (b + d).take(b.len() as int));
        assert(c =~= (a + c).skip(a.len() as int));
        assert(d =~= (b + d).skip(b.len() as int));
    }
    if c.len() == 0 {
        assert(a + c =~= a);
        assert(b + d =~= b);
        assert(!lex_less(c, d));
    } else {
        let c1 = c.drop_last();
        let d1 = d.drop_last();
        lemma_lex_less_concat(a, b, c1, d1);
        assert((a + c).drop_last() =~= a + c1);
        assert((b + d).drop_last() =~= b + d1);
        assert((a + c).last() == c.last());
        assert((b + d).last() == d.last());
        lemma_lex_less_push(a + c, b + d);
        lemma_lex_less_push(c, d);
        assert(c =~= c1.push(c.last()));
        assert(d =~= d1.push(d.last()));
    }
}

/// A leading `0` digit adds nothing to the value of a digit sequence.
proof fn lemma_leading_zero_value(base: nat, ds: Seq<nat>)
    ensures
        digits_value(base, seq![0nat] + ds) == digits_value(base, ds),
    decreases ds.len(),
{
    let z = seq![0nat] + ds;
    if ds.len() == 0 {
        assert(z.drop_last() =~= Seq::<nat>::empty());
        assert(z.last() == 0);
        assert(0 * base == 0) by (nonlinear_arith);
        assert(digits_value(base, z) == digits_value(base, z.drop_last()) * base + z.last());
        assert(digits_value(base, Seq::<nat>::empty()) == 0);
    } else {
        assert(z.drop_last() =~= seq![0nat] + ds.drop_last());
        assert(z.last() == ds.last());
        lemma_leading_zero_value(base, ds.drop_last());
        assert(digits_value(base, z) == digits_value(base, z.drop_last()) * base + z.last());
        assert(digits_value(base, ds) == digits_value(base, ds.drop_last()) * base + ds.last());
    }
}

/// A numeral reads the same with a `0` put in front of it: so do
/// `SpotifyId::from_base16` and `SpotifyId::from_base62`.
pub proof fn lemma_leading_zero(base: nat, s: Seq<u8>)
    requires
        base >= 1,
    ensures
        parse_numeral(base, seq![48u8] + s) == parse_numeral(base, s),
{
    let z = seq![48u8] + s;
    assert(digit_value(base, 48u8) == Some(0nat));
    if is_numeral(base, s) {
        assert forall|i: int| 0 <= i < z.len() implies (#[trigger] digit_value(base, z[i])) is Some by {
            if i > 0 {
                assert(z[i] == s[i - 1]);
            }
        }
        assert(numeral_digits(base, z) =~= seq![0nat] + numeral_digits(base, s));
        lemma_leading_zero_value(base, numeral_digits(base, s));
    }
    if is_numeral(base, z) {
        assert forall|i: int| 0 <= i < s.len() implies (#[trigger] digit_value(base, s[i])) is Some by {
            assert(z[i + 1] == s[i]);
        }
    }
}

} // verus!
