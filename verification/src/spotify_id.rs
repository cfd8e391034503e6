//! Spotify track identifiers: 128-bit numbers written as 32 hexadecimal
//! digits, 22 base-62 digits or 16 big-endian bytes, and 20-byte file ids.

use vstd::prelude::*;
use vstd::arithmetic::power::*;
use vstd::arithmetic::div_mod::*;
use vstd::string::StringSliceAdditionalSpecFns;
use byteorder::{BigEndian, ByteOrder};
use crate::digits::{
    lemma_parse_then_render, lemma_render_then_parse, lemma_numeral_fits, lemma_low_digits_shape,
    lemma_low_digits_value, lemma_low_digits_of_value, digits_below, lemma_numeral_prefix,
    lemma_prefix_value_le, lemma_render_order, lex_less, lemma_lex_less_concat,
    lemma_lex_less_push,
    digit_byte, digit_value, digits_value, is_numeral, lemma_low_digits_prepend, low_digits,
    numeral_digits, numeral_fits_u128, parse_numeral, render_numeral,
};
use crate::text::{ascii_chars, ascii_string, lemma_ascii_round_trip};
use vstd::utf8::{encode_utf8, encode_utf8_decode_utf8};

verus! {

/// A Spotify identifier, a 128-bit number.
#[derive(Debug, Copy, Clone, PartialEq, Eq, Hash, Structural)]
pub struct SpotifyId(u128);

/// The error of every conversion into a [`SpotifyId`] that fails.
#[derive(Debug, Copy, Clone, PartialEq, Eq, Hash, Structural)]
pub struct SpotifyIdError;

impl View for SpotifyId {
    type V = u128;

    closed spec fn view(&self) -> u128 {
        self.0
    }
}

/// The number that bytes write in big-endian order.
pub open spec fn be_value(bytes: Seq<u8>) -> nat {
    digits_value(256, bytes.map_values(|b: u8| b as nat))
}

/// The lowest `width` bytes of `n` in big-endian order.
pub open spec fn be_bytes(n: nat, width: nat) -> Seq<u8> {
    low_digits(256, n, width).map_values(|d: nat| d as u8)
}

/// `ByteOrder::read_u128` of `byteorder` for `BigEndian`: the number that the
/// first 16 bytes of `buf` write in big-endian order (it panics on fewer).
#[verifier::external_body]
fn read_u128_be(buf: &[u8]) -> (r: u128)
    requires
        buf@.len() >= 16,
    ensures
        r as nat == be_value(buf@.take(16)),
{
    BigEndian::read_u128(buf)
}

/// `ByteOrder::write_u128` of `byteorder` for `BigEndian`: stores `n` as 16
/// big-endian bytes.
#[verifier::external_body]
fn write_u128_be(buf: &mut [u8; 16], n: u128)
    ensures
        final(buf)@ == be_bytes(n as nat, 16),
{
    BigEndian::write_u128(buf, n)
}

/// The digit below `base` that byte `b` writes, if any.
fn digit_of(base: u8, b: u8) -> (r: Option<u8>)
    requires
        base <= 62,
    ensures
        match r {
            Some(d) => digit_value(base as nat, b) == Some(d as nat),
            None => digit_value(base as nat, b) is None,
        },
{
    let v: u8 = if 48 <= b && b <= 57 {
        b - 48
    } else if 97 <= b && b <= 122 {
        b - 97 + 10
    } else if 65 <= b && b <= 90 {
        b - 65 + 36
    } else {
        return None;
    };
    if v < base {
        Some(v)
    } else {
        None
    }
}

/// The byte that writes digit `d`.
fn byte_of_digit(d: u8) -> (r: u8)
    requires
        d < 62,
    ensures
        r == digit_byte(d as nat),
{
    if d < 10 {
        48 + d
    } else if d < 36 {
        97 + d - 10
    } else {
        65 + d - 36
    }
}

/// The number that the digits of `data` write, read from the most
/// significant end; `None` at the first byte that is no digit.
fn read_numeral(data: &[u8], base: u8) -> (r: Option<u128>)
    requires
        1 < base <= 62,
        numeral_fits_u128(base as nat, data@),
    ensures
        match r {
            Some(n) => parse_numeral(base as nat, data@) == Some(n as nat),
            None => parse_numeral(base as nat, data@) is None,
        },
{
    let ghost b = base as nat;
    let mut n: u128 = 0;
    let mut i: usize = 0;
    assert(numeral_digits(b, data@.take(0)) =~= Seq::<nat>::empty());
    while i < data.len()
        invariant
            1 < base <= 62,
            b == base as nat,
            0 <= i <= data@.len(),
            numeral_fits_u128(b, data@),
            is_numeral(b, data@.take(i as int)),
            n as nat == digits_value(b, numeral_digits(b, data@.take(i as int))),
        decreases data@.len() - i,
    {
        let c = data[i];
        match digit_of(base, c) {
            None => {
                assert(!is_numeral(b, data@)) by {
                    assert(digit_value(b, data@[i as int]) is None);
                }
                return None;
            },
            Some(d) => {
                let ghost prev = data@.take(i as int);
                let ghost next = data@.take(i + 1);
                assert(next =~= prev.push(c));
                assert(is_numeral(b, next)) by {
                    assert forall|j: int| 0 <= j < next.len() implies (#[trigger] digit_value(
                        b,
                        next[j],
                    )) is Some by {
                        if j < i {
                            assert(next[j] == prev[j]);
                        }
                    }
                }
                assert(numeral_digits(b, next) =~= numeral_digits(b, prev).push(d as nat));
                assert(numeral_digits(b, next).drop_last() =~= numeral_digits(b, prev));
                assert(digits_value(b, numeral_digits(b, next)) == n * b + d);
                assert(n * b + d <= u128::MAX);
                n = n * (base as u128) + (d as u128);
            },
        }
        i += 1;
    }
    assert(data@.take(data@.len() as int) =~= data@);
    Some(n)
}

/// Whether reading the digits of `data` stays within `u128`.
fn numeral_in_range(data: &[u8], base: u8) -> (r: bool)
    requires
        1 < base <= 62,
    ensures
        r == numeral_fits_u128(base as nat, data@),
{
    let ghost b = base as nat;
    let mut n: u128 = 0;
    let mut i: usize = 0;
    assert(numeral_digits(b, data@.take(0)) =~= Seq::<nat>::empty());
    while i < data.len()
        invariant
            1 < base <= 62,
            b == base as nat,
            0 <= i <= data@.len(),
            is_numeral(b, data@.take(i as int)),
            n as nat == digits_value(b, numeral_digits(b, data@.take(i as int))),
        decreases data@.len() - i,
    {
        let c = data[i];
        let ghost prev = data@.take(i as int);
        match digit_of(base, c) {
            None => {
                proof {
                    lemma_prefixes_in_range(b, data@, i as int);
                }
                return true;
            },
            Some(d) => {
                let ghost next = data@.take(i + 1);
                assert(next =~= prev.push(c));
                assert(is_numeral(b, next)) by {
                    assert forall|j: int| 0 <= j < next.len() implies (#[trigger] digit_value(
                        b,
                        next[j],
                    )) is Some by {
                        if j < i {
                            assert(next[j] == prev[j]);
                        }
                    }
                }
                assert(numeral_digits(b, next) =~= numeral_digits(b, prev).push(d as nat));
                assert(numeral_digits(b, next).drop_last() =~= numeral_digits(b, prev));
                assert(digits_value(b, numeral_digits(b, next)) == n * b + d);
                match n.checked_mul(base as u128) {
                    None => {
                        assert(!numeral_fits_u128(b, data@)) by {
                            assert(is_numeral(b, data@.take(i + 1)));
                        }
                        return false;
                    },
                    Some(p) => match p.checked_add(d as u128) {
                        None => {
                            assert(!numeral_fits_u128(b, data@)) by {
                                assert(is_numeral(b, data@.take(i + 1)));
                            }
                            return false;
                        },
                        Some(q) => {
                            n = q;
                        },
                    },
                }
            },
        }
        i += 1;
    }
    proof {
        lemma_prefixes_in_range(b, data@, i as int);
    }
    true
}

/// When the first `i` bytes of `s` are a numeral whose value fits and byte `i`
/// (if any) is no digit, `s` can be read within `u128`.
proof fn lemma_prefixes_in_range(b: nat, s: Seq<u8>, i: int)
    requires
        1 < b,
        0 <= i <= s.len(),
        is_numeral(b, s.take(i)),
        digits_value(b, numeral_digits(b, s.take(i))) <= u128::MAX,
        i < s.len() ==> digit_value(b, s[i]) is None,
    ensures
        numeral_fits_u128(b, s),
{
    assert forall|k: int| 0 <= k <= s.len() && #[trigger] is_numeral(b, s.take(k)) implies digits_value(
        b,
        numeral_digits(b, s.take(k)),
    ) <= u128::MAX by {
        if k > i {
            assert(s.take(k)[i] == s[i]);
        } else {
            lemma_numeral_prefix(b, s.take(i), k);
            assert(s.take(i).take(k) =~= s.take(k));
            lemma_prefix_value_le(b, numeral_digits(b, s.take(i)), k);
        }
    }
}

/// `n` written with exactly `width` digits of `base`, most significant first.
fn write_numeral(n: u128, base: u8, width: usize) -> (r: Vec<u8>)
    requires
        1 < base <= 62,
    ensures
        r@ == render_numeral(base as nat, n as nat, width as nat),
        r@.len() == width,
        forall|i: int| 0 <= i < r@.len() ==> #[trigger] r@[i] < 128,
{
    let ghost b = base as nat;
    let mut out: Vec<u8> = Vec::new();
    let mut m: u128 = n;
    let mut i: usize = 0;
    proof {
        reveal(pow);
        assert(render_numeral(b, n as nat, 0) =~= Seq::<u8>::empty());
    }
    while i < width
        invariant
            1 < base <= 62,
            b == base as nat,
            0 <= i <= width,
            out@ == render_numeral(b, n as nat, i as nat),
            out@.len() == i,
            pow(b as int, i as nat) > 0,
            m as int == n as int / pow(b as int, i as nat),
            forall|j: int| 0 <= j < out@.len() ==> #[trigger] out@[j] < 128,
        decreases width - i,
    {
        let d = (m % (base as u128)) as u8;
        let c = byte_of_digit(d);
        proof {
            lemma_low_digits_prepend(b, n as nat, i as nat);
            let top = ((n as int / pow(b as int, i as nat)) % b as int) as nat;
            assert(top == d as nat);
            assert(low_digits(b, n as nat, (i + 1) as nat) == seq![top] + low_digits(
                b,
                n as nat,
                i as nat,
            ));
            assert(render_numeral(b, n as nat, (i + 1) as nat) =~= seq![digit_byte(top)]
                + render_numeral(b, n as nat, i as nat));
        }
        out.insert(0, c);
        proof {
            reveal(pow);
            lemma_pow_positive(b as int, (i + 1) as nat);
            lemma_div_denominator(n as int, pow(b as int, i as nat), b as int);
            assert(pow(b as int, (i + 1) as nat) == b * pow(b as int, i as nat));
            assert(forall|j: int| 0 <= j < out@.len() ==> #[trigger] out@[j] < 128);
        }
        m = m / (base as u128);
        i += 1;
    }
    out
}

impl SpotifyId {
    /// Equal numbers are equal identifiers.
    pub proof fn lemma_view_injective(a: SpotifyId, b: SpotifyId)
        ensures
            a@ == b@ <==> a == b,
    {
    }

    /// Reads an identifier written in lowercase hexadecimal (`0-9a-f`), most
    /// significant digit first; any other byte is an error.
    pub fn from_base16(id: &str) -> (r: Result<SpotifyId, SpotifyIdError>)
        requires
            numeral_fits_u128(16, id.spec_bytes()),
        ensures
            match r {
                Ok(x) => parse_numeral(16, id.spec_bytes()) == Some(x@ as nat),
                Err(_) => parse_numeral(16, id.spec_bytes()) is None,
            },
    {
        let data = id.as_bytes();
        match read_numeral(data, 16) {
            None => Err(SpotifyIdError),
            Some(n) => Ok(SpotifyId(n)),
        }
    }

    /// Reads an identifier written in base 62 (`0-9`, then `a-z`, then
    /// `A-Z`), most significant digit first; any other byte is an error.
    pub fn from_base62(id: &str) -> (r: Result<SpotifyId, SpotifyIdError>)
        requires
            numeral_fits_u128(62, id.spec_bytes()),
        ensures
            match r {
                Ok(x) => parse_numeral(62, id.spec_bytes()) == Some(x@ as nat),
                Err(_) => parse_numeral(62, id.spec_bytes()) is None,
            },
    {
        let data = id.as_bytes();
        match read_numeral(data, 62) {
            None => Err(SpotifyIdError),
            Some(n) => Ok(SpotifyId(n)),
        }
    }

    /// Whether [`SpotifyId::from_base16`] can read `id` without leaving 128 bits.
    pub fn base16_in_range(id: &str) -> (r: bool)
        ensures
            r == numeral_fits_u128(16, id.spec_bytes()),
    {
        numeral_in_range(id.as_bytes(), 16)
    }

    /// Whether [`SpotifyId::from_base62`] can read `id` without leaving 128 bits.
    pub fn base62_in_range(id: &str) -> (r: bool)
        ensures
            r == numeral_fits_u128(62, id.spec_bytes()),
    {
        numeral_in_range(id.as_bytes(), 62)
    }

    /// Reads an identifier from exactly 16 big-endian bytes.
    pub fn from_raw(data: &[u8]) -> (r: Result<SpotifyId, SpotifyIdError>)
        ensures
            match r {
                Ok(x) => data@.len() == 16 && x@ as nat == be_value(data@),
                Err(_) => data@.len() != 16,
            },
    {
        if data.len() != 16 {
            return Err(SpotifyIdError);
        }
        let id = read_u128_be(data);
        assert(data@.take(16) =~= data@);
        Ok(SpotifyId(id))
    }

    /// The identifier as 32 lowercase hexadecimal digits.
    pub fn to_base16(&self) -> (r: String)
        ensures
            r@ == ascii_chars(render_numeral(16, self@ as nat, 32)),
            r@.len() == 32,
    {
        let digits = write_numeral(self.0, 16, 32);
        ascii_string(&digits)
    }

    /// The identifier as 22 base-62 digits.
    pub fn to_base62(&self) -> (r: String)
        ensures
            r@ == ascii_chars(render_numeral(62, self@ as nat, 22)),
            r@.len() == 22,
    {
        let digits = write_numeral(self.0, 62, 22);
        ascii_string(&digits)
    }

    /// The identifier as 16 big-endian bytes.
    pub fn to_raw(&self) -> (r: [u8; 16])
        ensures
            r@ == be_bytes(self@ as nat, 16),
    {
        let mut data = [0u8; 16];
        write_u128_be(&mut data, self.0);
        data
    }
}

/// Sixteen hexadecimal digits span every 128-bit number, and so do
/// twenty-two base-62 digits.
proof fn lemma_widths_span_u128()
    ensures
        pow(16, 32) == u128::MAX + 1,
        pow(62, 22) > u128::MAX,
{
    reveal_with_fuel(pow, 33);
}

/// Reading back the hexadecimal text of an identifier gives the identifier:
/// `from_base16(&id.to_base16())` is `Ok(id)`, and the text is in range.
pub proof fn lemma_base16_round_trip(id: SpotifyId)
    ensures
        encode_utf8(ascii_chars(render_numeral(16, id@ as nat, 32))) == render_numeral(
            16,
            id@ as nat,
            32,
        ),
        numeral_fits_u128(16, render_numeral(16, id@ as nat, 32)),
        parse_numeral(16, render_numeral(16, id@ as nat, 32)) == Some(id@ as nat),
{
    lemma_widths_span_u128();
    lemma_render_then_parse(16, id@ as nat, 32);
    lemma_ascii_round_trip(render_numeral(16, id@ as nat, 32));
}

/// The hexadecimal texts of identifiers (their UTF-8 bytes) are in the
/// order of the identifiers, and equal only for equal identifiers: for
/// `to_base16`, string order follows numeric order.
pub proof fn lemma_base16_order(a: SpotifyId, b: SpotifyId)
    ensures
        encode_utf8(ascii_chars(render_numeral(16, a@ as nat, 32))) == render_numeral(
            16,
            a@ as nat,
            32,
        ),
        a@ < b@ <==> lex_less(
            render_numeral(16, a@ as nat, 32),
            render_numeral(16, b@ as nat, 32),
        ),
        a == b <==> render_numeral(16, a@ as nat, 32) == render_numeral(16, b@ as nat, 32),
{
    lemma_widths_span_u128();
    lemma_base16_round_trip(a);
    lemma_render_order(16, a@ as nat, b@ as nat, 32);
    vstd::arithmetic::div_mod::lemma_small_mod(a@ as nat, pow(16, 32) as nat);
    vstd::arithmetic::div_mod::lemma_small_mod(b@ as nat, pow(16, 32) as nat);
    SpotifyId::lemma_view_injective(a, b);
}

/// Reading back the base-62 text of an identifier gives the identifier:
/// `from_base62(&id.to_base62())` is `Ok(id)`, and the text is in range.
pub proof fn lemma_base62_round_trip(id: SpotifyId)
    ensures
        encode_utf8(ascii_chars(render_numeral(62, id@ as nat, 22))) == render_numeral(
            62,
            id@ as nat,
            22,
        ),
        numeral_fits_u128(62, render_numeral(62, id@ as nat, 22)),
        parse_numeral(62, render_numeral(62, id@ as nat, 22)) == Some(id@ as nat),
{
    lemma_widths_span_u128();
    lemma_render_then_parse(62, id@ as nat, 22);
    lemma_ascii_round_trip(render_numeral(62, id@ as nat, 22));
}

/// A text of 32 hexadecimal digits is in range, and the identifier it
/// reads as writes that text back: `from_base16(s)?.to_base16() == s`.
pub proof fn lemma_base16_text_round_trip(text: Seq<char>)
    requires
        encode_utf8(text).len() == 32,
        parse_numeral(16, encode_utf8(text)) is Some,
    ensures
        numeral_fits_u128(16, encode_utf8(text)),
        parse_numeral(16, encode_utf8(text)).unwrap() <= u128::MAX,
        ascii_chars(render_numeral(16, parse_numeral(16, encode_utf8(text)).unwrap(), 32))
            == text,
{
    let bytes = encode_utf8(text);
    lemma_widths_span_u128();
    lemma_parse_then_render(16, bytes);
    lemma_numeral_fits(16, bytes);
    lemma_render_then_parse(16, parse_numeral(16, bytes).unwrap(), 32);
    lemma_ascii_round_trip(bytes);
    encode_utf8_decode_utf8(text);
    encode_utf8_decode_utf8(ascii_chars(bytes));
}

/// A text of 22 base-62 digits whose value fits in 128 bits reads as an
/// identifier that writes that text back: `from_base62(s)?.to_base62() == s`.
pub proof fn lemma_base62_text_round_trip(text: Seq<char>)
    requires
        encode_utf8(text).len() == 22,
        parse_numeral(62, encode_utf8(text)) matches Some(v) && v <= u128::MAX,
    ensures
        numeral_fits_u128(62, encode_utf8(text)),
        ascii_chars(render_numeral(62, parse_numeral(62, encode_utf8(text)).unwrap(), 22))
            == text,
{
    let bytes = encode_utf8(text);
    lemma_parse_then_render(62, bytes);
    lemma_numeral_fits(62, bytes);
    lemma_render_then_parse(62, parse_numeral(62, bytes).unwrap(), 22);
    lemma_ascii_round_trip(bytes);
    encode_utf8_decode_utf8(text);
    encode_utf8_decode_utf8(ascii_chars(bytes));
}

/// The raw bytes of an identifier read back as the identifier:
/// `from_raw(&id.to_raw())` is `Ok(id)`.
pub proof fn lemma_raw_round_trip(id: SpotifyId)
    ensures
        be_bytes(id@ as nat, 16).len() == 16,
        be_value(be_bytes(id@ as nat, 16)) == id@ as nat,
{
    let ds = low_digits(256, id@ as nat, 16);
    lemma_low_digits_shape(256, id@ as nat, 16);
    lemma_low_digits_value(256, id@ as nat, 16);
    reveal_with_fuel(pow, 17);
    vstd::arithmetic::div_mod::lemma_small_mod(id@ as nat, pow(256, 16) as nat);
    assert(be_bytes(id@ as nat, 16).map_values(|b: u8| b as nat) =~= ds) by {
        assert forall|i: int| 0 <= i < 16 implies #[trigger] ds[i] < 256 by {}
    }
}

/// Every 16 bytes are the raw bytes of the identifier they read as:
/// `from_raw(b)?.to_raw() == b`.
pub proof fn lemma_raw_bytes_round_trip(bytes: Seq<u8>)
    requires
        bytes.len() == 16,
    ensures
        be_value(bytes) <= u128::MAX,
        be_bytes(be_value(bytes), 16) == bytes,
{
    let ds = bytes.map_values(|b: u8| b as nat);
    assert(digits_below(256, ds));
    crate::digits::lemma_digits_value_bound(256, ds);
    reveal_with_fuel(pow, 17);
    lemma_low_digits_of_value(256, ds);
    assert(be_bytes(be_value(bytes), 16) =~= bytes);
}

/// The identifier of an audio file, 20 bytes.
#[derive(Copy, Clone, PartialEq, Eq, PartialOrd, Ord, Hash)]
pub struct FileId(pub [u8; 20]);

/// Each byte written as two lowercase hexadecimal digits, in order.
pub open spec fn hex_of_bytes(bytes: Seq<u8>) -> Seq<u8>
    decreases bytes.len(),
{
    if bytes.len() == 0 {
        Seq::empty()
    } else {
        hex_of_bytes(bytes.drop_last()) + render_numeral(16, bytes.last() as nat, 2)
    }
}

/// The two hexadecimal digits of a byte.
proof fn lemma_byte_hex(b: u8)
    ensures
        render_numeral(16, b as nat, 2) == seq![digit_byte(b as nat / 16), digit_byte(b as nat % 16)],
        b as nat / 16 < 16,
{
    let n = b as nat;
    assert(low_digits(16, n / 16 / 16, 0) =~= Seq::<nat>::empty());
    assert(n / 16 / 16 == 0);
    assert(low_digits(16, n / 16, 1) == low_digits(16, n / 16 / 16, 0).push((n / 16) % 16));
    assert(low_digits(16, n, 2) == low_digits(16, n / 16, 1).push(n % 16));
    assert(low_digits(16, n, 2) =~= seq![n / 16, n % 16]);
    assert(render_numeral(16, n, 2) =~= seq![digit_byte(n / 16), digit_byte(n % 16)]);
}

impl FileId {
    /// The file id as 40 lowercase hexadecimal digits, two per byte.
    pub fn to_base16(&self) -> (r: String)
        ensures
            r@ == ascii_chars(hex_of_bytes(self.0@)),
            r@.len() == 40,
    {
        let mut out: Vec<u8> = Vec::new();
        let mut i: usize = 0;
        while i < 20
            invariant
                0 <= i <= 20,
                out@ == hex_of_bytes(self.0@.take(i as int)),
                out@.len() == 2 * i,
                forall|j: int| 0 <= j < out@.len() ==> #[trigger] out@[j] < 128,
            decreases 20 - i,
        {
            let b = self.0[i];
            let hi = byte_of_digit(b / 16);
            let lo = byte_of_digit(b % 16);
            proof {
                lemma_byte_hex(b);
                assert(self.0@.take(i + 1).drop_last() =~= self.0@.take(i as int));
                assert(self.0@.take(i + 1).last() == b);
            }
            out.push(hi);
            out.push(lo);
            proof {
                assert(out@ =~= hex_of_bytes(self.0@.take(i + 1)));
            }
            i += 1;
        }
        assert(self.0@.take(20) =~= self.0@);
        ascii_string(&out)
    }
}

/// The hexadecimal text of bytes has two digits per byte, and the two digits
/// at each byte's place read back as that byte: the text determines the bytes.
pub proof fn lemma_hex_of_bytes(bytes: Seq<u8>, j: int)
    requires
        0 <= j < bytes.len(),
    ensures
        hex_of_bytes(bytes).len() == 2 * bytes.len(),
        parse_numeral(16, hex_of_bytes(bytes).subrange(2 * j, 2 * j + 2)) == Some(bytes[j] as nat),
    decreases bytes.len(),
{
    lemma_hex_len(bytes);
    let prev = bytes.drop_last();
    lemma_hex_len(prev);
    let last = render_numeral(16, bytes.last() as nat, 2);
    if j < bytes.len() - 1 {
        lemma_hex_of_bytes(prev, j);
        assert(hex_of_bytes(bytes).subrange(2 * j, 2 * j + 2) =~= hex_of_bytes(prev).subrange(
            2 * j,
            2 * j + 2,
        ));
    } else {
        assert(hex_of_bytes(bytes).subrange(2 * j, 2 * j + 2) =~= last);
        reveal_with_fuel(pow, 3);
        lemma_render_then_parse(16, bytes.last() as nat, 2);
    }
}

/// The hexadecimal text of bytes has two digits per byte.
proof fn lemma_hex_len(bytes: Seq<u8>)
    ensures
        hex_of_bytes(bytes).len() == 2 * bytes.len(),
    decreases bytes.len(),
{
    if bytes.len() > 0 {
        lemma_hex_len(bytes.drop_last());
        lemma_byte_hex(bytes.last());
    }
}

/// Writing a number with `2 * width` hexadecimal digits gives the
/// hexadecimal text of its `width` big-endian bytes.
pub proof fn lemma_hex_of_be_bytes(n: nat, width: nat)
    ensures
        render_numeral(16, n, 2 * width) == hex_of_bytes(be_bytes(n, width)),
    decreases width,
{
    if width == 0 {
        assert(render_numeral(16, n, 0) =~= Seq::<u8>::empty());
        assert(be_bytes(n, 0) =~= Seq::<u8>::empty());
        assert(hex_of_bytes(be_bytes(n, 0)) =~= Seq::<u8>::empty());
    } else {
        let w1 = (width - 1) as nat;
        lemma_hex_of_be_bytes(n / 256, w1);
        let prev = be_bytes(n / 256, w1);
        let last = (n % 256) as u8;
        assert(be_bytes(n, width) =~= prev.push(last));
        assert(prev.push(last).drop_last() =~= prev);
        assert(hex_of_bytes(be_bytes(n, width)) == hex_of_bytes(prev) + render_numeral(
            16,
            last as nat,
            2,
        ));
        lemma_byte_hex(last);
        lemma_div_denominator(n as int, 16, 16);
        lemma_mod_breakdown(n as int, 16, 16);
        let hi = (n / 16) % 16;
        let lo = n % 16;
        assert(n % 256 == 16 * hi + lo);
        lemma_fundamental_div_mod_converse((n % 256) as int, 16, hi as int, lo as int);
        assert(render_numeral(16, n, 2 * width) =~= render_numeral(16, n / 16, (2 * width - 1) as nat).push(
            digit_byte(n % 16),
        ));
        assert(render_numeral(16, n / 16, (2 * width - 1) as nat) =~= render_numeral(
            16,
            n / 16 / 16,
            2 * w1,
        ).push(digit_byte((n / 16) % 16)));
        assert(n / 16 / 16 == n / 256);
        assert(render_numeral(16, n, 2 * width) =~= hex_of_bytes(prev) + render_numeral(
            16,
            last as nat,
            2,
        ));
    }
}

/// The hexadecimal text of an identifier is its raw bytes written two
/// hexadecimal digits each: `to_base16` is the hex of `to_raw`.
pub proof fn lemma_base16_is_hex_of_raw(id: SpotifyId)
    ensures
        render_numeral(16, id@ as nat, 32) == hex_of_bytes(be_bytes(id@ as nat, 16)),
{
    lemma_hex_of_be_bytes(id@ as nat, 16);
}

/// The hexadecimal texts of equally long byte strings are in the
/// lexicographic order of the bytes, and equal only for equal bytes: the
/// text of a [`FileId`] orders as its bytes do.
pub proof fn lemma_hex_order(a: Seq<u8>, b: Seq<u8>)
    requires
        a.len() == b.len(),
    ensures
        lex_less(hex_of_bytes(a), hex_of_bytes(b)) <==> lex_less(a, b),
        hex_of_bytes(a) == hex_of_bytes(b) <==> a == b,
    decreases a.len(),
{
    if a.len() == 0 {
        assert(a =~= b);
    } else {
        let a1 = a.drop_last();
        let b1 = b.drop_last();
        lemma_hex_order(a1, b1);
        lemma_hex_len(a1);
        lemma_hex_len(b1);
        lemma_byte_hex(a.last());
        lemma_byte_hex(b.last());
        let ra = render_numeral(16, a.last() as nat, 2);
        let rb = render_numeral(16, b.last() as nat, 2);
        lemma_lex_less_concat(hex_of_bytes(a1), hex_of_bytes(b1), ra, rb);
        reveal_with_fuel(pow, 3);
        lemma_render_order(16, a.last() as nat, b.last() as nat, 2);
        vstd::arithmetic::div_mod::lemma_small_mod(a.last() as nat, 256);
        vstd::arithmetic::div_mod::lemma_small_mod(b.last() as nat, 256);
        lemma_lex_less_push(a, b);
        assert(a =~= a1.push(a.last()));
        assert(b =~= b1.push(b.last()));
    }
}

} // verus!
