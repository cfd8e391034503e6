//! The dates on which `dateparser` gives up with a panic: those whose format
//! carries a time-zone part at the end that reads as a numeric offset of
//! 24 hours or more. The formats are those of its parsers `ymd_z`,
//! `ymd_hms_z`, `hms_z` and `month_mdy_hms_z`, the only ones that read an
//! offset; the offset panics in chrono's `FixedOffset::east`.

use vstd::prelude::*;

verus! {

/// A character of Unicode's `White_Space` property (regex `\s`, `str::trim`).
pub open spec fn is_white_space(c: char) -> bool {
    ('\u{9}' <= c <= '\u{d}') || c == ' ' || c == '\u{85}' || c == '\u{a0}' || c == '\u{1680}' || (
    '\u{2000}' <= c <= '\u{200a}') || c == '\u{2028}' || c == '\u{2029}' || c == '\u{202f}' || c
        == '\u{205f}' || c == '\u{3000}'
}

/// An ASCII decimal digit.
pub open spec fn is_decimal_char(c: char) -> bool {
    '0' <= c <= '9'
}

/// An ASCII letter.
pub open spec fn is_ascii_letter(c: char) -> bool {
    ('a' <= c <= 'z') || ('A' <= c <= 'Z')
}

/// A character that a time-zone part may hold (`[+-:a-zA-Z0-9]`, where
/// `+-:` is the range from `+` to `:`).
pub open spec fn is_zone_char(c: char) -> bool {
    ('+' <= c <= ':') || is_ascii_letter(c)
}

/// Kinds of characters that runs are made of.
#[derive(Copy, Clone, PartialEq, Eq, Structural)]
pub enum CharClass {
    WhiteSpace,
    Digit,
    Letter,
}

/// The character is of the kind.
pub open spec fn in_class(c: char, class: CharClass) -> bool {
    match class {
        CharClass::WhiteSpace => is_white_space(c),
        CharClass::Digit => is_decimal_char(c),
        CharClass::Letter => is_ascii_letter(c),
    }
}

/// The number of characters of a kind from position `i` on, before `n`.
pub open spec fn class_run(s: Seq<char>, n: int, i: int, class: CharClass) -> int
    decreases n - i,
{
    if 0 <= i < n && i < s.len() && in_class(s[i], class) {
        1 + class_run(s, n, i + 1, class)
    } else {
        0
    }
}

/// Position `i` (before `n`) holds a digit.
pub open spec fn digit_at(s: Seq<char>, n: int, i: int) -> bool {
    0 <= i < n && i < s.len() && is_decimal_char(s[i])
}

/// Position `i` (before `n`) holds `c`.
pub open spec fn char_at(s: Seq<char>, n: int, i: int, c: char) -> bool {
    0 <= i < n && i < s.len() && s[i] == c
}

/// From `i` to `n` there is only white space.
pub open spec fn white_to_end(s: Seq<char>, n: int, i: int) -> bool {
    i + class_run(s, n, i, CharClass::WhiteSpace) == n
}

/// `[0-9]{4}-[0-9]{2}-[0-9]{2}` at the start.
pub open spec fn starts_with_date(s: Seq<char>, n: int) -> bool {
    digit_at(s, n, 0) && digit_at(s, n, 1) && digit_at(s, n, 2) && digit_at(s, n, 3) && char_at(
        s,
        n,
        4,
        '-',
    ) && digit_at(s, n, 5) && digit_at(s, n, 6) && char_at(s, n, 7, '-') && digit_at(s, n, 8)
        && digit_at(s, n, 9)
}

/// Where `:[0-9]{2}` ends if it is at `i`, else `i`.
pub open spec fn seconds_end(s: Seq<char>, n: int, i: int) -> int {
    if char_at(s, n, i, ':') && digit_at(s, n, i + 1) && digit_at(s, n, i + 2) {
        i + 3
    } else {
        i
    }
}

/// Where `[0-9]{2}:[0-9]{2}(:[0-9]{2})?` at `i` ends.
pub open spec fn clock_end(s: Seq<char>, n: int, i: int) -> Option<int> {
    if digit_at(s, n, i) && digit_at(s, n, i + 1) && char_at(s, n, i + 2, ':') && digit_at(
        s,
        n,
        i + 3,
    ) && digit_at(s, n, i + 4) {
        Some(seconds_end(s, n, i + 5))
    } else {
        None
    }
}

/// Where `[0-9]{1,2}:[0-9]{2}(:[0-9]{2})?` at the start ends.
pub open spec fn short_clock_end(s: Seq<char>, n: int) -> Option<int> {
    let h = class_run(s, n, 0, CharClass::Digit);
    if 1 <= h <= 2 && char_at(s, n, h, ':') && digit_at(s, n, h + 1) && digit_at(s, n, h + 2) {
        Some(seconds_end(s, n, h + 3))
    } else {
        None
    }
}

/// Where `(\.[0-9]{1,9})?` at `i` ends, if it fits there.
pub open spec fn fraction_end(s: Seq<char>, n: int, i: int) -> Option<int> {
    if char_at(s, n, i, '.') {
        let d = class_run(s, n, i + 1, CharClass::Digit);
        if 1 <= d <= 9 {
            Some(i + 1 + d)
        } else {
            None
        }
    } else {
        Some(i)
    }
}

/// `am`, `pm`, `AM` or `PM` at `i`.
pub open spec fn meridiem_at(s: Seq<char>, n: int, i: int) -> bool {
    (char_at(s, n, i, 'a') && char_at(s, n, i + 1, 'm')) || (char_at(s, n, i, 'p') && char_at(
        s,
        n,
        i + 1,
        'm',
    )) || (char_at(s, n, i, 'A') && char_at(s, n, i + 1, 'M')) || (char_at(s, n, i, 'P')
        && char_at(s, n, i + 1, 'M'))
}

/// From `i` to `n`: `\s*(am|pm|AM|PM)?\s+`.
pub open spec fn meridiem_tail(s: Seq<char>, n: int, i: int) -> bool {
    let a = class_run(s, n, i, CharClass::WhiteSpace);
    let f = i + a;
    if f == n {
        a >= 1
    } else {
        meridiem_at(s, n, f) && class_run(s, n, f + 2, CharClass::WhiteSpace) >= 1 && white_to_end(
            s,
            n,
            f + 2,
        )
    }
}

/// The first `n` characters are what `ymd_z` reads before the time zone:
/// `[0-9]{4}-[0-9]{2}-[0-9]{2}\s*`.
pub open spec fn ymd_zone_prefix(s: Seq<char>, n: int) -> bool {
    starts_with_date(s, n) && white_to_end(s, n, 10)
}

/// The first `n` characters are what `ymd_hms_z` reads before the time
/// zone: a date, `\s+`, a clock, an optional fraction, `\s*`.
pub open spec fn ymd_hms_zone_prefix(s: Seq<char>, n: int) -> bool {
    let w = class_run(s, n, 10, CharClass::WhiteSpace);
    &&& starts_with_date(s, n)
    &&& w >= 1
    &&& clock_end(s, n, 10 + w) matches Some(e) && fraction_end(s, n, e) matches Some(f)
        && white_to_end(s, n, f)
}

/// The first `n` characters are what `hms_z` reads before the time zone: a
/// clock, `\s*(am|pm|AM|PM)?\s+`.
pub open spec fn hms_zone_prefix(s: Seq<char>, n: int) -> bool {
    short_clock_end(s, n) matches Some(e) && meridiem_tail(s, n, e)
}

/// Where `\s*,?(at)?\s+` after the year at `i` ends, if it is there.
pub open spec fn year_gap_end(s: Seq<char>, n: int, i: int) -> Option<int> {
    let a = class_run(s, n, i, CharClass::WhiteSpace);
    let j = i + a;
    let comma = char_at(s, n, j, ',');
    let k = if comma {
        j + 1
    } else {
        j
    };
    let at = char_at(s, n, k, 'a') && char_at(s, n, k + 1, 't');
    let l = if at {
        k + 2
    } else {
        k
    };
    let b = class_run(s, n, l, CharClass::WhiteSpace);
    if (comma || at) && b >= 1 {
        Some(l + b)
    } else if !comma && !at && a >= 1 {
        Some(j)
    } else {
        None
    }
}

/// The first `n` characters are what `month_mdy_hms_z` reads before the time
/// zone: `[a-zA-Z]{3,9}\s+[0-9]{1,2},?\s+[0-9]{4}\s*,?(at)?\s+` then a clock
/// and `\s*(am|pm|AM|PM)?\s+`.
pub open spec fn month_zone_prefix(s: Seq<char>, n: int) -> bool {
    let l = class_run(s, n, 0, CharClass::Letter);
    let w1 = class_run(s, n, l, CharClass::WhiteSpace);
    let i2 = l + w1;
    let d = class_run(s, n, i2, CharClass::Digit);
    let i3 = i2 + d;
    let i4 = if char_at(s, n, i3, ',') {
        i3 + 1
    } else {
        i3
    };
    let w2 = class_run(s, n, i4, CharClass::WhiteSpace);
    let i5 = i4 + w2;
    &&& 3 <= l <= 9
    &&& w1 >= 1
    &&& 1 <= d <= 2
    &&& w2 >= 1
    &&& class_run(s, n, i5, CharClass::Digit) == 4
    &&& year_gap_end(s, n, i5 + 4) matches Some(i6) && clock_end(s, n, i6) matches Some(e)
        && meridiem_tail(s, n, e)
}

/// The first `n` characters are what one of the parsers that read a time
/// zone reads before it.
pub open spec fn zone_prefix(s: Seq<char>, n: int) -> bool {
    ymd_zone_prefix(s, n) || ymd_hms_zone_prefix(s, n) || hms_zone_prefix(s, n)
        || month_zone_prefix(s, n)
}

/// A time-zone text that reads as an offset of 24 hours or more: a sign,
/// two hour digits of 24 or more, then (after at most one `:`) two minute
/// digits, the first of them below 6.
pub open spec fn offset_out_of_range(t: Seq<char>) -> bool {
    &&& t.len() >= 5
    &&& (t[0] == '+' || t[0] == '-')
    &&& is_decimal_char(t[1]) && is_decimal_char(t[2])
    &&& (t[1] as int - 48) * 10 + (t[2] as int - 48) >= 24
    &&& (('0' <= t[3] <= '5' && is_decimal_char(t[4])) || (t.len() >= 6 && t[3] == ':' && '0'
        <= t[4] <= '5' && is_decimal_char(t[5])))
}

/// The last `k` characters are a time zone read as an offset of 24 hours or
/// more after a text that one of those parsers reads.
pub open spec fn zone_suffix_panics(s: Seq<char>, k: int) -> bool {
    &&& k <= s.len()
    &&& forall|i: int| s.len() - k <= i < s.len() ==> is_zone_char(#[trigger] s[i])
    &&& offset_out_of_range(s.skip(s.len() - k))
    &&& zone_prefix(s, s.len() - k)
}

/// `dateparser::parse` panics on this date.
pub open spec fn date_parse_panics(s: Seq<char>) -> bool {
    zone_suffix_panics(s, 5) || zone_suffix_panics(s, 6)
}

fn in_class_exec(c: char, class: CharClass) -> (r: bool)
    ensures
        r == in_class(c, class),
{
    match class {
        CharClass::WhiteSpace => ('\u{9}' <= c && c <= '\u{d}') || c == ' ' || c == '\u{85}' || c
            == '\u{a0}' || c == '\u{1680}' || ('\u{2000}' <= c && c <= '\u{200a}') || c
            == '\u{2028}' || c == '\u{2029}' || c == '\u{202f}' || c == '\u{205f}' || c
            == '\u{3000}',
        CharClass::Digit => '0' <= c && c <= '9',
        CharClass::Letter => ('a' <= c && c <= 'z') || ('A' <= c && c <= 'Z'),
    }
}

fn class_run_exec(cs: &Vec<char>, n: usize, i: usize, class: CharClass) -> (r: usize)
    requires
        n <= cs@.len(),
        i <= n,
    ensures
        r as int == class_run(cs@, n as int, i as int, class),
        i + r <= n,
{
    let mut j = i;
    while j < n && in_class_exec(cs[j], class)
        invariant
            n <= cs@.len(),
            i <= j <= n,
            class_run(cs@, n as int, i as int, class) == (j - i) + class_run(
                cs@,
                n as int,
                j as int,
                class,
            ),
        decreases n - j,
    {
        proof {
            lemma_class_run_step(cs@, n as int, i as int, j as int, class);
        }
        j += 1;
    }
    j - i
}

proof fn lemma_class_run_step(s: Seq<char>, n: int, i: int, j: int, class: CharClass)
    requires
        i <= j < n <= s.len(),
        0 <= i,
        in_class(s[j], class),
        class_run(s, n, i, class) == (j - i) + class_run(s, n, j, class),
    ensures
        class_run(s, n, i, class) == (j + 1 - i) + class_run(s, n, j + 1, class),
{
}

fn digit_at_exec(cs: &Vec<char>, n: usize, i: usize) -> (r: bool)
    requires
        n <= cs@.len(),
    ensures
        r == digit_at(cs@, n as int, i as int),
{
    i < n && '0' <= cs[i] && cs[i] <= '9'
}

fn char_at_exec(cs: &Vec<char>, n: usize, i: usize, c: char) -> (r: bool)
    requires
        n <= cs@.len(),
    ensures
        r == char_at(cs@, n as int, i as int, c),
{
    i < n && cs[i] == c
}

fn white_to_end_exec(cs: &Vec<char>, n: usize, i: usize) -> (r: bool)
    requires
        n <= cs@.len(),
        i <= n,
    ensures
        r == white_to_end(cs@, n as int, i as int),
{
    i + class_run_exec(cs, n, i, CharClass::WhiteSpace) == n
}

fn starts_with_date_exec(cs: &Vec<char>, n: usize) -> (r: bool)
    requires
        n <= cs@.len(),
    ensures
        r == starts_with_date(cs@, n as int),
{
    digit_at_exec(cs, n, 0) && digit_at_exec(cs, n, 1) && digit_at_exec(cs, n, 2) && digit_at_exec(
        cs,
        n,
        3,
    ) && char_at_exec(cs, n, 4, '-') && digit_at_exec(cs, n, 5) && digit_at_exec(cs, n, 6)
        && char_at_exec(cs, n, 7, '-') && digit_at_exec(cs, n, 8) && digit_at_exec(cs, n, 9)
}

fn seconds_end_exec(cs: &Vec<char>, n: usize, i: usize) -> (r: usize)
    requires
        n <= cs@.len(),
        i <= n,
    ensures
        r as int == seconds_end(cs@, n as int, i as int),
        r <= n,
{
    if char_at_exec(cs, n, i, ':') && digit_at_exec(cs, n, i + 1) && digit_at_exec(cs, n, i + 2) {
        i + 3
    } else {
        i
    }
}

fn clock_end_exec(cs: &Vec<char>, n: usize, i: usize) -> (r: Option<usize>)
    requires
        n <= cs@.len(),
        i <= n,
    ensures
        match r {
            Some(e) => clock_end(cs@, n as int, i as int) == Some(e as int) && e <= n,
            None => clock_end(cs@, n as int, i as int) is None,
        },
{
    if digit_at_exec(cs, n, i) && digit_at_exec(cs, n, i + 1) && char_at_exec(cs, n, i + 2, ':')
        && digit_at_exec(cs, n, i + 3) && digit_at_exec(cs, n, i + 4) {
        Some(seconds_end_exec(cs, n, i + 5))
    } else {
        None
    }
}

fn short_clock_end_exec(cs: &Vec<char>, n: usize) -> (r: Option<usize>)
    requires
        n <= cs@.len(),
    ensures
        match r {
            Some(e) => short_clock_end(cs@, n as int) == Some(e as int) && e <= n,
            None => short_clock_end(cs@, n as int) is None,
        },
{
    let h = class_run_exec(cs, n, 0, CharClass::Digit);
    if 1 <= h && h <= 2 && char_at_exec(cs, n, h, ':') && digit_at_exec(cs, n, h + 1)
        && digit_at_exec(cs, n, h + 2) {
        Some(seconds_end_exec(cs, n, h + 3))
    } else {
        None
    }
}

fn fraction_end_exec(cs: &Vec<char>, n: usize, i: usize) -> (r: Option<usize>)
    requires
        n <= cs@.len(),
        i <= n,
    ensures
        match r {
            Some(e) => fraction_end(cs@, n as int, i as int) == Some(e as int) && e <= n,
            None => fraction_end(cs@, n as int, i as int) is None,
        },
{
    if char_at_exec(cs, n, i, '.') {
        let d = class_run_exec(cs, n, i + 1, CharClass::Digit);
        if 1 <= d && d <= 9 {
            Some(i + 1 + d)
        } else {
            None
        }
    } else {
        Some(i)
    }
}

fn meridiem_at_exec(cs: &Vec<char>, n: usize, i: usize) -> (r: bool)
    requires
        n <= cs@.len(),
        i <= n,
    ensures
        r == meridiem_at(cs@, n as int, i as int),
{
    (char_at_exec(cs, n, i, 'a') && char_at_exec(cs, n, i + 1, 'm')) || (char_at_exec(cs, n, i, 'p')
        && char_at_exec(cs, n, i + 1, 'm')) || (char_at_exec(cs, n, i, 'A') && char_at_exec(
        cs,
        n,
        i + 1,
        'M',
    )) || (char_at_exec(cs, n, i, 'P') && char_at_exec(cs, n, i + 1, 'M'))
}

fn meridiem_tail_exec(cs: &Vec<char>, n: usize, i: usize) -> (r: bool)
    requires
        n <= cs@.len(),
        i <= n,
    ensures
        r == meridiem_tail(cs@, n as int, i as int),
{
    let a = class_run_exec(cs, n, i, CharClass::WhiteSpace);
    let f = i + a;
    if f == n {
        a >= 1
    } else {
        if !meridiem_at_exec(cs, n, f) {
            return false;
        }
        let w = class_run_exec(cs, n, f + 2, CharClass::WhiteSpace);
        w >= 1 && f + 2 + w == n
    }
}

fn ymd_zone_prefix_exec(cs: &Vec<char>, n: usize) -> (r: bool)
    requires
        n <= cs@.len(),
    ensures
        r == ymd_zone_prefix(cs@, n as int),
{
    starts_with_date_exec(cs, n) && white_to_end_exec(cs, n, 10)
}

fn ymd_hms_zone_prefix_exec(cs: &Vec<char>, n: usize) -> (r: bool)
    requires
        n <= cs@.len(),
    ensures
        r == ymd_hms_zone_prefix(cs@, n as int),
{
    if !starts_with_date_exec(cs, n) {
        return false;
    }
    let w = class_run_exec(cs, n, 10, CharClass::WhiteSpace);
    if w < 1 {
        return false;
    }
    match clock_end_exec(cs, n, 10 + w) {
        None => false,
        Some(e) => match fraction_end_exec(cs, n, e) {
            None => false,
            Some(f) => white_to_end_exec(cs, n, f),
        },
    }
}

fn hms_zone_prefix_exec(cs: &Vec<char>, n: usize) -> (r: bool)
    requires
        n <= cs@.len(),
    ensures
        r == hms_zone_prefix(cs@, n as int),
{
    match short_clock_end_exec(cs, n) {
        None => false,
        Some(e) => meridiem_tail_exec(cs, n, e),
    }
}

fn year_gap_end_exec(cs: &Vec<char>, n: usize, i: usize) -> (r: Option<usize>)
    requires
        n <= cs@.len(),
        i <= n,
    ensures
        match r {
            Some(e) => year_gap_end(cs@, n as int, i as int) == Some(e as int) && e <= n,
            None => year_gap_end(cs@, n as int, i as int) is None,
        },
{
    let a = class_run_exec(cs, n, i, CharClass::WhiteSpace);
    let j = i + a;
    let comma = char_at_exec(cs, n, j, ',');
    let k = if comma {
        j + 1
    } else {
        j
    };
    let at = char_at_exec(cs, n, k, 'a') && char_at_exec(cs, n, k + 1, 't');
    let l = if at {
        k + 2
    } else {
        k
    };
    let b = class_run_exec(cs, n, l, CharClass::WhiteSpace);
    if (comma || at) && b >= 1 {
        Some(l + b)
    } else if !comma && !at && a >= 1 {
        Some(j)
    } else {
        None
    }
}

fn month_zone_prefix_exec(cs: &Vec<char>, n: usize) -> (r: bool)
    requires
        n <= cs@.len(),
    ensures
        r == month_zone_prefix(cs@, n as int),
{
    let l = class_run_exec(cs, n, 0, CharClass::Letter);
    let w1 = class_run_exec(cs, n, l, CharClass::WhiteSpace);
    let i2 = l + w1;
    let d = class_run_exec(cs, n, i2, CharClass::Digit);
    let i3 = i2 + d;
    let i4 = if char_at_exec(cs, n, i3, ',') {
        i3 + 1
    } else {
        i3
    };
    let w2 = class_run_exec(cs, n, i4, CharClass::WhiteSpace);
    let i5 = i4 + w2;
    if !(3 <= l && l <= 9 && w1 >= 1 && 1 <= d && d <= 2 && w2 >= 1) {
        return false;
    }
    if class_run_exec(cs, n, i5, CharClass::Digit) != 4 {
        return false;
    }
    match year_gap_end_exec(cs, n, i5 + 4) {
        None => false,
        Some(i6) => match clock_end_exec(cs, n, i6) {
            None => false,
            Some(e) => meridiem_tail_exec(cs, n, e),
        },
    }
}

/// Whether the characters from `start` on read as an offset of 24 hours or more.
fn offset_out_of_range_at(cs: &Vec<char>, start: usize) -> (r: bool)
    requires
        start <= cs@.len(),
    ensures
        r == offset_out_of_range(cs@.skip(start as int)),
{
    let ghost t = cs@.skip(start as int);
    let n = cs.len() - start;
    if n < 5 {
        return false;
    }
    let c0 = cs[start];
    let c1 = cs[start + 1];
    let c2 = cs[start + 2];
    let c3 = cs[start + 3];
    let c4 = cs[start + 4];
    assert(t[0] == c0 && t[1] == c1 && t[2] == c2 && t[3] == c3 && t[4] == c4);
    if !(c0 == '+' || c0 == '-') {
        return false;
    }
    if !('0' <= c1 && c1 <= '9' && '0' <= c2 && c2 <= '9') {
        return false;
    }
    let hours = (c1 as u32 - 48) * 10 + (c2 as u32 - 48);
    if hours < 24 {
        return false;
    }
    if '0' <= c3 && c3 <= '5' && '0' <= c4 && c4 <= '9' {
        return true;
    }
    if n >= 6 {
        let c5 = cs[start + 5];
        assert(t[5] == c5);
        c3 == ':' && '0' <= c4 && c4 <= '5' && '0' <= c5 && c5 <= '9'
    } else {
        false
    }
}

fn zone_suffix_panics_exec(cs: &Vec<char>, k: usize) -> (r: bool)
    ensures
        r == zone_suffix_panics(cs@, k as int),
{
    let len = cs.len();
    if k > len {
        return false;
    }
    let start = len - k;
    let mut i = start;
    while i < len
        invariant
            len == cs@.len(),
            k <= len,
            start == len - k,
            start <= i <= len,
            forall|j: int| start <= j < i ==> is_zone_char(#[trigger] cs@[j]),
        decreases len - i,
    {
        let c = cs[i];
        if !(('+' <= c && c <= ':') || ('a' <= c && c <= 'z') || ('A' <= c && c <= 'Z')) {
            assert(!is_zone_char(cs@[i as int]));
            assert(cs@.len() - k <= i < cs@.len());
            assert(!(forall|j: int|
                cs@.len() - k <= j < cs@.len() ==> is_zone_char(#[trigger] cs@[j])));
            return false;
        }
        i += 1;
    }
    if !offset_out_of_range_at(cs, start) {
        return false;
    }
    ymd_zone_prefix_exec(cs, start) || ymd_hms_zone_prefix_exec(cs, start) || hms_zone_prefix_exec(
        cs,
        start,
    ) || month_zone_prefix_exec(cs, start)
}

/// Whether `dateparser::parse` panics on the date of these characters.
pub(crate) fn date_parse_panics_exec(cs: &Vec<char>) -> (r: bool)
    ensures
        r == date_parse_panics(cs@),
{
    zone_suffix_panics_exec(cs, 5) || zone_suffix_panics_exec(cs, 6)
}

} // verus!
