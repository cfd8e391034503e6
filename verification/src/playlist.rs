//! One playlist row: its columns, the release year of its track, the track
//! id in its URI, and the audio that is kept of a downloaded track.

use vstd::prelude::*;
use vstd::arithmetic::power::pow;
use vstd::string::StringSliceAdditionalSpecFns;
use vstd::utf8::{encode_utf8, is_char_boundary};
use chrono::Datelike;
use crate::digits::{
    digit_value, digits_value, is_numeral, numeral_digits, numeral_fits_u128, parse_numeral,
    lemma_numeral_prefix, lemma_prefix_value_le,
};
use crate::spotify_id::SpotifyId;
use crate::tz_offset::{date_parse_panics, date_parse_panics_exec, is_decimal_char};
use crate::naming::truncate;
use crate::text::{chars_of, push_char};

verus! {

#[verifier::external_type_specification]
#[verifier::external_body]
pub struct ExAnyhowError(anyhow::Error);

/// `dateparser::parse`: reads a date in one of many formats, here handed
/// back as the year of the UTC date and time it stands for (chrono's
/// `Datelike::year`). What it returns also depends on the local time zone
/// and the current time, so nothing is stated of it. It panics on the dates
/// of [`date_parse_panics`] (a time zone read as an offset of 24 hours or
/// more, in chrono's `FixedOffset::east`), which `requires` leaves out.
/// One thing is stated: a text of fewer than ten characters, all ASCII
/// digits, is read as no date. Its only format that takes bare digits is the
/// Unix timestamp, which wants ten to nineteen of them; RFC 2822 wants a
/// month name, the other formats a `-`, `:`, `/`, `.`, space or letter (the
/// dotted formats match such a text by their pattern, but chrono's parse of
/// `%m.%d.%y`, `%m.%d.%Y` and `%Y.%m.%d` then finds no `.` in it).
#[verifier::external_body]
fn parse_date_year(date: &str) -> (r: Result<i32, anyhow::Error>)
    requires
        !date_parse_panics(date@),
    ensures
        date@.len() < 10 && (forall|i: int|
            0 <= i < date@.len() ==> is_decimal_char(#[trigger] date@[i])) ==> r is Err,
{
    dateparser::parse(date).map(|d| d.year())
}

/// What `str::parse::<i32>` makes of a short text: an optional `+` or `-`
/// followed by at least one decimal digit, and nothing else.
pub open spec fn parse_i32_text(s: Seq<u8>) -> Option<int> {
    if s.len() > 0 && (s[0] == 43 || s[0] == 45) {
        if s.len() > 1 && parse_numeral(10, s.skip(1)) is Some {
            let v = parse_numeral(10, s.skip(1)).unwrap();
            Some(if s[0] == 45 { -v } else { v as int })
        } else {
            None
        }
    } else if s.len() > 0 && parse_numeral(10, s) is Some {
        Some(parse_numeral(10, s).unwrap() as int)
    } else {
        None
    }
}

/// The year of a release date that no date format matched: its first four
/// bytes read as a number, or 1666 when they are no number or missing.
pub open spec fn year_fallback(date: Seq<u8>) -> int {
    if date.len() >= 4 {
        match parse_i32_text(date.take(4)) {
            Some(y) => y,
            None => 1666,
        }
    } else {
        1666
    }
}

/// The year of a release date: the year of the date it was read as, or the
/// fallback when it was read as no date.
pub open spec fn year_from(parsed: Option<i32>, date: Seq<u8>) -> int {
    match parsed {
        Some(y) => y as int,
        None => year_fallback(date),
    }
}

/// The decimal number (with an optional sign) that at most four bytes write.
fn parse_short_i32(b: &[u8]) -> (r: Option<i32>)
    requires
        b@.len() <= 4,
    ensures
        match r {
            Some(v) => parse_i32_text(b@) == Some(v as int),
            None => parse_i32_text(b@) is None,
        },
{
    let len = b.len();
    if len == 0 {
        return None;
    }
    let signed = b[0] == 43 || b[0] == 45;
    let start: usize = if signed {
        1
    } else {
        0
    };
    if start == len {
        return None;
    }
    let ghost digits = b@.skip(start as int);
    let mut v: i32 = 0;
    let mut i: usize = start;
    assert(numeral_digits(10, digits.take(0)) =~= Seq::<nat>::empty());
    assert(b@.skip(0) =~= b@);
    proof {
        vstd::arithmetic::power::lemma_pow0(10);
    }
    while i < len
        invariant
            len == b@.len() <= 4,
            start <= i <= len,
            start == 0 || start == 1,
            start < len,
            (start == 1) == (b@[0] == 43 || b@[0] == 45),
            digits == b@.skip(start as int),
            is_numeral(10, digits.take(i - start)),
            v as int == digits_value(10, numeral_digits(10, digits.take(i - start))),
            v as int <= 999 || i == len || i - start == 4,
            v < pow(10, (i - start) as nat),
        decreases len - i,
    {
        let c = b[i];
        if c < 48 || c > 57 {
            assert(digits[i - start] == c);
            assert(digit_value(10, digits[i - start]) is None);
            assert(!is_numeral(10, digits));
            assert(b@.skip(0) =~= b@);
            return None;
        }
        let ghost prev = digits.take(i - start);
        let ghost next = digits.take(i - start + 1);
        assert(next =~= prev.push(c));
        assert(digit_value(10, c) == Some((c - 48) as nat));
        assert(is_numeral(10, next)) by {
            assert forall|j: int| 0 <= j < next.len() implies (#[trigger] digit_value(
                10,
                next[j],
            )) is Some by {
                if j < prev.len() {
                    assert(next[j] == prev[j]);
                }
            }
        }
        assert(numeral_digits(10, next) =~= numeral_digits(10, prev).push((c - 48) as nat));
        assert(numeral_digits(10, next).drop_last() =~= numeral_digits(10, prev));
        proof {
            reveal_with_fuel(pow, 5);
        }
        assert(v < 1000);
        v = v * 10 + (c - 48) as i32;
        proof {
            vstd::arithmetic::power::lemma_pow_positive(10, (i - start) as nat);
            assert(pow(10, (i + 1 - start) as nat) == 10 * pow(10, (i - start) as nat)) by {
                reveal(pow);
            }
        }
        i += 1;
    }
    assert(digits.take(len - start) =~= digits);
    assert(parse_numeral(10, digits) == Some(v as nat));
    if b[0] == 45 {
        Some(-v)
    } else {
        Some(v)
    }
}

/// The year of a release date, given what reading it as a date gave.
pub fn year_from_parts(parsed: Option<i32>, date: &str) -> (r: i32)
    requires
        parsed is Some || date.spec_bytes().len() < 4 || is_char_boundary(date.spec_bytes(), 4),
    ensures
        r as int == year_from(parsed, date.spec_bytes()),
{
    match parsed {
        Some(y) => y,
        None => {
            let bytes = date.as_bytes();
            if bytes.len() >= 4 {
                let head = vstd::slice::slice_subrange(bytes, 0, 4);
                assert(head@ =~= date.spec_bytes().take(4));
                match parse_short_i32(head) {
                    Some(y) => y,
                    None => 1666,
                }
            } else {
                1666
            }
        },
    }
}

/// Every character is an ASCII decimal digit.
pub open spec fn all_decimal(s: Seq<char>) -> bool {
    forall|i: int| 0 <= i < s.len() ==> is_decimal_char(#[trigger] s[i])
}

/// The number that the first four characters, decimal digits, write.
pub open spec fn four_digit_number(s: Seq<char>) -> int {
    (s[0] as int - 48) * 1000 + (s[1] as int - 48) * 100 + (s[2] as int - 48) * 10 + (s[3] as int
        - 48)
}

/// A text of decimal digits is ASCII: no `dateparser` panic, a character
/// boundary at byte 4, and a fallback year that its first four digits write.
proof fn lemma_decimal_date(date: &str)
    requires
        all_decimal(date@),
    ensures
        !date_parse_panics(date@),
        date.spec_bytes().len() == date@.len(),
        date.spec_bytes().len() < 4 || is_char_boundary(date.spec_bytes(), 4),
        date@.len() >= 4 ==> year_fallback(date.spec_bytes()) == four_digit_number(date@),
        date@.len() < 4 ==> year_fallback(date.spec_bytes()) == 1666,
{
    let cs = date@;
    let bytes = date.spec_bytes();
    assert(vstd::utf8::is_ascii_chars(cs)) by {
        assert forall|i| 0 <= i < cs.len() implies '\0' <= #[trigger] cs[i] <= '\u{7f}' by {
            assert(is_decimal_char(cs[i]));
        }
    }
    vstd::utf8::is_ascii_chars_encode_utf8(cs);
    assert(!date_parse_panics(cs)) by {
        if cs.len() >= 5 {
            assert(is_decimal_char(cs[cs.len() - 5]));
            assert(cs.skip(cs.len() - 5)[0] == cs[cs.len() - 5]);
        }
        if cs.len() >= 6 {
            assert(is_decimal_char(cs[cs.len() - 6]));
            assert(cs.skip(cs.len() - 6)[0] == cs[cs.len() - 6]);
        }
    }
    if cs.len() >= 4 {
        crate::text::lemma_prefix_boundary(cs, 4);
        vstd::utf8::is_ascii_chars_encode_utf8(cs.take(4));
        let head = bytes.take(4);
        assert forall|i: int| 0 <= i < 4 implies #[trigger] head[i] == cs[i] as u8 by {}
        assert(is_decimal_char(cs[0]) && is_decimal_char(cs[1]) && is_decimal_char(cs[2])
            && is_decimal_char(cs[3]));
        assert(is_numeral(10, head)) by {
            assert forall|i: int| 0 <= i < head.len() implies (#[trigger] digit_value(
                10,
                head[i],
            )) is Some by {
                assert(is_decimal_char(cs[i]));
            }
        }
        let ds = numeral_digits(10, head);
        assert(ds.drop_last().drop_last().drop_last().drop_last() =~= Seq::<nat>::empty());
        reveal_with_fuel(digits_value, 5);
        assert(parse_numeral(10, head) == Some(four_digit_number(cs) as nat));
    }
}

/// The year of a release date: the year of the date that `dateparser` reads
/// in it, else its first four bytes as a number, else 1666. `None` on the
/// dates on which `dateparser` panics, and when no date was read and the
/// fourth byte ends inside a character.
pub fn release_year(date: &str) -> (r: Option<i32>)
    ensures
        date_parse_panics(date@) ==> r is None,
        !date_parse_panics(date@) && (date.spec_bytes().len() < 4 || is_char_boundary(
            date.spec_bytes(),
            4,
        )) ==> r is Some,
        r is None ==> date_parse_panics(date@) || !(date.spec_bytes().len() < 4
            || is_char_boundary(date.spec_bytes(), 4)),
        all_decimal(date@) && 4 <= date@.len() < 10 ==> r == Some(
            four_digit_number(date@) as i32,
        ),
        all_decimal(date@) && date@.len() < 4 ==> r == Some(1666i32),
{
    let cs = chars_of(date);
    proof {
        if all_decimal(date@) {
            lemma_decimal_date(date);
        }
    }
    if date_parse_panics_exec(&cs) {
        return None;
    }
    let parsed: Option<i32> = match parse_date_year(date) {
        Ok(y) => Some(y),
        Err(_) => None,
    };
    if parsed.is_none() && date.as_bytes().len() >= 4 && !date.is_char_boundary(4) {
        return None;
    }
    Some(year_from_parts(parsed, date))
}

/// What `str::parse::<u32>` makes of a text: an optional `+` followed by at
/// least one decimal digit, and nothing else, of a value that fits in `u32`.
pub open spec fn parse_u32_text(s: Seq<u8>) -> Option<nat> {
    let digits = if s.len() > 0 && s[0] == 43 {
        s.skip(1)
    } else {
        s
    };
    if digits.len() > 0 && parse_numeral(10, digits) is Some && parse_numeral(10, digits).unwrap()
        <= u32::MAX {
        parse_numeral(10, digits)
    } else {
        None
    }
}

/// The duration of a track in milliseconds, read from its decimal text.
pub fn duration_millis(text: &str) -> (r: Option<u32>)
    ensures
        match r {
            Some(v) => parse_u32_text(text.spec_bytes()) == Some(v as nat),
            None => parse_u32_text(text.spec_bytes()) is None,
        },
{
    let b = text.as_bytes();
    let len = b.len();
    let start: usize = if len > 0 && b[0] == 43 {
        1
    } else {
        0
    };
    if start == len {
        return None;
    }
    let ghost digits = if len > 0 && b@[0] == 43 {
        b@.skip(1)
    } else {
        b@
    };
    assert(digits =~= b@.skip(start as int));
    let mut v: u32 = 0;
    let mut i: usize = start;
    assert(numeral_digits(10, digits.take(0)) =~= Seq::<nat>::empty());
    while i < len
        invariant
            len == b@.len(),
            b@ == text.spec_bytes(),
            digits == (if len > 0 && b@[0] == 43 {
                b@.skip(1)
            } else {
                b@
            }),
            start <= i <= len,
            digits == b@.skip(start as int),
            digits.len() == len - start,
            is_numeral(10, digits.take(i - start)),
            v as int == digits_value(10, numeral_digits(10, digits.take(i - start))),
        decreases len - i,
    {
        let c = b[i];
        if c < 48 || c > 57 {
            assert(digits[i - start] == c);
            assert(digit_value(10, digits[i - start]) is None);
            assert(!is_numeral(10, digits));
            return None;
        }
        let d = (c - 48) as u32;
        let ghost prev = digits.take(i - start);
        let ghost next = digits.take(i - start + 1);
        assert(next =~= prev.push(c));
        assert(digit_value(10, c) == Some(d as nat));
        assert(is_numeral(10, next)) by {
            assert forall|j: int| 0 <= j < next.len() implies (#[trigger] digit_value(
                10,
                next[j],
            )) is Some by {
                if j < prev.len() {
                    assert(next[j] == prev[j]);
                }
            }
        }
        assert(numeral_digits(10, next) =~= numeral_digits(10, prev).push(d as nat));
        assert(numeral_digits(10, next).drop_last() =~= numeral_digits(10, prev));
        assert(digits_value(10, numeral_digits(10, next)) == v * 10 + d);
        match v.checked_mul(10) {
            None => {
                proof {
                    lemma_too_large(digits, i - start + 1);
                }
                return None;
            },
            Some(p) => match p.checked_add(d) {
                None => {
                    proof {
                        lemma_too_large(digits, i - start + 1);
                    }
                    return None;
                },
                Some(q) => {
                    v = q;
                },
            },
        }
        i += 1;
    }
    assert(digits.take(len - start) =~= digits);
    Some(v)
}

/// When a prefix of some bytes is a decimal numeral above `u32::MAX`, the
/// bytes are no decimal numeral of at most `u32::MAX`.
proof fn lemma_too_large(digits: Seq<u8>, k: int)
    requires
        0 <= k <= digits.len(),
        is_numeral(10, digits.take(k)),
        digits_value(10, numeral_digits(10, digits.take(k))) > u32::MAX,
    ensures
        !(parse_numeral(10, digits) is Some && parse_numeral(10, digits).unwrap() <= u32::MAX),
{
    if is_numeral(10, digits) {
        lemma_numeral_prefix(10, digits, k);
        lemma_prefix_value_le(10, numeral_digits(10, digits), k);
    }
}

/// The columns of a playlist row that a track is made of (the layout of
/// playlists exported by Exportify).
pub struct TrackRow {
    /// Column 0: the track URI, `spotify:track:{id}`.
    pub uri: String,
    /// Column 1: the track name.
    pub name: String,
    /// Column 3: the artists, separated by commas.
    pub artist: String,
    /// Column 5: the album name.
    pub album: String,
    /// Column 8: the album release date.
    pub release_date: String,
    /// Column 10: the disc number.
    pub disc: String,
    /// Column 11: the track number.
    pub track: String,
    /// Column 12: the duration in milliseconds.
    pub duration_ms: String,
}

/// The track columns of a playlist row of at least 13 columns.
pub fn track_row(fields: &Vec<String>) -> (r: TrackRow)
    requires
        fields@.len() >= 13,
    ensures
        r.uri@ == fields@[0]@,
        r.name@ == fields@[1]@,
        r.artist@ == fields@[3]@,
        r.album@ == fields@[5]@,
        r.release_date@ == fields@[8]@,
        r.disc@ == fields@[10]@,
        r.track@ == fields@[11]@,
        r.duration_ms@ == fields@[12]@,
{
    TrackRow {
        uri: fields[0].clone(),
        name: fields[1].clone(),
        artist: fields[3].clone(),
        album: fields[5].clone(),
        release_date: fields[8].clone(),
        disc: fields[10].clone(),
        track: fields[11].clone(),
        duration_ms: fields[12].clone(),
    }
}

#[verifier::external_type_specification]
#[verifier::external_body]
pub struct ExRegex(regex::Regex);

#[verifier::external_type_specification]
#[verifier::external_body]
pub struct ExRegexError(regex::Error);

/// What capture group `group` of the first match of `pattern` in `text`
/// holds, if the pattern matches there and the group takes part: what
/// `Regex::captures`, `Captures::get` and `Match::as_str` of `regex` give.
pub uninterp spec fn regex_group(pattern: Seq<char>, text: Seq<char>, group: nat) -> Option<
    Seq<char>,
>;

/// The pattern of a track URI; its first group is the base-62 track id.
pub const TRACK_URI_PATTERN: &'static str = "spotify:track:([[:alnum:]]+)";

/// The compiled pattern of track URIs.
pub struct TrackUriPattern {
    /// The compiled regex.
    re: regex::Regex,
    /// The pattern that `re` was compiled from (only [`compile_pattern`]
    /// builds a value of this type).
    source: &'static str,
}

impl TrackUriPattern {
    /// The pattern that the regex was compiled from.
    pub closed spec fn pattern(&self) -> Seq<char> {
        self.source@
    }
}

/// `Regex::new` of `regex`: compiles a pattern, kept beside the regex it
/// gives. The track URI pattern is valid regex syntax, well within the size
/// limits, so it compiles; of other patterns that is not stated.
#[verifier::external_body]
fn compile_pattern(pattern: &'static str) -> (r: Result<TrackUriPattern, regex::Error>)
    ensures
        r matches Ok(p) ==> p.pattern() == pattern@,
        pattern@ == TRACK_URI_PATTERN@ ==> r is Ok,
{
    match regex::Regex::new(pattern) {
        Ok(re) => Ok(TrackUriPattern { re, source: pattern }),
        Err(e) => Err(e),
    }
}

/// `Regex::captures` of `regex`, handing back the text of one capture group
/// (`Captures::get`, then `Match::as_str`): what [`regex_group`] names, a
/// piece of the searched text.
#[verifier::external_body]
fn capture_group<'h>(p: &TrackUriPattern, text: &'h str, group: usize) -> (r: Option<&'h str>)
    ensures
        match r {
            Some(g) => regex_group(p.pattern(), text@, group as nat) == Some(g@),
            None => regex_group(p.pattern(), text@, group as nat) is None,
        },
        r matches Some(g) ==> exists|i: int, j: int|
            0 <= i <= j <= text@.len() && g@ == #[trigger] text@.subrange(i, j),
{
    p.re.captures(text).and_then(|c| c.get(group)).map(|m| m.as_str())
}

/// The value of the track id that a captured text writes: its base-62 value
/// when it is made of base-62 digits whose value fits in 128 bits.
pub open spec fn capture_track_id(capture: Seq<char>) -> Option<nat> {
    if numeral_fits_u128(62, encode_utf8(capture)) {
        parse_numeral(62, encode_utf8(capture))
    } else {
        None
    }
}

/// The track id that the text captured from a URI writes in base 62, when
/// it is made of base-62 digits whose value fits in 128 bits.
pub fn track_id_from_capture(capture: &str) -> (r: Option<SpotifyId>)
    ensures
        match r {
            Some(id) => numeral_fits_u128(62, capture.spec_bytes()) && parse_numeral(
                62,
                capture.spec_bytes(),
            ) == Some(id@ as nat),
            None => !numeral_fits_u128(62, capture.spec_bytes()) || parse_numeral(
                62,
                capture.spec_bytes(),
            ) is None,
        },
{
    if SpotifyId::base62_in_range(capture) {
        match SpotifyId::from_base62(capture) {
            Ok(id) => Some(id),
            Err(_) => None,
        }
    } else {
        None
    }
}

impl TrackUriPattern {
    /// Compiles [`TRACK_URI_PATTERN`].
    pub fn new() -> (r: TrackUriPattern)
        ensures
            r.pattern() == TRACK_URI_PATTERN@,
    {
        compile_pattern(TRACK_URI_PATTERN).unwrap()
    }

    /// The track id of a track URI: the base-62 id that the pattern's first
    /// group captures, `None` when the pattern does not match or what it
    /// captures is no base-62 number of 128 bits. When there is one, it is
    /// what a piece of the URI reads as.
    pub fn track_id(&self, uri: &str) -> (r: Option<SpotifyId>)
        ensures
            match r {
                Some(id) => Some(id@ as nat),
                None => None::<nat>,
            } == match regex_group(self.pattern(), uri@, 1) {
                Some(g) => capture_track_id(g),
                None => None,
            },
            r matches Some(id) ==> exists|i: int, j: int|
                0 <= i <= j <= uri@.len() && parse_numeral(
                    62,
                    encode_utf8(#[trigger] uri@.subrange(i, j)),
                ) == Some(id@ as nat),
    {
        match capture_group(self, uri, 1) {
            None => None,
            Some(g) => {
                let r = track_id_from_capture(g);
                proof {
                    if r is Some {
                        let (i, j) = choose|i: int, j: int|
                            0 <= i <= j <= uri@.len() && g@ == #[trigger] uri@.subrange(i, j);
                        assert(parse_numeral(62, encode_utf8(uri@.subrange(i, j))) == Some(
                            r.unwrap()@ as nat,
                        ));
                    }
                }
                r
            },
        }
    }
}

/// The bit rates in which a track's Ogg Vorbis audio may come.
#[derive(Debug, Copy, Clone, PartialEq, Eq, Structural)]
pub enum OggQuality {
    Kbps320,
    Kbps160,
    Kbps96,
}

/// The bit rate to download: the highest one that the track has.
pub fn preferred_quality(has_320: bool, has_160: bool, has_96: bool) -> (r: Option<OggQuality>)
    ensures
        r == if has_320 {
            Some(OggQuality::Kbps320)
        } else if has_160 {
            Some(OggQuality::Kbps160)
        } else if has_96 {
            Some(OggQuality::Kbps96)
        } else {
            None
        },
{
    if has_320 {
        Some(OggQuality::Kbps320)
    } else if has_160 {
        Some(OggQuality::Kbps160)
    } else if has_96 {
        Some(OggQuality::Kbps96)
    } else {
        None
    }
}

/// What becomes of a track's file before anything is fetched, decided by
/// which of its two names already stand in the playlist's folder.
#[derive(Debug, Copy, Clone, PartialEq, Eq, Structural)]
pub enum TrackFileAction {
    /// The file is there under its current name: list it and fetch nothing;
    /// delete the file under the legacy name where one is there too.
    Keep { delete_legacy: bool },
    /// Only the legacy name is there: rename that file to the current name.
    RenameLegacy,
    /// Neither name is there: fetch the track.
    Download,
}

/// The first step for a track: keep, rename or download, given whether the
/// current and the legacy file name exist.
pub fn track_file_action(current_exists: bool, legacy_exists: bool) -> (r: TrackFileAction)
    ensures
        r == if current_exists {
            (TrackFileAction::Keep { delete_legacy: legacy_exists })
        } else if legacy_exists {
            TrackFileAction::RenameLegacy
        } else {
            TrackFileAction::Download
        },
{
    if current_exists {
        TrackFileAction::Keep { delete_legacy: legacy_exists }
    } else if legacy_exists {
        TrackFileAction::RenameLegacy
    } else {
        TrackFileAction::Download
    }
}

/// The step after a rename of the legacy file: a renamed file is kept as it
/// is; where the rename failed, the track is fetched.
pub fn after_rename(renamed: bool) -> (r: TrackFileAction)
    ensures
        r == if renamed {
            (TrackFileAction::Keep { delete_legacy: false })
        } else {
            TrackFileAction::Download
        },
{
    if renamed {
        TrackFileAction::Keep { delete_legacy: false }
    } else {
        TrackFileAction::Download
    }
}

/// The number of bytes that precede the Ogg stream in a decrypted track.
pub const AUDIO_HEADER_LEN: usize = 0xa7;

/// The Ogg stream of a decrypted track: what follows its header.
pub fn audio_payload(decrypted: &[u8]) -> (r: &[u8])
    requires
        decrypted@.len() >= AUDIO_HEADER_LEN,
    ensures
        r@ == decrypted@.skip(AUDIO_HEADER_LEN as int),
{
    let r = vstd::slice::slice_subrange(decrypted, AUDIO_HEADER_LEN, decrypted.len());
    assert(r@ =~= decrypted@.skip(AUDIO_HEADER_LEN as int));
    r
}

/// The extension of playlist files.
pub open spec fn csv_suffix() -> Seq<char> {
    seq!['.', 'c', 's', 'v']
}

/// The path of a playlist file without its `.csv` extension; `None` when
/// the path does not end with `.csv`.
pub fn playlist_stem(path: &str) -> (r: Option<&str>)
    ensures
        match r {
            Some(stem) => path@.len() >= 4 && path@.skip(path@.len() - 4) == csv_suffix()
                && stem@ == path@.take(path@.len() - 4),
            None => !(path@.len() >= 4 && path@.skip(path@.len() - 4) == csv_suffix()),
        },
{
    let cs = chars_of(path);
    let n = cs.len();
    if n >= 4 && cs[n - 4] == '.' && cs[n - 3] == 'c' && cs[n - 2] == 's' && cs[n - 1] == 'v' {
        assert(path@.skip(n - 4) =~= csv_suffix());
        let stem = truncate(path, n - 4);
        Some(stem)
    } else {
        proof {
            if n >= 4 && path@.skip(n - 4) == csv_suffix() {
                assert(path@.skip(n - 4)[0] == path@[n - 4]);
                assert(path@.skip(n - 4)[1] == path@[n - 3]);
                assert(path@.skip(n - 4)[2] == path@[n - 2]);
                assert(path@.skip(n - 4)[3] == path@[n - 1]);
            }
        }
        None
    }
}

/// The path of the playlist written for a playlist file: its stem with the
/// extension `.m3u`.
pub fn playlist_file(stem: &str) -> (r: String)
    ensures
        r@ == stem@ + seq!['.', 'm', '3', 'u'],
{
    let cs = chars_of(stem);
    let mut r = String::new();
    let mut i: usize = 0;
    while i < cs.len()
        invariant
            0 <= i <= cs@.len(),
            r@ == cs@.take(i as int),
        decreases cs@.len() - i,
    {
        push_char(&mut r, cs[i]);
        assert(cs@.take(i + 1) =~= cs@.take(i as int).push(cs@[i as int]));
        i += 1;
    }
    assert(cs@.take(cs@.len() as int) =~= cs@);
    push_char(&mut r, '.');
    push_char(&mut r, 'm');
    push_char(&mut r, '3');
    push_char(&mut r, 'u');
    assert(r@ =~= stem@ + seq!['.', 'm', '3', 'u']);
    r
}

} // verus!
