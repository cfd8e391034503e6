//! The rules that turn a playlist row into file and playlist entry names.

use vstd::prelude::*;
use vstd::utf8::{encode_utf8, encode_utf8_decode_utf8};
use vstd::string::StringSliceAdditionalSpecFns;
use crate::digits::digit_byte;
use crate::text::{
    chars_of, string_of, char_utf8_len, lemma_encode_utf8_push, lemma_prefix_boundary,
};

verus! {

/// A character that file names on common systems may not hold.
pub open spec fn is_banned(c: char) -> bool {
    c == ':' || c == '/' || c == '\\' || c == '<' || c == '>' || c == '|' || c == '?' || c == '*'
}

/// What one character becomes in a file name: banned characters go, a
/// double quote becomes a single quote and a space an underscore.
pub open spec fn sanitize_char(c: char) -> Seq<char> {
    if is_banned(c) {
        Seq::empty()
    } else if c == '"' {
        seq!['\'']
    } else if c == ' ' {
        seq!['_']
    } else {
        seq![c]
    }
}

/// The text with every character replaced by what [`sanitize_char`] makes of it.
pub open spec fn sanitized(s: Seq<char>) -> Seq<char>
    decreases s.len(),
{
    if s.len() == 0 {
        Seq::empty()
    } else {
        sanitized(s.drop_last()) + sanitize_char(s.last())
    }
}

/// What one character becomes in a playlist entry path: `#` is written `%23`.
pub open spec fn escape_char(c: char) -> Seq<char> {
    if c == '#' {
        seq!['%', '2', '3']
    } else {
        seq![c]
    }
}

/// The text with every `#` written `%23`.
pub open spec fn escaped(s: Seq<char>) -> Seq<char>
    decreases s.len(),
{
    if s.len() == 0 {
        Seq::empty()
    } else {
        escaped(s.drop_last()) + escape_char(s.last())
    }
}

/// The first `n` characters of `s`, or all of them when it has fewer.
pub open spec fn first_chars(s: Seq<char>, n: nat) -> Seq<char> {
    if n < s.len() {
        s.take(n as int)
    } else {
        s
    }
}

/// Removes from a name the characters that file names may not hold, turns
/// double quotes into single quotes and spaces into underscores.
pub fn sanitize(input: &String) -> (r: String)
    ensures
        r@ == sanitized(input@),
{
    let cs = chars_of(input.as_str());
    let mut out: Vec<char> = Vec::new();
    let mut i: usize = 0;
    while i < cs.len()
        invariant
            0 <= i <= cs@.len(),
            out@ == sanitized(cs@.take(i as int)),
        decreases cs@.len() - i,
    {
        let c = cs[i];
        if c == ':' || c == '/' || c == '\\' || c == '<' || c == '>' || c == '|' || c == '?' || c
            == '*' {
        } else if c == '"' {
            out.push('\'');
        } else if c == ' ' {
            out.push('_');
        } else {
            out.push(c);
        }
        proof {
            assert(cs@.take(i + 1).drop_last() =~= cs@.take(i as int));
            assert(cs@.take(i + 1).last() == c);
            assert(out@ =~= sanitized(cs@.take(i + 1)));
        }
        i += 1;
    }
    assert(cs@.take(cs@.len() as int) =~= cs@);
    string_of(&out)
}

/// Writes every `#` of a playlist entry path as `%23`.
pub fn encode(input: &String) -> (r: String)
    ensures
        r@ == escaped(input@),
{
    let cs = chars_of(input.as_str());
    let mut out: Vec<char> = Vec::new();
    let mut i: usize = 0;
    while i < cs.len()
        invariant
            0 <= i <= cs@.len(),
            out@ == escaped(cs@.take(i as int)),
        decreases cs@.len() - i,
    {
        let c = cs[i];
        if c == '#' {
            out.push('%');
            out.push('2');
            out.push('3');
        } else {
            out.push(c);
        }
        proof {
            assert(cs@.take(i + 1).drop_last() =~= cs@.take(i as int));
            assert(cs@.take(i + 1).last() == c);
            assert(out@ =~= escaped(cs@.take(i + 1)));
        }
        i += 1;
    }
    assert(cs@.take(cs@.len() as int) =~= cs@);
    string_of(&out)
}

/// The first `max_chars` characters of `s` (all of `s` when it is shorter).
pub fn truncate(s: &str, max_chars: usize) -> (r: &str)
    ensures
        r@ == first_chars(s@, max_chars as nat),
{
    let bytes = s.as_bytes();
    let blen = bytes.len();
    let cs = chars_of(s);
    let k: usize = if max_chars < cs.len() {
        max_chars
    } else {
        cs.len()
    };
    let mut idx: usize = 0;
    let mut i: usize = 0;
    while i < k
        invariant
            k <= cs@.len(),
            cs@ == s@,
            bytes@ == encode_utf8(s@),
            blen == bytes@.len(),
            0 <= i <= k,
            idx == encode_utf8(cs@.take(i as int)).len(),
        decreases k - i,
    {
        let w = char_utf8_len(cs[i]);
        proof {
            lemma_encode_utf8_push(cs@.take(i as int), cs@[i as int]);
            assert(cs@.take(i as int).push(cs@[i as int]) =~= cs@.take(i + 1));
            lemma_prefix_boundary(cs@, i + 1);
        }
        idx = idx + w;
        i += 1;
    }
    proof {
        lemma_prefix_boundary(cs@, k as int);
    }
    let (head, _) = s.split_at(idx);
    proof {
        encode_utf8_decode_utf8(head@);
        encode_utf8_decode_utf8(cs@.take(k as int));
        if k == cs.len() {
            assert(cs@.take(k as int) =~= cs@);
        }
    }
    head
}

/// The longest path (in UTF-8 bytes, folder, separator and file name
/// together) that a track file gets under its full name.
pub const MAX_PATH_LEN: usize = 240;

/// A text padded on the left with `0` to two characters (`{:0>2}`).
pub open spec fn pad2(s: Seq<char>) -> Seq<char> {
    if s.len() >= 2 {
        s
    } else if s.len() == 1 {
        seq!['0'] + s
    } else {
        seq!['0', '0']
    }
}

/// Padding to two characters (`{:0>2}`): a text of two or more characters
/// is kept as it is, a shorter one gets `0`s in front up to two characters;
/// the text always ends the result.
pub proof fn lemma_pad2_law(s: Seq<char>)
    ensures
        pad2(s).len() == if s.len() >= 2 {
            s.len()
        } else {
            2
        },
        s.len() >= 2 ==> pad2(s) == s,
        pad2(s).skip(pad2(s).len() - s.len()) == s,
        forall|i: int| 0 <= i < pad2(s).len() - s.len() ==> #[trigger] pad2(s)[i] == '0',
{
    assert(pad2(s).skip(pad2(s).len() - s.len()) =~= s);
}

/// The decimal digits of a natural number.
pub open spec fn unsigned_decimal(n: nat) -> Seq<char>
    decreases n,
{
    if n < 10 {
        seq![digit_byte(n) as char]
    } else {
        unsigned_decimal(n / 10) + seq![digit_byte(n % 10) as char]
    }
}

/// The number that a text of decimal digit characters writes, most
/// significant first.
pub open spec fn decimal_text_value(s: Seq<char>) -> int
    decreases s.len(),
{
    if s.len() == 0 {
        0
    } else {
        decimal_text_value(s.drop_last()) * 10 + (s.last() as int - 48)
    }
}

/// Writing a number in decimal gives its shortest decimal form: at least one
/// character, every one of them `0` to `9`, no leading `0` but in `0`
/// itself, and the digits stand for the number.
pub proof fn lemma_unsigned_decimal_law(n: nat)
    ensures
        unsigned_decimal(n).len() >= 1,
        forall|i: int|
            0 <= i < unsigned_decimal(n).len() ==> '0' <= #[trigger] unsigned_decimal(n)[i] <= '9',
        n > 0 ==> unsigned_decimal(n)[0] != '0',
        n == 0 ==> unsigned_decimal(n) == seq!['0'],
        decimal_text_value(unsigned_decimal(n)) == n,
    decreases n,
{
    let s = unsigned_decimal(n);
    if n < 10 {
        assert(s.drop_last() =~= Seq::<char>::empty());
        assert(decimal_text_value(s.drop_last()) == 0);
        assert(s.last() as int - 48 == n);
    } else {
        lemma_unsigned_decimal_law(n / 10);
        let p = unsigned_decimal(n / 10);
        assert(s.drop_last() =~= p);
        assert(s.last() as int - 48 == n % 10);
        vstd::arithmetic::div_mod::lemma_fundamental_div_mod(n as int, 10);
        assert(s[0] == p[0]);
        assert forall|i: int| 0 <= i < s.len() implies '0' <= #[trigger] s[i] <= '9' by {
            if i < p.len() {
                assert(s[i] == p[i]);
            }
        }
    }
}

/// An integer in decimal, with a leading `-` when it is negative.
pub open spec fn decimal(n: int) -> Seq<char> {
    if n < 0 {
        seq!['-'] + unsigned_decimal((-n) as nat)
    } else {
        unsigned_decimal(n as nat)
    }
}

/// The full track file name:
/// `{artist}-{album}({year})-D{disc:0>2}-T{track:0>2}-{name}.ogg`.
pub open spec fn full_name(
    artist: Seq<char>,
    album: Seq<char>,
    year: int,
    disc: Seq<char>,
    track: Seq<char>,
    name: Seq<char>,
) -> Seq<char> {
    artist + seq!['-'] + album + seq!['('] + decimal(year) + seq![')', '-', 'D'] + pad2(disc) + seq![
        '-',
        'T',
    ] + pad2(track) + seq!['-'] + name + seq!['.', 'o', 'g', 'g']
}

/// The position of the last comma among the first `k` characters, or 0.
pub open spec fn comma_index(s: Seq<char>, k: int) -> int
    decreases k,
{
    if k <= 0 {
        0
    } else if s[k - 1] == ',' {
        k - 1
    } else {
        comma_index(s, k - 1)
    }
}

/// Where a comma stands among the first `k` characters, the position found
/// holds a comma and no comma follows it before `k`; where none stands, it
/// is 0.
pub proof fn lemma_comma_index_law(s: Seq<char>, k: int)
    requires
        0 <= k <= s.len(),
    ensures
        (exists|j: int| 0 <= j < k && s[j] == ',') ==> 0 <= comma_index(s, k) < k && s[comma_index(
            s,
            k,
        )] == ',' && forall|j: int| comma_index(s, k) < j < k ==> s[j] != ',',
        !(exists|j: int| 0 <= j < k && s[j] == ',') ==> comma_index(s, k) == 0,
    decreases k,
{
    if k > 0 {
        lemma_comma_index_law(s, k - 1);
        if s[k - 1] != ',' {
            if exists|j: int| 0 <= j < k && s[j] == ',' {
                let j = choose|j: int| 0 <= j < k && s[j] == ',';
                assert(0 <= j < k - 1);
            }
        }
    }
}

/// The text with each `", "` (read from the left) written `","`.
pub open spec fn collapse_comma_space(s: Seq<char>) -> Seq<char>
    decreases s.len(),
{
    if s.len() < 2 {
        s
    } else if s[0] == ',' && s[1] == ' ' {
        seq![','] + collapse_comma_space(s.skip(2))
    } else {
        seq![s[0]] + collapse_comma_space(s.skip(1))
    }
}

/// The number of UTF-8 bytes of a text.
pub open spec fn byte_len(s: Seq<char>) -> nat {
    encode_utf8(s).len()
}

/// The name a track file gets before its characters are cleaned: the full
/// name, or, when the full name in the folder would be longer than
/// [`MAX_PATH_LEN`], a shorter `{artist}-{name}.ogg`, where an artist list
/// too long is cut at its last comma in reach (`,etc.`) or at the limit (`...`).
pub open spec fn chosen_name(
    artist: Seq<char>,
    album: Seq<char>,
    year: int,
    disc: Seq<char>,
    track: Seq<char>,
    name: Seq<char>,
    folder_len: nat,
) -> Seq<char> {
    let full = full_name(artist, album, year, disc, track, name);
    if byte_len(full) + folder_len + 1 > MAX_PATH_LEN {
        let max_artist = MAX_PATH_LEN - byte_len(name) - 5;
        if byte_len(artist) > max_artist {
            let index = comma_index(
                artist,
                if artist.len() < max_artist + 2 {
                    artist.len() as int
                } else {
                    max_artist + 2
                },
            );
            if artist.contains(',') && index != 0 {
                first_chars(artist, (index - 1) as nat) + seq![',', 'e', 't', 'c', '.', '-'] + name
                    + seq!['.', 'o', 'g', 'g']
            } else {
                first_chars(artist, max_artist as nat) + seq!['.', '.', '.', '-'] + name + seq![
                    '.',
                    'o',
                    'g',
                    'g',
                ]
            }
        } else {
            artist + seq!['-'] + name + seq!['.', 'o', 'g', 'g']
        }
    } else {
        full
    }
}

/// The characters of `s` appended to `out`.
fn append_str(out: &mut Vec<char>, s: &str)
    ensures
        final(out)@ == old(out)@ + s@,
{
    let mut cs = chars_of(s);
    out.append(&mut cs);
}

/// The decimal digits of `n` appended to `out`.
fn append_unsigned(out: &mut Vec<char>, n: u64)
    ensures
        final(out)@ == old(out)@ + unsigned_decimal(n as nat),
{
    let mut digits: Vec<char> = Vec::new();
    let mut m: u64 = n;
    while m >= 10
        invariant
            unsigned_decimal(n as nat) == unsigned_decimal(m as nat) + digits@,
        decreases m,
    {
        let d = (m % 10) as u8;
        digits.insert(0, (48 + d) as char);
        proof {
            assert(digit_byte((m % 10) as nat) == 48 + d);
            assert(unsigned_decimal(m as nat) == unsigned_decimal((m / 10) as nat) + seq![
                digit_byte((m % 10) as nat) as char,
            ]);
            assert(unsigned_decimal(n as nat) =~= unsigned_decimal((m / 10) as nat) + digits@);
        }
        m = m / 10;
    }
    let d = m as u8;
    digits.insert(0, (48 + d) as char);
    assert(unsigned_decimal(n as nat) =~= digits@);
    out.append(&mut digits);
}

/// A text padded with `0` to two characters, appended to `out`.
fn append_pad2(out: &mut Vec<char>, s: &str)
    ensures
        final(out)@ == old(out)@ + pad2(s@),
{
    let cs = chars_of(s);
    if cs.len() == 0 {
        out.push('0');
        out.push('0');
    } else if cs.len() == 1 {
        out.push('0');
        out.push(cs[0]);
        assert(seq!['0'] + s@ =~= seq!['0', s@[0]]);
    } else {
        let mut cs = cs;
        out.append(&mut cs);
    }
}

/// `.ogg` appended to `out`.
fn append_ogg(out: &mut Vec<char>)
    ensures
        final(out)@ == old(out)@ + seq!['.', 'o', 'g', 'g'],
{
    out.push('.');
    out.push('o');
    out.push('g');
    out.push('g');
}

/// The full track file name, unsanitized.
fn full_name_chars(
    artist: &str,
    album: &str,
    year: i32,
    disc: &str,
    track: &str,
    name: &str,
) -> (r: Vec<char>)
    ensures
        r@ == full_name(artist@, album@, year as int, disc@, track@, name@),
{
    let mut out: Vec<char> = Vec::new();
    append_str(&mut out, artist);
    out.push('-');
    append_str(&mut out, album);
    out.push('(');
    if year < 0 {
        out.push('-');
        append_unsigned(&mut out, (0i64 - year as i64) as u64);
    } else {
        append_unsigned(&mut out, year as u64);
    }
    out.push(')');
    out.push('-');
    out.push('D');
    append_pad2(&mut out, disc);
    out.push('-');
    out.push('T');
    append_pad2(&mut out, track);
    out.push('-');
    append_str(&mut out, name);
    append_ogg(&mut out);
    assert(out@ =~= full_name(artist@, album@, year as int, disc@, track@, name@));
    out
}

/// The text with each `", "` written `","`.
fn collapse_chars(s: &Vec<char>) -> (r: Vec<char>)
    ensures
        r@ == collapse_comma_space(s@),
{
    let mut out: Vec<char> = Vec::new();
    let mut i: usize = 0;
    assert(s@.skip(0) =~= s@);
    assert(out@ + collapse_comma_space(s@) =~= collapse_comma_space(s@));
    while i < s.len()
        invariant
            0 <= i <= s@.len(),
            out@ + collapse_comma_space(s@.skip(i as int)) == collapse_comma_space(s@),
        decreases s@.len() - i,
    {
        let ghost rest = s@.skip(i as int);
        if i + 1 < s.len() && s[i] == ',' && s[i + 1] == ' ' {
            out.push(',');
            proof {
                assert(rest.skip(2) =~= s@.skip(i + 2));
                assert(out@ + collapse_comma_space(s@.skip(i + 2)) =~= collapse_comma_space(s@));
            }
            i += 2;
        } else {
            out.push(s[i]);
            proof {
                assert(rest.skip(1) =~= s@.skip(i + 1));
                if rest.len() >= 2 {
                    assert(collapse_comma_space(rest) == seq![rest[0]] + collapse_comma_space(
                        rest.skip(1),
                    ));
                } else {
                    assert(rest.skip(1) =~= Seq::<char>::empty());
                    assert(collapse_comma_space(rest) == rest);
                    assert(rest =~= seq![rest[0]] + rest.skip(1));
                }
                assert(out@ + collapse_comma_space(s@.skip(i + 1)) =~= collapse_comma_space(s@));
            }
            i += 1;
        }
    }
    assert(s@.skip(i as int) =~= Seq::<char>::empty());
    assert(out@ + Seq::<char>::empty() =~= out@);
    out
}

/// Whether `cs` holds the character `c`.
fn holds_char(cs: &Vec<char>, c: char) -> (r: bool)
    ensures
        r == cs@.contains(c),
{
    let mut i: usize = 0;
    while i < cs.len()
        invariant
            0 <= i <= cs@.len(),
            forall|j: int| 0 <= j < i ==> cs@[j] != c,
        decreases cs@.len() - i,
    {
        if cs[i] == c {
            return true;
        }
        i += 1;
    }
    false
}

/// Whether the full name of a track overflows `usize` when its length is
/// added to that of its folder, or is too long while its track name leaves
/// no room for an artist: on those inputs no file name is made.
pub open spec fn file_name_overflows(
    artist: Seq<char>,
    album: Seq<char>,
    year: int,
    disc: Seq<char>,
    track: Seq<char>,
    name: Seq<char>,
    folder_len: nat,
) -> bool {
    let total = byte_len(full_name(artist, album, year, disc, track, name)) + folder_len + 1;
    total > usize::MAX || (total > MAX_PATH_LEN && byte_len(name) + 5 > MAX_PATH_LEN)
}

/// The file name of a track in a folder whose path is `folder_len` bytes
/// long: the full name `{artist}-{album}({year})-D{disc:0>2}-T{track:0>2}-{name}.ogg`,
/// or a shorter one when the path would be too long (see [`chosen_name`]),
/// with each `", "` written `","` and then sanitized. `None` when the
/// lengths overflow (see [`file_name_overflows`]).
pub fn track_file_name(
    artist: &str,
    album: &str,
    year: i32,
    disc: &str,
    track: &str,
    name: &str,
    folder_len: usize,
) -> (r: Option<String>)
    ensures
        match r {
            Some(f) => !file_name_overflows(
                artist@,
                album@,
                year as int,
                disc@,
                track@,
                name@,
                folder_len as nat,
            ) && f@ == sanitized(
                collapse_comma_space(
                    chosen_name(
                        artist@,
                        album@,
                        year as int,
                        disc@,
                        track@,
                        name@,
                        folder_len as nat,
                    ),
                ),
            ),
            None => file_name_overflows(
                artist@,
                album@,
                year as int,
                disc@,
                track@,
                name@,
                folder_len as nat,
            ),
        },
{
    let full = full_name_chars(artist, album, year, disc, track, name);
    let full_s = string_of(&full);
    let full_len = full_s.as_str().as_bytes().len();
    let total = match full_len.checked_add(folder_len) {
        Some(t) => match t.checked_add(1) {
            Some(t1) => t1,
            None => return None,
        },
        None => return None,
    };
    let ghost spec_name = chosen_name(
        artist@,
        album@,
        year as int,
        disc@,
        track@,
        name@,
        folder_len as nat,
    );
    let chosen: Vec<char> = if total > MAX_PATH_LEN {
        let name_len = name.as_bytes().len();
        if name_len > MAX_PATH_LEN - 5 {
            return None;
        }
        let max_artist = MAX_PATH_LEN - name_len - 5;
        if artist.as_bytes().len() > max_artist {
            let acs = chars_of(artist);
            let mut out: Vec<char> = Vec::new();
            if holds_char(&acs, ',') {
                let mut index: usize = 0;
                let mut i: usize = 0;
                while i < acs.len() && i <= max_artist + 1
                    invariant
                        max_artist <= MAX_PATH_LEN,
                        0 <= i <= acs@.len(),
                        i <= max_artist + 2,
                        index as int == comma_index(acs@, i as int),
                        index < acs@.len() || index == 0,
                    decreases acs@.len() - i,
                {
                    if acs[i] == ',' {
                        index = i;
                    }
                    i += 1;
                }
                if index != 0 {
                    append_str(&mut out, truncate(artist, index - 1));
                    out.push(',');
                    out.push('e');
                    out.push('t');
                    out.push('c');
                    out.push('.');
                    out.push('-');
                } else {
                    append_str(&mut out, truncate(artist, max_artist));
                    out.push('.');
                    out.push('.');
                    out.push('.');
                    out.push('-');
                }
            } else {
                append_str(&mut out, truncate(artist, max_artist));
                out.push('.');
                out.push('.');
                out.push('.');
                out.push('-');
            }
            append_str(&mut out, name);
            append_ogg(&mut out);
            assert(out@ =~= spec_name);
            out
        } else {
            let mut out: Vec<char> = Vec::new();
            append_str(&mut out, artist);
            out.push('-');
            append_str(&mut out, name);
            append_ogg(&mut out);
            assert(out@ =~= spec_name);
            out
        }
    } else {
        full
    };
    let collapsed = collapse_chars(&chosen);
    Some(sanitize(&string_of(&collapsed)))
}

/// The file name that tracks got before their year was known: the full
/// name with the year `1666`, each `", "` written `","`, sanitized.
pub fn legacy_file_name(artist: &str, album: &str, disc: &str, track: &str, name: &str) -> (r:
    String)
    ensures
        r@ == sanitized(collapse_comma_space(full_name(artist@, album@, 1666, disc@, track@, name@))),
{
    let full = full_name_chars(artist, album, 1666, disc, track, name);
    let collapsed = collapse_chars(&full);
    sanitize(&string_of(&collapsed))
}

/// The title of a playlist entry: `{artist} - {name}`.
pub fn entry_title(artist: &str, name: &str) -> (r: String)
    ensures
        r@ == artist@ + seq![' ', '-', ' '] + name@,
{
    let mut out: Vec<char> = Vec::new();
    append_str(&mut out, artist);
    out.push(' ');
    out.push('-');
    out.push(' ');
    append_str(&mut out, name);
    assert(out@ =~= artist@ + seq![' ', '-', ' '] + name@);
    string_of(&out)
}

/// The path of a track in a playlist: `{folder}/{file_name}` with every `#`
/// written `%23`.
pub fn playlist_entry_path(folder: &str, file_name: &str) -> (r: String)
    ensures
        r@ == escaped(folder@ + seq!['/'] + file_name@),
{
    let mut out: Vec<char> = Vec::new();
    append_str(&mut out, folder);
    out.push('/');
    append_str(&mut out, file_name);
    assert(out@ =~= folder@ + seq!['/'] + file_name@);
    encode(&string_of(&out))
}

/// A character that a sanitized name may hold.
pub open spec fn is_clean_char(c: char) -> bool {
    !is_banned(c) && c != '"' && c != ' '
}

/// Sanitizing joined texts sanitizes each.
pub proof fn lemma_sanitized_concat(a: Seq<char>, b: Seq<char>)
    ensures
        sanitized(a + b) == sanitized(a) + sanitized(b),
    decreases b.len(),
{
    if b.len() == 0 {
        assert(a + b =~= a);
        assert(sanitized(b) =~= Seq::<char>::empty());
        assert(sanitized(a) + sanitized(b) =~= sanitized(a));
    } else {
        lemma_sanitized_concat(a, b.drop_last());
        assert((a + b).drop_last() =~= a + b.drop_last());
        assert((a + b).last() == b.last());
        assert(sanitized(a + b) =~= sanitized(a) + sanitized(b));
    }
}

/// A sanitized name holds no banned character, no double quote and no space.
pub proof fn lemma_sanitized_clean(s: Seq<char>)
    ensures
        forall|i: int| 0 <= i < sanitized(s).len() ==> is_clean_char(#[trigger] sanitized(s)[i]),
    decreases s.len(),
{
    if s.len() > 0 {
        lemma_sanitized_clean(s.drop_last());
        let prev = sanitized(s.drop_last());
        let last = sanitize_char(s.last());
        assert forall|i: int| 0 <= i < sanitized(s).len() implies is_clean_char(
            #[trigger] sanitized(s)[i],
        ) by {
            if i < prev.len() {
                assert(sanitized(s)[i] == prev[i]);
            } else {
                assert(sanitized(s)[i] == last[i - prev.len()]);
            }
        }
    }
}

/// Sanitizing leaves a name that is already clean as it is.
pub proof fn lemma_sanitized_of_clean(s: Seq<char>)
    requires
        forall|i: int| 0 <= i < s.len() ==> is_clean_char(#[trigger] s[i]),
    ensures
        sanitized(s) == s,
    decreases s.len(),
{
    if s.len() > 0 {
        lemma_sanitized_of_clean(s.drop_last());
        assert(is_clean_char(s[s.len() - 1]));
        assert(sanitized(s) =~= s.drop_last() + seq![s.last()]);
        assert(s.drop_last() + seq![s.last()] =~= s);
    }
}

/// Sanitizing removes exactly the eight characters `: / \\ < > | ? *`,
/// writes `"` as `'` and a space as `_`, and keeps every other character as
/// it is; with [`lemma_sanitized_concat`] this fixes the whole text.
pub proof fn lemma_sanitize_char_law(c: char)
    ensures
        sanitized(seq![c]).len() == 0 <==> (c == ':' || c == '/' || c == '\\' || c == '<' || c
            == '>' || c == '|' || c == '?' || c == '*'),
        c == '"' ==> sanitized(seq![c]) == seq!['\''],
        c == ' ' ==> sanitized(seq![c]) == seq!['_'],
        sanitized(seq![c]) == seq![c] <==> !(c == ':' || c == '/' || c == '\\' || c == '<' || c
            == '>' || c == '|' || c == '?' || c == '*' || c == '"' || c == ' '),
{
    let one = seq![c];
    assert(one.drop_last() =~= Seq::<char>::empty());
    assert(one.last() == c);
    assert(sanitized(Seq::<char>::empty()) == Seq::<char>::empty());
    assert(sanitized(one) == sanitized(one.drop_last()) + sanitize_char(c));
    assert(Seq::<char>::empty() + sanitize_char(c) =~= sanitize_char(c));
}

/// A name that holds none of `: / \\ < > | ? * "` and no space comes out
/// of sanitizing unchanged.
pub proof fn lemma_sanitize_keeps_plain(s: Seq<char>)
    requires
        forall|i: int|
            0 <= i < s.len() ==> !(#[trigger] s[i] == ':' || s[i] == '/' || s[i] == '\\' || s[i]
                == '<' || s[i] == '>' || s[i] == '|' || s[i] == '?' || s[i] == '*' || s[i] == '"'
                || s[i] == ' '),
    ensures
        sanitized(s) == s,
{
    assert forall|i: int| 0 <= i < s.len() implies is_clean_char(#[trigger] s[i]) by {}
    lemma_sanitized_of_clean(s);
}

/// Escaping writes `#` as `%23` and keeps every other character; with
/// [`lemma_escaped_concat`] this fixes the whole text.
pub proof fn lemma_escape_char_law(c: char)
    ensures
        c == '#' ==> escaped(seq![c]) == seq!['%', '2', '3'],
        c != '#' ==> escaped(seq![c]) == seq![c],
{
    let one = seq![c];
    assert(one.drop_last() =~= Seq::<char>::empty());
    assert(one.last() == c);
    assert(escaped(Seq::<char>::empty()) == Seq::<char>::empty());
    assert(escaped(one) == escaped(one.drop_last()) + escape_char(c));
    assert(Seq::<char>::empty() + escape_char(c) =~= escape_char(c));
}

/// Sanitizing a name twice gives what sanitizing it once gives.
pub proof fn lemma_sanitize_idempotent(s: Seq<char>)
    ensures
        sanitized(sanitized(s)) == sanitized(s),
{
    lemma_sanitized_clean(s);
    lemma_sanitized_of_clean(sanitized(s));
}

/// An escaped path holds no `#`.
pub proof fn lemma_escaped_has_no_hash(s: Seq<char>)
    ensures
        forall|i: int| 0 <= i < escaped(s).len() ==> #[trigger] escaped(s)[i] != '#',
    decreases s.len(),
{
    if s.len() > 0 {
        lemma_escaped_has_no_hash(s.drop_last());
        let prev = escaped(s.drop_last());
        let last = escape_char(s.last());
        assert forall|i: int| 0 <= i < escaped(s).len() implies #[trigger] escaped(s)[i] != '#' by {
            if i < prev.len() {
                assert(escaped(s)[i] == prev[i]);
            } else {
                assert(escaped(s)[i] == last[i - prev.len()]);
            }
        }
    }
}

/// Escaping leaves a path without `#` as it is.
pub proof fn lemma_escaped_without_hash(s: Seq<char>)
    requires
        !s.contains('#'),
    ensures
        escaped(s) == s,
    decreases s.len(),
{
    if s.len() > 0 {
        assert(!s.drop_last().contains('#')) by {
            if s.drop_last().contains('#') {
                let i = choose|i: int| 0 <= i < s.drop_last().len() && s.drop_last()[i] == '#';
                assert(s[i] == '#');
            }
        }
        lemma_escaped_without_hash(s.drop_last());
        assert(s[s.len() - 1] != '#');
        assert(escaped(s) =~= s);
    }
}

/// The file extension of tracks.
pub open spec fn ogg_suffix() -> Seq<char> {
    seq!['.', 'o', 'g', 'g']
}

/// Collapsing `", "` leaves a tail without commas that does not start with
/// a space as it is.
proof fn lemma_collapse_keeps_tail(p: Seq<char>, q: Seq<char>)
    requires
        q.len() > 0,
        q[0] != ' ',
        !q.contains(','),
    ensures
        collapse_comma_space(p + q) == collapse_comma_space(p) + q,
    decreases p.len(),
{
    if p.len() == 0 {
        assert(p + q =~= q);
        lemma_collapse_without_comma(q);
        assert(collapse_comma_space(p) =~= p);
        assert(p + q =~= q);
    } else if p.len() == 1 {
        let s = p + q;
        assert(s[0] == p[0]);
        assert(s[1] == q[0]);
        assert(s.skip(1) =~= q);
        lemma_collapse_without_comma(q);
        assert(collapse_comma_space(p) == p);
        assert(collapse_comma_space(s) =~= p + q);
    } else {
        let s = p + q;
        assert(s[0] == p[0] && s[1] == p[1]);
        if p[0] == ',' && p[1] == ' ' {
            assert(s.skip(2) =~= p.skip(2) + q);
            lemma_collapse_keeps_tail(p.skip(2), q);
            assert(collapse_comma_space(s) =~= collapse_comma_space(p) + q);
        } else {
            assert(s.skip(1) =~= p.skip(1) + q);
            lemma_collapse_keeps_tail(p.skip(1), q);
            assert(collapse_comma_space(s) =~= collapse_comma_space(p) + q);
        }
    }
}

/// Collapsing `", "` leaves a text without commas as it is.
proof fn lemma_collapse_without_comma(q: Seq<char>)
    requires
        !q.contains(','),
    ensures
        collapse_comma_space(q) == q,
    decreases q.len(),
{
    if q.len() >= 2 {
        assert(q[0] != ',');
        assert(!q.skip(1).contains(',')) by {
            if q.skip(1).contains(',') {
                let i = choose|i: int| 0 <= i < q.skip(1).len() && q.skip(1)[i] == ',';
                assert(q[i + 1] == ',');
            }
        }
        lemma_collapse_without_comma(q.skip(1));
        assert(seq![q[0]] + q.skip(1) =~= q);
    }
}

/// The name chosen for a track file ends with `.ogg`.
proof fn lemma_chosen_name_ogg(
    artist: Seq<char>,
    album: Seq<char>,
    year: int,
    disc: Seq<char>,
    track: Seq<char>,
    name: Seq<char>,
    folder_len: nat,
)
    ensures
        ({
            let c = chosen_name(artist, album, year, disc, track, name, folder_len);
            c.len() >= 4 && c == c.take(c.len() - 4) + ogg_suffix()
        }),
{
    let c = chosen_name(artist, album, year, disc, track, name, folder_len);
    assert(c.len() >= 4);
    assert(c.skip(c.len() - 4) =~= ogg_suffix());
    assert(c =~= c.take(c.len() - 4) + c.skip(c.len() - 4));
}

/// Every track file name ends with `.ogg`: what precedes it is the
/// sanitized, comma-collapsed name chosen for the track.
pub proof fn lemma_track_file_name_ogg(
    artist: Seq<char>,
    album: Seq<char>,
    year: int,
    disc: Seq<char>,
    track: Seq<char>,
    name: Seq<char>,
    folder_len: nat,
)
    ensures
        ({
            let c = chosen_name(artist, album, year, disc, track, name, folder_len);
            sanitized(collapse_comma_space(c)) == sanitized(collapse_comma_space(
                c.take(c.len() - 4),
            )) + ogg_suffix()
        }),
{
    let c = chosen_name(artist, album, year, disc, track, name, folder_len);
    lemma_chosen_name_ogg(artist, album, year, disc, track, name, folder_len);
    let p = c.take(c.len() - 4);
    assert(!ogg_suffix().contains(',')) by {
        if ogg_suffix().contains(',') {
            let i = choose|i: int| 0 <= i < 4 && ogg_suffix()[i] == ',';
        }
    }
    lemma_collapse_keeps_tail(p, ogg_suffix());
    lemma_sanitized_concat(collapse_comma_space(p), ogg_suffix());
    assert forall|i: int| 0 <= i < 4 implies is_clean_char(#[trigger] ogg_suffix()[i]) by {}
    lemma_sanitized_of_clean(ogg_suffix());
}

/// The text with each `%23` (read from the left) written `#`: what
/// `replace("%23", "#")` makes of it.
pub open spec fn unescaped(s: Seq<char>) -> Seq<char>
    decreases s.len(),
{
    if s.len() >= 3 && s[0] == '%' && s[1] == '2' && s[2] == '3' {
        seq!['#'] + unescaped(s.skip(3))
    } else if s.len() == 0 {
        s
    } else {
        seq![s[0]] + unescaped(s.skip(1))
    }
}

/// The text holds `%23`.
pub open spec fn holds_escape(s: Seq<char>) -> bool {
    exists|i: int| 0 <= i && i + 3 <= s.len() && #[trigger] s.subrange(i, i + 3) == seq!['%', '2', '3']
}

/// Escaping joined texts escapes each.
pub proof fn lemma_escaped_concat(a: Seq<char>, b: Seq<char>)
    ensures
        escaped(a + b) == escaped(a) + escaped(b),
    decreases b.len(),
{
    if b.len() == 0 {
        assert(a + b =~= a);
        assert(escaped(b) =~= Seq::<char>::empty());
        assert(escaped(a) + escaped(b) =~= escaped(a));
    } else {
        lemma_escaped_concat(a, b.drop_last());
        assert((a + b).drop_last() =~= a + b.drop_last());
        assert((a + b).last() == b.last());
        assert(escaped(a + b) =~= escaped(a) + escaped(b));
    }
}

/// Escaping a text escapes its first character, then the rest.
proof fn lemma_escaped_front(s: Seq<char>)
    requires
        s.len() > 0,
    ensures
        escaped(s) == escape_char(s[0]) + escaped(s.skip(1)),
{
    lemma_escaped_concat(seq![s[0]], s.skip(1));
    assert(seq![s[0]] + s.skip(1) =~= s);
    assert(seq![s[0]].drop_last() =~= Seq::<char>::empty());
    assert(escaped(Seq::<char>::empty()) =~= Seq::<char>::empty());
    assert(escaped(seq![s[0]]) =~= escape_char(s[0]));
}

/// Writing `#` back for each `%23` of an escaped path gives the path, when
/// the path itself holds no `%23`.
pub proof fn lemma_unescape_escaped(s: Seq<char>)
    requires
        !holds_escape(s),
    ensures
        unescaped(escaped(s)) == s,
    decreases s.len(),
{
    if s.len() == 0 {
        assert(escaped(s) =~= Seq::<char>::empty());
    } else {
        let t = s.skip(1);
        assert(!holds_escape(t)) by {
            if holds_escape(t) {
                let i = choose|i: int|
                    0 <= i && i + 3 <= t.len() && #[trigger] t.subrange(i, i + 3) == seq![
                        '%',
                        '2',
                        '3',
                    ];
                let j = i + 1;
                assert(s.subrange(j, j + 3) =~= t.subrange(i, i + 3));
                assert(holds_escape(s));
            }
        }
        lemma_unescape_escaped(t);
        lemma_escaped_front(s);
        let e = escaped(s);
        let et = escaped(t);
        if s[0] == '#' {
            assert(e.skip(3) =~= et);
            assert(e[0] == '%' && e[1] == '2' && e[2] == '3');
            assert(unescaped(e) == seq!['#'] + unescaped(et));
            assert(seq!['#'] + t =~= s);
        } else {
            assert(e =~= seq![s[0]] + et);
            assert(e.skip(1) =~= et);
            if e.len() >= 3 && e[0] == '%' && e[1] == '2' && e[2] == '3' {
                lemma_escaped_front(t);
                assert(et[0] == '2');
                assert(t[0] != '#');
                assert(t[0] == '2');
                let t2 = t.skip(1);
                assert(et =~= seq![t[0]] + escaped(t2));
                assert(escaped(t2).len() > 0);
                assert(t2.len() > 0);
                lemma_escaped_front(t2);
                assert(escaped(t2)[0] == '3');
                assert(t2[0] == '3');
                let j: int = 0;
                assert(s.subrange(j, j + 3) =~= seq!['%', '2', '3']);
                assert(holds_escape(s));
                assert(false);
            }
            assert(unescaped(e) == seq![e[0]] + unescaped(e.skip(1)));
            assert(seq![s[0]] + t =~= s);
        }
    }
}

} // verus!
