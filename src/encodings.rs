//! Telling apart UTF-8, UTF-16 in either byte order, and Latin-1, by byte
//! order marks and by what decodes to letters.
use crate::greek::{alphabetic, is_alpha};
use vstd::prelude::*;
use vstd::utf8::{decode_utf8, valid_utf8};

verus! {

/// The last code point of the Latin Extended Additional block.
pub const MAX_LATIN_CODE: u32 = 0x1eff;

/// What `String::from_utf16` makes of `units`; `None` where they hold an
/// unpaired surrogate.
pub uninterp spec fn utf16_text(units: Seq<u16>) -> Option<Seq<char>>;

/// Relies on `String::from_utf16`: decodes UTF-16 code units, failing on an
/// unpaired surrogate.
#[verifier::external_body]
fn utf16_string(units: &[u16]) -> (r: Option<String>)
    ensures
        r matches Some(s) ==> utf16_text(units@) == Some(s@),
        r is None ==> utf16_text(units@) is None,
{
    String::from_utf16(units).ok()
}

/// Relies on `String::from_utf8`: the text the bytes encode, where they are
/// valid UTF-8.
#[verifier::external_body]
pub(crate) fn utf8_string(bytes: Vec<u8>) -> (r: Option<String>)
    ensures
        r is Some <==> valid_utf8(bytes@),
        r matches Some(s) ==> s@ == decode_utf8(bytes@),
{
    String::from_utf8(bytes).ok()
}

/// The big-endian code units of `b`; a last odd byte is dropped.
pub open spec fn be_units(b: Seq<u8>) -> Seq<u16> {
    Seq::new(b.len() / 2, |i: int| (b[2 * i] * 256 + b[2 * i + 1]) as u16)
}

/// The little-endian code units of `b`; a last odd byte is dropped.
pub open spec fn le_units(b: Seq<u8>) -> Seq<u16> {
    Seq::new(b.len() / 2, |i: int| (b[2 * i + 1] * 256 + b[2 * i]) as u16)
}

fn units(bytes: &[u8], big_endian: bool) -> (r: Vec<u16>)
    ensures
        big_endian ==> r@ == be_units(bytes@),
        !big_endian ==> r@ == le_units(bytes@),
{
    let m = bytes.len();
    let n = m / 2;
    let mut r: Vec<u16> = Vec::new();
    let mut i: usize = 0;
    while i < n
        invariant
            m == bytes@.len(),
            n == m / 2,
            i <= n,
            r@.len() == i,
            forall|j: int|
                0 <= j < i ==> #[trigger] r@[j] == (if big_endian {
                    (bytes@[2 * j] * 256 + bytes@[2 * j + 1]) as u16
                } else {
                    (bytes@[2 * j + 1] * 256 + bytes@[2 * j]) as u16
                }),
        decreases n - i,
    {
        assert(2 * i + 1 < m);
        let (hi, lo) = if big_endian {
            (bytes[2 * i], bytes[2 * i + 1])
        } else {
            (bytes[2 * i + 1], bytes[2 * i])
        };
        r.push((hi as u16) * 256 + lo as u16);
        i += 1;
    }
    assert(big_endian ==> r@ =~= be_units(bytes@));
    assert(!big_endian ==> r@ =~= le_units(bytes@));
    r
}

/// Decodes big-endian UTF-16.
pub fn decode_utf16be(bytes: &[u8]) -> (r: Option<String>)
    ensures
        r matches Some(s) ==> utf16_text(be_units(bytes@)) == Some(s@),
        r is None ==> utf16_text(be_units(bytes@)) is None,
{
    let u = units(bytes, true);
    utf16_string(u.as_slice())
}

/// Decodes little-endian UTF-16.
pub fn decode_utf16le(bytes: &[u8]) -> (r: Option<String>)
    ensures
        r matches Some(s) ==> utf16_text(le_units(bytes@)) == Some(s@),
        r is None ==> utf16_text(le_units(bytes@)) is None,
{
    let u = units(bytes, false);
    utf16_string(u.as_slice())
}

/// Letters only, each within the Latin blocks once cut to 16 bits.
pub open spec fn latin_letters(t: Seq<char>) -> bool {
    forall|i: int|
        0 <= i < t.len() ==> alphabetic(#[trigger] t[i]) && (t[i] as u32) % 0x10000 <= MAX_LATIN_CODE
}

fn all_latin_letters(s: &String) -> (r: bool)
    ensures
        r == latin_letters(s@),
{
    let cs = crate::text::chars_of(s.as_str());
    let mut i: usize = 0;
    while i < cs.len()
        invariant
            cs@ == s@,
            i <= cs@.len(),
            forall|j: int|
                0 <= j < i ==> alphabetic(#[trigger] cs@[j]) && (cs@[j] as u32) % 0x10000
                    <= MAX_LATIN_CODE,
        decreases cs@.len() - i,
    {
        let c = cs[i];
        if !(is_alpha(c) && (c as u32) % 0x10000 <= MAX_LATIN_CODE) {
            return false;
        }
        i += 1;
    }
    true
}

/// `t` reads the bytes `b` as Latin-1, one character per byte.
pub open spec fn latin1_of(b: Seq<u8>, t: Seq<char>) -> bool {
    t.len() == b.len() && forall|i: int| 0 <= i < t.len() ==> (#[trigger] t[i]) as u32 == b[i]
}

/// `t` is a reading of `b`, which is no valid UTF-8 and has no byte order
/// mark: UTF-16 big-endian or little-endian that gives Latin letters only,
/// or Latin-1 that gives letters only.
pub open spec fn decoded_otherwise(b: Seq<u8>, t: Seq<char>) -> bool {
    ||| utf16_text(be_units(b)) == Some(t) && latin_letters(t)
    ||| utf16_text(le_units(b)) == Some(t) && latin_letters(t)
    ||| latin1_of(b, t) && forall|i: int| 0 <= i < t.len() ==> alphabetic(#[trigger] t[i])
}

/// Decodes text of unknown encoding: a byte order mark settles UTF-16 or
/// UTF-8; else valid UTF-8; else UTF-16 big-endian, then little-endian,
/// where that gives Latin letters only; else Latin-1 where that gives
/// letters only. `None` where the bytes are too short to check for a mark,
/// fail the encoding their mark names, or fit none of these.
pub fn decode(bytes: &[u8]) -> (r: Option<String>)
    ensures
        bytes@.len() < 3 && !(bytes@.len() == 2 && (bytes@[0] == 0xfe && bytes@[1] == 0xff
            || bytes@[0] == 0xff && bytes@[1] == 0xfe)) ==> r is None,
        bytes@.len() >= 2 && bytes@[0] == 0xfe && bytes@[1] == 0xff ==> (r matches Some(s) ==> utf16_text(
            be_units(bytes@.skip(2)),
        ) == Some(s@)) && (r is None ==> utf16_text(be_units(bytes@.skip(2))) is None),
        bytes@.len() >= 2 && bytes@[0] == 0xff && bytes@[1] == 0xfe ==> (r matches Some(s) ==> utf16_text(
            le_units(bytes@.skip(2)),
        ) == Some(s@)) && (r is None ==> utf16_text(le_units(bytes@.skip(2))) is None),
        bytes@.len() >= 3 && bytes@[0] == 0xef && bytes@[1] == 0xbb && bytes@[2] == 0xbf ==> (r
            is Some <==> valid_utf8(bytes@.skip(3))) && (r matches Some(s) ==> s@ == decode_utf8(
            bytes@.skip(3),
        )),
        bytes@.len() >= 3 && !(bytes@[0] == 0xfe && bytes@[1] == 0xff) && !(bytes@[0] == 0xff
            && bytes@[1] == 0xfe) && !(bytes@[0] == 0xef && bytes@[1] == 0xbb && bytes@[2] == 0xbf)
            ==> (valid_utf8(bytes@) ==> r is Some && r->0@ == decode_utf8(bytes@)) && (!valid_utf8(
            bytes@,
        ) ==> (r is Some ==> decoded_otherwise(bytes@, r->0@))),
{
    let n = bytes.len();
    if n < 2 {
        return None;
    }
    let tail2 = crate::text::bytes_from(bytes, 2);
    if bytes[0] == 0xfe && bytes[1] == 0xff {
        return decode_utf16be(tail2.as_slice());
    } else if bytes[0] == 0xff && bytes[1] == 0xfe {
        return decode_utf16le(tail2.as_slice());
    }
    if n < 3 {
        return None;
    }
    if bytes[0] == 0xef && bytes[1] == 0xbb && bytes[2] == 0xbf {
        return utf8_string(crate::text::bytes_from(bytes, 3));
    }
    let whole = crate::text::bytes_from(bytes, 0);
    assert(bytes@.skip(0) =~= bytes@);
    if let Some(utf8) = utf8_string(whole) {
        return Some(utf8);
    }
    if let Some(utf16be) = decode_utf16be(bytes) {
        if all_latin_letters(&utf16be) {
            return Some(utf16be);
        }
    }
    if let Some(utf16le) = decode_utf16le(bytes) {
        if all_latin_letters(&utf16le) {
            return Some(utf16le);
        }
    }
    let mut latin: Vec<char> = Vec::new();
    let mut i: usize = 0;
    while i < n
        invariant
            n == bytes@.len(),
            n >= 3,
            !(bytes@[0] == 0xfe && bytes@[1] == 0xff),
            !(bytes@[0] == 0xff && bytes@[1] == 0xfe),
            !(bytes@[0] == 0xef && bytes@[1] == 0xbb && bytes@[2] == 0xbf),
            !valid_utf8(bytes@),
            i <= n,
            latin@.len() == i,
            forall|j: int| 0 <= j < i ==> (#[trigger] latin@[j]) as u32 == bytes@[j],
            forall|j: int| 0 <= j < i ==> alphabetic(#[trigger] latin@[j]),
        decreases n - i,
    {
        let c = bytes[i] as char;
        if !is_alpha(c) {
            return None;
        }
        latin.push(c);
        i += 1;
    }
    Some(crate::text::string_of(latin.as_slice()))
}

/// The value of a hexadecimal digit.
pub open spec fn hex_value(c: char) -> Option<int> {
    if '0' <= c <= '9' {
        Some(c as u32 - '0' as u32)
    } else if 'a' <= c <= 'f' {
        Some(c as u32 - 'a' as u32 + 10)
    } else if 'A' <= c <= 'F' {
        Some(c as u32 - 'A' as u32 + 10)
    } else {
        None
    }
}

fn hex_digit(c: char) -> (r: Option<u8>)
    ensures
        r matches Some(v) ==> hex_value(c) == Some(v as int),
        r is None ==> hex_value(c) is None,
{
    if '0' <= c && c <= '9' {
        Some((c as u32 - '0' as u32) as u8)
    } else if 'a' <= c && c <= 'f' {
        Some((c as u32 - 'a' as u32 + 10) as u8)
    } else if 'A' <= c && c <= 'F' {
        Some((c as u32 - 'A' as u32 + 10) as u8)
    } else {
        None
    }
}

/// Reads the bytes written as pairs of hexadecimal digits; a last odd digit
/// is ignored. `None` where the line is empty or holds another character.
pub fn hex_bytes(line: &[char]) -> (r: Option<Vec<u8>>)
    ensures
        r matches Some(b) ==> b@.len() == line@.len() / 2 && forall|i: int|
            0 <= i < b@.len() ==> Some((#[trigger] b@[i]) as int) == (match (
                hex_value(line@[2 * i]),
                hex_value(line@[2 * i + 1]),
            ) {
                (Some(h), Some(l)) => Some(16 * h + l),
                _ => None,
            }),
{
    let m = line.len();
    if m == 0 {
        return None;
    }
    let n = m / 2;
    let mut out: Vec<u8> = Vec::new();
    let mut i: usize = 0;
    while i < n
        invariant
            m == line@.len(),
            n == m / 2,
            i <= n,
            out@.len() == i,
            forall|j: int|
                0 <= j < i ==> Some((#[trigger] out@[j]) as int) == (match (
                    hex_value(line@[2 * j]),
                    hex_value(line@[2 * j + 1]),
                ) {
                    (Some(h), Some(l)) => Some(16 * h + l),
                    _ => None,
                }),
        decreases n - i,
    {
        assert(2 * i + 1 < m);
        let h = hex_digit(line[2 * i])?;
        let l = hex_digit(line[2 * i + 1])?;
        out.push(h * 16 + l);
        i += 1;
    }
    Some(out)
}

/// Decodes each line of the dictionary before the first blank line (bytes
/// in hexadecimal, of unknown encoding), then fills the crossword after it
/// and sums the numbers of the words used; `None` where something does not
/// read or a blank has no word.
pub fn solution(input: &str) -> Option<usize> {
    let cs = crate::text::chars_of(input);
    let (head, tail) = crate::text::split_at_blank(cs.as_slice())?;
    let lines = crate::text::lines_of(head.as_slice());
    let mut words: Vec<String> = Vec::new();
    let mut i: usize = 0;
    while i < lines.len()
        invariant
            i <= lines@.len(),
        decreases lines@.len() - i,
    {
        let bytes = hex_bytes(lines[i].as_slice())?;
        let word = decode(bytes.as_slice())?;
        words.push(word);
        i += 1;
    }
    crate::crossword::sum_matches(&tail, &words)
}

} // verus!
