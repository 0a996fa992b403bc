//! Password rules over the ASCII letters that remain after compatibility
//! decomposition.
use crate::text::{chars_of, lines_of, string_of};
use unicode_normalization::UnicodeNormalization;
use vstd::prelude::*;

verus! {

/// The compatibility decomposition (NFKD) of `s`.
pub uninterp spec fn nfkd_of(s: Seq<char>) -> Seq<char>;

/// Relies on unicode-normalization's `nfkd`: the characters of `s` in
/// Unicode normalization form KD.
#[verifier::external_body]
fn decompose_compat(s: &str) -> (r: String)
    ensures
        r@ == nfkd_of(s@),
{
    s.nfkd().collect()
}

/// Maps 'A'..='Z' to 'a'..='z' and keeps every other character.
fn ascii_lowercase(c: char) -> (r: char)
    ensures
        'A' <= c <= 'Z' ==> r as u32 == c as u32 + 32,
        !('A' <= c <= 'Z') ==> r == c,
{
    if 'A' <= c && c <= 'Z' {
        ((c as u32 as u8) + 32) as char
    } else {
        c
    }
}

/// The ASCII lower case form of an ASCII upper case letter.
pub open spec fn lowered(c: char, r: char) -> bool {
    &&& 'A' <= c <= 'Z' ==> r as u32 == c as u32 + 32
    &&& !('A' <= c <= 'Z') ==> r == c
}

/// `r` is `s` without its non-ASCII characters, in ASCII lower case.
pub open spec fn ascii_folded(s: Seq<char>, r: Seq<char>) -> bool
    decreases s.len(),
{
    if s.len() == 0 {
        r.len() == 0
    } else if (s.last() as u32) < 128 {
        r.len() > 0 && lowered(s.last(), r.last()) && ascii_folded(s.drop_last(), r.drop_last())
    } else {
        ascii_folded(s.drop_last(), r)
    }
}

/// Keeps the ASCII characters of `decomposed`, in lower case.
pub fn keep_ascii_lowercase(decomposed: &str) -> (r: String)
    ensures
        ascii_folded(decomposed@, r@),
{
    let cs = chars_of(decomposed);
    let mut out: Vec<char> = Vec::new();
    let mut i: usize = 0;
    while i < cs.len()
        invariant
            i <= cs@.len(),
            ascii_folded(cs@.take(i as int), out@),
        decreases cs@.len() - i,
    {
        let c = cs[i];
        assert(cs@.take(i + 1).drop_last() =~= cs@.take(i as int));
        if (c as u32) < 128 {
            let ghost before = out@;
            out.push(ascii_lowercase(c));
            assert(out@.drop_last() =~= before);
        }
        i += 1;
    }
    assert(cs@.take(i as int) =~= cs@);
    string_of(out.as_slice())
}

/// The password in compatibility decomposition, with the non-ASCII
/// characters dropped and the rest in lower case.
pub fn normalise(pwd: &str) -> (r: String)
    ensures
        ascii_folded(nfkd_of(pwd@), r@),
{
    let d = decompose_compat(pwd);
    keep_ascii_lowercase(d.as_str())
}

/// No character occurs twice in `s`.
pub open spec fn distinct(s: Seq<char>) -> bool {
    forall|i: int, j: int| 0 <= i < j < s.len() ==> s[i] != s[j]
}

/// Whether every character of `pwd` occurs once.
pub fn all_unique(pwd: &str) -> (r: bool)
    ensures
        r == distinct(pwd@),
{
    let cs = chars_of(pwd);
    let n = cs.len();
    let mut j: usize = 0;
    while j < n
        invariant
            cs@ == pwd@,
            n == cs@.len(),
            j <= n,
            forall|a: int, b: int| 0 <= a < b < j ==> pwd@[a] != pwd@[b],
        decreases n - j,
    {
        let mut i: usize = 0;
        while i < j
            invariant
                cs@ == pwd@,
                n == cs@.len(),
                i <= j < n,
                forall|a: int| 0 <= a < i ==> pwd@[a] != pwd@[j as int],
            decreases j - i,
        {
            if cs[i] == cs[j] {
                assert(!distinct(pwd@)) by {
                    assert(pwd@[i as int] == pwd@[j as int]);
                }
                return false;
            }
            i += 1;
        }
        j += 1;
    }
    true
}

pub open spec fn is_vowel(c: char) -> bool {
    c == 'a' || c == 'e' || c == 'i' || c == 'o' || c == 'u'
}

pub open spec fn is_consonant(c: char) -> bool {
    'a' <= c <= 'z' && !is_vowel(c)
}

pub open spec fn is_digit(c: char) -> bool {
    '0' <= c <= '9'
}

/// Length 4 to 12, a digit, a vowel, a consonant, and no repeated character.
pub open spec fn valid_folded(s: Seq<char>) -> bool {
    &&& 4 <= s.len() <= 12
    &&& exists|i: int| 0 <= i < s.len() && is_digit(#[trigger] s[i])
    &&& exists|i: int| 0 <= i < s.len() && is_vowel(#[trigger] s[i])
    &&& exists|i: int| 0 <= i < s.len() && is_consonant(#[trigger] s[i])
    &&& distinct(s)
}

/// Whether the normalised password meets the rules: 4 to 12 characters,
/// at least one digit, one vowel and one consonant, and no repeats.
pub fn is_valid(pwd: &str) -> (r: bool)
    ensures
        exists|n: Seq<char>| ascii_folded(nfkd_of(pwd@), n) && r == valid_folded(n),
{
    let normalised = normalise(pwd);
    let s = normalised.as_str();
    let cs = chars_of(s);
    let ghost n = cs@;
    let len = cs.len();
    let mut digit = false;
    let mut vowel = false;
    let mut consonant = false;
    let mut i: usize = 0;
    while i < len
        invariant
            len == n.len(),
            cs@ == n,
            i <= len,
            digit == exists|j: int| 0 <= j < i && is_digit(#[trigger] n[j]),
            vowel == exists|j: int| 0 <= j < i && is_vowel(#[trigger] n[j]),
            consonant == exists|j: int| 0 <= j < i && is_consonant(#[trigger] n[j]),
        decreases len - i,
    {
        let c = cs[i];
        if '0' <= c && c <= '9' {
            digit = true;
        }
        if c == 'a' || c == 'e' || c == 'i' || c == 'o' || c == 'u' {
            vowel = true;
        } else if 'a' <= c && c <= 'z' {
            consonant = true;
        }
        i += 1;
    }
    let unique = all_unique(s);
    let r = 4 <= len && len <= 12 && digit && vowel && consonant && unique;
    assert(n == normalised@);
    assert(ascii_folded(nfkd_of(pwd@), n));
    assert(r == valid_folded(n));
    r
}

/// The number of lines of `input` that are valid passwords.
pub fn solution(input: &str) -> (r: usize)
    ensures
        r <= crate::text::lines_spec(input@).len(),
{
    let cs = chars_of(input);
    let lines = lines_of(cs.as_slice());
    let mut count: usize = 0;
    let mut i: usize = 0;
    while i < lines.len()
        invariant
            i <= lines@.len(),
            count <= i,
        decreases lines@.len() - i,
    {
        let pwd = string_of(lines[i].as_slice());
        if is_valid(pwd.as_str()) {
            count += 1;
        }
        i += 1;
    }
    count
}

} // verus!
