//! Words that were decoded as Latin-1 once or twice too often, and the
//! crossword blanks they fill.
use crate::encodings::{latin1_of, utf8_string};
use crate::text::{chars_of, lines_of, lines_spec, rows, split_at_blank, string_of, trim};
use vstd::prelude::*;
use vstd::utf8::{decode_utf8, valid_utf8};

verus! {

/// `t` is `w` with its characters taken as bytes and read as UTF-8.
pub open spec fn unmashed(w: Seq<char>, t: Seq<char>) -> bool {
    exists|b: Seq<u8>| latin1_of(b, w) && valid_utf8(b) && t == decode_utf8(b)
}

/// The bytes that the characters of `w` stand for, one per character.
pub open spec fn byte_image(w: Seq<char>) -> Seq<u8> {
    Seq::new(w.len(), |i: int| w[i] as u32 as u8)
}

/// Every character of `w` is at most U+00FF, and the bytes they stand for
/// are UTF-8.
pub open spec fn unmashable(w: Seq<char>) -> bool {
    (forall|i: int| 0 <= i < w.len() ==> (#[trigger] w[i]) as u32 <= 255) && valid_utf8(
        byte_image(w),
    )
}

/// Takes each character of `word` as one byte and reads the bytes as UTF-8.
pub fn unmash(word: &str) -> (r: String)
    requires
        unmashable(word@),
    ensures
        unmashed(word@, r@),
        r@ == decode_utf8(byte_image(word@)),
{
    let ghost b = byte_image(word@);
    assert(latin1_of(b, word@));
    match try_unmash(word) {
        Some(t) => {
            proof {
                let b2 = choose|b2: Seq<u8>|
                    latin1_of(b2, word@) && valid_utf8(b2) && t@ == decode_utf8(b2);
                assert forall|j: int| 0 <= j < b.len() implies b2[j] == b[j] by {
                    assert(word@[j] as u32 == b2[j]);
                }
                assert(b2 =~= b);
            }
            t
        },
        None => {
            assert(unmashed(word@, decode_utf8(b)));
            assert(false);
            String::new()
        },
    }
}

/// `unmash` where it applies; `None` where a character is above U+00FF or
/// the bytes are no UTF-8.
fn try_unmash(word: &str) -> (r: Option<String>)
    ensures
        r matches Some(t) ==> unmashed(word@, t@),
        r is None ==> forall|t: Seq<char>| !unmashed(word@, t),
{
    let cs = chars_of(word);
    let mut bytes: Vec<u8> = Vec::new();
    let mut i: usize = 0;
    while i < cs.len()
        invariant
            cs@ == word@,
            i <= cs@.len(),
            bytes@.len() == i,
            forall|j: int| 0 <= j < i ==> (#[trigger] cs@[j]) as u32 == bytes@[j],
        decreases cs@.len() - i,
    {
        let c = cs[i];
        if (c as u32) > 255 {
            assert forall|t: Seq<char>| !unmashed(word@, t) by {
                if unmashed(word@, t) {
                    let b = choose|b: Seq<u8>| latin1_of(b, word@) && valid_utf8(b) && t == decode_utf8(b);
                    assert(word@[i as int] as u32 == b[i as int]);
                }
            }
            return None;
        }
        bytes.push(c as u32 as u8);
        i += 1;
    }
    let ghost b = bytes@;
    assert(latin1_of(b, word@));
    let r = utf8_string(bytes);
    assert forall|t: Seq<char>| r is None implies !unmashed(word@, t) by {
        if unmashed(word@, t) {
            let b2 = choose|b2: Seq<u8>| latin1_of(b2, word@) && valid_utf8(b2) && t == decode_utf8(b2);
            assert forall|j: int| 0 <= j < b.len() implies b2[j] == b[j] by {
                assert(word@[j] as u32 == b2[j]);
                assert(cs@[j] as u32 == b[j]);
            }
            assert(b2 =~= b);
        }
    }
    r
}

/// The fixed form of line `i` (counted from 0) of the word list: every
/// fifteenth word was mangled twice, every other third or fifth once.
pub open spec fn fixed_word(i: int, w: Seq<char>, t: Seq<char>) -> bool {
    if (i + 1) % 15 == 0 {
        exists|m: Seq<char>| unmashed(w, m) && unmashed(m, t)
    } else if (i + 1) % 3 == 0 || (i + 1) % 5 == 0 {
        unmashed(w, t)
    } else {
        t == w
    }
}

/// Repairs each line of the word list; `None` where a mangled word does
/// not decode.
pub fn fix_words(words: &str) -> (r: Option<Vec<String>>)
    ensures
        r matches Some(v) ==> v@.len() == lines_spec(words@).len() && forall|i: int|
            0 <= i < v@.len() ==> fixed_word(i, lines_spec(words@)[i], (#[trigger] v@[i])@),
{
    let cs = chars_of(words);
    let lines = lines_of(cs.as_slice());
    let mut fixed: Vec<String> = Vec::new();
    let mut i: usize = 0;
    while i < lines.len()
        invariant
            rows(lines@) == lines_spec(words@),
            i <= lines@.len(),
            fixed@.len() == i,
            forall|j: int| 0 <= j < i ==> fixed_word(j, lines_spec(words@)[j], (#[trigger] fixed@[j])@),
        decreases lines@.len() - i,
    {
        let word = string_of(lines[i].as_slice());
        assert(word@ == lines_spec(words@)[i as int]);
        let n = i + 1;
        let t = if n % 15 == 0 {
            let once = match try_unmash(word.as_str()) {
                Some(x) => x,
                None => return None,
            };
            match try_unmash(once.as_str()) {
                Some(x) => x,
                None => return None,
            }
        } else if n % 3 == 0 || n % 5 == 0 {
            match try_unmash(word.as_str()) {
                Some(x) => x,
                None => return None,
            }
        } else {
            word
        };
        let ghost tv = t@;
        fixed.push(t);
        assert(fixed@[i as int]@ == tv);
        i += 1;
    }
    Some(fixed)
}

/// `k` is the position of the first letter of a blank written with dots.
pub open spec fn first_letter_at(blank: Seq<char>, k: int) -> bool {
    0 <= k < blank.len() && blank[k] != '.' && forall|j: int| 0 <= j < k ==> blank[j] == '.'
}

/// `w` has the length of `blank` and its letter at position `k`.
pub open spec fn fills(w: Seq<char>, blank: Seq<char>, k: int) -> bool {
    w.len() == blank.len() && w[k] == blank[k]
}

/// Whether the blank has a letter, a character other than '.'.
pub fn has_letter(blank: &str) -> (r: bool)
    ensures
        r == exists|k: int| first_letter_at(blank@, k),
{
    let b = chars_of(blank);
    let mut k: usize = 0;
    while k < b.len() && b[k] == '.'
        invariant
            b@ == blank@,
            k <= b@.len(),
            forall|j: int| 0 <= j < k ==> blank@[j] == '.',
        decreases b@.len() - k,
    {
        k += 1;
    }
    if k == b.len() {
        assert forall|q: int| !first_letter_at(blank@, q) by {
            if first_letter_at(blank@, q) {
                assert(blank@[q] == '.');
            }
        }
        false
    } else {
        assert(first_letter_at(blank@, k as int));
        true
    }
}

/// The number (counted from 1) of the first word that fills the blank,
/// matching its length and its first letter; `None` where no word does.
pub fn find_match(blank: &str, words: &[String]) -> (r: Option<usize>)
    requires
        exists|k: int| first_letter_at(blank@, k),
    ensures
        r matches Some(n) ==> exists|k: int|
            first_letter_at(blank@, k) && 1 <= n <= words@.len() && fills(words@[n - 1]@, blank@, k)
                && forall|j: int| 0 <= j < n - 1 ==> !fills(#[trigger] words@[j]@, blank@, k),
        r is None ==> exists|k: int|
            first_letter_at(blank@, k) && forall|j: int|
                0 <= j < words@.len() ==> !fills(#[trigger] words@[j]@, blank@, k),
{
    let b = chars_of(blank);
    let length = b.len();
    let mut k: usize = 0;
    while k < length && b[k] == '.'
        invariant
            b@ == blank@,
            length == b@.len(),
            k <= length,
            forall|j: int| 0 <= j < k ==> blank@[j] == '.',
        decreases length - k,
    {
        k += 1;
    }
    if k == length {
        assert forall|q: int| !first_letter_at(blank@, q) by {
            if first_letter_at(blank@, q) {
                assert(blank@[q] == '.');
            }
        }
        return None;
    }
    assert(first_letter_at(blank@, k as int));
    let letter = b[k];
    let mut i: usize = 0;
    while i < words.len()
        invariant
            b@ == blank@,
            length == b@.len(),
            k < length,
            letter == blank@[k as int],
            first_letter_at(blank@, k as int),
            i <= words@.len(),
            forall|j: int| 0 <= j < i ==> !fills(#[trigger] words@[j]@, blank@, k as int),
        decreases words@.len() - i,
    {
        let w = chars_of(words[i].as_str());
        if w.len() == length && w[k] == letter {
            assert(fills(words@[i as int]@, blank@, k as int));
            return Some(i + 1);
        }
        i += 1;
    }
    None
}

/// Fills each blank of a crossword, one per line after a blank line, from
/// the repaired word list before it, and sums the numbers of the words
/// used. `None` where there is no blank line, a word does not decode, a
/// blank has no word, or the sum leaves the `usize` range.
pub fn solution(input: &str) -> Option<usize> {
    let cs = chars_of(input);
    let (head, tail) = split_at_blank(cs.as_slice())?;
    let words = fix_words(string_of(head.as_slice()).as_str())?;
    sum_matches(&tail, &words)
}

/// Sums, over the lines of `crossword` with white space trimmed, the number
/// of the word that fills each blank; `None` where a blank has no letter
/// or no word.
pub fn sum_matches(crossword: &Vec<char>, words: &Vec<String>) -> Option<usize> {
    let lines = lines_of(crossword.as_slice());
    let mut sum: usize = 0;
    let mut i: usize = 0;
    while i < lines.len()
        invariant
            i <= lines@.len(),
        decreases lines@.len() - i,
    {
        let blank = string_of(trim(lines[i].as_slice()).as_slice());
        if !has_letter(blank.as_str()) {
            return None;
        }
        let n = find_match(blank.as_str(), words.as_slice())?;
        sum = sum.checked_add(n)?;
        i += 1;
    }
    Some(sum)
}

} // verus!
