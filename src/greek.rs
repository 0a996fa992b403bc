//! A shift cipher over the Greek alphabet, with final sigma kept right.
use crate::text::{chars_of, lines_of, string_of};
use vstd::prelude::*;

verus! {

/// Number of letters in the Greek alphabet.
pub const N_CHARS: usize = 24;

/// What `char::is_uppercase` says of `c`.
pub uninterp spec fn upper_case(c: char) -> bool;

/// What `char::is_lowercase` says of `c`.
pub uninterp spec fn lower_case(c: char) -> bool;

/// What `char::is_alphabetic` says of `c`.
pub uninterp spec fn alphabetic(c: char) -> bool;

/// Relies on `char::is_uppercase`: the Unicode `Uppercase` property.
#[verifier::external_body]
pub(crate) fn is_upper(c: char) -> (r: bool)
    ensures
        r == upper_case(c),
{
    c.is_uppercase()
}

/// Relies on `char::is_lowercase`: the Unicode `Lowercase` property.
#[verifier::external_body]
pub(crate) fn is_lower(c: char) -> (r: bool)
    ensures
        r == lower_case(c),
{
    c.is_lowercase()
}

/// Relies on `char::is_alphabetic`: the Unicode `Alphabetic` property.
#[verifier::external_body]
pub(crate) fn is_alpha(c: char) -> (r: bool)
    ensures
        r == alphabetic(c),
{
    c.is_alphabetic()
}

pub open spec fn upper_letters() -> Seq<char> {
    seq![
        'Α', 'Β', 'Γ', 'Δ', 'Ε', 'Ζ', 'Η', 'Θ', 'Ι', 'Κ', 'Λ', 'Μ',
        'Ν', 'Ξ', 'Ο', 'Π', 'Ρ', 'Σ', 'Τ', 'Υ', 'Φ', 'Χ', 'Ψ', 'Ω',
    ]
}

pub open spec fn lower_letters() -> Seq<char> {
    seq![
        'α', 'β', 'γ', 'δ', 'ε', 'ζ', 'η', 'θ', 'ι', 'κ', 'λ', 'μ',
        'ν', 'ξ', 'ο', 'π', 'ρ', 'σ', 'τ', 'υ', 'φ', 'χ', 'ψ', 'ω',
    ]
}

fn uppercase() -> (r: Vec<char>)
    ensures
        r@ == upper_letters(),
{
    let r = vec![
        'Α', 'Β', 'Γ', 'Δ', 'Ε', 'Ζ', 'Η', 'Θ', 'Ι', 'Κ', 'Λ', 'Μ',
        'Ν', 'Ξ', 'Ο', 'Π', 'Ρ', 'Σ', 'Τ', 'Υ', 'Φ', 'Χ', 'Ψ', 'Ω',
    ];
    assert(r@ =~= upper_letters());
    r
}

fn lowercase() -> (r: Vec<char>)
    ensures
        r@ == lower_letters(),
{
    let r = vec![
        'α', 'β', 'γ', 'δ', 'ε', 'ζ', 'η', 'θ', 'ι', 'κ', 'λ', 'μ',
        'ν', 'ξ', 'ο', 'π', 'ρ', 'σ', 'τ', 'υ', 'φ', 'χ', 'ψ', 'ω',
    ];
    assert(r@ =~= lower_letters());
    r
}

/// `n` is the first position of `c` in `t`.
pub open spec fn first_at(t: Seq<char>, c: char, n: int) -> bool {
    0 <= n < t.len() && t[n] == c && forall|j: int| 0 <= j < n ==> t[j] != c
}

/// The letter `shift` places after `c` in `t`, where `t` holds `c`.
pub open spec fn shifted(t: Seq<char>, c: char, shift: int) -> char {
    let n = choose|n: int| first_at(t, c, n);
    t[(n + shift) % (N_CHARS as int)]
}

/// A word's last small sigma takes its final form.
pub open spec fn unfold_sigma(c: char) -> char {
    if c == 'ς' {
        'σ'
    } else {
        c
    }
}

/// The image of `c` under the shift, given the character after it; `None`
/// for a cased letter outside the Greek alphabet.
pub open spec fn rotate_char(c: char, next: Option<char>, shift: int) -> Option<char> {
    if upper_case(c) {
        if upper_letters().contains(c) {
            Some(shifted(upper_letters(), c, shift))
        } else {
            None
        }
    } else if lower_case(c) {
        if lower_letters().contains(c) {
            let d = shifted(lower_letters(), c, shift);
            if d == 'σ' && next is Some && !alphabetic(next->0) {
                Some('ς')
            } else {
                Some(d)
            }
        } else {
            None
        }
    } else {
        Some(c)
    }
}

/// The image of the character at `i` of `m`.
pub open spec fn rotate_at(m: Seq<char>, i: int, shift: int) -> Option<char> {
    rotate_char(
        m[i],
        if i + 1 < m.len() {
            Some(m[i + 1])
        } else {
            None
        },
        shift,
    )
}

/// The sentence shifted, character by character; `None` where a cased
/// letter lies outside the Greek alphabet.
pub open spec fn rotated(s: Seq<char>, shift: int) -> Option<Seq<char>> {
    let m = s.map_values(|c: char| unfold_sigma(c));
    if forall|i: int| 0 <= i < m.len() ==> (#[trigger] rotate_at(m, i, shift)) is Some {
        Some(Seq::new(m.len(), |i: int| rotate_at(m, i, shift)->0))
    } else {
        None
    }
}

fn position(t: &Vec<char>, c: char) -> (r: Option<usize>)
    ensures
        r matches Some(n) ==> first_at(t@, c, n as int),
        r is None ==> !t@.contains(c),
{
    let mut i: usize = 0;
    while i < t.len()
        invariant
            i <= t.len(),
            forall|j: int| 0 <= j < i ==> t@[j] != c,
        decreases t.len() - i,
    {
        if t[i] == c {
            return Some(i);
        }
        i += 1;
    }
    None
}

proof fn lemma_first_unique(t: Seq<char>, c: char, n: int)
    requires
        first_at(t, c, n),
    ensures
        (choose|m: int| first_at(t, c, m)) == n,
{
    let m = choose|m: int| first_at(t, c, m);
    assert(first_at(t, c, m));
    if m < n {
        assert(t[m] != c);
    }
    if n < m {
        assert(t[n] != c);
    }
}

/// Shifts every Greek letter of `sentence` by `shift` places, upper case
/// within upper case and lower case within lower case, writing a small
/// sigma before a non-letter as a final sigma; `None` where a cased letter
/// lies outside the Greek alphabet.
pub fn rotate(sentence: &str, shift: usize) -> (r: Option<String>)
    ensures
        r matches Some(t) ==> rotated(sentence@, shift as int) == Some(t@),
        r is None ==> rotated(sentence@, shift as int) is None,
{
    let upper = uppercase();
    let lower = lowercase();
    let raw = chars_of(sentence);
    let mut cs: Vec<char> = Vec::new();
    let mut k: usize = 0;
    while k < raw.len()
        invariant
            k <= raw@.len(),
            cs@ == raw@.take(k as int).map_values(|c: char| unfold_sigma(c)),
        decreases raw@.len() - k,
    {
        let c = raw[k];
        cs.push(if c == 'ς' {
            'σ'
        } else {
            c
        });
        assert(raw@.take(k + 1).map_values(|c: char| unfold_sigma(c)) =~= raw@.take(
            k as int,
        ).map_values(|c: char| unfold_sigma(c)).push(unfold_sigma(c)));
        k += 1;
    }
    assert(raw@.take(k as int) =~= raw@);
    let ghost m = sentence@.map_values(|c: char| unfold_sigma(c));
    let ghost sh = shift as int;
    let step = shift % N_CHARS;
    let mut out: Vec<char> = Vec::new();
    let n = cs.len();
    let mut i: usize = 0;
    while i < n
        invariant
            m == sentence@.map_values(|c: char| unfold_sigma(c)),
            cs@ == m,
            n == m.len(),
            upper@ == upper_letters(),
            lower@ == lower_letters(),
            step == shift % N_CHARS,
            sh == shift as int,
            i <= n,
            out@.len() == i,
            forall|j: int| 0 <= j < i ==> (#[trigger] rotate_at(m, j, sh)) == Some(out@[j]),
        decreases n - i,
    {
        let c = cs[i];
        let ghost next = if i + 1 < m.len() {
            Some(m[i + 1])
        } else {
            None::<char>
        };
        let d = if is_upper(c) {
            match position(&upper, c) {
                Some(p) => {
                    proof {
                        lemma_first_unique(upper_letters(), c, p as int);
                        assert((p + sh) % 24 == (p + step) % 24) by (nonlinear_arith)
                            requires
                                step == sh % 24,
                                sh >= 0,
                                p >= 0,
                        ;
                    }
                    upper[(p + step) % N_CHARS]
                },
                None => {
                    assert(rotate_at(m, i as int, sh) is None);
                    return None;
                },
            }
        } else if is_lower(c) {
            match position(&lower, c) {
                Some(p) => {
                    proof {
                        lemma_first_unique(lower_letters(), c, p as int);
                        assert((p + sh) % 24 == (p + step) % 24) by (nonlinear_arith)
                            requires
                                step == sh % 24,
                                sh >= 0,
                                p >= 0,
                        ;
                    }
                    let e = lower[(p + step) % N_CHARS];
                    if e == 'σ' && i + 1 < n && !is_alpha(cs[i + 1]) {
                        'ς'
                    } else {
                        e
                    }
                },
                None => {
                    assert(rotate_at(m, i as int, sh) is None);
                    return None;
                },
            }
        } else {
            c
        };
        assert(rotate_at(m, i as int, sh) == Some(d));
        out.push(d);
        i += 1;
    }
    let ghost t = Seq::new(m.len(), |j: int| rotate_at(m, j, sh)->0);
    assert(out@ =~= t);
    let r = string_of(out.as_slice());
    Some(r)
}

/// The forms of the name Odysseus that a deciphered sentence may hold.
pub open spec fn odysseus_forms() -> Seq<Seq<char>> {
    seq!["Οδυσσευς"@, "Οδυσσεως"@, "Οδυσσει"@, "Οδυσσεα"@, "Οδυσσευ"@]
}

/// `needle` occurs in `hay` starting at `i`.
pub open spec fn occurs_at(hay: Seq<char>, needle: Seq<char>, i: int) -> bool {
    0 <= i && i + needle.len() <= hay.len() && hay.subrange(i, i + needle.len()) == needle
}

/// Whether `needle` occurs in `hay`.
pub fn contains_chars(hay: &[char], needle: &[char]) -> (r: bool)
    ensures
        r == exists|i: int| occurs_at(hay@, needle@, i),
{
    let n = hay.len();
    let k = needle.len();
    if k > n {
        return false;
    }
    let mut i: usize = 0;
    while i <= n - k
        invariant
            k <= n,
            n == hay@.len(),
            k == needle@.len(),
            i <= n - k + 1,
            forall|j: int| 0 <= j < i ==> !occurs_at(hay@, needle@, j),
        decreases n - k + 1 - i,
    {
        let mut j: usize = 0;
        while j < k && hay[i + j] == needle[j]
            invariant
                i + k <= n,
                j <= k,
                k == needle@.len(),
                n == hay@.len(),
                forall|q: int| 0 <= q < j ==> hay@[i + q] == needle@[q],
            decreases k - j,
        {
            j += 1;
        }
        if j == k {
            assert(hay@.subrange(i as int, i + k) =~= needle@);
            assert(occurs_at(hay@, needle@, i as int));
            return true;
        }
        assert(!occurs_at(hay@, needle@, i as int)) by {
            if occurs_at(hay@, needle@, i as int) {
                assert(hay@.subrange(i as int, i + k)[j as int] == needle@[j as int]);
            }
        }
        i += 1;
    }
    assert forall|j: int| !occurs_at(hay@, needle@, j) by {
        if occurs_at(hay@, needle@, j) {
            assert(j < i);
        }
    }
    false
}

/// Whether `sentence` holds one of the forms of the name Odysseus.
pub fn contains_odysseus(sentence: &str) -> (r: bool)
    ensures
        r == exists|v: int, i: int|
            0 <= v < odysseus_forms().len() && occurs_at(sentence@, odysseus_forms()[v], i),
{
    let hay = chars_of(sentence);
    let forms = vec![
        chars_of("Οδυσσευς"),
        chars_of("Οδυσσεως"),
        chars_of("Οδυσσει"),
        chars_of("Οδυσσεα"),
        chars_of("Οδυσσευ"),
    ];
    let mut v: usize = 0;
    while v < forms.len()
        invariant
            hay@ == sentence@,
            forms@.len() == 5,
            forall|q: int| 0 <= q < 5 ==> (#[trigger] forms@[q])@ == odysseus_forms()[q],
            v <= 5,
            forall|q: int, i: int| 0 <= q < v ==> !occurs_at(sentence@, odysseus_forms()[q], i),
        decreases 5 - v,
    {
        if contains_chars(hay.as_slice(), forms[v].as_slice()) {
            return true;
        }
        v += 1;
    }
    false
}

/// The smallest shift from 1 to 23 that makes `sentence` name Odysseus;
/// `Some(None)` where none does, `None` where the sentence holds a cased
/// letter outside the Greek alphabet.
pub fn find_shift(sentence: &str) -> (r: Option<Option<usize>>)
    ensures
        r matches Some(Some(k)) ==> 1 <= k < N_CHARS,
{
    let mut shift: usize = 1;
    while shift < N_CHARS
        invariant
            1 <= shift <= N_CHARS,
        decreases N_CHARS - shift,
    {
        let rotated = rotate(sentence, shift)?;
        if contains_odysseus(rotated.as_str()) {
            return Some(Some(shift));
        }
        shift += 1;
    }
    Some(None)
}

/// The sum, over the lines of `input`, of the shift that reveals Odysseus
/// in each line where one does; `None` where a line holds a cased letter
/// outside the Greek alphabet or the sum leaves the `usize` range.
pub fn solution(input: &str) -> (r: Option<usize>)
    ensures
        r matches Some(v) ==> v < N_CHARS * (crate::text::lines_spec(input@).len() + 1),
{
    let cs = chars_of(input);
    let lines = lines_of(cs.as_slice());
    let mut sum: usize = 0;
    let mut i: usize = 0;
    while i < lines.len()
        invariant
            i <= lines@.len(),
            sum <= N_CHARS * i,
        decreases lines@.len() - i,
    {
        let line = string_of(lines[i].as_slice());
        if let Some(k) = find_shift(line.as_str())? {
            sum = sum.checked_add(k)?;
        }
        i += 1;
    }
    Some(sum)
}

} // verus!
