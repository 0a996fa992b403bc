//! Login attempts checked against bcrypt hashes, where a password may have
//! been typed in any Unicode normalization form.
use crate::collation::{decomposed, nfd_chars};
use crate::text::{chars_of, lines_of, rows, string_of};
use unicode_normalization::UnicodeNormalization;
use vstd::prelude::*;

verus! {

/// The canonical composition (NFC) of `s`.
pub uninterp spec fn nfc_of(s: Seq<char>) -> Seq<char>;

/// What bcrypt's `verify` says of `password` and `hash`: `None` where the
/// hash is malformed.
pub uninterp spec fn bcrypt_verdict(password: Seq<char>, hash: Seq<char>) -> Option<bool>;

/// Relies on unicode-normalization's `nfc`: the characters of `s` in
/// normalization form C.
#[verifier::external_body]
fn compose(s: &str) -> (r: String)
    ensures
        r@ == nfc_of(s@),
{
    s.nfc().collect()
}

/// Relies on bcrypt's `verify`: whether `password` hashes to `hash` with the
/// cost and salt that `hash` records; `None` where `hash` is malformed.
#[verifier::external_body]
fn bcrypt_matches(password: &str, hash: &str) -> (r: Option<bool>)
    ensures
        r == bcrypt_verdict(password@, hash@),
{
    bcrypt::verify(password, hash).ok()
}

/// Every way to write `s` with each character either composed or in its
/// canonical decomposition, the composed choice first.
pub open spec fn decompositions_spec(s: Seq<char>) -> Seq<Seq<char>>
    decreases s.len(),
{
    if s.len() == 0 {
        seq![Seq::empty()]
    } else {
        let prev = decompositions_spec(s.drop_last());
        let c = s.last();
        let d = nfd_chars(c);
        if d.len() == 1 {
            prev.map_values(|p: Seq<char>| p.push(c))
        } else {
            Seq::new(
                2 * prev.len(),
                |i: int|
                    if i % 2 == 0 {
                        prev[i / 2].push(c)
                    } else {
                        prev[i / 2] + d
                    },
            )
        }
    }
}

/// Each way to write `composed` with its characters composed or decomposed;
/// `None` where there would be more of them than a vector can count.
pub fn decompositions(composed: &str) -> (r: Option<Vec<String>>)
    ensures
        r matches Some(v) ==> v@.map_values(|t: String| t@) == decompositions_spec(composed@),
{
    let cs = chars_of(composed);
    let mut perms: Vec<Vec<char>> = vec![Vec::new()];
    assert(rows(perms@) =~= decompositions_spec(cs@.take(0)));
    let mut i: usize = 0;
    while i < cs.len()
        invariant
            cs@ == composed@,
            i <= cs@.len(),
            rows(perms@) == decompositions_spec(cs@.take(i as int)),
        decreases cs@.len() - i,
    {
        let c = cs[i];
        assert(cs@.take(i + 1).drop_last() =~= cs@.take(i as int));
        let ghost prev = rows(perms@);
        let d = decomposed(c);
        let dc = chars_of(d.as_str());
        let mut next: Vec<Vec<char>> = Vec::new();
        let mut k: usize = 0;
        if dc.len() == 1 {
            while k < perms.len()
                invariant
                    prev == rows(perms@),
                    k <= perms@.len(),
                    next@.len() == k,
                    forall|j: int| 0 <= j < k ==> (#[trigger] next@[j])@ == prev[j].push(c),
                decreases perms@.len() - k,
            {
                let mut p = perms[k].clone();
                p.push(c);
                next.push(p);
                k += 1;
            }
            assert(rows(next@) =~= prev.map_values(|p: Seq<char>| p.push(c)));
        } else {
            if perms.len() > usize::MAX / 2 {
                return None;
            }
            while k < perms.len()
                invariant
                    prev == rows(perms@),
                    perms@.len() <= usize::MAX / 2,
                    dc@ == nfd_chars(c),
                    k <= perms@.len(),
                    next@.len() == 2 * k,
                    forall|j: int|
                        0 <= j < 2 * k ==> (#[trigger] next@[j])@ == (if j % 2 == 0 {
                            prev[j / 2].push(c)
                        } else {
                            prev[j / 2] + nfd_chars(c)
                        }),
                decreases perms@.len() - k,
            {
                let mut p = perms[k].clone();
                p.push(c);
                next.push(p);
                let mut q = perms[k].clone();
                let mut m: usize = 0;
                let ghost base = q@;
                while m < dc.len()
                    invariant
                        m <= dc@.len(),
                        q@ == base + dc@.take(m as int),
                    decreases dc@.len() - m,
                {
                    q.push(dc[m]);
                    assert(dc@.take(m + 1) =~= dc@.take(m as int).push(dc@[m as int]));
                    m += 1;
                }
                assert(dc@.take(m as int) =~= dc@);
                next.push(q);
                k += 1;
            }
            assert(rows(next@) =~= Seq::new(
                2 * prev.len(),
                |j: int|
                    if j % 2 == 0 {
                        prev[j / 2].push(c)
                    } else {
                        prev[j / 2] + nfd_chars(c)
                    },
            ));
        }
        perms = next;
        i += 1;
    }
    assert(cs@.take(i as int) =~= cs@);
    let mut out: Vec<String> = Vec::new();
    let mut k: usize = 0;
    while k < perms.len()
        invariant
            k <= perms@.len(),
            out@.len() == k,
            forall|j: int| 0 <= j < k ==> (#[trigger] out@[j])@ == perms@[j]@,
        decreases perms@.len() - k,
    {
        out.push(string_of(perms[k].as_slice()));
        k += 1;
    }
    assert(out@.map_values(|t: String| t@) =~= rows(perms@));
    Some(out)
}

/// A line "first rest" cut at its first space.
pub open spec fn cut_at_space(line: Seq<char>, a: Seq<char>, b: Seq<char>) -> bool {
    exists|i: int|
        0 <= i < line.len() && line[i] == ' ' && (forall|j: int| 0 <= j < i ==> line[j] != ' ')
            && a == line.take(i) && b == line.skip(i + 1)
}

fn cut_line(line: &Vec<char>) -> (r: Option<(String, String)>)
    ensures
        r matches Some((a, b)) ==> cut_at_space(line@, a@, b@),
{
    let n = line.len();
    let mut i: usize = 0;
    while i < n && line[i] != ' '
        invariant
            n == line@.len(),
            i <= n,
            forall|j: int| 0 <= j < i ==> line@[j] != ' ',
        decreases n - i,
    {
        i += 1;
    }
    if i == n {
        return None;
    }
    let a = crate::text::slice_of(line.as_slice(), 0, i);
    let b = crate::text::slice_of(line.as_slice(), i + 1, n);
    assert(line@.subrange(0, i as int) =~= line@.take(i as int));
    assert(line@.subrange(i + 1, n as int) =~= line@.skip(i + 1));
    Some((string_of(a.as_slice()), string_of(b.as_slice())))
}

fn cut_lines(lines: &Vec<Vec<char>>) -> (r: Option<Vec<(String, String)>>)
    ensures
        r matches Some(v) ==> v@.len() == lines@.len() && forall|i: int|
            0 <= i < v@.len() ==> cut_at_space(lines@[i]@, (#[trigger] v@[i]).0@, v@[i].1@),
{
    let mut v: Vec<(String, String)> = Vec::new();
    let mut i: usize = 0;
    while i < lines.len()
        invariant
            i <= lines@.len(),
            v@.len() == i,
            forall|j: int| 0 <= j < i ==> cut_at_space(lines@[j]@, (#[trigger] v@[j]).0@, v@[j].1@),
        decreases lines@.len() - i,
    {
        let pair = cut_line(&lines[i])?;
        v.push(pair);
        i += 1;
    }
    Some(v)
}

/// Reads the lines "user hash" up to the first blank line, then the lines
/// "user password" of the login attempts; `None` where there is no blank
/// line or a line has no space.
pub fn parse(input: &str) -> (r: Option<(Vec<(String, String)>, Vec<(String, String)>)>)
    ensures
        r matches Some((entries, attempts)) ==> exists|i: int|
            crate::text::blank_at(input@, i) && entries@.len() == crate::text::lines_spec(
                input@.take(i),
            ).len() && attempts@.len() == crate::text::lines_spec(input@.skip(i + 2)).len(),
{
    let cs = chars_of(input);
    let (head, tail) = crate::text::split_at_blank(cs.as_slice())?;
    let entries = cut_lines(&lines_of(head.as_slice()))?;
    let attempts = cut_lines(&lines_of(tail.as_slice()))?;
    Some((entries, attempts))
}

/// The value of the last pair whose key is `key`.
fn lookup_last(pairs: &Vec<(String, String)>, key: &String) -> (r: Option<usize>)
    ensures
        r matches Some(i) ==> i < pairs@.len() && pairs@[i as int].0@ == key@ && forall|j: int|
            i < j < pairs@.len() ==> (#[trigger] pairs@[j]).0@ != key@,
        r is None ==> forall|j: int| 0 <= j < pairs@.len() ==> (#[trigger] pairs@[j]).0@ != key@,
{
    let mut i: usize = pairs.len();
    while i > 0
        invariant
            i <= pairs@.len(),
            forall|j: int| i <= j < pairs@.len() ==> (#[trigger] pairs@[j]).0@ != key@,
        decreases i,
    {
        i -= 1;
        if pairs[i].0 == *key {
            return Some(i);
        }
    }
    None
}

/// Whether some way of writing the password passes bcrypt against `hash`;
/// `None` where bcrypt finds the hash malformed.
fn any_form_matches(forms: &Vec<String>, hash: &String) -> (r: Option<bool>)
    ensures
        r == Some(true) ==> exists|i: int|
            0 <= i < forms@.len() && bcrypt_verdict((#[trigger] forms@[i])@, hash@) == Some(true),
        r == Some(false) ==> forall|i: int|
            0 <= i < forms@.len() ==> bcrypt_verdict((#[trigger] forms@[i])@, hash@) == Some(false),
{
    let mut i: usize = 0;
    while i < forms.len()
        invariant
            i <= forms@.len(),
            forall|j: int| 0 <= j < i ==> bcrypt_verdict((#[trigger] forms@[j])@, hash@) == Some(false),
        decreases forms@.len() - i,
    {
        match bcrypt_matches(forms[i].as_str(), hash.as_str()) {
            Some(true) => return Some(true),
            Some(false) => {},
            None => return None,
        }
        i += 1;
    }
    Some(false)
}

/// Counts the login attempts that succeed: an attempt succeeds where its
/// password, composed, equals the first composed password of that user that
/// bcrypt accepted in some normalization form. `None` where the input does
/// not read, an attempt names an unknown user, or a hash is malformed.
pub fn solution(input: &str) -> (r: Option<u32>)
    ensures
        r matches Some(v) ==> exists|i: int|
            crate::text::blank_at(input@, i) && v <= crate::text::lines_spec(
                input@.skip(i + 2),
            ).len(),
{
    let (entries, attempts) = parse(input)?;
    let mut known: Vec<(String, String)> = Vec::new();
    let mut valid: u32 = 0;
    let mut i: usize = 0;
    while i < attempts.len()
        invariant
            i <= attempts@.len(),
            valid <= i,
        decreases attempts@.len() - i,
    {
        let user = &attempts[i].0;
        let password = &attempts[i].1;
        let at = lookup_last(&entries, user)?;
        let hash = &entries[at].1;
        let composed = compose(password.as_str());
        if lookup_last(&known, user).is_none() {
            let forms = decompositions(composed.as_str())?;
            if any_form_matches(&forms, hash)? {
                known.push((user.clone(), composed.clone()));
            }
        }
        if let Some(k) = lookup_last(&known, user) {
            if composed == known[k].1 && valid < u32::MAX {
                valid += 1;
            }
        }
        i += 1;
    }
    Some(valid)
}

} // verus!
