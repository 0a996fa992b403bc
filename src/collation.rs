//! Sorting a phone list by name the English, Swedish and Dutch way.
use crate::greek::{alphabetic, is_alpha};
use crate::names::{can_move_infix, dutch_form, move_dutch_infix};
use crate::text::{chars_of, string_of};
use unicode_normalization::UnicodeNormalization;
use vstd::prelude::*;

verus! {

broadcast use vstd::seq_lib::to_multiset_insert;

/// What deunicode's `deunicode_char` gives for `c`.
pub uninterp spec fn transliteration(c: char) -> Option<Seq<char>>;

/// What `str::to_lowercase` gives for `s`.
pub uninterp spec fn lowercase_of(s: Seq<char>) -> Seq<char>;

/// The canonical decomposition (NFD) of `c`.
pub uninterp spec fn nfd_chars(c: char) -> Seq<char>;

/// Relies on deunicode's `deunicode_char`: an ASCII transliteration of `c`,
/// where it has one.
#[verifier::external_body]
fn transliterate(c: char) -> (r: Option<String>)
    ensures
        r matches Some(s) ==> transliteration(c) == Some(s@),
        r is None ==> transliteration(c) is None,
{
    deunicode::deunicode_char(c).map(|s| s.to_string())
}

/// Relies on `str::to_lowercase`: the lower case form of every character.
#[verifier::external_body]
fn to_lowercase(s: &str) -> (r: String)
    ensures
        r@ == lowercase_of(s@),
{
    s.to_lowercase()
}

/// Relies on unicode-normalization's `nfd`: the canonical decomposition of
/// `c`, which holds at least one character.
#[verifier::external_body]
pub(crate) fn decomposed(c: char) -> (r: String)
    ensures
        r@ == nfd_chars(c),
        r@.len() > 0,
{
    c.nfd().collect()
}

/// `a` comes strictly before `b` in lexicographic order.
pub open spec fn lex_lt(a: Seq<u32>, b: Seq<u32>) -> bool
    decreases a.len(),
{
    if a.len() == 0 {
        b.len() > 0
    } else if b.len() == 0 {
        false
    } else if a[0] != b[0] {
        a[0] < b[0]
    } else {
        lex_lt(a.drop_first(), b.drop_first())
    }
}

proof fn lemma_lex_asymmetric(a: Seq<u32>, b: Seq<u32>)
    ensures
        lex_lt(a, b) ==> !lex_lt(b, a),
    decreases a.len(),
{
    if a.len() > 0 && b.len() > 0 && a[0] == b[0] {
        lemma_lex_asymmetric(a.drop_first(), b.drop_first());
    }
}

/// Whether `a` comes strictly before `b`.
pub fn less_than(a: &Vec<u32>, b: &Vec<u32>) -> (r: bool)
    ensures
        r == lex_lt(a@, b@),
{
    let mut i: usize = 0;
    assert(a@.skip(0) =~= a@);
    assert(b@.skip(0) =~= b@);
    while i < a.len() && i < b.len() && a[i] == b[i]
        invariant
            i <= a@.len(),
            i <= b@.len(),
            lex_lt(a@, b@) == lex_lt(a@.skip(i as int), b@.skip(i as int)),
        decreases a@.len() - i,
    {
        assert(a@.skip(i as int).drop_first() =~= a@.skip(i + 1));
        assert(b@.skip(i as int).drop_first() =~= b@.skip(i + 1));
        i += 1;
    }
    if i == a.len() {
        i < b.len()
    } else if i == b.len() {
        false
    } else {
        a[i] < b[i]
    }
}

/// `order` lists each index below `n` once.
pub open spec fn is_permutation(order: Seq<usize>, n: nat) -> bool {
    &&& order.len() == n
    &&& forall|p: int| 0 <= p < order.len() ==> (#[trigger] order[p]) < n
    &&& forall|p: int, q: int| 0 <= p < q < order.len() ==> (#[trigger] order[p]) != (#[trigger] order[q])
}

/// Along `order` the keys never decrease, and equal keys keep their indices in order.
pub open spec fn stably_sorted(keys: Seq<Seq<u32>>, order: Seq<usize>) -> bool {
    &&& forall|p: int|
        0 <= p < order.len() - 1 ==> !lex_lt(keys[order[p + 1] as int], #[trigger] keys[order[p] as int])
    &&& forall|p: int, q: int|
        0 <= p < q < order.len() && keys[order[p] as int] == keys[order[q] as int] ==> (#[trigger] order[p])
            < (#[trigger] order[q])
}

/// The keys as sequences.
pub open spec fn key_views(keys: Seq<Vec<u32>>) -> Seq<Seq<u32>> {
    keys.map_values(|k: Vec<u32>| k@)
}

#[verifier::spinoff_prover]
proof fn lemma_insert_adjacent(ks: Seq<Seq<u32>>, old_order: Seq<usize>, j: int, i: usize)
    requires
        i < ks.len(),
        is_permutation(old_order, i as nat),
        stably_sorted(ks, old_order),
        0 <= j <= old_order.len(),
        forall|q: int| j <= q < old_order.len() ==> lex_lt(ks[i as int], #[trigger] ks[old_order[q] as int]),
        j > 0 ==> !lex_lt(ks[i as int], ks[old_order[j - 1] as int]),
    ensures
        forall|p: int|
            0 <= p < old_order.insert(j, i).len() - 1 ==> !lex_lt(
                ks[old_order.insert(j, i)[p + 1] as int],
                #[trigger] ks[old_order.insert(j, i)[p] as int],
            ),
{
    let o = old_order.insert(j, i);
    assert forall|p: int| 0 <= p < o.len() - 1 implies !lex_lt(
        ks[o[p + 1] as int],
        #[trigger] ks[o[p] as int],
    ) by {
        if p + 1 < j {
            assert(o[p] == old_order[p] && o[p + 1] == old_order[p + 1]);
        } else if p + 1 == j {
            assert(o[p] == old_order[p] && o[p + 1] == i);
        } else if p == j {
            assert(o[p] == i && o[p + 1] == old_order[p]);
            lemma_lex_asymmetric(ks[i as int], ks[old_order[p] as int]);
        } else {
            assert(o[p] == old_order[p - 1] && o[p + 1] == old_order[p]);
        }
    }
}

#[verifier::spinoff_prover]
proof fn lemma_insert_stable(ks: Seq<Seq<u32>>, old_order: Seq<usize>, j: int, i: usize)
    requires
        i < ks.len(),
        is_permutation(old_order, i as nat),
        stably_sorted(ks, old_order),
        0 <= j <= old_order.len(),
        forall|q: int| j <= q < old_order.len() ==> lex_lt(ks[i as int], #[trigger] ks[old_order[q] as int]),
        j > 0 ==> !lex_lt(ks[i as int], ks[old_order[j - 1] as int]),
    ensures
        forall|p: int, q: int|
            0 <= p < q < old_order.insert(j, i).len() && ks[old_order.insert(j, i)[p] as int]
                == ks[old_order.insert(j, i)[q] as int] ==> (#[trigger] old_order.insert(j, i)[p])
                < (#[trigger] old_order.insert(j, i)[q]),
{
    let o = old_order.insert(j, i);
    assert forall|p: int, q: int|
        0 <= p < q < o.len() && ks[o[p] as int] == ks[o[q] as int] implies (#[trigger] o[p])
        < (#[trigger] o[q]) by {
        if q < j {
            assert(o[p] == old_order[p] && o[q] == old_order[q]);
        } else if q == j {
            assert(o[q] == i);
            if p < j {
                assert(o[p] == old_order[p]);
            }
        } else if p == j {
            assert(o[q] == old_order[q - 1]);
            assert(lex_lt(ks[i as int], ks[o[q] as int]));
            lemma_lex_asymmetric(ks[i as int], ks[i as int]);
        } else if p < j {
            assert(o[p] == old_order[p] && o[q] == old_order[q - 1]);
        } else {
            assert(o[p] == old_order[p - 1] && o[q] == old_order[q - 1]);
        }
    }
}

proof fn lemma_insert_sorted(ks: Seq<Seq<u32>>, old_order: Seq<usize>, j: int, i: usize)
    requires
        i < ks.len(),
        is_permutation(old_order, i as nat),
        stably_sorted(ks, old_order),
        0 <= j <= old_order.len(),
        forall|q: int| j <= q < old_order.len() ==> lex_lt(ks[i as int], #[trigger] ks[old_order[q] as int]),
        j > 0 ==> !lex_lt(ks[i as int], ks[old_order[j - 1] as int]),
    ensures
        stably_sorted(ks, old_order.insert(j, i)),
{
    lemma_insert_adjacent(ks, old_order, j, i);
    lemma_insert_stable(ks, old_order, j, i);
}

#[verifier::spinoff_prover]
proof fn lemma_insert_permutation(ks: Seq<Seq<u32>>, old_order: Seq<usize>, j: int, i: usize)
    requires
        i < ks.len(),
        is_permutation(old_order, i as nat),
        stably_sorted(ks, old_order),
        0 <= j <= old_order.len(),
        forall|q: int| j <= q < old_order.len() ==> lex_lt(ks[i as int], #[trigger] ks[old_order[q] as int]),
        j > 0 ==> !lex_lt(ks[i as int], ks[old_order[j - 1] as int]),
    ensures
        is_permutation(old_order.insert(j, i), (i + 1) as nat),
{
    let o = old_order.insert(j, i);
    assert forall|p: int, q: int| 0 <= p < q < o.len() implies (#[trigger] o[p]) != (
    #[trigger] o[q]) by {
        if p < j && q < j {
            assert(o[p] == old_order[p] && o[q] == old_order[q]);
        } else if p < j && q > j {
            assert(o[p] == old_order[p] && o[q] == old_order[q - 1]);
        } else if p > j {
            assert(o[p] == old_order[p - 1] && o[q] == old_order[q - 1]);
        } else if p == j {
            assert(o[q] == old_order[q - 1]);
        } else {
            assert(o[p] == old_order[p]);
        }
    }
    assert forall|p: int| 0 <= p < o.len() implies (#[trigger] o[p]) < i + 1 by {
        if p < j {
            assert(o[p] == old_order[p]);
        } else if p > j {
            assert(o[p] == old_order[p - 1]);
        }
    }
}

proof fn lemma_insert_in_order(ks: Seq<Seq<u32>>, old_order: Seq<usize>, j: int, i: usize)
    requires
        i < ks.len(),
        is_permutation(old_order, i as nat),
        stably_sorted(ks, old_order),
        0 <= j <= old_order.len(),
        forall|q: int| j <= q < old_order.len() ==> lex_lt(ks[i as int], #[trigger] ks[old_order[q] as int]),
        j > 0 ==> !lex_lt(ks[i as int], ks[old_order[j - 1] as int]),
    ensures
        is_permutation(old_order.insert(j, i), (i + 1) as nat),
        stably_sorted(ks, old_order.insert(j, i)),
{
    lemma_insert_sorted(ks, old_order, j, i);
    lemma_insert_permutation(ks, old_order, j, i);
}

/// The order in which a stable sort by `keys` puts their indices.
pub fn stable_order(keys: &Vec<Vec<u32>>) -> (r: Vec<usize>)
    ensures
        is_permutation(r@, keys@.len()),
        stably_sorted(key_views(keys@), r@),
{
    let ghost ks = key_views(keys@);
    let mut order: Vec<usize> = Vec::new();
    let mut i: usize = 0;
    while i < keys.len()
        invariant
            ks == key_views(keys@),
            i <= keys@.len(),
            is_permutation(order@, i as nat),
            stably_sorted(ks, order@),
        decreases keys@.len() - i,
    {
        let mut j: usize = order.len();
        while j > 0 && less_than(&keys[i], &keys[order[j - 1]])
            invariant
                ks == key_views(keys@),
                i < keys@.len(),
                j <= order@.len(),
                is_permutation(order@, i as nat),
                forall|q: int| j <= q < order@.len() ==> lex_lt(ks[i as int], #[trigger] ks[order@[q] as int]),
            decreases j,
        {
            j -= 1;
        }
        let ghost old_order = order@;
        order.insert(j, i);
        proof {
            lemma_insert_in_order(ks, old_order, j as int, i);
        }
        i += 1;
    }
    order
}

/// `r` holds the lines in the order `order`.
pub open spec fn arranged(lines: Seq<String>, order: Seq<usize>, r: Seq<String>) -> bool {
    &&& r.len() == order.len()
    &&& forall|p: int| 0 <= p < r.len() ==> (#[trigger] r[p])@ == lines[order[p] as int]@
}

/// The lines sorted stably by `keys`.
pub fn sort_by_keys(lines: &Vec<String>, keys: &Vec<Vec<u32>>) -> (r: Vec<String>)
    requires
        lines@.len() == keys@.len(),
    ensures
        exists|order: Seq<usize>|
            is_permutation(order, lines@.len()) && stably_sorted(key_views(keys@), order) && arranged(
                lines@,
                order,
                r@,
            ),
{
    let order = stable_order(keys);
    let mut r: Vec<String> = Vec::new();
    let mut p: usize = 0;
    while p < order.len()
        invariant
            is_permutation(order@, lines@.len()),
            p <= order@.len(),
            r@.len() == p,
            forall|q: int| 0 <= q < p ==> (#[trigger] r@[q])@ == lines@[order@[q] as int]@,
        decreases order@.len() - p,
    {
        r.push(lines[order[p]].clone());
        p += 1;
    }
    r
}

/// The code points of `s`.
pub open spec fn codes(s: Seq<char>) -> Seq<u32> {
    s.map_values(|c: char| c as u32)
}

/// The English sort key of a line: its letters and commas, transliterated
/// to ASCII and in lower case; `None` where a letter has no transliteration.
pub open spec fn english_key(s: Seq<char>) -> Option<Seq<char>>
    decreases s.len(),
{
    if s.len() == 0 {
        Some(Seq::empty())
    } else {
        match english_key(s.drop_last()) {
            None => None,
            Some(k) => {
                let c = s.last();
                if alphabetic(c) || c == ',' {
                    match transliteration(c) {
                        Some(t) => Some(k + lowercase_of(t)),
                        None => None,
                    }
                } else {
                    Some(k)
                }
            },
        }
    }
}

fn english_sort_key(line: &String) -> (r: Option<Vec<u32>>)
    ensures
        r matches Some(k) ==> english_key(line@) is Some && k@ == codes(english_key(line@)->0),
        r is None ==> english_key(line@) is None,
{
    let cs = chars_of(line.as_str());
    let mut key: Vec<u32> = Vec::new();
    let ghost mut kc: Seq<char> = Seq::empty();
    let mut i: usize = 0;
    while i < cs.len()
        invariant
            cs@ == line@,
            i <= cs@.len(),
            english_key(cs@.take(i as int)) == Some(kc),
            key@ == codes(kc),
        decreases cs@.len() - i,
    {
        let c = cs[i];
        assert(cs@.take(i + 1).drop_last() =~= cs@.take(i as int));
        if is_alpha(c) || c == ',' {
            let t = match transliterate(c) {
                Some(t) => t,
                None => {
                    assert(english_key(cs@.take(i + 1)) is None);
                    proof {
                        lemma_english_key_none(cs@, i as int + 1);
                    }
                    assert(cs@.take(cs@.len() as int) =~= cs@);
                    return None;
                },
            };
            let low = to_lowercase(t.as_str());
            let lc = chars_of(low.as_str());
            let mut j: usize = 0;
            let ghost base = key@;
            while j < lc.len()
                invariant
                    j <= lc@.len(),
                    key@ == base + codes(lc@.take(j as int)),
                decreases lc@.len() - j,
            {
                key.push(lc[j] as u32);
                assert(codes(lc@.take(j + 1)) =~= codes(lc@.take(j as int)).push(lc@[j as int] as u32));
                assert(base + codes(lc@.take(j + 1)) =~= (base + codes(lc@.take(j as int))).push(
                    lc@[j as int] as u32,
                ));
                j += 1;
            }
            assert(lc@.take(j as int) =~= lc@);
            proof {
                assert(codes(kc + lc@) =~= codes(kc) + codes(lc@));
                kc = kc + lc@;
            }
        }
        i += 1;
    }
    assert(cs@.take(i as int) =~= cs@);
    Some(key)
}

proof fn lemma_english_key_none(s: Seq<char>, k: int)
    requires
        0 <= k <= s.len(),
        english_key(s.take(k)) is None,
    ensures
        english_key(s) is None,
    decreases s.len() - k,
{
    if k < s.len() {
        assert(s.take(k + 1).drop_last() =~= s.take(k));
        lemma_english_key_none(s, k + 1);
    } else {
        assert(s.take(k) =~= s);
    }
}

/// `key` is the English key of `line`, as code points.
pub open spec fn keyed(line: Seq<char>, key: Seq<u32>) -> bool {
    english_key(line) is Some && key == codes(english_key(line)->0)
}

/// The English key of every line, where each has one.
pub open spec fn english_keys(lines: Seq<String>, keys: Seq<Seq<u32>>) -> bool {
    &&& keys.len() == lines.len()
    &&& forall|i: int|
        0 <= i < lines.len() ==> keyed((#[trigger] lines[i])@, keys[i])
}

/// `v` holds `lines` in a stable sort by their English keys.
pub open spec fn english_sorted(lines: Seq<String>, v: Seq<String>) -> bool {
    exists|keys: Seq<Seq<u32>>, order: Seq<usize>|
        english_keys(lines, keys) && is_permutation(order, lines.len()) && stably_sorted(keys, order)
            && arranged(lines, order, v)
}

/// Sorts a phone list by its English keys; `None` where a letter has no
/// ASCII transliteration.
pub fn sort_english(lines: Vec<String>) -> (r: Option<Vec<String>>)
    ensures
        r matches Some(v) ==> english_sorted(lines@, v@),
        r is None ==> exists|i: int| 0 <= i < lines@.len() && english_key(lines@[i]@) is None,
{
    let mut keys: Vec<Vec<u32>> = Vec::new();
    let mut i: usize = 0;
    while i < lines.len()
        invariant
            i <= lines@.len(),
            keys@.len() == i,
            forall|j: int| 0 <= j < i ==> keyed(lines@[j]@, (#[trigger] keys@[j])@),
        decreases lines@.len() - i,
    {
        match english_sort_key(&lines[i]) {
            Some(k) => {
                let ghost kv = k@;
                let ghost before = keys@;
                assert(keyed(lines@[i as int]@, kv));
                keys.push(k);
                assert(keys@[i as int]@ == kv);
                assert forall|j: int| 0 <= j < i implies keys@[j] == before[j] by {}
            },
            None => return None,
        }
        i += 1;
    }
    let sorted = sort_by_keys(&lines, &keys);
    assert forall|j: int| 0 <= j < lines@.len() implies keyed(
        (#[trigger] lines@[j])@,
        key_views(keys@)[j],
    ) by {
        assert(key_views(keys@)[j] == keys@[j]@);
    }
    assert(english_keys(lines@, key_views(keys@)));
    Some(sorted)
}

/// The Swedish alphabet, with the comma that ends a surname first.
pub open spec fn swedish_alphabet() -> Seq<char> {
    seq![
        ',', 'a', 'b', 'c', 'd', 'e', 'f', 'g', 'h', 'i', 'j', 'k', 'l', 'm', 'n', 'o',
        'p', 'q', 'r', 's', 't', 'u', 'v', 'w', 'x', 'y', 'z', 'å', 'ä', 'ö',
    ]
}

fn swedish_letters() -> (r: Vec<char>)
    ensures
        r@ == swedish_alphabet(),
{
    let r = vec![
        ',', 'a', 'b', 'c', 'd', 'e', 'f', 'g', 'h', 'i', 'j', 'k', 'l', 'm', 'n', 'o',
        'p', 'q', 'r', 's', 't', 'u', 'v', 'w', 'x', 'y', 'z', 'å', 'ä', 'ö',
    ];
    assert(r@ =~= swedish_alphabet());
    r
}

/// The letter that a lower case character sorts as in Swedish.
pub open spec fn swedish_letter(c: char) -> char {
    if c == 'æ' {
        'ä'
    } else if c == 'ø' {
        'ö'
    } else if swedish_alphabet().contains(c) {
        c
    } else {
        nfd_chars(c)[0]
    }
}

/// The Swedish sort key of lower case text: the place in the alphabet of
/// each character that sorts as a letter of it.
pub open spec fn swedish_key(s: Seq<char>) -> Seq<u32>
    decreases s.len(),
{
    if s.len() == 0 {
        Seq::empty()
    } else {
        let k = swedish_key(s.drop_last());
        let d = swedish_letter(s.last());
        if swedish_alphabet().contains(d) {
            k.push(swedish_alphabet().index_of(d) as u32)
        } else {
            k
        }
    }
}

proof fn lemma_alphabet_index(d: char, p: int)
    requires
        0 <= p < swedish_alphabet().len(),
        swedish_alphabet()[p] == d,
    ensures
        swedish_alphabet().index_of(d) == p,
{
    let a = swedish_alphabet();
    let q = a.index_of(d);
    assert(a.contains(d));
    assert(0 <= q < a.len() && a[q] == d);
    assert(q == p);
}

fn swedish_sort_key(line: &String, alphabet: &Vec<char>) -> (r: Vec<u32>)
    requires
        alphabet@ == swedish_alphabet(),
    ensures
        r@ == swedish_key(lowercase_of(line@)),
{
    let low = to_lowercase(line.as_str());
    let cs = chars_of(low.as_str());
    let mut key: Vec<u32> = Vec::new();
    let mut i: usize = 0;
    while i < cs.len()
        invariant
            alphabet@ == swedish_alphabet(),
            cs@ == lowercase_of(line@),
            i <= cs@.len(),
            key@ == swedish_key(cs@.take(i as int)),
        decreases cs@.len() - i,
    {
        let c = cs[i];
        assert(cs@.take(i + 1).drop_last() =~= cs@.take(i as int));
        let d = if c == 'æ' {
            'ä'
        } else if c == 'ø' {
            'ö'
        } else if find_char(alphabet, c).is_some() {
            c
        } else {
            let d = decomposed(c);
            let dc = chars_of(d.as_str());
            dc[0]
        };
        assert(d == swedish_letter(c));
        match find_char(alphabet, d) {
            Some(p) => {
                proof {
                    lemma_alphabet_index(d, p as int);
                }
                key.push(p as u32);
            },
            None => {},
        }
        i += 1;
    }
    assert(cs@.take(i as int) =~= cs@);
    key
}

fn find_char(t: &Vec<char>, c: char) -> (r: Option<usize>)
    ensures
        r matches Some(p) ==> p < t@.len() && t@[p as int] == c,
        r is None <==> !t@.contains(c),
{
    let mut i: usize = 0;
    while i < t.len()
        invariant
            i <= t@.len(),
            forall|j: int| 0 <= j < i ==> t@[j] != c,
        decreases t@.len() - i,
    {
        if t[i] == c {
            return Some(i);
        }
        i += 1;
    }
    None
}

/// Sorts a phone list the Swedish way: in lower case, with æ as ä and ø as
/// ö, other accents dropped, å ä ö after z, and all else ignored.
pub fn sort_swedish(lines: Vec<String>) -> (r: Vec<String>)
    ensures
        exists|order: Seq<usize>|
            is_permutation(order, lines@.len()) && stably_sorted(
                lines@.map_values(|l: String| swedish_key(lowercase_of(l@))),
                order,
            ) && arranged(lines@, order, r@),
{
    let alphabet = swedish_letters();
    let mut keys: Vec<Vec<u32>> = Vec::new();
    let mut i: usize = 0;
    while i < lines.len()
        invariant
            alphabet@ == swedish_alphabet(),
            i <= lines@.len(),
            keys@.len() == i,
            forall|j: int|
                0 <= j < i ==> (#[trigger] keys@[j])@ == swedish_key(lowercase_of(lines@[j]@)),
        decreases lines@.len() - i,
    {
        keys.push(swedish_sort_key(&lines[i], &alphabet));
        i += 1;
    }
    assert(key_views(keys@) =~= lines@.map_values(|l: String| swedish_key(lowercase_of(l@))));
    sort_by_keys(&lines, &keys)
}

/// Sorts a phone list the Dutch way: each line with its infix moved behind
/// the given names, then in English order. `None` where a line cannot be
/// rearranged or has a letter without transliteration.
pub fn sort_dutch(lines: Vec<String>) -> (r: Option<Vec<String>>)
    ensures
        r matches Some(v) ==> exists|moved: Seq<String>|
            #[trigger] english_sorted(moved, v@) && moved.len() == lines@.len() && forall|i: int|
                0 <= i < moved.len() ==> dutch_form(lines@[i]@, (#[trigger] moved[i])@),
{
    let mut moved: Vec<String> = Vec::new();
    let mut i: usize = 0;
    while i < lines.len()
        invariant
            i <= lines@.len(),
            moved@.len() == i,
            forall|j: int| 0 <= j < i ==> dutch_form(lines@[j]@, (#[trigger] moved@[j])@),
        decreases lines@.len() - i,
    {
        if !can_move_infix(lines[i].as_str()) {
            return None;
        }
        moved.push(move_dutch_infix(lines[i].as_str()));
        i += 1;
    }
    let ghost mv = moved@;
    let r = sort_english(moved);
    assert(mv.len() == lines@.len());
    r
}

/// The last word of the middle line of `lines`.
pub open spec fn middle_word(lines: Seq<String>) -> Seq<char> {
    crate::text::words_spec(lines[(lines.len() / 2) as int]@).last()
}

/// The middle line ends in a word, which writes a number in decimal digits
/// that fits in a `u64`.
pub open spec fn ends_in_number(lines: Seq<String>) -> bool {
    &&& crate::text::words_spec(lines[(lines.len() / 2) as int]@).len() > 0
    &&& middle_word(lines).len() > 0
    &&& crate::dates::all_digits(middle_word(lines))
    &&& crate::dates::decimal_value(middle_word(lines)) <= u64::MAX
}

/// The phone number at the end of the middle line of a sorted list; `None`
/// where that line does not end in a number.
pub fn middle_phone_number(lines: &[String]) -> (r: Option<u64>)
    requires
        lines@.len() > 0,
    ensures
        r is Some <==> ends_in_number(lines@),
        r matches Some(v) ==> v == crate::dates::decimal_value(middle_word(lines@)),
{
    let line = &lines[lines.len() / 2];
    let cs = chars_of(line.as_str());
    let words = crate::text::words_of(cs.as_slice());
    if words.len() == 0 {
        return None;
    }
    assert(crate::text::rows(words@)[words@.len() - 1] == words@[words@.len() - 1]@);
    crate::dates::parse_decimal(words[words.len() - 1].as_slice())
}

/// The product of the middle phone numbers of the list sorted the English,
/// the Swedish and the Dutch way; `None` where a sort or a number fails or
/// the product leaves the `u64` range.
pub fn solution(input: &str) -> Option<u64> {
    let cs = chars_of(input);
    let lines = crate::text::lines_of(cs.as_slice());
    let mut texts: Vec<String> = Vec::new();
    let mut i: usize = 0;
    while i < lines.len()
        invariant
            i <= lines@.len(),
        decreases lines@.len() - i,
    {
        texts.push(string_of(lines[i].as_slice()));
        i += 1;
    }
    let english = sort_english(texts.clone())?;
    let swedish = sort_swedish(texts.clone());
    let dutch = sort_dutch(texts)?;
    if english.len() == 0 || swedish.len() == 0 || dutch.len() == 0 {
        return None;
    }
    let a = middle_phone_number(english.as_slice())?;
    let b = middle_phone_number(swedish.as_slice())?;
    let c = middle_phone_number(dutch.as_slice())?;
    a.checked_mul(b)?.checked_mul(c)
}

} // verus!
