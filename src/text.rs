//! Characters and lines of text as sequences, with the splitting that the
//! record formats need.
use vstd::prelude::*;
use vstd::std_specs::iter::IteratorSpec;

verus! {

broadcast use vstd::string::group_string_axioms;

/// Relies on `String::push`: appends one character.
#[verifier::external_body]
fn push_char(s: &mut String, c: char)
    ensures
        final(s)@ == old(s)@.push(c),
{
    s.push(c);
}

/// The characters of `s`, in order.
pub fn chars_of(s: &str) -> (r: Vec<char>)
    ensures
        r@ == s@,
{
    let mut r: Vec<char> = Vec::new();
    let mut chars = s.chars();
    loop
        invariant
            r@ + chars.remaining() == s@,
            chars.decrease() is Some,
        ensures
            r@ == s@,
        decreases chars.decrease()->0,
    {
        match chars.next() {
            Some(c) => {
                r.push(c);
                assert(r@ + chars.remaining() =~= s@);
            },
            None => {
                assert(r@ =~= s@);
                break ;
            },
        }
    }
    r
}

/// The string made of the characters `cs`.
pub fn string_of(cs: &[char]) -> (r: String)
    ensures
        r@ == cs@,
{
    let mut r = String::new();
    let mut i: usize = 0;
    while i < cs.len()
        invariant
            i <= cs.len(),
            r@ == cs@.take(i as int),
        decreases cs.len() - i,
    {
        push_char(&mut r, cs[i]);
        assert(cs@.take(i + 1) =~= cs@.take(i as int).push(cs@[i as int]));
        i += 1;
    }
    assert(cs@.take(i as int) =~= cs@);
    r
}

/// The pieces of `s` between occurrences of `sep`: one more piece than there
/// are separators, empty pieces included.
pub open spec fn split_spec(s: Seq<char>, sep: char) -> Seq<Seq<char>>
    decreases s.len(),
{
    if s.len() == 0 {
        seq![Seq::empty()]
    } else {
        let rest = split_spec(s.drop_last(), sep);
        if s.last() == sep {
            rest.push(Seq::empty())
        } else {
            rest.update(rest.len() - 1, rest.last().push(s.last()))
        }
    }
}

proof fn lemma_split_nonempty(s: Seq<char>, sep: char)
    ensures
        split_spec(s, sep).len() >= 1,
    decreases s.len(),
{
    if s.len() > 0 {
        lemma_split_nonempty(s.drop_last(), sep);
    }
}

/// The characters of each row.
pub open spec fn rows(v: Seq<Vec<char>>) -> Seq<Seq<char>> {
    v.map_values(|r: Vec<char>| r@)
}

/// Splits `s` at every occurrence of `sep`.
pub fn split_on(s: &[char], sep: char) -> (r: Vec<Vec<char>>)
    ensures
        rows(r@) == split_spec(s@, sep),
{
    let mut r: Vec<Vec<char>> = Vec::new();
    let mut cur: Vec<char> = Vec::new();
    let mut i: usize = 0;
    while i < s.len()
        invariant
            i <= s.len(),
            rows(r@).push(cur@) == split_spec(s@.take(i as int), sep),
        decreases s.len() - i,
    {
        let c = s[i];
        proof {
            lemma_split_nonempty(s@.take(i as int), sep);
            assert(s@.take(i + 1).drop_last() =~= s@.take(i as int));
        }
        let ghost before = rows(r@);
        if c == sep {
            let done = cur;
            r.push(done);
            cur = Vec::new();
            assert(rows(r@) =~= before.push(done@));
        } else {
            cur.push(c);
        }
        assert(rows(r@).push(cur@) =~= split_spec(s@.take(i + 1), sep));
        i += 1;
    }
    let ghost before = rows(r@);
    r.push(cur);
    assert(rows(r@) =~= before.push(cur@));
    assert(s@.take(i as int) =~= s@);
    r
}

/// A line without the carriage return that may end it.
pub open spec fn strip_cr(l: Seq<char>) -> Seq<char> {
    if l.len() > 0 && l.last() == '\r' {
        l.drop_last()
    } else {
        l
    }
}

/// The lines of `s`: the pieces between line feeds, without a final empty
/// piece, each without a carriage return at its end.
pub open spec fn lines_spec(s: Seq<char>) -> Seq<Seq<char>> {
    let p = split_spec(s, '\n');
    let q = if p.last().len() == 0 {
        p.drop_last()
    } else {
        p
    };
    q.map_values(|l: Seq<char>| strip_cr(l))
}

/// The lines of `s`.
pub fn lines_of(s: &[char]) -> (r: Vec<Vec<char>>)
    ensures
        rows(r@) == lines_spec(s@),
{
    let pieces = split_on(s, '\n');
    proof {
        lemma_split_nonempty(s@, '\n');
    }
    let n = pieces.len();
    let count = if pieces[n - 1].len() == 0 {
        n - 1
    } else {
        n
    };
    let ghost p = rows(pieces@);
    let ghost q = if p.last().len() == 0 {
        p.drop_last()
    } else {
        p
    };
    let mut r: Vec<Vec<char>> = Vec::new();
    let mut i: usize = 0;
    while i < count
        invariant
            count <= pieces@.len(),
            q.len() == count,
            forall|j: int| 0 <= j < count ==> q[j] == (#[trigger] pieces@[j])@,
            i <= count,
            rows(r@) == q.take(i as int).map_values(|l: Seq<char>| strip_cr(l)),
        decreases count - i,
    {
        let line = &pieces[i];
        let mut len = line.len();
        if len > 0 && line[len - 1] == '\r' {
            len = len - 1;
        }
        let mut kept: Vec<char> = Vec::new();
        let mut j: usize = 0;
        while j < len
            invariant
                len <= line@.len(),
                j <= len,
                kept@ == line@.take(j as int),
            decreases len - j,
        {
            kept.push(line[j]);
            assert(line@.take(j + 1) =~= line@.take(j as int).push(line@[j as int]));
            j += 1;
        }
        assert(kept@ =~= strip_cr(q[i as int]));
        let ghost before = rows(r@);
        let ghost kv = kept@;
        r.push(kept);
        assert(rows(r@) =~= before.push(kv));
        assert(q.take(i + 1).map_values(|l: Seq<char>| strip_cr(l)) =~= q.take(i as int).map_values(
            |l: Seq<char>| strip_cr(l),
        ).push(strip_cr(q[i as int])));
        i += 1;
    }
    assert(q.take(i as int) =~= q);
    r
}

/// The characters of `cs` from index `from` up to index `to`.
pub fn slice_of(cs: &[char], from: usize, to: usize) -> (r: Vec<char>)
    requires
        from <= to <= cs@.len(),
    ensures
        r@ == cs@.subrange(from as int, to as int),
{
    let mut r: Vec<char> = Vec::new();
    let mut i: usize = from;
    while i < to
        invariant
            from <= i <= to <= cs@.len(),
            r@ == cs@.subrange(from as int, i as int),
        decreases to - i,
    {
        r.push(cs[i]);
        assert(cs@.subrange(from as int, i + 1) =~= cs@.subrange(from as int, i as int).push(
            cs@[i as int],
        ));
        i += 1;
    }
    r
}

/// The bytes of `b` from index `from` on.
pub fn bytes_from(b: &[u8], from: usize) -> (r: Vec<u8>)
    requires
        from <= b@.len(),
    ensures
        r@ == b@.skip(from as int),
{
    let mut r: Vec<u8> = Vec::new();
    let mut i: usize = from;
    while i < b.len()
        invariant
            from <= i <= b@.len(),
            r@ == b@.subrange(from as int, i as int),
        decreases b@.len() - i,
    {
        r.push(b[i]);
        assert(b@.subrange(from as int, i + 1) =~= b@.subrange(from as int, i as int).push(b@[i as int]));
        i += 1;
    }
    assert(b@.subrange(from as int, i as int) =~= b@.skip(from as int));
    r
}

/// The characters with the Unicode `White_Space` property, as
/// `char::is_whitespace` gives them.
pub open spec fn white_space(c: char) -> bool {
    let u = c as u32;
    (0x9 <= u <= 0xd) || u == 0x20 || u == 0x85 || u == 0xa0 || u == 0x1680 || (0x2000 <= u
        <= 0x200a) || u == 0x2028 || u == 0x2029 || u == 0x202f || u == 0x205f || u == 0x3000
}

/// Whether `c` is white space.
pub fn is_white_space(c: char) -> (r: bool)
    ensures
        r == white_space(c),
{
    let u = c as u32;
    (0x9 <= u && u <= 0xd) || u == 0x20 || u == 0x85 || u == 0xa0 || u == 0x1680 || (0x2000 <= u
        && u <= 0x200a) || u == 0x2028 || u == 0x2029 || u == 0x202f || u == 0x205f || u == 0x3000
}

/// The words of `s` so far, and whether its last character is in a word.
pub open spec fn words_state(s: Seq<char>) -> (Seq<Seq<char>>, bool)
    decreases s.len(),
{
    if s.len() == 0 {
        (Seq::empty(), false)
    } else {
        let (w, in_word) = words_state(s.drop_last());
        let c = s.last();
        if white_space(c) {
            (w, false)
        } else if in_word {
            (w.update(w.len() - 1, w.last().push(c)), true)
        } else {
            (w.push(seq![c]), true)
        }
    }
}

/// The maximal runs of characters of `s` that are not white space.
pub open spec fn words_spec(s: Seq<char>) -> Seq<Seq<char>> {
    words_state(s).0
}

/// The words of `s`, split at white space.
pub fn words_of(s: &[char]) -> (r: Vec<Vec<char>>)
    ensures
        rows(r@) == words_spec(s@),
{
    let mut words: Vec<Vec<char>> = Vec::new();
    let mut cur: Vec<char> = Vec::new();
    let mut in_word = false;
    let mut i: usize = 0;
    while i < s.len()
        invariant
            i <= s@.len(),
            in_word ==> cur@.len() > 0,
            !in_word ==> cur@.len() == 0,
            words_state(s@.take(i as int)).1 == in_word,
            words_state(s@.take(i as int)).0 == if in_word {
                rows(words@).push(cur@)
            } else {
                rows(words@)
            },
        decreases s@.len() - i,
    {
        let c = s[i];
        assert(s@.take(i + 1).drop_last() =~= s@.take(i as int));
        let ghost before = rows(words@);
        if is_white_space(c) {
            if in_word {
                let done = cur;
                let ghost dv = done@;
                words.push(done);
                cur = Vec::new();
                assert(rows(words@) =~= before.push(dv));
            }
            in_word = false;
        } else {
            let ghost old_cur = cur@;
            cur.push(c);
            if in_word {
                assert(before.push(old_cur).update(before.len() as int, old_cur.push(c)) =~= before.push(cur@));
            } else {
                assert(old_cur =~= Seq::<char>::empty());
                assert(seq![c] =~= cur@);
            }
            in_word = true;
        }
        i += 1;
    }
    assert(s@.take(i as int) =~= s@);
    if in_word {
        let ghost before = rows(words@);
        let ghost cv = cur@;
        words.push(cur);
        assert(rows(words@) =~= before.push(cv));
    }
    words
}

/// `s` without the white space at its start.
pub open spec fn strip_leading(s: Seq<char>) -> Seq<char>
    decreases s.len(),
{
    if s.len() > 0 && white_space(s[0]) {
        strip_leading(s.drop_first())
    } else {
        s
    }
}

/// `s` without the white space at its end.
pub open spec fn strip_trailing(s: Seq<char>) -> Seq<char>
    decreases s.len(),
{
    if s.len() > 0 && white_space(s.last()) {
        strip_trailing(s.drop_last())
    } else {
        s
    }
}

/// `s` without white space at either end.
pub open spec fn trimmed(s: Seq<char>) -> Seq<char> {
    strip_trailing(strip_leading(s))
}

/// The characters of `s` without white space at either end.
pub fn trim(s: &[char]) -> (r: Vec<char>)
    ensures
        r@ == trimmed(s@),
{
    let n = s.len();
    let mut a: usize = 0;
    assert(s@.skip(0) =~= s@);
    while a < n && is_white_space(s[a])
        invariant
            n == s@.len(),
            a <= n,
            strip_leading(s@) == strip_leading(s@.skip(a as int)),
        decreases n - a,
    {
        assert(s@.skip(a as int).drop_first() =~= s@.skip(a + 1));
        a += 1;
    }
    assert(strip_leading(s@.skip(a as int)) == s@.skip(a as int));
    let mut b: usize = n;
    while b > a && is_white_space(s[b - 1])
        invariant
            n == s@.len(),
            a <= b <= n,
            strip_trailing(s@.skip(a as int)) == strip_trailing(s@.subrange(a as int, b as int)),
        decreases b,
    {
        assert(s@.subrange(a as int, b as int).drop_last() =~= s@.subrange(a as int, b - 1));
        b -= 1;
    }
    assert(s@.skip(a as int) =~= s@.subrange(a as int, n as int));
    slice_of(s, a, b)
}

/// Two consecutive line feeds start at `i`.
pub open spec fn blank_at(s: Seq<char>, i: int) -> bool {
    0 <= i && i + 1 < s.len() && s[i] == '\n' && s[i + 1] == '\n'
}

/// The text before the first blank line, and the text after it.
pub fn split_at_blank(s: &[char]) -> (r: Option<(Vec<char>, Vec<char>)>)
    ensures
        r is None <==> !exists|i: int| blank_at(s@, i),
        r matches Some((head, tail)) ==> exists|i: int|
            blank_at(s@, i) && (forall|j: int| 0 <= j < i ==> !blank_at(s@, j)) && head@ == s@.take(i)
                && tail@ == s@.skip(i + 2),
{
    let n = s.len();
    let mut i: usize = 0;
    while i < n && i + 1 < n && !(s[i] == '\n' && s[i + 1] == '\n')
        invariant
            n == s@.len(),
            i <= n,
            forall|j: int| 0 <= j < i ==> !blank_at(s@, j),
        decreases n - i,
    {
        i += 1;
    }
    if i >= n || i + 1 >= n {
        assert forall|j: int| !blank_at(s@, j) by {
            if blank_at(s@, j) {
                assert(j < i);
            }
        }
        return None;
    }
    assert(blank_at(s@, i as int));
    let head = slice_of(s, 0, i);
    let tail = slice_of(s, i + 2, n);
    assert(s@.subrange(0, i as int) =~= s@.take(i as int));
    assert(s@.subrange(i + 2, n as int) =~= s@.skip(i + 2));
    Some((head, tail))
}

} // verus!
