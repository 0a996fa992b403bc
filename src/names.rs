//! Names in a phone list, written "Surname, Given names: number", and the
//! Dutch custom of sorting by the surname without its infix.
use crate::greek::{is_upper, upper_case};
use crate::text::{chars_of, string_of};
use vstd::prelude::*;

verus! {

/// `u` is the position of the first upper case character of `s`.
pub open spec fn first_upper_at(s: Seq<char>, u: int) -> bool {
    0 <= u < s.len() && upper_case(s[u]) && forall|j: int| 0 <= j < u ==> !upper_case(s[j])
}

/// `e` is the position of the first colon of `s`.
pub open spec fn first_colon_at(s: Seq<char>, e: int) -> bool {
    0 <= e < s.len() && s[e] == ':' && forall|j: int| 0 <= j < e ==> s[j] != ':'
}

/// The line with the infix that ends one character before the surname at
/// `u` moved behind the given names, which end at `e`.
pub open spec fn infix_moved(s: Seq<char>, u: int, e: int) -> Seq<char> {
    s.subrange(u, e) + seq![' '] + s.subrange(0, u - 1) + s.subrange(e, s.len() as int)
}

/// `t` is the line `s` with its infix, if any, moved behind the given names.
pub open spec fn dutch_form(s: Seq<char>, t: Seq<char>) -> bool {
    exists|u: int|
        first_upper_at(s, u) && (u == 0 ==> t == s) && (u > 0 ==> exists|e: int|
            first_colon_at(s, e) && u <= e && t == infix_moved(s, u, e))
}

/// The line has an upper case letter, and where that is not its first
/// character, a colon at or after it.
pub open spec fn infix_movable(s: Seq<char>) -> bool {
    exists|u: int|
        #[trigger] first_upper_at(s, u) && (u > 0 ==> exists|e: int|
            #[trigger] first_colon_at(s, e) && u <= e)
}

proof fn lemma_firsts_unique(s: Seq<char>, u: int, v: int, e: int, f: int)
    ensures
        first_upper_at(s, u) && first_upper_at(s, v) ==> u == v,
        first_colon_at(s, e) && first_colon_at(s, f) ==> e == f,
{
    if first_upper_at(s, u) && first_upper_at(s, v) {
        if u < v {
            assert(!upper_case(s[u]));
        }
        if v < u {
            assert(!upper_case(s[v]));
        }
    }
    if first_colon_at(s, e) && first_colon_at(s, f) {
        if e < f {
            assert(s[e] != ':');
        }
        if f < e {
            assert(s[f] != ':');
        }
    }
}

/// Whether the infix of `line` can be moved.
pub fn can_move_infix(line: &str) -> (r: bool)
    ensures
        r == infix_movable(line@),
{
    try_move_infix(line).is_some()
}

/// Moves a Dutch infix ("van", "van den") from the front of a line to the
/// end of the given names: "van Leeuw, Floor: 1" becomes "Leeuw, Floor van: 1".
/// A line that starts with its surname stays as it is.
pub fn move_dutch_infix(line: &str) -> (r: String)
    requires
        infix_movable(line@),
    ensures
        dutch_form(line@, r@),
{
    match try_move_infix(line) {
        Some(t) => t,
        None => {
            assert(false);
            String::new()
        },
    }
}

fn try_move_infix(line: &str) -> (r: Option<String>)
    ensures
        r matches Some(t) ==> dutch_form(line@, t@),
        r is Some <==> infix_movable(line@),
{
    let cs = chars_of(line);
    let n = cs.len();
    let mut u: usize = 0;
    while u < n && !is_upper(cs[u])
        invariant
            cs@ == line@,
            n == cs@.len(),
            u <= n,
            forall|j: int| 0 <= j < u ==> !upper_case(line@[j]),
        decreases n - u,
    {
        u += 1;
    }
    if u == n {
        assert forall|v: int| !first_upper_at(line@, v) by {
            if first_upper_at(line@, v) {
                assert(!upper_case(line@[v]));
            }
        }
        return None;
    }
    assert(first_upper_at(line@, u as int));
    assert forall|v: int| #[trigger] first_upper_at(line@, v) implies v == u by {
        lemma_firsts_unique(line@, u as int, v, 0, 0);
    }
    if u == 0 {
        let t = string_of(cs.as_slice());
        return Some(t);
    }
    let mut e: usize = 0;
    while e < n && cs[e] != ':'
        invariant
            cs@ == line@,
            n == cs@.len(),
            e <= n,
            forall|j: int| 0 <= j < e ==> line@[j] != ':',
        decreases n - e,
    {
        e += 1;
    }
    if e == n || e < u {
        assert forall|f: int| first_colon_at(line@, f) implies f < u by {
            if f >= u {
                assert(f >= e);
                if e < n {
                    assert(line@[e as int] == ':');
                    assert(f == e);
                }
            }
        }
        assert(!infix_movable(line@));
        return None;
    }
    assert(first_colon_at(line@, e as int));
    let mut out: Vec<char> = Vec::new();
    let mut i: usize = u;
    while i < e
        invariant
            cs@ == line@,
            u <= i <= e <= n,
            n == cs@.len(),
            out@ == line@.subrange(u as int, i as int),
        decreases e - i,
    {
        out.push(cs[i]);
        assert(line@.subrange(u as int, i + 1) =~= line@.subrange(u as int, i as int).push(line@[i as int]));
        i += 1;
    }
    out.push(' ');
    let ghost head = out@;
    let mut j: usize = 0;
    while j < u - 1
        invariant
            cs@ == line@,
            0 < u <= e <= n,
            n == cs@.len(),
            j <= u - 1,
            out@ == head + line@.subrange(0, j as int),
        decreases u - 1 - j,
    {
        out.push(cs[j]);
        assert(line@.subrange(0, j + 1) =~= line@.subrange(0, j as int).push(line@[j as int]));
        j += 1;
    }
    let ghost middle = out@;
    let mut k: usize = e;
    while k < n
        invariant
            cs@ == line@,
            e <= k <= n,
            n == cs@.len(),
            out@ == middle + line@.subrange(e as int, k as int),
        decreases n - k,
    {
        out.push(cs[k]);
        assert(line@.subrange(e as int, k + 1) =~= line@.subrange(e as int, k as int).push(line@[k as int]));
        k += 1;
    }
    assert(out@ =~= infix_moved(line@, u as int, e as int));
    Some(string_of(out.as_slice()))
}

} // verus!
