//! Walking down a map of repeating rows, two columns right per row, and
//! counting the piles stepped in.
use crate::text::{chars_of, lines_of, lines_spec, rows};
use vstd::prelude::*;

verus! {

/// The number of rows among the first `k` of `m` that hold a pile where the
/// walk, in column `2 * row` wrapped at `cols`, crosses them.
pub open spec fn piles(m: Seq<Seq<char>>, cols: int, k: int) -> int
    decreases k,
{
    if k <= 0 {
        0
    } else {
        piles(m, cols, k - 1) + if m[k - 1][(2 * (k - 1)) % cols] == '💩' {
            1int
        } else {
            0
        }
    }
}

/// The piles stepped in on the walk down the map `input`, whose width is
/// that of its first row; `None` where the map has no row, its first row is
/// empty, or a row is too short for the walk.
pub fn solution(input: &str) -> (r: Option<u32>)
    ensures
        r matches Some(v) ==> lines_spec(input@).len() > 0 && v == piles(
            lines_spec(input@),
            lines_spec(input@)[0].len() as int,
            lines_spec(input@).len() as int,
        ),
{
    let cs = chars_of(input);
    let lines = lines_of(cs.as_slice());
    let ghost m = rows(lines@);
    if lines.len() == 0 {
        return None;
    }
    let cols = lines[0].len();
    if cols == 0 {
        return None;
    }
    let mut count: u32 = 0;
    let mut col: usize = 0;
    let mut i: usize = 0;
    while i < lines.len()
        invariant
            m == rows(lines@),
            m == lines_spec(input@),
            cols == m[0].len(),
            cols > 0,
            i <= m.len(),
            col == (2 * i) % (cols as int),
            count == piles(m, cols as int, i as int),
            count <= i,
        decreases m.len() - i,
    {
        let row = &lines[i];
        if col >= row.len() {
            return None;
        }
        assert(m[i as int] == row@);
        if row[col] == '💩' {
            if count == u32::MAX {
                return None;
            }
            count += 1;
        }
        assert((2 * (i + 1)) % (cols as int) == ((2 * i) % (cols as int) + 2) % (cols as int)) by {
            vstd::arithmetic::div_mod::lemma_add_mod_noop(2 * i as int, 2, cols as int);
            vstd::arithmetic::div_mod::lemma_mod_twice(2 * i as int, cols as int);
            vstd::arithmetic::div_mod::lemma_add_mod_noop((2 * i) as int % (cols as int), 2, cols as int);
        }
        col = ((col as u128 + 2) % (cols as u128)) as usize;
        i += 1;
    }
    Some(count)
}

} // verus!
