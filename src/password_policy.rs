//! A password policy that asks for a digit, both cases, and at least one
//! character outside ASCII.
use crate::greek::{is_lower, is_upper, lower_case, upper_case};
use crate::text::{chars_of, lines_of, lines_spec, rows, string_of};
use vstd::prelude::*;

verus! {

/// Length 4 to 12 characters, a digit, an upper case and a lower case
/// letter, and a character outside ASCII.
pub open spec fn meets_policy(s: Seq<char>) -> bool {
    &&& 4 <= s.len() <= 12
    &&& exists|i: int| 0 <= i < s.len() && '0' <= #[trigger] s[i] <= '9'
    &&& exists|i: int| 0 <= i < s.len() && upper_case(#[trigger] s[i])
    &&& exists|i: int| 0 <= i < s.len() && lower_case(#[trigger] s[i])
    &&& exists|i: int| 0 <= i < s.len() && (#[trigger] s[i]) as u32 >= 128
}

/// Whether `pwd` meets the policy.
pub fn is_valid(pwd: &str) -> (r: bool)
    ensures
        r == meets_policy(pwd@),
{
    let cs = chars_of(pwd);
    let n = cs.len();
    let mut digit = false;
    let mut upper = false;
    let mut lower = false;
    let mut wide = false;
    let mut i: usize = 0;
    while i < n
        invariant
            cs@ == pwd@,
            n == cs@.len(),
            i <= n,
            digit == exists|j: int| 0 <= j < i && '0' <= #[trigger] pwd@[j] <= '9',
            upper == exists|j: int| 0 <= j < i && upper_case(#[trigger] pwd@[j]),
            lower == exists|j: int| 0 <= j < i && lower_case(#[trigger] pwd@[j]),
            wide == exists|j: int| 0 <= j < i && (#[trigger] pwd@[j]) as u32 >= 128,
        decreases n - i,
    {
        let c = cs[i];
        if '0' <= c && c <= '9' {
            digit = true;
        }
        if is_upper(c) {
            upper = true;
        }
        if is_lower(c) {
            lower = true;
        }
        if (c as u32) >= 128 {
            wide = true;
        }
        i += 1;
    }
    4 <= n && n <= 12 && digit && upper && lower && wide
}

/// How many of `lines` meet the policy.
pub open spec fn count_valid(lines: Seq<Seq<char>>) -> int
    decreases lines.len(),
{
    if lines.len() == 0 {
        0
    } else {
        count_valid(lines.drop_last()) + if meets_policy(lines.last()) {
            1int
        } else {
            0
        }
    }
}

/// The number of lines of `input` that meet the policy.
pub fn solution(input: &str) -> (r: usize)
    ensures
        r == count_valid(lines_spec(input@)),
{
    let cs = chars_of(input);
    let lines = lines_of(cs.as_slice());
    let ghost ls = rows(lines@);
    let mut count: usize = 0;
    let mut i: usize = 0;
    assert(ls.take(0) =~= Seq::<Seq<char>>::empty());
    while i < lines.len()
        invariant
            ls == rows(lines@),
            ls == lines_spec(input@),
            i <= lines@.len(),
            count <= i,
            count == count_valid(ls.take(i as int)),
        decreases lines@.len() - i,
    {
        let pwd = string_of(lines[i].as_slice());
        assert(ls.take(i + 1).drop_last() =~= ls.take(i as int));
        assert(ls[i as int] == pwd@);
        if is_valid(pwd.as_str()) {
            count += 1;
        }
        i += 1;
    }
    assert(ls.take(i as int) =~= ls);
    count
}

} // verus!
