//! What it costs to send a message as an SMS, a tweet, or both.
use crate::text::{chars_of, lines_of, lines_spec, rows, string_of};
use vstd::prelude::*;
use vstd::string::StrSliceExecFns;
use vstd::utf8::encode_utf8;

verus! {

/// At most 160 bytes of UTF-8 (`len` counts bytes).
pub fn is_valid_sms(msg: &str) -> (r: bool)
    ensures
        r == (msg.len() <= 160),
{
    msg.len() <= 160
}

/// At most 140 characters.
pub fn is_valid_tweet(msg: &str) -> (r: bool)
    ensures
        r == (msg@.len() <= 140),
{
    msg.unicode_len() <= 140
}

/// Cents to send `msg`: 13 where it fits both, 11 an SMS only, 7 a tweet
/// only, 0 neither.
pub fn cost(msg: &str) -> (r: u32)
    ensures
        r == (if msg.len() <= 160 && msg@.len() <= 140 {
            13u32
        } else if msg.len() <= 160 {
            11
        } else if msg@.len() <= 140 {
            7
        } else {
            0
        }),
{
    let valid_sms = is_valid_sms(msg);
    let valid_tweet = is_valid_tweet(msg);
    if valid_sms && valid_tweet {
        13
    } else if valid_sms {
        11
    } else if valid_tweet {
        7
    } else {
        0
    }
}

/// The cost of a line, as `cost` gives it.
pub open spec fn line_cost(l: Seq<char>) -> int {
    let sms = (encode_utf8(l).len() as usize) <= 160;
    let tweet = l.len() <= 140;
    if sms && tweet {
        13
    } else if sms {
        11
    } else if tweet {
        7
    } else {
        0
    }
}

pub open spec fn total_cost(lines: Seq<Seq<char>>) -> int
    decreases lines.len(),
{
    if lines.len() == 0 {
        0
    } else {
        total_cost(lines.drop_last()) + line_cost(lines.last())
    }
}

/// The cost of sending every line of `input`; `None` where the total
/// leaves the `u64` range.
pub fn solution(input: &str) -> (r: Option<u64>)
    ensures
        r matches Some(v) ==> v == total_cost(lines_spec(input@)),
{
    let cs = chars_of(input);
    let lines = lines_of(cs.as_slice());
    let ghost ls = rows(lines@);
    let mut sum: u64 = 0;
    let mut i: usize = 0;
    assert(ls.take(0) =~= Seq::<Seq<char>>::empty());
    while i < lines.len()
        invariant
            ls == rows(lines@),
            i <= lines@.len(),
            sum == total_cost(ls.take(i as int)),
        decreases lines@.len() - i,
    {
        let line = string_of(lines[i].as_slice());
        let c = cost(line.as_str());
        assert(ls.take(i + 1).drop_last() =~= ls.take(i as int));
        assert(ls[i as int] == line@);
        sum = sum.checked_add(c as u64)?;
        i += 1;
    }
    assert(ls.take(i as int) =~= ls);
    Some(sum)
}

} // verus!
