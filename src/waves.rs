//! The moment reported most often, among timestamps written with offsets.
use crate::text::{chars_of, lines_of, string_of};
use chrono::DateTime;
use vstd::prelude::*;

verus! {

/// Relies on chrono's `DateTime::parse_from_rfc3339`: the Unix seconds, the
/// nanoseconds past them, and the UTC offset in seconds of an RFC 3339
/// timestamp.
#[verifier::external_body]
pub(crate) fn read_rfc3339(text: &str) -> Option<(i64, u32, i32)> {
    DateTime::parse_from_rfc3339(text).ok().map(
        |d| (d.timestamp(), d.timestamp_subsec_nanos(), d.offset().local_minus_utc()),
    )
}

/// Relies on chrono's `DateTime::<Utc>::from_timestamp` and `to_rfc3339`:
/// the instant written in RFC 3339 at offset +00:00.
#[verifier::external_body]
fn utc_rfc3339(seconds: i64, nanos: u32) -> Option<String> {
    DateTime::from_timestamp(seconds, nanos).map(|d| d.to_rfc3339())
}

/// How often `x` occurs in `s`.
pub open spec fn occurrences(s: Seq<(i64, u32)>, x: (i64, u32)) -> nat
    decreases s.len(),
{
    if s.len() == 0 {
        0
    } else {
        occurrences(s.drop_last(), x) + if s.last() == x {
            1nat
        } else {
            0nat
        }
    }
}

fn count_of(s: &Vec<(i64, u32)>, x: (i64, u32)) -> (r: usize)
    ensures
        r == occurrences(s@, x),
{
    let mut n: usize = 0;
    let mut i: usize = 0;
    while i < s.len()
        invariant
            i <= s@.len(),
            n == occurrences(s@.take(i as int), x),
            n <= i,
        decreases s@.len() - i,
    {
        assert(s@.take(i + 1).drop_last() =~= s@.take(i as int));
        if s[i].0 == x.0 && s[i].1 == x.1 {
            n += 1;
        }
        i += 1;
    }
    assert(s@.take(i as int) =~= s@);
    n
}

/// The instant that occurs most often in `instants`, the earliest listed
/// among equals; `None` where the list is empty.
pub fn most_frequent(instants: &Vec<(i64, u32)>) -> (r: Option<(i64, u32)>)
    ensures
        r is None <==> instants@.len() == 0,
        r matches Some(x) ==> instants@.contains(x) && forall|i: int|
            0 <= i < instants@.len() ==> occurrences(instants@, #[trigger] instants@[i])
                <= occurrences(instants@, x),
{
    if instants.len() == 0 {
        return None;
    }
    let mut best = instants[0];
    let mut best_count = count_of(instants, best);
    let mut i: usize = 1;
    while i < instants.len()
        invariant
            1 <= i <= instants@.len(),
            instants@.contains(best),
            best_count == occurrences(instants@, best),
            forall|j: int|
                0 <= j < i ==> occurrences(instants@, #[trigger] instants@[j]) <= best_count,
        decreases instants@.len() - i,
    {
        let c = count_of(instants, instants[i]);
        if c > best_count {
            best = instants[i];
            best_count = c;
        }
        i += 1;
    }
    Some(best)
}

/// Reads one RFC 3339 timestamp per line and writes, in UTC, the instant
/// that occurs most often; `None` where a line does not read or there is
/// no line.
pub fn solution(input: &str) -> Option<String> {
    let cs = chars_of(input);
    let lines = lines_of(cs.as_slice());
    let mut instants: Vec<(i64, u32)> = Vec::new();
    let mut i: usize = 0;
    while i < lines.len()
        invariant
            i <= lines@.len(),
        decreases lines@.len() - i,
    {
        let text = string_of(lines[i].as_slice());
        let (seconds, nanos, _offset) = read_rfc3339(text.as_str())?;
        instants.push((seconds, nanos));
        i += 1;
    }
    let (seconds, nanos) = most_frequent(&instants)?;
    utc_rfc3339(seconds, nanos)
}

} // verus!
