//! Audit timestamps from two zones whose clocks were wrong by a known
//! number of minutes, read back as local hours.
use crate::dates::{all_digits, decimal_value};
use crate::text::{chars_of, lines_of, string_of, words_of};
use crate::travel::zone_by_name;
use crate::waves::read_rfc3339;
use chrono::{DateTime, Offset, TimeZone, Timelike};
use chrono_tz::Tz;
use vstd::prelude::*;

verus! {

/// Relies on chrono's `TimeZone::offset_from_utc_datetime` for a chrono-tz
/// zone: the zone's UTC offset in seconds at the instant `seconds`.
#[verifier::external_body]
fn offset_at(tz: &Tz, seconds: i64) -> Option<i32> {
    DateTime::from_timestamp(seconds, 0).map(
        |d| tz.offset_from_utc_datetime(&d.naive_utc()).fix().local_minus_utc(),
    )
}

/// Relies on chrono's `DateTime::with_timezone` and `Timelike::hour`: the
/// local hour in `tz` at the instant `seconds`.
#[verifier::external_body]
fn hour_at(tz: &Tz, seconds: i64) -> Option<u32> {
    DateTime::from_timestamp(seconds, 0).map(|d| d.with_timezone(tz).hour())
}

/// Reads a count of minutes written in decimal digits; `None` where it
/// holds another character, is empty, or exceeds a year of minutes.
pub fn parse_minutes(s: &[char]) -> (r: Option<i64>)
    ensures
        r matches Some(m) ==> s@.len() > 0 && all_digits(s@) && m == decimal_value(s@) && 0 <= m
            <= 1_000_000,
{
    if s.len() == 0 {
        return None;
    }
    let mut acc: i64 = 0;
    let mut i: usize = 0;
    while i < s.len()
        invariant
            i <= s@.len(),
            all_digits(s@.take(i as int)),
            acc == decimal_value(s@.take(i as int)),
            0 <= acc <= 1_000_000,
        decreases s@.len() - i,
    {
        let c = s[i];
        assert(s@.take(i + 1).drop_last() =~= s@.take(i as int));
        if c < '0' || c > '9' {
            return None;
        }
        let next = acc * 10 + (c as u32 - '0' as u32) as i64;
        if next > 1_000_000 {
            return None;
        }
        assert forall|j: int| 0 <= j < i + 1 implies '0' <= #[trigger] s@.take(i + 1)[j] <= '9' by {
            if j < i {
                assert(s@.take(i + 1)[j] == s@.take(i as int)[j]);
            }
        }
        acc = next;
        i += 1;
    }
    assert(s@.take(i as int) =~= s@);
    Some(acc)
}

/// The instant `seconds` with the wrong minutes taken back and the correct
/// ones added.
pub fn corrected(seconds: i64, correct: i64, wrong: i64) -> (r: Option<i64>)
    requires
        0 <= correct <= 1_000_000,
        0 <= wrong <= 1_000_000,
    ensures
        r matches Some(t) ==> t == seconds - 60 * wrong + 60 * correct,
        r is None <==> !(i64::MIN <= seconds - 60 * wrong + 60 * correct <= i64::MAX),
{
    let t = seconds as i128 - 60 * wrong as i128 + 60 * correct as i128;
    if t < i64::MIN as i128 || t > i64::MAX as i128 {
        None
    } else {
        Some(t as i64)
    }
}

/// Sums, over the lines "timestamp correct wrong", the local hour of the
/// corrected time times the line number (from 1). A timestamp whose offset
/// is Halifax's at that instant is read in Halifax, any other in Santiago.
/// `None` where a line does not read.
pub fn solution(input: &str) -> Option<usize> {
    let halifax = zone_by_name("America/Halifax")?;
    let santiago = zone_by_name("America/Santiago")?;
    let cs = chars_of(input);
    let lines = lines_of(cs.as_slice());
    let mut sum: usize = 0;
    let mut i: usize = 0;
    while i < lines.len()
        invariant
            i <= lines@.len(),
        decreases lines@.len() - i,
    {
        let words = words_of(lines[i].as_slice());
        if words.len() < 3 {
            return None;
        }
        let stamp = string_of(words[0].as_slice());
        let correct = parse_minutes(words[1].as_slice())?;
        let wrong = parse_minutes(words[2].as_slice())?;
        let (seconds, _nanos, offset) = read_rfc3339(stamp.as_str())?;
        let zone = if offset_at(&halifax, seconds)? == offset {
            &halifax
        } else {
            &santiago
        };
        let t = corrected(seconds, correct, wrong)?;
        let hour = hour_at(zone, t)? as usize;
        let term = hour.checked_mul(i + 1)?;
        sum = sum.checked_add(term)?;
        i += 1;
    }
    Some(sum)
}

} // verus!
