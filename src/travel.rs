//! Flight times from departures and arrivals written in local time.
use crate::text::{chars_of, lines_of, rows, string_of, words_of, words_spec};
use chrono::NaiveDateTime;
use chrono_tz::Tz;
use vstd::prelude::*;

verus! {

#[verifier::external_type_specification]
#[verifier::external_body]
pub struct ExNaiveDateTime(NaiveDateTime);

#[verifier::external_type_specification]
#[verifier::external_body]
pub struct ExTz(Tz);

/// Relies on chrono-tz's `FromStr` for `Tz`: the zone of an IANA name.
#[verifier::external_body]
pub(crate) fn zone_by_name(name: &str) -> Option<Tz> {
    name.parse::<Tz>().ok()
}

/// Relies on chrono's `NaiveDateTime::parse_from_str`: reads a civil date
/// and time from `text` in `format`.
#[verifier::external_body]
fn parse_local(text: &str, format: &str) -> Option<NaiveDateTime> {
    NaiveDateTime::parse_from_str(text, format).ok()
}

/// Relies on chrono's `NaiveDateTime::and_local_timezone` with
/// `MappedLocalTime::single`: the Unix time, in seconds, of a civil time in
/// `tz`, where it names exactly one instant.
#[verifier::external_body]
fn unix_seconds(local: &NaiveDateTime, tz: &Tz) -> Option<i64> {
    local.and_local_timezone(*tz).single().map(|d| d.timestamp())
}

/// The Unix time, in seconds, of `local_datetime` (as "Mar 04, 2020, 10:00")
/// in the zone named `timezone`; `None` where either does not read or the
/// time falls in a gap or a fold of the zone.
pub fn get_utc(timezone: &str, local_datetime: &str) -> Option<i64> {
    let tz = zone_by_name(timezone)?;
    let local = parse_local(local_datetime, "%b %d, %Y, %H:%M")?;
    unix_seconds(&local, &tz)
}

/// The words of a line from the third on, joined by single spaces.
pub open spec fn joined_from_third(w: Seq<Seq<char>>) -> Seq<char>
    decreases w.len(),
{
    if w.len() <= 2 {
        Seq::empty()
    } else if w.len() == 3 {
        w[2]
    } else {
        joined_from_third(w.drop_last()) + seq![' '] + w.last()
    }
}

fn join_from_third(words: &Vec<Vec<char>>) -> (r: Vec<char>)
    ensures
        r@ == joined_from_third(rows(words@)),
{
    let mut r: Vec<char> = Vec::new();
    let mut i: usize = 2;
    if words.len() <= 2 {
        return r;
    }
    while i < words.len()
        invariant
            2 <= i <= words@.len(),
            r@ == joined_from_third(rows(words@).take(i as int)),
        decreases words@.len() - i,
    {
        let ghost before = r@;
        if i > 2 {
            r.push(' ');
        }
        let w = &words[i];
        let mut j: usize = 0;
        let ghost base = r@;
        while j < w.len()
            invariant
                j <= w@.len(),
                r@ == base + w@.take(j as int),
            decreases w@.len() - j,
        {
            r.push(w[j]);
            assert(w@.take(j + 1) =~= w@.take(j as int).push(w@[j as int]));
            j += 1;
        }
        assert(w@.take(j as int) =~= w@);
        assert(rows(words@).take(i + 1).drop_last() =~= rows(words@).take(i as int));
        if i == 2 {
            assert(joined_from_third(rows(words@).take(0)) =~= Seq::<char>::empty());
            assert(r@ =~= rows(words@).take(3)[2]);
        } else {
            assert(r@ =~= before + seq![' '] + rows(words@)[i as int]);
        }
        i += 1;
    }
    assert(rows(words@).take(i as int) =~= rows(words@));
    r
}

/// The instant of a line "Departure: zone date": its second word names the
/// zone and the words after it the local time.
pub fn line_instant(line: &Vec<char>) -> (r: Option<i64>)
    ensures
        r is Some ==> words_spec(line@).len() >= 2,
{
    let words = words_of(line.as_slice());
    if words.len() < 2 {
        return None;
    }
    let zone = string_of(words[1].as_slice());
    let when = string_of(join_from_third(&words).as_slice());
    get_utc(zone.as_str(), when.as_str())
}

/// Whole minutes from `a` to `b` seconds, rounded toward zero.
pub open spec fn minutes_between(a: int, b: int) -> int {
    if b - a >= 0 {
        (b - a) / 60
    } else {
        -((a - b) / 60)
    }
}

/// Total of the minutes between departure and arrival of each journey.
pub open spec fn total_flight_minutes(journeys: Seq<(i64, i64)>) -> int
    decreases journeys.len(),
{
    if journeys.len() == 0 {
        0
    } else {
        total_flight_minutes(journeys.drop_last()) + minutes_between(
            journeys.last().0 as int,
            journeys.last().1 as int,
        )
    }
}

/// The total flight time in minutes of the journeys, each a departure and
/// an arrival in Unix seconds; `None` where the total leaves the `i64` range.
pub fn flight_minutes(journeys: &[(i64, i64)]) -> (r: Option<i64>)
    ensures
        r matches Some(m) ==> m == total_flight_minutes(journeys@),
        r is None ==> exists|k: int|
            0 <= k <= journeys@.len() && !(i64::MIN <= #[trigger] total_flight_minutes(
                journeys@.take(k),
            ) <= i64::MAX),
{
    let mut sum: i64 = 0;
    let mut i: usize = 0;
    assert(journeys@.take(0) =~= Seq::<(i64, i64)>::empty());
    while i < journeys.len()
        invariant
            i <= journeys@.len(),
            sum == total_flight_minutes(journeys@.take(i as int)),
        decreases journeys@.len() - i,
    {
        let (dep, arr) = journeys[i];
        assert(journeys@.take(i + 1).drop_last() =~= journeys@.take(i as int));
        let diff = (arr as i128) - (dep as i128);
        let minutes: i128 = if diff >= 0 {
            diff / 60
        } else {
            -((-diff) / 60)
        };
        let total = sum as i128 + minutes;
        if total < i64::MIN as i128 || total > i64::MAX as i128 {
            assert(total == total_flight_minutes(journeys@.take(i + 1)));
            return None;
        }
        sum = total as i64;
        i += 1;
    }
    assert(journeys@.take(i as int) =~= journeys@);
    Some(sum)
}

/// Reads the journeys: blocks of lines separated by blank lines, each with
/// a departure line and an arrival line first. `None` where a block has
/// fewer than two lines or a line does not give an instant.
pub fn parse(input: &str) -> (r: Option<Vec<(i64, i64)>>) {
    let cs = chars_of(input);
    let lines = lines_of(cs.as_slice());
    let mut journeys: Vec<(i64, i64)> = Vec::new();
    let mut block: Vec<i64> = Vec::new();
    let mut i: usize = 0;
    while i <= lines.len()
        invariant
            i <= lines@.len() + 1,
        decreases lines@.len() + 1 - i,
    {
        if i == lines.len() || lines[i].len() == 0 {
            if block.len() > 0 || i < lines.len() {
                if block.len() < 2 {
                    return None;
                }
                journeys.push((block[0], block[1]));
                block = Vec::new();
            }
        } else {
            let t = line_instant(&lines[i])?;
            block.push(t);
        }
        if i == lines.len() {
            break ;
        }
        i += 1;
    }
    Some(journeys)
}

/// The total flight time in minutes of the journeys in `input`.
pub fn solution(input: &str) -> (r: Option<i64>)
    ensures
        r matches Some(m) ==> exists|journeys: Seq<(i64, i64)>|
            m == #[trigger] total_flight_minutes(journeys),
{
    let journeys = parse(input)?;
    flight_minutes(journeys.as_slice())
}

} // verus!
