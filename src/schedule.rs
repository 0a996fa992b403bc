//! Opening hours of offices and support demand of customers, placed on the
//! UTC day.
//!
//! Resolving a civil time in a named zone is left to jiff; everything decided
//! from the resolved instants is verified here. Instants are nanoseconds since
//! the Unix epoch.
use crate::interval::{
    add_interval, canonical, complement, covers, invert_intervals, is_overlap, merge_all,
    overlap_minutes, proper, total_minutes, Interval, DAY, MINUTE,
};
use crate::text::{
    blank_at, chars_of, lines_of, lines_spec, rows, split_at_blank, split_on, split_spec, string_of,
};
use jiff::tz::TimeZone;
use vstd::prelude::*;

verus! {

#[verifier::external_type_specification]
#[verifier::external_body]
pub struct ExTimeZone(TimeZone);

/// Offices open at 08:30 local time.
pub const OPEN_HOUR: i8 = 8;

pub const OPEN_MINUTE: i8 = 30;

/// Offices close at 17:00 local time.
pub const CLOSE_HOUR: i8 = 17;

/// Instants farther than this from the epoch are not placed on a day.
pub const INSTANT_LIMIT: i128 = 1_000_000_000_000_000_000_000;

pub open spec fn is_leap_year(y: int) -> bool {
    (y % 4 == 0 && y % 100 != 0) || y % 400 == 0
}

pub open spec fn days_in_month(y: int, m: int) -> int {
    if m == 2 {
        if is_leap_year(y) {
            29
        } else {
            28
        }
    } else if m == 4 || m == 6 || m == 9 || m == 11 {
        30
    } else {
        31
    }
}

/// Days from 1970-01-01 to the civil date `year-month-day` of the proleptic
/// Gregorian calendar.
pub open spec fn days_from_civil(year: int, month: int, day: int) -> int {
    let y = if month <= 2 {
        year - 1
    } else {
        year
    };
    let era = y / 400;
    let yoe = y - era * 400;
    let mp = (month + 9) % 12;
    let doy = (153 * mp + 2) / 5 + day - 1;
    let doe = yoe * 365 + yoe / 4 - yoe / 100 + doy;
    era * 146097 + doe - 719468
}

/// ISO weekday of a civil date, Monday 1 to Sunday 7 (1970-01-01 was a Thursday).
pub open spec fn iso_weekday(year: int, month: int, day: int) -> int {
    (days_from_civil(year, month, day) + 3) % 7 + 1
}

/// The largest UTC offset that jiff admits, 25:59:59, in nanoseconds.
pub const MAX_OFFSET: i128 = 93_599_000_000_000;

/// Nanoseconds in one hour.
pub const HOUR: i128 = 3_600_000_000_000;

/// A civil calendar day.
#[derive(Clone, Copy, Debug, PartialEq, Eq, Structural)]
pub struct Date {
    pub year: i16,
    pub month: i8,
    pub day: i8,
}

impl Date {
    /// A day of the calendar from year -9999 to year 9999.
    pub open spec fn valid(self) -> bool {
        &&& -9999 <= self.year <= 9999
        &&& 1 <= self.month <= 12
        &&& 1 <= self.day <= days_in_month(self.year as int, self.month as int)
    }

    /// A valid day whose neighbours are valid too.
    pub open spec fn inner(self) -> bool {
        self.valid() && -9999 < self.year < 9999
    }

    pub open spec fn following(self) -> Date {
        if (self.day as int) < days_in_month(self.year as int, self.month as int) {
            Date { year: self.year, month: self.month, day: (self.day + 1) as i8 }
        } else if self.month < 12 {
            Date { year: self.year, month: (self.month + 1) as i8, day: 1 }
        } else {
            Date { year: (self.year + 1) as i16, month: 1, day: 1 }
        }
    }

    pub open spec fn preceding(self) -> Date {
        if self.day > 1 {
            Date { year: self.year, month: self.month, day: (self.day - 1) as i8 }
        } else if self.month > 1 {
            Date {
                year: self.year,
                month: (self.month - 1) as i8,
                day: days_in_month(self.year as int, self.month - 1) as i8,
            }
        } else {
            Date { year: (self.year - 1) as i16, month: 12, day: 31 }
        }
    }

    pub open spec fn weekday(self) -> int {
        iso_weekday(self.year as int, self.month as int, self.day as int)
    }

    /// The date with these fields, where it exists.
    pub fn new(year: i16, month: i8, day: i8) -> (r: Option<Date>)
        ensures
            r is Some <==> (Date { year, month, day }).valid(),
            r is Some ==> r->0 == (Date { year, month, day }),
    {
        if year < -9999 || year > 9999 || month < 1 || month > 12 || day < 1 {
            return None;
        }
        let leap = (year % 4 == 0 && year % 100 != 0) || year % 400 == 0;
        let last: i8 = if month == 2 {
            if leap {
                29
            } else {
                28
            }
        } else if month == 4 || month == 6 || month == 9 || month == 11 {
            30
        } else {
            31
        };
        if day > last {
            None
        } else {
            Some(Date { year, month, day })
        }
    }
}

/// Relies on jiff's `Date::tomorrow`: the next day of the Gregorian calendar.
#[verifier::external_body]
fn next_date(d: Date) -> (r: Date)
    requires
        d.valid(),
        d.year < 9999,
    ensures
        r == d.following(),
        r.valid(),
{
    let t = jiff::civil::date(d.year, d.month, d.day).tomorrow().unwrap();
    Date { year: t.year(), month: t.month(), day: t.day() }
}

/// Relies on jiff's `Date::yesterday`: the previous day of the Gregorian calendar.
#[verifier::external_body]
fn previous_date(d: Date) -> (r: Date)
    requires
        d.valid(),
        d.year > -9999,
    ensures
        r == d.preceding(),
        r.valid(),
{
    let y = jiff::civil::date(d.year, d.month, d.day).yesterday().unwrap();
    Date { year: y.year(), month: y.month(), day: y.day() }
}

/// Relies on jiff's `Date::weekday` and `Weekday::to_monday_one_offset`: the
/// ISO weekday, Monday 1 to Sunday 7.
#[verifier::external_body]
fn weekday_of(d: Date) -> (r: i8)
    requires
        d.valid(),
    ensures
        1 <= r <= 7,
        r == iso_weekday(d.year as int, d.month as int, d.day as int),
{
    jiff::civil::date(d.year, d.month, d.day).weekday().to_monday_one_offset()
}

/// The civil time `hour:minute` of day `d` read as UTC, in nanoseconds since
/// the Unix epoch.
pub open spec fn civil_ns(d: Date, hour: int, minute: int) -> int {
    days_from_civil(d.year as int, d.month as int, d.day as int) * DAY + hour * HOUR + minute
        * MINUTE
}

/// Relies on jiff's `DateTime::to_zoned` with `TimeZone::UTC` and
/// `Timestamp::as_nanosecond`: 00:00 of day `d` in UTC, which lies inside
/// jiff's range for every year strictly between -9999 and 9999.
#[verifier::external_body]
fn utc_midnight(d: Date) -> (r: i128)
    requires
        d.inner(),
    ensures
        r == civil_ns(d, 0, 0),
{
    let dt = jiff::civil::date(d.year, d.month, d.day).at(0, 0, 0, 0);
    dt.to_zoned(TimeZone::UTC).unwrap().timestamp().as_nanosecond()
}

/// Relies on jiff's `DateTime::to_zoned` and `Timestamp::as_nanosecond`: the
/// instant at which the civil time `hour:minute` of day `d` occurs in `tz`,
/// where jiff can place it. Which instant depends on the time zone database
/// at hand; it is the civil time less some offset, and jiff bounds every
/// offset by 25:59:59.
#[verifier::external_body]
fn zoned_instant(tz: &TimeZone, d: Date, hour: i8, minute: i8) -> (r: Option<i128>)
    requires
        d.valid(),
        0 <= hour < 24,
        0 <= minute < 60,
    ensures
        r matches Some(x) ==> civil_ns(d, hour as int, minute as int) - MAX_OFFSET <= x
            <= civil_ns(d, hour as int, minute as int) + MAX_OFFSET,
{
    let dt = jiff::civil::date(d.year, d.month, d.day).at(hour, minute, 0, 0);
    dt.to_zoned(tz.clone()).ok().map(|z| z.timestamp().as_nanosecond())
}

/// A place with a time zone and a list of holidays.
pub struct Location {
    pub timezone: TimeZone,
    pub holidays: Vec<Date>,
}

impl Location {
    /// A working day: no holiday, and Monday to Friday.
    pub open spec fn works_on(&self, d: Date) -> bool {
        !self.holidays@.contains(d) && 1 <= d.weekday() <= 5
    }
}

/// Whether `date` is among `dates`.
pub fn contains_date(dates: &[Date], date: Date) -> (r: bool)
    ensures
        r == dates@.contains(date),
{
    let mut i: usize = 0;
    while i < dates.len()
        invariant
            i <= dates.len(),
            forall|j: int| 0 <= j < i ==> dates@[j] != date,
        decreases dates.len() - i,
    {
        if dates[i] == date {
            return true;
        }
        i += 1;
    }
    false
}

/// Whether `location` works on `date`.
pub fn is_work_day(date: Date, location: &Location) -> (r: bool)
    requires
        date.valid(),
    ensures
        r == location.works_on(date),
{
    !contains_date(location.holidays.as_slice(), date) && weekday_of(date) <= 5
}

/// The instants that place a location's daily window around one UTC day.
#[derive(Clone, Copy, Debug, PartialEq, Eq, Structural)]
pub struct Frame {
    /// 00:00 UTC of the day.
    pub day_start: i128,
    /// The last instant of the day in UTC.
    pub day_end: i128,
    /// The end of the local window of the day before.
    pub yesterday_end: i128,
    /// The start of the local window of the day.
    pub today_start: i128,
    /// The end of the local window of the day.
    pub today_end: i128,
    /// The start of the local window of the day after.
    pub tomorrow_start: i128,
}

impl Frame {
    pub open spec fn bounded(self) -> bool {
        &&& -INSTANT_LIMIT <= self.day_start <= INSTANT_LIMIT
        &&& -INSTANT_LIMIT <= self.day_end <= INSTANT_LIMIT
        &&& -INSTANT_LIMIT <= self.yesterday_end <= INSTANT_LIMIT
        &&& -INSTANT_LIMIT <= self.today_start <= INSTANT_LIMIT
        &&& -INSTANT_LIMIT <= self.today_end <= INSTANT_LIMIT
        &&& -INSTANT_LIMIT <= self.tomorrow_start <= INSTANT_LIMIT
    }
}

/// The UTC time of day of instant `x`, on the day that starts at `day_start`.
pub open spec fn time_of(x: int, day_start: int) -> int {
    (x - day_start) % (DAY as int)
}

/// The interval from `start` to `end`, or nothing where that is empty.
pub open spec fn piece(start: int, end: int) -> Seq<Interval> {
    if start < end {
        seq![Interval { start: start as u64, end: end as u64 }]
    } else {
        Seq::empty()
    }
}

pub open spec fn gate(open: bool, s: Seq<Interval>) -> Seq<Interval> {
    if open {
        s
    } else {
        Seq::empty()
    }
}

/// The UTC intervals of the day in which an office with frame `f` is open,
/// given whether it works the day before, the day itself and the day after.
pub open spec fn office_window(f: Frame, before: bool, today: bool, after: bool) -> Seq<Interval> {
    let ds = f.day_start as int;
    if f.yesterday_end > f.day_start {
        gate(before, piece(0, time_of(f.yesterday_end as int, ds))) + gate(
            today,
            piece(time_of(f.today_start as int, ds), DAY as int),
        )
    } else if f.today_start < f.day_start {
        gate(today, piece(0, time_of(f.today_end as int, ds))) + gate(
            after,
            piece(time_of(f.tomorrow_start as int, ds), DAY as int),
        )
    } else {
        gate(
            today,
            piece(
                time_of(f.today_start as int, ds),
                if f.today_end < f.day_end {
                    time_of(f.today_end as int, ds)
                } else {
                    DAY as int
                },
            ),
        )
    }
}

/// The UTC intervals of the day that fall in a customer's local working days,
/// whose frame `f` spans whole local days.
pub open spec fn customer_window(f: Frame, before: bool, today: bool, after: bool) -> Seq<Interval> {
    let ds = f.day_start as int;
    gate(
        before && f.yesterday_end > f.day_start,
        piece(0, time_of(f.yesterday_end as int, ds)),
    ) + gate(
        today && f.today_start < f.day_end,
        piece(
            if f.today_start > f.day_start {
                time_of(f.today_start as int, ds)
            } else {
                0
            },
            if f.today_end < f.day_end {
                time_of(f.today_end as int, ds)
            } else {
                DAY as int
            },
        ),
    ) + gate(
        after && f.tomorrow_start < f.day_end,
        piece(time_of(f.tomorrow_start as int, ds), DAY as int),
    )
}

/// Each interval lies within the day and is not empty.
pub open spec fn day_pieces(s: Seq<Interval>) -> bool {
    forall|i: int| 0 <= i < s.len() ==> (#[trigger] s[i]).wf() && s[i].start < s[i].end
}

/// The UTC time of day of instant `x`.
fn clock(x: i128, day_start: i128) -> (r: u64)
    requires
        -INSTANT_LIMIT <= x <= INSTANT_LIMIT,
        -INSTANT_LIMIT <= day_start <= INSTANT_LIMIT,
    ensures
        r == time_of(x as int, day_start as int),
        r < DAY,
{
    let d: i128 = x - day_start;
    let day: i128 = DAY as i128;
    if d >= 0 {
        (d % day) as u64
    } else {
        let m: i128 = (-d) % day;
        if m == 0 {
            0
        } else {
            assert((d as int) % (DAY as int) == DAY - m) by (nonlinear_arith)
                requires
                    d < 0,
                    m == (-d) % (DAY as int),
                    m != 0,
            ;
            (day - m) as u64
        }
    }
}

/// Appends the interval from `start` to `end` where it is not empty.
fn push_piece(v: &mut Vec<Interval>, start: u64, end: u64)
    requires
        end <= DAY,
    ensures
        final(v)@ == old(v)@ + piece(start as int, end as int),
{
    if start < end {
        v.push(Interval { start, end });
    }
    assert(final(v)@ =~= old(v)@ + piece(start as int, end as int));
}

proof fn lemma_pieces_within_day(s: Seq<Interval>, a: int, b: int)
    requires
        day_pieces(s),
        0 <= a,
        b <= DAY,
    ensures
        day_pieces(s + piece(a, b)),
{
    let t = s + piece(a, b);
    assert forall|i: int| 0 <= i < t.len() implies (#[trigger] t[i]).wf() && t[i].start
        < t[i].end by {
        if i < s.len() {
            assert(t[i] == s[i]);
        }
    }
}

/// Places an office's opening hours on the UTC day of `f`: where the local
/// window of the day before reaches past 00:00 UTC, its tail and the head of
/// the day's own window; where the day's window starts before 00:00 UTC, its
/// tail and the head of the next day's window; else the day's window, cut at
/// the end of the UTC day. Each part only on a working day of its own.
pub fn work_window(f: Frame, before: bool, today: bool, after: bool) -> (r: Vec<Interval>)
    requires
        f.bounded(),
    ensures
        r@ == office_window(f, before, today, after),
        day_pieces(r@),
{
    let mut r: Vec<Interval> = Vec::new();
    let ds = f.day_start;
    if f.yesterday_end > ds {
        if before {
            push_piece(&mut r, 0, clock(f.yesterday_end, ds));
        }
        proof {
            lemma_pieces_within_day(Seq::empty(), 0, time_of(f.yesterday_end as int, ds as int));
        }
        let ghost first = r@;
        if today {
            push_piece(&mut r, clock(f.today_start, ds), DAY);
        }
        proof {
            lemma_pieces_within_day(first, time_of(f.today_start as int, ds as int), DAY as int);
        }
    } else if f.today_start < ds {
        if today {
            push_piece(&mut r, 0, clock(f.today_end, ds));
        }
        proof {
            lemma_pieces_within_day(Seq::empty(), 0, time_of(f.today_end as int, ds as int));
        }
        let ghost first = r@;
        if after {
            push_piece(&mut r, clock(f.tomorrow_start, ds), DAY);
        }
        proof {
            lemma_pieces_within_day(first, time_of(f.tomorrow_start as int, ds as int), DAY as int);
        }
    } else if today {
        let end = if f.today_end < f.day_end {
            clock(f.today_end, ds)
        } else {
            DAY
        };
        push_piece(&mut r, clock(f.today_start, ds), end);
        proof {
            lemma_pieces_within_day(Seq::empty(), time_of(f.today_start as int, ds as int), end as int);
        }
    }
    assert(r@ =~= office_window(f, before, today, after));
    r
}

/// Places a customer's working days on the UTC day of `f`: the part of the
/// day before, of the day itself and of the day after that falls within the
/// UTC day, each only where the customer works on it.
pub fn support_window(f: Frame, before: bool, today: bool, after: bool) -> (r: Vec<Interval>)
    requires
        f.bounded(),
    ensures
        r@ == customer_window(f, before, today, after),
        day_pieces(r@),
{
    let mut r: Vec<Interval> = Vec::new();
    let ds = f.day_start;
    if before && f.yesterday_end > ds {
        push_piece(&mut r, 0, clock(f.yesterday_end, ds));
    }
    proof {
        lemma_pieces_within_day(Seq::empty(), 0, time_of(f.yesterday_end as int, ds as int));
    }
    let ghost first = r@;
    if today && f.today_start < f.day_end {
        let start = if f.today_start > ds {
            clock(f.today_start, ds)
        } else {
            0
        };
        let end = if f.today_end < f.day_end {
            clock(f.today_end, ds)
        } else {
            DAY
        };
        push_piece(&mut r, start, end);
        proof {
            lemma_pieces_within_day(first, start as int, end as int);
        }
    }
    let ghost second = r@;
    if after && f.tomorrow_start < f.day_end {
        push_piece(&mut r, clock(f.tomorrow_start, ds), DAY);
    }
    proof {
        lemma_pieces_within_day(second, time_of(f.tomorrow_start as int, ds as int), DAY as int);
    }
    assert(r@ =~= customer_window(f, before, today, after));
    r
}

/// `x` is the civil time `civil` (read as UTC) less an offset that jiff admits.
pub open spec fn near(x: int, civil: int) -> bool {
    civil - MAX_OFFSET <= x <= civil + MAX_OFFSET
}

/// `f` spans the UTC day of `date`, from its 00:00 to its 24:00.
pub open spec fn utc_day(date: Date, f: Frame) -> bool {
    f.day_start == civil_ns(date, 0, 0) && f.day_end == f.day_start + DAY
}

/// `f` places an office's window, open from 08:30 to 17:00 local time,
/// around the UTC day of `date`: each instant is the civil time that jiff
/// was handed, less an offset within jiff's bound.
pub open spec fn office_frame(date: Date, f: Frame) -> bool {
    &&& f.bounded()
    &&& utc_day(date, f)
    &&& near(f.yesterday_end as int, civil_ns(date.preceding(), CLOSE_HOUR as int, 0))
    &&& near(f.today_start as int, civil_ns(date, OPEN_HOUR as int, OPEN_MINUTE as int))
    &&& near(f.today_end as int, civil_ns(date, CLOSE_HOUR as int, 0))
    &&& near(f.tomorrow_start as int, civil_ns(date.following(), OPEN_HOUR as int, OPEN_MINUTE as int))
}

/// `f` places a customer's whole local days around the UTC day of `date`:
/// the day before ends and the day starts at local midnight of `date`, the
/// day ends and the next starts at local midnight of the day after.
pub open spec fn customer_frame(date: Date, f: Frame) -> bool {
    &&& f.bounded()
    &&& utc_day(date, f)
    &&& f.today_start == f.yesterday_end
    &&& f.tomorrow_start == f.today_end
    &&& near(f.yesterday_end as int, civil_ns(date, 0, 0))
    &&& near(f.today_end as int, civil_ns(date.following(), 0, 0))
}

fn instant_at(tz: &TimeZone, d: Date, hour: i8, minute: i8) -> (r: Option<i128>)
    requires
        d.valid(),
        0 <= hour < 24,
        0 <= minute < 60,
    ensures
        r matches Some(x) ==> -INSTANT_LIMIT <= x <= INSTANT_LIMIT && near(
            x as int,
            civil_ns(d, hour as int, minute as int),
        ),
{
    match zoned_instant(tz, d, hour, minute) {
        Some(x) => if -INSTANT_LIMIT <= x && x <= INSTANT_LIMIT {
            Some(x)
        } else {
            None
        },
        None => None,
    }
}

/// 00:00 and 24:00 UTC of `date`; `None` where they lie beyond the instants
/// that are placed on a day.
fn utc_bounds(date: Date) -> (r: Option<(i128, i128)>)
    requires
        date.inner(),
    ensures
        r matches Some((a, b)) ==> a == civil_ns(date, 0, 0) && b == a + DAY && -INSTANT_LIMIT
            <= a && b <= INSTANT_LIMIT,
{
    let a = utc_midnight(date);
    if a < -INSTANT_LIMIT || a > INSTANT_LIMIT - DAY as i128 {
        return None;
    }
    Some((a, a + DAY as i128))
}

/// Resolves the frame of an office's opening hours around `date` in `tz`.
fn office_frame_in(date: Date, tz: &TimeZone) -> (r: Option<Frame>)
    requires
        date.inner(),
    ensures
        r matches Some(f) ==> office_frame(date, f),
{
    let (day_start, day_end) = utc_bounds(date)?;
    let yesterday_end = instant_at(tz, previous_date(date), CLOSE_HOUR, 0)?;
    let today_start = instant_at(tz, date, OPEN_HOUR, OPEN_MINUTE)?;
    let today_end = instant_at(tz, date, CLOSE_HOUR, 0)?;
    let tomorrow_start = instant_at(tz, next_date(date), OPEN_HOUR, OPEN_MINUTE)?;
    Some(Frame { day_start, day_end, yesterday_end, today_start, today_end, tomorrow_start })
}

/// Resolves the frame of a customer's local days around `date` in `tz`.
fn customer_frame_in(date: Date, tz: &TimeZone) -> (r: Option<Frame>)
    requires
        date.inner(),
    ensures
        r matches Some(f) ==> customer_frame(date, f),
{
    let (day_start, day_end) = utc_bounds(date)?;
    let midnight = instant_at(tz, date, 0, 0)?;
    let next_midnight = instant_at(tz, next_date(date), 0, 0)?;
    Some(
        Frame {
            day_start,
            day_end,
            yesterday_end: midnight,
            today_start: midnight,
            today_end: next_midnight,
            tomorrow_start: next_midnight,
        },
    )
}

/// The UTC intervals of `date` in which the office at `location` is open;
/// `None` where jiff cannot place one of its instants.
pub fn location_work_intervals(date: Date, location: &Location) -> (r: Option<Vec<Interval>>)
    requires
        date.inner(),
    ensures
        r matches Some(v) ==> day_pieces(v@) && office_placing(date, location, v@),
{
    let f = office_frame_in(date, &location.timezone)?;
    let before = is_work_day(previous_date(date), location);
    let today = is_work_day(date, location);
    let after = is_work_day(next_date(date), location);
    Some(work_window(f, before, today, after))
}

/// `support` is the canonical list of the UTC time of `date` that falls in
/// working days of the customer at `customer`, for some resolution of its
/// local midnights.
pub open spec fn support_of(date: Date, customer: &Location, f: Frame, support: Seq<Interval>) -> bool {
    &&& customer_frame(date, f)
    &&& canonical(support)
    &&& proper(support)
    &&& forall|x: int|
        covers(support, x) <==> covers(
            customer_window(
                f,
                customer.works_on(date.preceding()),
                customer.works_on(date),
                customer.works_on(date.following()),
            ),
            x,
        )
}

/// The customer's working time placed by `f`, merged into a canonical list.
pub fn support_intervals(f: Frame, before: bool, today: bool, after: bool) -> (r: Vec<Interval>)
    requires
        f.bounded(),
    ensures
        canonical(r@),
        proper(r@),
        forall|x: int| covers(r@, x) <==> covers(customer_window(f, before, today, after), x),
{
    let pieces = support_window(f, before, today, after);
    merge_all(pieces.as_slice())
}

/// The UTC intervals of `date` that fall in working days of the customer at
/// `customer`, merged into a canonical list; `None` where jiff cannot place
/// one of its instants.
pub fn customer_support_intervals(date: Date, customer: &Location) -> (r: Option<Vec<Interval>>)
    requires
        date.inner(),
    ensures
        r matches Some(v) ==> exists|f: Frame| #[trigger] support_of(date, customer, f, v@),
{
    let f = customer_frame_in(date, &customer.timezone)?;
    let before = is_work_day(previous_date(date), customer);
    let today = is_work_day(date, customer);
    let after = is_work_day(next_date(date), customer);
    let v = support_intervals(f, before, today, after);
    assert(support_of(date, customer, f, v@));
    let ghost vv = v@;
    let r = Some(v);
    assert(r->0@ == vv);
    assert(support_of(date, customer, f, r->0@));
    r
}

/// `w` is a placing of the opening hours of the office at `location` on
/// the UTC day of `date`, for some resolution of its instants.
pub open spec fn office_placing(date: Date, location: &Location, w: Seq<Interval>) -> bool {
    exists|f: Frame|
        #[trigger] office_frame(date, f) && w == office_window(
            f,
            location.works_on(date.preceding()),
            location.works_on(date),
            location.works_on(date.following()),
        )
}

/// Some window among the first `n` holds `x`.
pub open spec fn covered_by_some(windows: Seq<Seq<Interval>>, n: int, x: int) -> bool {
    exists|k: int| 0 <= k < n && covers(#[trigger] windows[k], x)
}

/// `windows` places the opening hours of each of `offices` on the UTC day of `date`.
pub open spec fn placings(date: Date, offices: Seq<Location>, windows: Seq<Seq<Interval>>) -> bool {
    windows.len() == offices.len() && forall|k: int|
        0 <= k < offices.len() ==> office_placing(date, &offices[k], #[trigger] windows[k])
}

/// `open` is the canonical union of a placing of the windows of `offices`
/// on the UTC day of `date`.
pub open spec fn combined_placing(date: Date, offices: Seq<Location>, open: Seq<Interval>) -> bool {
    &&& canonical(open)
    &&& proper(open)
    &&& exists|windows: Seq<Seq<Interval>>|
        #[trigger] placings(date, offices, windows) && forall|x: int|
            covers(open, x) <==> covered_by_some(windows, offices.len() as int, x)
}

/// The UTC intervals of `date` in which at least one of `offices` is open:
/// the merged union of the window of each office. With no office there is
/// nothing to resolve, and the list is empty.
pub fn combined_work_intervals(date: Date, offices: &[Location]) -> (r: Option<Vec<Interval>>)
    requires
        date.inner(),
    ensures
        r matches Some(v) ==> combined_placing(date, offices@, v@),
        offices@.len() == 0 ==> r is Some && r->0@.len() == 0,
{
    let mut intervals: Vec<Interval> = Vec::new();
    let ghost mut windows: Seq<Seq<Interval>> = Seq::empty();
    let mut i: usize = 0;
    while i < offices.len()
        invariant
            date.inner(),
            i <= offices.len(),
            canonical(intervals@),
            proper(intervals@),
            i == 0 ==> intervals@.len() == 0,
            windows.len() == i,
            forall|k: int| 0 <= k < i ==> office_placing(date, &offices@[k], #[trigger] windows[k]),
            forall|x: int| covers(intervals@, x) <==> covered_by_some(windows, i as int, x),
        decreases offices.len() - i,
    {
        let pieces = location_work_intervals(date, &offices[i])?;
        let ghost before = windows;
        let mut j: usize = 0;
        while j < pieces.len()
            invariant
                day_pieces(pieces@),
                j <= pieces.len(),
                canonical(intervals@),
                proper(intervals@),
                forall|x: int|
                    covers(intervals@, x) <==> (covered_by_some(before, i as int, x) || covers(
                        pieces@.take(j as int),
                        x,
                    )),
            decreases pieces.len() - j,
        {
            assert(pieces@[j as int].wf());
            add_interval(&mut intervals, pieces[j]);
            proof {
                assert forall|x: int|
                    covers(intervals@, x) <==> (covered_by_some(before, i as int, x) || covers(
                        pieces@.take(j + 1),
                        x,
                    )) by {
                    assert(pieces@.take(j + 1) =~= pieces@.take(j as int) + seq![pieces@[j as int]]);
                    crate::interval::lemma_covers_append(
                        pieces@.take(j as int),
                        seq![pieces@[j as int]],
                        x,
                    );
                    crate::interval::lemma_covers_single(pieces@[j as int], x);
                }
            }
            j += 1;
        }
        proof {
            assert(pieces@.take(j as int) =~= pieces@);
            windows = before.push(pieces@);
            assert forall|k: int| 0 <= k < i + 1 implies office_placing(
                date,
                &offices@[k],
                #[trigger] windows[k],
            ) by {
                if k < i {
                    assert(windows[k] == before[k]);
                }
            }
            assert forall|x: int| covers(intervals@, x) <==> covered_by_some(windows, i + 1, x) by {
                if covered_by_some(before, i as int, x) {
                    let k = choose|k: int| 0 <= k < i && covers(#[trigger] before[k], x);
                    assert(windows[k] == before[k]);
                }
                if covered_by_some(windows, i + 1, x) {
                    let k = choose|k: int| 0 <= k < i + 1 && covers(#[trigger] windows[k], x);
                    if k < i {
                        assert(windows[k] == before[k]);
                    }
                }
                if covers(pieces@, x) {
                    assert(windows[i as int] == pieces@);
                }
            }
        }
        i += 1;
    }
    assert(placings(date, offices@, windows));
    Some(intervals)
}

/// `m` is the number of minutes of `date` in which the customer at
/// `customer` works and the canonical list `gaps` holds no office open.
pub open spec fn customer_overtime(date: Date, gaps: Seq<Interval>, customer: &Location, m: u64) -> bool {
    exists|f: Frame, support: Seq<Interval>, o: Seq<Interval>|
        #![trigger support_of(date, customer, f, support), is_overlap(gaps, support, o)]
        support_of(date, customer, f, support) && is_overlap(gaps, support, o) && m
            == total_minutes(o)
}

/// The minutes of `date` in which the customer at `customer` works and every
/// office is closed, given the canonical list `work_gaps` of times with no
/// office open.
pub fn overtime_minutes(date: Date, work_gaps: &[Interval], customer: &Location) -> (r: Option<u64>)
    requires
        date.inner(),
        canonical(work_gaps@),
    ensures
        r matches Some(m) ==> m <= DAY && customer_overtime(date, work_gaps@, customer, m),
{
    let support = customer_support_intervals(date, customer)?;
    let m = overlap_minutes(work_gaps, support.as_slice());
    Some(m)
}

/// Failures to read the offices and customers or to place them in time.
#[derive(Clone, Copy, Debug, PartialEq, Eq, Structural)]
pub enum ScheduleError {
    /// No blank line separates offices from customers.
    MissingBlankLine,
    /// A record has no time zone field.
    MissingTimezone,
    /// A time zone name that the database does not know.
    UnknownZone,
    /// A record has no holiday field.
    MissingHolidays,
    /// A holiday that is not a date of the form "1 January 2022".
    InvalidDate,
    /// There are no customers to compare.
    NoCustomers,
    /// A day that the calendar or the time zone database cannot place.
    OutOfRange,
}

/// Relies on jiff's `TimeZone::get`: looks a zone up by its name in the time
/// zone database at hand.
#[verifier::external_body]
fn zone_named(name: &str) -> Option<TimeZone> {
    TimeZone::get(name).ok()
}

/// What jiff's `Date::strptime` reads from `text` in `format`: year, month
/// and day, or `None` where the text does not match.
pub uninterp spec fn strptime_date(format: Seq<char>, text: Seq<char>) -> Option<(int, int, int)>;

/// The holidays of a record, `;`-separated pieces of its third field, each
/// read in this format.
pub open spec fn holiday_format() -> Seq<char> {
    "%d %B %Y"@
}

/// `l` is what a record `s` reads as: its holidays are the dates that the
/// `;`-separated pieces of its third field give, in order.
pub open spec fn record_of(s: Seq<char>, l: Location) -> bool {
    let fields = split_spec(s, '\t');
    &&& fields.len() >= 3
    &&& l.holidays@.len() == split_spec(fields[2], ';').len()
    &&& forall|i: int|
        0 <= i < l.holidays@.len() ==> (#[trigger] l.holidays@[i]).valid() && strptime_date(
            holiday_format(),
            split_spec(fields[2], ';')[i],
        ) == Some((l.holidays@[i].year as int, l.holidays@[i].month as int, l.holidays@[i].day as int))
}

/// Relies on jiff's `Date::strptime`: reads a date from `text` in `format`;
/// a date of jiff lies in years -9999 to 9999.
#[verifier::external_body]
fn date_from_format(format: &str, text: &str) -> (r: Option<Date>)
    ensures
        r matches Some(d) ==> d.valid() && strptime_date(format@, text@) == Some(
            (d.year as int, d.month as int, d.day as int),
        ),
        r is None ==> strptime_date(format@, text@) is None,
{
    jiff::civil::Date::strptime(format, text).ok().map(
        |d| Date { year: d.year(), month: d.month(), day: d.day() },
    )
}

impl Location {
    /// Reads a record: tab-separated name, time zone name and a `;`-separated
    /// list of holidays, each written as "1 January 2022".
    pub fn from_str(s: &str) -> (r: Result<Location, ScheduleError>)
        ensures
            r == Err::<Location, ScheduleError>(ScheduleError::MissingTimezone) <==> split_spec(
                s@,
                '\t',
            ).len() < 2,
            r == Err::<Location, ScheduleError>(ScheduleError::MissingHolidays) ==> split_spec(
                s@,
                '\t',
            ).len() == 2,
            r == Err::<Location, ScheduleError>(ScheduleError::InvalidDate) ==> split_spec(
                s@,
                '\t',
            ).len() >= 3 && exists|i: int|
                0 <= i < split_spec(split_spec(s@, '\t')[2], ';').len() && strptime_date(
                    holiday_format(),
                    #[trigger] split_spec(split_spec(s@, '\t')[2], ';')[i],
                ) is None,
            r is Err ==> r->Err_0 == ScheduleError::MissingTimezone || r->Err_0
                == ScheduleError::UnknownZone || r->Err_0 == ScheduleError::MissingHolidays
                || r->Err_0 == ScheduleError::InvalidDate,
            r matches Ok(l) ==> record_of(s@, l),
    {
        let cs = chars_of(s);
        let fields = split_on(cs.as_slice(), '\t');
        if fields.len() < 2 {
            return Err(ScheduleError::MissingTimezone);
        }
        assert(fields@[1]@ == split_spec(s@, '\t')[1]);
        let name = string_of(fields[1].as_slice());
        let timezone = match zone_named(name.as_str()) {
            Some(tz) => tz,
            None => return Err(ScheduleError::UnknownZone),
        };
        if fields.len() < 3 {
            return Err(ScheduleError::MissingHolidays);
        }
        assert(fields@[2]@ == split_spec(s@, '\t')[2]);
        let dates = split_on(fields[2].as_slice(), ';');
        assert(rows(dates@).len() == dates@.len());
        let mut holidays: Vec<Date> = Vec::new();
        let mut i: usize = 0;
        while i < dates.len()
            invariant
                i <= dates.len(),
                split_spec(s@, '\t').len() >= 3,
                dates@.len() == split_spec(split_spec(s@, '\t')[2], ';').len(),
                rows(dates@) == split_spec(split_spec(s@, '\t')[2], ';'),
                holidays@.len() == i,
                forall|j: int|
                    0 <= j < i ==> (#[trigger] holidays@[j]).valid() && strptime_date(
                        holiday_format(),
                        split_spec(split_spec(s@, '\t')[2], ';')[j],
                    ) == Some(
                        (holidays@[j].year as int, holidays@[j].month as int, holidays@[j].day as int),
                    ),
            decreases dates.len() - i,
        {
            let text = string_of(dates[i].as_slice());
            assert(text@ == split_spec(split_spec(s@, '\t')[2], ';')[i as int]);
            match date_from_format("%d %B %Y", text.as_str()) {
                Some(d) => holidays.push(d),
                None => return Err(ScheduleError::InvalidDate),
            }
            i += 1;
        }
        let l = Location { timezone, holidays };
        assert(record_of(s@, l));
        Ok(l)
    }
}

/// `offices` and `customers` are what `input` reads as: the records before
/// its first blank line and the records after it, one per line.
pub open spec fn parsed(input: Seq<char>, offices: Seq<Location>, customers: Seq<Location>) -> bool {
    exists|i: int|
        #[trigger] blank_at(input, i) && (forall|j: int| 0 <= j < i ==> !blank_at(input, j))
            && offices.len() == lines_spec(input.take(i)).len() && customers.len() == lines_spec(
            input.skip(i + 2),
        ).len() && (forall|k: int|
            0 <= k < offices.len() ==> record_of(lines_spec(input.take(i))[k], #[trigger] offices[k]))
            && forall|k: int|
            0 <= k < customers.len() ==> record_of(
                lines_spec(input.skip(i + 2))[k],
                #[trigger] customers[k],
            )
}

/// Reads the offices, one per line, up to the first blank line, and the
/// customers after it.
pub fn parse(input: &str) -> (r: Result<(Vec<Location>, Vec<Location>), ScheduleError>)
    ensures
        r == Err::<(Vec<Location>, Vec<Location>), ScheduleError>(ScheduleError::MissingBlankLine)
            <==> !exists|i: int| blank_at(input@, i),
        r matches Ok((offices, customers)) ==> parsed(input@, offices@, customers@),
{
    let cs = chars_of(input);
    let (head, tail) = match split_at_blank(cs.as_slice()) {
        Some(parts) => parts,
        None => return Err(ScheduleError::MissingBlankLine),
    };
    let office_lines = lines_of(head.as_slice());
    let customer_lines = lines_of(tail.as_slice());
    let offices = read_records(&office_lines)?;
    let customers = read_records(&customer_lines)?;
    Ok((offices, customers))
}

/// Reads one location from each line.
fn read_records(lines: &Vec<Vec<char>>) -> (r: Result<Vec<Location>, ScheduleError>)
    ensures
        r matches Ok(v) ==> v@.len() == lines@.len() && forall|k: int|
            0 <= k < v@.len() ==> record_of(rows(lines@)[k], #[trigger] v@[k]),
        r is Err ==> r->Err_0 != ScheduleError::MissingBlankLine,
{
    let mut v: Vec<Location> = Vec::new();
    let mut i: usize = 0;
    while i < lines.len()
        invariant
            i <= lines.len(),
            v@.len() == i,
            forall|k: int| 0 <= k < i ==> record_of(rows(lines@)[k], #[trigger] v@[k]),
        decreases lines.len() - i,
    {
        let text = string_of(lines[i].as_slice());
        let l = Location::from_str(text.as_str())?;
        assert(rows(lines@)[i as int] == text@);
        v.push(l);
        i += 1;
    }
    Ok(v)
}

/// The largest of the totals.
pub open spec fn max_of(s: Seq<u64>) -> int
    decreases s.len(),
{
    if s.len() == 0 {
        0
    } else if s.len() == 1 {
        s[0] as int
    } else {
        let m = max_of(s.drop_last());
        if s.last() > m {
            s.last() as int
        } else {
            m
        }
    }
}

/// The smallest of the totals.
pub open spec fn min_of(s: Seq<u64>) -> int
    decreases s.len(),
{
    if s.len() == 0 {
        0
    } else if s.len() == 1 {
        s[0] as int
    } else {
        let m = min_of(s.drop_last());
        if s.last() < m {
            s.last() as int
        } else {
            m
        }
    }
}

proof fn lemma_min_le_max(s: Seq<u64>)
    requires
        s.len() > 0,
    ensures
        min_of(s) <= max_of(s),
        exists|i: int| 0 <= i < s.len() && s[i] == max_of(s),
        exists|i: int| 0 <= i < s.len() && s[i] == min_of(s),
    decreases s.len(),
{
    if s.len() > 1 {
        lemma_min_le_max(s.drop_last());
        let i = choose|i: int| 0 <= i < s.drop_last().len() && s.drop_last()[i] == max_of(s.drop_last());
        let j = choose|j: int| 0 <= j < s.drop_last().len() && s.drop_last()[j] == min_of(s.drop_last());
        assert(s[i] == s.drop_last()[i]);
        assert(s[j] == s.drop_last()[j]);
    } else {
        assert(s[0] == max_of(s));
    }
}

/// The difference between the largest and the smallest of `totals`.
pub fn spread(totals: &[u64]) -> (r: u64)
    requires
        totals@.len() > 0,
    ensures
        r == max_of(totals@) - min_of(totals@),
{
    let mut hi = totals[0];
    let mut lo = totals[0];
    let mut i: usize = 1;
    while i < totals.len()
        invariant
            1 <= i <= totals@.len(),
            hi == max_of(totals@.take(i as int)),
            lo == min_of(totals@.take(i as int)),
        decreases totals@.len() - i,
    {
        assert(totals@.take(i + 1).drop_last() =~= totals@.take(i as int));
        if totals[i] > hi {
            hi = totals[i];
        }
        if totals[i] < lo {
            lo = totals[i];
        }
        i += 1;
    }
    assert(totals@.take(i as int) =~= totals@);
    proof {
        lemma_min_le_max(totals@);
    }
    hi - lo
}

/// Days after which the totals could no longer be held.
pub const MAX_DAYS: u32 = 200_000;

/// The day `d` days after `first`.
pub open spec fn nth_day(first: Date, d: nat) -> Date
    decreases d,
{
    if d == 0 {
        first
    } else {
        nth_day(first, (d - 1) as nat).following()
    }
}

/// `row` holds, for each customer, the overtime minutes of `date` against
/// the gaps left by some placing of the offices' windows.
pub open spec fn day_row(date: Date, offices: Seq<Location>, customers: Seq<Location>, row: Seq<u64>) -> bool {
    &&& row.len() == customers.len()
    &&& exists|open: Seq<Interval>|
        #[trigger] combined_placing(date, offices, open) && forall|j: int|
            0 <= j < customers.len() ==> customer_overtime(
                date,
                complement(open),
                &customers[j],
                #[trigger] row[j],
            )
}

/// The sum of column `j` over the first `n` rows of `m`.
pub open spec fn column_sum(m: Seq<Seq<u64>>, j: int, n: int) -> int
    decreases n,
{
    if n <= 0 {
        0
    } else {
        column_sum(m, j, n - 1) + m[n - 1][j]
    }
}

/// `totals` sums, for each customer, the overtime minutes of `days`
/// consecutive days from `first`.
pub open spec fn year_totals(
    first: Date,
    days: nat,
    offices: Seq<Location>,
    customers: Seq<Location>,
    totals: Seq<u64>,
) -> bool {
    exists|m: Seq<Seq<u64>>|
        #![trigger m.len(), column_sum(m, 0, 0)]
        m.len() == days && (forall|d: int|
            0 <= d < days ==> day_row(nth_day(first, d as nat), offices, customers, #[trigger] m[d]))
            && totals.len() == customers.len() && forall|j: int|
            0 <= j < customers.len() ==> #[trigger] totals[j] == column_sum(m, j, days as int)
}

proof fn lemma_column_sum_push(m: Seq<Seq<u64>>, row: Seq<u64>, j: int, n: int)
    requires
        n <= m.len(),
    ensures
        column_sum(m.push(row), j, n) == column_sum(m, j, n),
    decreases n,
{
    if n > 0 {
        lemma_column_sum_push(m, row, j, n - 1);
        assert(m.push(row)[n - 1] == m[n - 1]);
    }
}

/// For `days` days from `first`, the minutes in which each customer works
/// while every office is closed; `None` where a day cannot be placed. With
/// no day to count, or no office and no customer, nothing is resolved and
/// the totals come back.
pub fn customer_overtimes(offices: &[Location], customers: &[Location], first: Date, days: u32) -> (r:
    Option<Vec<u64>>)
    requires
        first.valid(),
        days <= MAX_DAYS,
    ensures
        r matches Some(v) ==> year_totals(first, days as nat, offices@, customers@, v@),
        days == 0 ==> r is Some,
        offices@.len() == 0 && customers@.len() == 0 && (forall|d: int|
            0 <= d < days ==> (#[trigger] nth_day(first, d as nat)).inner()) ==> r is Some,
{
    let mut totals: Vec<u64> = Vec::new();
    let mut c: usize = 0;
    while c < customers.len()
        invariant
            c <= customers@.len(),
            totals@.len() == c,
            forall|j: int| 0 <= j < c ==> totals@[j] == 0,
        decreases customers@.len() - c,
    {
        totals.push(0);
        c += 1;
    }
    let ghost mut rows: Seq<Seq<u64>> = Seq::empty();
    let mut date = first;
    let mut d: u32 = 0;
    while d < days
        invariant
            date.valid(),
            date == nth_day(first, d as nat),
            d <= days <= MAX_DAYS,
            totals@.len() == customers@.len(),
            rows.len() == d,
            forall|k: int|
                0 <= k < d ==> day_row(nth_day(first, k as nat), offices@, customers@, #[trigger] rows[k]),
            forall|j: int| 0 <= j < totals@.len() ==> totals@[j] == column_sum(rows, j, d as int),
            forall|j: int| 0 <= j < totals@.len() ==> totals@[j] <= d * DAY,
        decreases days - d,
    {
        if date.year <= -9999 || date.year >= 9999 {
            let ghost di: int = d as int;
            assert(!nth_day(first, di as nat).inner());
            return None;
        }
        let open = combined_work_intervals(date, offices)?;
        let gaps = invert_intervals(open.as_slice());
        let ghost mut row: Seq<u64> = Seq::empty();
        let mut i: usize = 0;
        while i < customers.len()
            invariant
                date.inner(),
                canonical(gaps@),
                gaps@ == complement(open@),
                d < days <= MAX_DAYS,
                i <= customers@.len(),
                totals@.len() == customers@.len(),
                row.len() == i,
                forall|j: int|
                    0 <= j < i ==> customer_overtime(date, gaps@, &customers@[j], #[trigger] row[j]),
                forall|j: int|
                    0 <= j < i ==> totals@[j] == column_sum(rows, j, d as int) + #[trigger] row[j],
                forall|j: int|
                    i <= j < totals@.len() ==> #[trigger] totals@[j] == column_sum(rows, j, d as int),
                forall|j: int| 0 <= j < i ==> totals@[j] <= (d + 1) * DAY,
                forall|j: int| i <= j < totals@.len() ==> totals@[j] <= d * DAY,
            decreases customers@.len() - i,
        {
            let m = overtime_minutes(date, gaps.as_slice(), &customers[i])?;
            assert((d + 1) * DAY <= MAX_DAYS * DAY) by (nonlinear_arith)
                requires
                    d + 1 <= MAX_DAYS,
            ;
            let t = totals[i] + m;
            totals.set(i, t);
            proof {
                row = row.push(m);
            }
            i += 1;
        }
        proof {
            assert(day_row(date, offices@, customers@, row));
            let new_rows = rows.push(row);
            assert forall|j: int| 0 <= j < totals@.len() implies totals@[j] == column_sum(
                new_rows,
                j,
                d + 1,
            ) by {
                lemma_column_sum_push(rows, row, j, d as int);
                assert(new_rows[d as int] == row);
            }
            assert forall|k: int| 0 <= k < d + 1 implies day_row(
                nth_day(first, k as nat),
                offices@,
                customers@,
                #[trigger] new_rows[k],
            ) by {
                if k < d {
                    assert(new_rows[k] == rows[k]);
                } else {
                    assert(new_rows[k] == row);
                }
            }
            rows = new_rows;
        }
        assert forall|j: int| 0 <= j < totals@.len() implies totals@[j] <= (d + 1) * DAY by {}
        date = next_date(date);
        d += 1;
    }
    assert(year_totals(first, days as nat, offices@, customers@, totals@)) by {
        assert(column_sum(rows, 0, 0) == 0);
    }
    Some(totals)
}

/// The first day that `solution` counts.
pub const FIRST_YEAR: i16 = 2022;

/// The number of days that `solution` counts.
pub const YEAR_DAYS: u32 = 365;

/// Reads offices and customers, counts for each customer the minutes of 2022
/// in which it works and no office is open, and returns the difference
/// between the largest and the smallest count.
pub fn solution(input: &str) -> (r: Result<u64, ScheduleError>)
    ensures
        r == Err::<u64, ScheduleError>(ScheduleError::MissingBlankLine) <==> !exists|i: int|
            blank_at(input@, i),
        r matches Ok(m) ==> exists|offices: Seq<Location>, customers: Seq<Location>, totals: Seq<u64>|
            #![trigger parsed(input@, offices, customers), max_of(totals)]
            parsed(input@, offices, customers) && customers.len() > 0 && year_totals(
                Date { year: FIRST_YEAR, month: 1, day: 1 },
                YEAR_DAYS as nat,
                offices,
                customers,
                totals,
            ) && m == max_of(totals) - min_of(totals),
{
    let (offices, customers) = parse(input)?;
    if customers.len() == 0 {
        return Err(ScheduleError::NoCustomers);
    }
    let first = Date { year: FIRST_YEAR, month: 1, day: 1 };
    match customer_overtimes(offices.as_slice(), customers.as_slice(), first, YEAR_DAYS) {
        Some(totals) => {
            let r = spread(totals.as_slice());
            assert(parsed(input@, offices@, customers@));
            Ok(r)
        },
        None => Err(ScheduleError::OutOfRange),
    }
}

} // verus!
