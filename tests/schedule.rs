use i18n_puzzles::interval::{Interval, DAY};
use i18n_puzzles::schedule::{
    customer_support_intervals, is_work_day, location_work_intervals, overtime_minutes, parse,
    solution, spread, work_window, Date, Frame, Location, ScheduleError,
};
use jiff::tz::TimeZone;

const HOUR: u64 = 3_600_000_000_000;
const MIN: u64 = 60_000_000_000;
const HOUR_I: i128 = 3_600_000_000_000;

fn hm(h: u64, m: u64) -> u64 {
    h * HOUR + m * MIN
}

fn utc_customer() -> Location {
    Location { timezone: TimeZone::get("UTC").unwrap(), holidays: vec![] }
}

#[test]
fn test_overtime_minutes() {
    let date = Date::new(2022, 1, 4).unwrap();
    let customer = utc_customer();
    let work_gaps = vec![
        Interval::new(hm(3, 0), hm(7, 30)),
        Interval::new(hm(8, 0), hm(9, 45)),
        Interval::new(hm(20, 0), hm(22, 15)),
    ];
    assert_eq!(overtime_minutes(date, &work_gaps, &customer), Some(510));
}

#[test]
fn weekend_and_holiday_are_not_work_days() {
    let mut office = utc_customer();
    office.holidays.push(Date::new(2022, 1, 4).unwrap());
    assert!(is_work_day(Date::new(2022, 1, 3).unwrap(), &office));
    assert!(!is_work_day(Date::new(2022, 1, 4).unwrap(), &office));
    assert!(!is_work_day(Date::new(2022, 1, 1).unwrap(), &office));
    assert!(!is_work_day(Date::new(2022, 1, 2).unwrap(), &office));
}

#[test]
fn utc_office_window() {
    let office = utc_customer();
    let monday = Date::new(2022, 1, 3).unwrap();
    assert_eq!(
        location_work_intervals(monday, &office),
        Some(vec![Interval::new(hm(8, 30), hm(17, 0))])
    );
    let saturday = Date::new(2022, 1, 1).unwrap();
    assert_eq!(location_work_intervals(saturday, &office), Some(vec![]));
}

#[test]
fn far_west_office_spills_into_next_utc_day() {
    // Honolulu is ten hours behind UTC: 08:30-17:00 local is 18:30-03:00 UTC.
    let office = Location { timezone: TimeZone::get("Pacific/Honolulu").unwrap(), holidays: vec![] };
    let tuesday = Date::new(2022, 1, 4).unwrap();
    assert_eq!(
        location_work_intervals(tuesday, &office),
        Some(vec![Interval::new(0, hm(3, 0)), Interval::new(hm(18, 30), DAY)])
    );
}

#[test]
fn far_east_office_starts_on_previous_utc_day() {
    // Auckland is thirteen hours ahead of UTC in January.
    let office = Location { timezone: TimeZone::get("Pacific/Auckland").unwrap(), holidays: vec![] };
    let tuesday = Date::new(2022, 1, 4).unwrap();
    assert_eq!(
        location_work_intervals(tuesday, &office),
        Some(vec![Interval::new(0, hm(4, 0)), Interval::new(hm(19, 30), DAY)])
    );
}

#[test]
fn customer_in_tokyo_spans_two_local_days() {
    let customer = Location { timezone: TimeZone::get("Asia/Tokyo").unwrap(), holidays: vec![] };
    let tuesday = Date::new(2022, 1, 4).unwrap();
    assert_eq!(
        customer_support_intervals(tuesday, &customer),
        Some(vec![Interval::new(0, DAY)])
    );
    // Working Friday but not Saturday: only Friday's local day, 00:00 to 15:00 UTC.
    let friday = Date::new(2022, 1, 7).unwrap();
    assert_eq!(
        customer_support_intervals(friday, &customer),
        Some(vec![Interval::new(0, hm(15, 0))])
    );
}

#[test]
fn work_window_small_offset_is_clipped_to_day() {
    let ds: i128 = 0;
    let f = Frame {
        day_start: ds,
        day_end: 24 * HOUR_I - 1,
        yesterday_end: ds - 7 * HOUR_I,
        today_start: 20 * HOUR_I,
        today_end: 28 * HOUR_I,
        tomorrow_start: 44 * HOUR_I,
    };
    assert_eq!(work_window(f, true, true, true), vec![Interval::new(20 * HOUR, DAY)]);
    assert_eq!(work_window(f, true, false, true), vec![]);
}

#[test]
fn spread_is_max_minus_min() {
    assert_eq!(spread(&[5, 9, 2, 7]), 7);
    assert_eq!(spread(&[4]), 0);
}

#[test]
fn parse_reads_offices_and_customers() {
    let input = "A\tUTC\t25 December 2022\nB\tAsia/Tokyo\t1 January 2022\n\nC\tUTC\t3 January 2022\n";
    let (offices, customers) = parse(input).unwrap();
    assert_eq!(offices.len(), 2);
    assert_eq!(customers.len(), 1);
    assert_eq!(customers[0].holidays, vec![Date::new(2022, 1, 3).unwrap()]);
}

#[test]
fn record_errors() {
    assert_eq!(Location::from_str("name").err(), Some(ScheduleError::MissingTimezone));
    assert_eq!(Location::from_str("name\tNowhere/City\t1 May 2022").err(), Some(ScheduleError::UnknownZone));
    assert_eq!(Location::from_str("name\tUTC").err(), Some(ScheduleError::MissingHolidays));
    assert_eq!(Location::from_str("name\tUTC\t31 Febtober 2022").err(), Some(ScheduleError::InvalidDate));
    assert_eq!(parse("A\tUTC\t1 May 2022\n").err(), Some(ScheduleError::MissingBlankLine));
    assert_eq!(solution("A\tUTC\t1 May 2022\n\n").err(), Some(ScheduleError::NoCustomers));
}

#[test]
fn year_of_overtime_for_utc_customers() {
    // One weekday holiday costs one day of 510 + 420 minutes.
    let input = "Office\tUTC\t25 December 2022\n\nA\tUTC\t1 January 2022\nB\tUTC\t3 January 2022\n";
    assert_eq!(solution(input), Ok(930));
}

#[test]
fn year_of_overtime_across_time_zones() {
    let input = "Office\tUTC\t25 December 2022\n\nA\tUTC\t1 January 2022\nT\tAsia/Tokyo\t1 January 2022\n";
    assert_eq!(solution(input), Ok(6240));
}
