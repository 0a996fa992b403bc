use i18n_puzzles::audit::{corrected, solution as audit_solution};
use i18n_puzzles::logins::{decompositions, solution as login_solution};
use i18n_puzzles::travel::{flight_minutes, get_utc, solution as travel_solution};
use i18n_puzzles::waves::{most_frequent, solution as waves_solution};

#[test]
fn get_utc_reads_local_time() {
    assert_eq!(get_utc("America/New_York", "Mar 04, 2020, 10:00"), Some(1_583_334_000));
    assert_eq!(get_utc("Nowhere/City", "Mar 04, 2020, 10:00"), None);
    assert_eq!(get_utc("America/New_York", "yesterday"), None);
}

#[test]
fn travel_sums_flight_minutes() {
    let input = "Departure: America/New_York    Mar 04, 2020, 10:00\n\
                 Arrival:   Europe/London       Mar 04, 2020, 22:00\n\
                 \n\
                 Departure: Europe/London       Mar 05, 2020, 08:00\n\
                 Arrival:   Europe/Paris        Mar 05, 2020, 10:30\n";
    assert_eq!(travel_solution(input), Some(420 + 90));
    assert_eq!(flight_minutes(&[(0, 119), (100, 0)]), Some(1 - 1));
}

#[test]
fn waves_reports_most_frequent_instant() {
    let input = "2019-06-05T08:15:00-04:00\n2019-06-05T14:15:00+02:00\n2019-06-05T12:00:00+00:00\n";
    assert_eq!(waves_solution(input), Some("2019-06-05T12:15:00+00:00".to_string()));
    assert_eq!(most_frequent(&vec![(1, 0), (2, 0), (2, 0)]), Some((2, 0)));
    assert_eq!(most_frequent(&vec![]), None);
}

#[test]
fn audit_reads_hours_in_the_right_zone() {
    let input = "2012-11-05T09:39:00.000-04:00 0 0\n2012-11-05T09:39:00.000-03:00 60 0\n";
    assert_eq!(audit_solution(input), Some(9 + 20));
    assert_eq!(corrected(1000, 2, 1), Some(1060));
}

#[test]
fn decompositions_of_accented_letters() {
    assert_eq!(decompositions("ab"), Some(vec!["ab".to_string()]));
    assert_eq!(
        decompositions("é"),
        Some(vec!["é".to_string(), "e\u{301}".to_string()])
    );
    assert_eq!(decompositions("éé").map(|v| v.len()), Some(4));
}

#[test]
fn login_attempts_in_any_normal_form() {
    let hash = bcrypt::hash("pässword", 4).unwrap();
    let input = format!(
        "user {hash}\n\nuser pässword\nuser pa\u{308}ssword\nuser wrong\n"
    );
    assert_eq!(login_solution(&input), Some(2));
    assert_eq!(login_solution("user $2b$04$bad\n\nuser x\n"), None);
}
