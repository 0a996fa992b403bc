use i18n_puzzles::interval::{
    add_interval, find_overlaps, invert_intervals, total_duration, Interval, DAY,
};

const HOUR: u64 = 3_600_000_000_000;
const MIN: u64 = 60_000_000_000;

fn create_interval(&(start, end): &(u64, u64)) -> Interval {
    Interval::new(start * HOUR, if end < 24 { end * HOUR } else { DAY })
}

fn intervals(spans: &[(u64, u64)]) -> Vec<Interval> {
    spans.iter().map(create_interval).collect()
}

fn hm(h: u64, m: u64) -> u64 {
    h * HOUR + m * MIN
}

fn assert_intervals_become(start: &[(u64, u64)], other: (u64, u64), expected: &[(u64, u64)]) {
    let mut v = intervals(start);
    add_interval(&mut v, create_interval(&other));
    assert_eq!(v, intervals(expected));
}

#[test]
fn test_add_interval() {
    let base = &[(3, 5), (9, 15), (16, 20)];
    assert_intervals_become(base, (1, 2), &[(1, 2), (3, 5), (9, 15), (16, 20)]);
    assert_intervals_become(base, (6, 8), &[(3, 5), (6, 8), (9, 15), (16, 20)]);
    assert_intervals_become(base, (22, 23), &[(3, 5), (9, 15), (16, 20), (22, 23)]);
    assert_intervals_become(base, (1, 4), &[(1, 5), (9, 15), (16, 20)]);
    assert_intervals_become(base, (20, 22), &[(3, 5), (9, 15), (16, 22)]);
    assert_intervals_become(base, (14, 18), &[(3, 5), (9, 20)]);
    assert_intervals_become(base, (1, 23), &[(1, 23)]);
}

#[test]
fn test_invert_intervals() {
    let v = intervals(&[(1, 3), (12, 17), (20, 22)]);
    assert_eq!(
        invert_intervals(&v),
        intervals(&[(0, 1), (3, 12), (17, 20), (22, 24)])
    );
}

#[test]
fn test_find_overlaps() {
    let xs = intervals(&[(2, 19), (20, 21)]);
    let ys = intervals(&[(3, 4), (7, 10), (18, 23)]);
    assert_eq!(
        find_overlaps(&xs, &ys),
        intervals(&[(3, 4), (7, 10), (18, 19), (20, 21)])
    );
    let xs = intervals(&[(1, 5), (11, 16), (19, 21)]);
    let ys = intervals(&[(2, 4), (9, 17), (20, 23)]);
    assert_eq!(find_overlaps(&xs, &ys), intervals(&[(2, 4), (11, 16), (20, 21)]));
}

#[test]
fn test_interval_duration() {
    let v = vec![
        Interval::new(hm(3, 0), hm(7, 30)),
        Interval::new(hm(8, 0), hm(9, 45)),
        Interval::new(hm(16, 0), hm(19, 0)),
        Interval::new(hm(20, 0), hm(22, 15)),
    ];
    assert_eq!(v.iter().map(Interval::duration).sum::<u64>(), 690);
    assert_eq!(total_duration(&v), 690);
}

#[test]
fn add_interval_into_empty_list() {
    let mut v = Vec::new();
    add_interval(&mut v, create_interval(&(4, 6)));
    assert_eq!(v, intervals(&[(4, 6)]));
}

#[test]
fn add_interval_keeps_lists_canonical() {
    let mut v = Vec::new();
    for span in [(10, 12), (1, 2), (12, 13), (5, 7), (2, 5), (20, 24), (0, 1)] {
        add_interval(&mut v, create_interval(&span));
        for pair in v.windows(2) {
            assert!(pair[0].end < pair[1].start);
        }
    }
    assert_eq!(v, intervals(&[(0, 7), (10, 13), (20, 24)]));
}

#[test]
fn invert_empty_list_is_whole_day() {
    assert_eq!(invert_intervals(&[]), intervals(&[(0, 24)]));
    assert_eq!(invert_intervals(&intervals(&[(0, 24)])), Vec::new());
}

#[test]
fn invert_twice_restores_list() {
    for spans in [
        vec![(1, 3), (12, 17), (20, 22)],
        vec![(0, 3), (12, 24)],
        vec![(0, 24)],
        vec![],
    ] {
        let v = intervals(&spans);
        assert_eq!(invert_intervals(&invert_intervals(&v)), v);
    }
}

#[test]
fn overlaps_commute() {
    let xs = intervals(&[(2, 19), (20, 21)]);
    let ys = intervals(&[(3, 4), (7, 10), (18, 23)]);
    assert_eq!(find_overlaps(&xs, &ys), find_overlaps(&ys, &xs));
}

#[test]
fn overlaps_drop_touching_points() {
    let xs = intervals(&[(1, 3)]);
    let ys = intervals(&[(3, 5)]);
    assert_eq!(find_overlaps(&xs, &ys), Vec::new());
}

#[test]
fn durations_of_list_and_complement_fill_the_day() {
    let v = vec![
        Interval::new(hm(3, 0), hm(7, 30)),
        Interval::new(hm(8, 0), hm(9, 45)),
        Interval::new(hm(16, 0), hm(19, 0)),
    ];
    assert_eq!(total_duration(&v) + total_duration(&invert_intervals(&v)), 1440);
}

#[test]
fn duration_rounds_half_minutes_up() {
    assert_eq!(Interval::new(0, 30_000_000_000).duration(), 1);
    assert_eq!(Interval::new(0, 29_999_999_999).duration(), 0);
    assert_eq!(Interval::new(0, DAY).duration(), 1440);
}
