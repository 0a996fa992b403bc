use i18n_puzzles::numerals::{area, is_numeral, parse_length, parse_numeral, parse_number};

#[test]
fn test_parse_number() {
    assert_eq!(parse_number("十一"), Some(11));
    assert_eq!(parse_number("十二"), Some(12));
    assert_eq!(parse_number("二十"), Some(20));
    assert_eq!(parse_number("四十二"), Some(42));
    assert_eq!(parse_number("十万"), Some(100_000));
    assert_eq!(parse_number("百万"), Some(1_000_000));
    assert_eq!(parse_number("千万"), Some(10_000_000));
    assert_eq!(parse_number("三百"), Some(300));
    assert_eq!(parse_number("三百二十一"), Some(321));
    assert_eq!(parse_number("四千"), Some(4000));
    assert_eq!(parse_number("五万"), Some(50_000));
    assert_eq!(parse_number("九万九千九百九十九"), Some(99_999));
    assert_eq!(parse_number("四十二万四十二"), Some(420_042));
    assert_eq!(parse_number("九億八千七百六十五万四千三百二十一"), Some(987_654_321));
}

#[test]
fn test_area() {
    assert_eq!(area("二百四十二町 × 三百五十一丈"), Some(28_080_000));
    assert_eq!(area("七十八寸 × 二十一万七千八百厘"), Some(156));
    assert_eq!(area("七万二千三百五十八町 × 六百十二分"), Some(14_639_040));
    assert_eq!(area("六寸 × 三十万七千九十八尺"), Some(16920));
    assert_eq!(area("九間 × 三万三千百五十四里"), Some(2_130_624_000));
    assert_eq!(area("六百毛 × 七百四十四万千五百厘"), Some(41));
    assert_eq!(area("七十八億二千八十三万五千毛 × 二十八万八千六百毛"), Some(2_072_629));
    assert_eq!(area("三百七十四万二千五百三十厘 × 六百七十一万七千厘"), Some(2_308_409));
}

#[test]
fn numerals_reject_other_characters() {
    assert_eq!(parse_numeral('七'), 7);
    assert_eq!(parse_numeral('億'), 100_000_000);
    assert!(is_numeral('万'));
    assert!(!is_numeral('x'));
    assert_eq!(parse_number("十x"), None);
    assert_eq!(parse_number(""), Some(0));
}

#[test]
fn area_needs_a_separator_and_units() {
    assert_eq!(area("二百四十二町"), None);
    assert_eq!(area("二百四十二 × 三百五十一丈"), None);
}

#[test]
fn lengths_read_value_and_unit() {
    let l = parse_length(&"二百四十二町".chars().collect::<Vec<_>>());
    assert_eq!(l.value, 242);
    assert_eq!((l.unit.0, l.unit.1), (360, 1));
    let l = parse_length(&"七百四十四万千五百厘".chars().collect::<Vec<_>>());
    assert_eq!(l.value, 7_441_500);
    assert_eq!((l.unit.0, l.unit.1), (1, 1000));
}
