use i18n_puzzles::dates::{
    is_record_line, is_valid_dmy, is_valid_mdy, is_valid_ydm, is_valid_ymd, parse_date,
};
use i18n_puzzles::greek::{contains_odysseus, rotate};
use i18n_puzzles::messages::{cost, is_valid_sms, is_valid_tweet};
use i18n_puzzles::names::{can_move_infix, move_dutch_infix};
use i18n_puzzles::passwords::{all_unique, is_valid, normalise};

#[test]
fn test_normalise() {
    assert_eq!(normalise("iS0"), "is0");
    assert_eq!(normalise("V8AeC1S7KhP4Ļu"), "v8aec1s7khp4lu");
    assert_eq!(normalise("pD9Ĉ*jXh"), "pd9c*jxh");
    assert_eq!(normalise("E1-0"), "e1-0");
    assert_eq!(normalise("ĕnz2cymE"), "enz2cyme");
    assert_eq!(normalise("tqd~üō"), "tqd~uo");
    assert_eq!(normalise("IgwQúPtd9"), "igwquptd9");
    assert_eq!(normalise("k2lp79ąqV"), "k2lp79aqv");
}

#[test]
fn password_rules() {
    assert!(all_unique("abc1"));
    assert!(!all_unique("abca"));
    assert!(is_valid("k2lp79ąqV"));
    assert!(!is_valid("iS0"));
    assert!(!is_valid("V8AeC1S7KhP4Ļu"));
    assert!(!is_valid("aeiou123"));
}

#[test]
fn test_rotate() {
    assert_eq!(
        rotate("σζμ γ' ωοωλδθαξλδμξρ οπξρδυζ οξκτλζσθρ Ξγτρρδτρ.", 1).unwrap(),
        "την δ' απαμειβομενος προσεφη πολυμητις Οδυσσευς."
    );
    assert_eq!(
        rotate("αφτ κ' λαλψφτ ωπφχλρφτ δξησηρζαλψφτ φελο, Φκβωωλβ.", 18).unwrap(),
        "τον δ' ετερον σκοπελον χθαμαλωτερον οψει, Οδυσσευ."
    );
}

#[test]
fn rotate_rejects_latin_letters_and_finds_odysseus() {
    assert_eq!(rotate("abc", 1), None);
    assert!(contains_odysseus("την δ' απαμειβομενος προσεφη πολυμητις Οδυσσευς."));
    assert!(!contains_odysseus("τον δ' ετερον σκοπελον"));
}

#[test]
fn test_move_dutch_infix() {
    assert_eq!(move_dutch_infix("Aalto, Alvar: 0192872"), "Aalto, Alvar: 0192872");
    assert_eq!(move_dutch_infix("van Leeuw, Floor: 0144158"), "Leeuw, Floor van: 0144158");
    assert_eq!(
        move_dutch_infix("van den Heyden, Harm: 0168131"),
        "Heyden, Harm van den: 0168131"
    );
}

#[test]
fn dutch_infix_needs_surname_and_colon() {
    assert!(can_move_infix("van Leeuw, Floor: 1"));
    assert!(can_move_infix("Aalto, Alvar"));
    assert!(!can_move_infix("all lower case"));
    assert!(!can_move_infix("van Leeuw, Floor"));
}

#[test]
fn date_orders() {
    assert_eq!(parse_date("11-09-01"), (11, 9, 1));
    assert!(is_record_line("11-09-01: Margot"));
    assert!(!is_record_line("11-09: Margot"));
    assert!(!is_record_line("11-x-01: Margot"));
    assert!(!is_record_line("11-09-01 Margot"));
    assert!(!is_record_line("300-09-01: Margot"));
    assert!(is_valid_dmy((29, 2, 4)));
    assert!(!is_valid_dmy((29, 2, 5)));
    assert!(!is_valid_dmy((31, 4, 5)));
    assert!(is_valid_mdy((2, 28, 5)));
    assert!(is_valid_ymd((5, 12, 31)));
    assert!(!is_valid_ydm((5, 31, 6)));
}

#[test]
fn message_costs() {
    let short = "hello";
    let wide = "é".repeat(100);
    let long = "a".repeat(150);
    assert!(is_valid_sms(short) && is_valid_tweet(short));
    assert_eq!(cost(short), 13);
    assert_eq!(cost(&long), 11);
    assert_eq!(cost(&wide), 7);
    assert_eq!(cost(&"é".repeat(200)), 0);
}
