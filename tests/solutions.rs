use i18n_puzzles::{
    collation, crossword, dates, encodings, greek, messages, numerals, password_policy, passwords,
    slope,
};

#[test]
fn message_costs_add_up() {
    let input = format!("hello\n{}\n", "a".repeat(150));
    assert_eq!(messages::solution(&input), Some(24));
}

#[test]
fn password_policy_counts() {
    assert!(password_policy::is_valid("d9Ōa"));
    assert!(!password_policy::is_valid("d9Ō"));
    assert!(!password_policy::is_valid("abcD1"));
    assert_eq!(password_policy::solution("d9Ōa\nabcD1\n"), 1);
}

#[test]
fn slope_counts_piles() {
    assert_eq!(slope::solution("💩...\n..💩.\n....\n"), Some(2));
    assert_eq!(slope::solution(""), None);
    assert_eq!(slope::solution("....\n..\n"), None);
}

#[test]
fn crossword_sums_word_numbers() {
    assert_eq!(crossword::solution("ab\ncd\nÃ©\n\n  .b\n.d\n"), Some(3));
    assert_eq!(crossword::solution("ab\n"), None);
}

#[test]
fn normalised_password_count() {
    assert_eq!(passwords::solution("k2lp79ąqV\niS0\n"), 1);
}

#[test]
fn nine_eleven_writers() {
    let input = "11-09-01: Margot\n01-09-11: Peter, Zed\n13-13-13: Zed\n";
    assert_eq!(dates::solution(input), Some("Margot Peter".to_string()));
    let entries = dates::parse(input);
    assert_eq!(entries.len(), 3);
    assert_eq!(entries[2].1, vec![(1, 9, 11), (13, 13, 13)]);
    assert_eq!(dates::solution("11-09-01 Margot\n"), None);
}

#[test]
fn odysseus_shifts_add_up() {
    let input = "σζμ γ' ωοωλδθαξλδμξρ οπξρδυζ οξκτλζσθρ Ξγτρρδτρ.\n\
                 αφτ κ' λαλψφτ ωπφχλρφτ δξησηρζαλψφτ φελο, Φκβωωλβ.\n";
    assert_eq!(greek::solution(input), Some(19));
}

#[test]
fn middle_numbers_multiply() {
    let input = "Ñíguez Peña, María de los Ángeles: 0151605\n\
                 van Leeuwen, Joke: 0172199\n\
                 Zondervan, Jan Peter: 0103008\n\
                 Æbelø, Aurora: 0113267\n\
                 O'Neill, Cara: 0109551\n\
                 Aalto, Alvar: 0192872\n\
                 van den Heyden, Harm: 0168131\n\
                 Özaydın, Zeynep: 0185292\n\
                 Ämtler, Lorena: 0112717\n\
                 Vandersteen, Willy: 0120659\n\
                 Olofsson, Mikael: 0103652\n\
                 Østergård, Magnus: 0113959\n\
                 Åberg, Rosa-Maria: 0110966\n\
                 van Leeuw, Floor: 0144158\n\
                 Navarrete Ortiz, Dolores: 0119411\n";
    assert_eq!(collation::solution(input), Some(1885816494308838));
    let lines = vec!["a: 1".to_string(), "b: 0042".to_string(), "c: 3".to_string()];
    assert_eq!(collation::middle_phone_number(&lines), Some(42));
    let lines = vec!["a: 1".to_string(), "b: 00x2".to_string(), "c: 3".to_string()];
    assert_eq!(collation::middle_phone_number(&lines), None);
}

#[test]
fn hex_dictionary_fills_crossword() {
    assert_eq!(encodings::hex_bytes(&['e', '9', '7', '4', 'x']), Some(vec![0xe9, 0x74]));
    assert_eq!(encodings::hex_bytes(&['g', '0']), None);
    assert_eq!(encodings::solution("636166c3a9\ne974e9\n\n..f.\né..\n"), Some(3));
}

#[test]
fn areas_add_up() {
    assert_eq!(
        numerals::solution("二百四十二町 × 三百五十一丈\n七十八寸 × 二十一万七千八百厘\n"),
        Some(28_080_156)
    );
}
