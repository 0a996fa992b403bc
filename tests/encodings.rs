use i18n_puzzles::crossword::{find_match, fix_words, has_letter, unmash};
use i18n_puzzles::encodings::{decode, decode_utf16be, decode_utf16le};

#[test]
fn decode_follows_byte_order_marks() {
    assert_eq!(decode(&[0xfe, 0xff, 0x00, 0x41]), Some("A".to_string()));
    assert_eq!(decode(&[0xff, 0xfe, 0x41, 0x00]), Some("A".to_string()));
    assert_eq!(decode(&[0xef, 0xbb, 0xbf, 0x41]), Some("A".to_string()));
}

#[test]
fn decode_guesses_without_marks() {
    assert_eq!(decode("héllo".as_bytes()), Some("héllo".to_string()));
    assert_eq!(decode(&[0x00, 0xe9, 0x00, 0x74]), Some("ét".to_string()));
    assert_eq!(decode(&[0xe9, 0x00, 0x74, 0x00]), Some("ét".to_string()));
    assert_eq!(decode(&[0xe9, 0x74, 0xe9]), Some("été".to_string()));
    assert_eq!(decode(&[0xe9, 0x31, 0xe9]), None);
    assert_eq!(decode(&[0x41]), None);
}

#[test]
fn utf16_in_both_byte_orders() {
    assert_eq!(decode_utf16be(&[0x00, 0x68, 0x00, 0x69]), Some("hi".to_string()));
    assert_eq!(decode_utf16le(&[0x68, 0x00, 0x69, 0x00, 0x7f]), Some("hi".to_string()));
    assert_eq!(decode_utf16be(&[0xd8, 0x00]), None);
}

#[test]
fn unmash_reads_latin1_as_utf8() {
    assert_eq!(unmash("Ã©tÃ©"), "été");
    assert_eq!(unmash("abc"), "abc");
    // Words that do not decode make the repair of the list fail.
    assert_eq!(fix_words("a\nb\nété"), None);
    assert_eq!(fix_words("a\nb\nΩ"), None);
}

#[test]
fn fix_words_by_line_number() {
    let words = "a\nb\nÃ©";
    assert_eq!(fix_words(words), Some(vec!["a".to_string(), "b".to_string(), "é".to_string()]));
}

#[test]
fn find_match_by_length_and_letter() {
    let words = vec!["abc".to_string(), "abd".to_string(), "xyz".to_string()];
    assert_eq!(find_match("..d", &words), Some(2));
    assert_eq!(find_match("x..", &words), Some(3));
    assert_eq!(find_match("....x", &words), None);
    assert_eq!(find_match("..q", &words), None);
    assert!(!has_letter("..."));
    assert!(has_letter("..d"));
}
