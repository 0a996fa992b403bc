use i18n_puzzles::collation::{sort_dutch, sort_english, sort_swedish};

const TEST_LINES: [&str; 15] = [
    "Ñíguez Peña, María de los Ángeles: 0151605",
    "van Leeuwen, Joke: 0172199",
    "Zondervan, Jan Peter: 0103008",
    "Æbelø, Aurora: 0113267",
    "O'Neill, Cara: 0109551",
    "Aalto, Alvar: 0192872",
    "van den Heyden, Harm: 0168131",
    "Özaydın, Zeynep: 0185292",
    "Ämtler, Lorena: 0112717",
    "Vandersteen, Willy: 0120659",
    "Olofsson, Mikael: 0103652",
    "Østergård, Magnus: 0113959",
    "Åberg, Rosa-Maria: 0110966",
    "van Leeuw, Floor: 0144158",
    "Navarrete Ortiz, Dolores: 0119411",
];

fn test_input() -> Vec<String> {
    TEST_LINES.iter().map(|l| l.to_string()).collect()
}

#[test]
fn test_sort_english() {
    assert_eq!(
        sort_english(test_input()).unwrap(),
        &[
            "Aalto, Alvar: 0192872",
            "Åberg, Rosa-Maria: 0110966",
            "Æbelø, Aurora: 0113267",
            "Ämtler, Lorena: 0112717",
            "Navarrete Ortiz, Dolores: 0119411",
            "Ñíguez Peña, María de los Ángeles: 0151605",
            "Olofsson, Mikael: 0103652",
            "O'Neill, Cara: 0109551",
            "Østergård, Magnus: 0113959",
            "Özaydın, Zeynep: 0185292",
            "van den Heyden, Harm: 0168131",
            "Vandersteen, Willy: 0120659",
            "van Leeuw, Floor: 0144158",
            "van Leeuwen, Joke: 0172199",
            "Zondervan, Jan Peter: 0103008",
        ]
    )
}

#[test]
fn test_sort_swedish() {
    assert_eq!(
        sort_swedish(test_input()),
        &[
            "Aalto, Alvar: 0192872",
            "Navarrete Ortiz, Dolores: 0119411",
            "Ñíguez Peña, María de los Ángeles: 0151605",
            "Olofsson, Mikael: 0103652",
            "O'Neill, Cara: 0109551",
            "van den Heyden, Harm: 0168131",
            "Vandersteen, Willy: 0120659",
            "van Leeuw, Floor: 0144158",
            "van Leeuwen, Joke: 0172199",
            "Zondervan, Jan Peter: 0103008",
            "Åberg, Rosa-Maria: 0110966",
            "Æbelø, Aurora: 0113267",
            "Ämtler, Lorena: 0112717",
            "Østergård, Magnus: 0113959",
            "Özaydın, Zeynep: 0185292",
        ]
    )
}

#[test]
fn test_sort_dutch() {
    assert_eq!(
        sort_dutch(test_input()).unwrap(),
        &[
            "Aalto, Alvar: 0192872",
            "Åberg, Rosa-Maria: 0110966",
            "Æbelø, Aurora: 0113267",
            "Ämtler, Lorena: 0112717",
            "Heyden, Harm van den: 0168131",
            "Leeuw, Floor van: 0144158",
            "Leeuwen, Joke van: 0172199",
            "Navarrete Ortiz, Dolores: 0119411",
            "Ñíguez Peña, María de los Ángeles: 0151605",
            "Olofsson, Mikael: 0103652",
            "O'Neill, Cara: 0109551",
            "Østergård, Magnus: 0113959",
            "Özaydın, Zeynep: 0185292",
            "Vandersteen, Willy: 0120659",
            "Zondervan, Jan Peter: 0103008",
        ]
    )
}

#[test]
fn sorting_is_stable_for_equal_keys() {
    let lines = vec!["b, x: 2".to_string(), "B, X: 1".to_string(), "a, y: 3".to_string()];
    assert_eq!(sort_english(lines.clone()).unwrap(), &["a, y: 3", "b, x: 2", "B, X: 1"]);
    assert_eq!(sort_swedish(lines), &["a, y: 3", "b, x: 2", "B, X: 1"]);
}
