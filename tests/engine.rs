use tinkoff_guess_game_lib::{
    find_matches, get_letters_stat, guess_word, strings_to_words, Color, Letter, Stat,
};

fn words(list: &[&str]) -> Vec<String> {
    list.iter().map(|w| w.to_string()).collect()
}

fn attempts(list: &[&str]) -> Vec<Vec<Letter>> {
    strings_to_words(words(list)).unwrap()
}

#[test]
fn test_has_gray_letters() {
    let stats = Stat {
        gray_letters: vec!['п', 'р'],
        white_letters: vec![],
        yellow_letters: vec![],
    };
    assert_eq!(stats.has_gray_letters(&String::from("привет")), true);
    assert_eq!(stats.has_gray_letters(&String::from("нет")), false);
}

#[test]
fn test_has_white_in_place() {
    let stats = Stat {
        gray_letters: vec![],
        white_letters: vec![(1, 'п'), (0, 'р')],
        yellow_letters: vec![],
    };
    assert_eq!(stats.has_white_in_place(&String::from("привет")), true);
}

#[test]
fn test_has_white_in_place_with_wrong_stats() {
    let stats = Stat {
        gray_letters: vec![],
        white_letters: vec![(0, 'a'), (0, 'b'), (0, 'c'), (1, 'd')],
        yellow_letters: vec![],
    };
    assert_eq!(stats.has_white_in_place(&String::from("dba")), false);
}

#[test]
fn white_letter_at_its_excluded_position_fails() {
    let stats = Stat {
        gray_letters: vec![],
        white_letters: vec![(0, 'p')],
        yellow_letters: vec![],
    };
    assert!(!stats.has_white_in_place("plant"));
    assert!(stats.has_white_in_place("spool"));
}

#[test]
fn pinned_position_skips_white_exclusion() {
    let stats = Stat {
        gray_letters: vec![],
        white_letters: vec![(0, 'p')],
        yellow_letters: vec![(0, 'p')],
    };
    assert!(stats.has_white_in_place("plant"));
}

#[test]
fn has_yellow_in_place_checks_each_pin() {
    let stats = Stat {
        gray_letters: vec![],
        white_letters: vec![],
        yellow_letters: vec![(0, 's'), (4, 'e')],
    };
    assert!(stats.has_yellow_in_place("stone"));
    assert!(!stats.has_yellow_in_place("stony"));
    assert!(!stats.has_yellow_in_place("ste"));
}

#[test]
fn is_matched_combines_checks() {
    let stats = Stat {
        gray_letters: vec!['x'],
        white_letters: vec![(1, 'o')],
        yellow_letters: vec![(0, 's')],
    };
    assert!(stats.is_matched("solid") == false);
    assert!(stats.is_matched("shoal"));
    assert!(!stats.is_matched("sixth"));
    assert!(!stats.is_matched("shale"));
}

#[test]
fn test_validate_white_letters() {
    let stats = Stat {
        gray_letters: vec!['c', 'h'],
        yellow_letters: vec![(0, 'h')],
        white_letters: vec![(0, 'a'), (0, 'b'), (0, 'c'), (0, 'd'), (0, 'e'), (0, 'f')],
    };
    let (success, errors) = stats.validate();
    let x_errors = vec![
        String::from("White letter `c` has been found in grays"),
        String::from("Too much unique white letters: 6"),
        String::from("Yellow letter `h` has been found in grays"),
    ];
    assert_eq!(success, false);
    assert_eq!(errors, x_errors);
}

#[test]
fn validate_counts_distinct_white_letters_in_decimal() {
    let white: Vec<(usize, char)> = "abcdefghijk".chars().enumerate().map(|(i, c)| (i % 5, c)).collect();
    let stats = Stat { gray_letters: vec![], yellow_letters: vec![], white_letters: white };
    let (success, errors) = stats.validate();
    assert!(!success);
    assert_eq!(errors, vec![String::from("Too much unique white letters: 11")]);
}

#[test]
fn validate_accepts_consistent_state() {
    let stats = Stat {
        gray_letters: vec!['x', 'y'],
        yellow_letters: vec![(0, 'a'), (0, 'a')],
        white_letters: vec![(1, 'b'), (2, 'b')],
    };
    assert_eq!(stats.validate(), (true, vec![]));
}

#[test]
fn validate_reports_conflicting_pins() {
    let stats = Stat {
        gray_letters: vec![],
        yellow_letters: vec![(2, 'a'), (2, 'b'), (2, 'a')],
        white_letters: vec![],
    };
    let (success, errors) = stats.validate();
    assert!(!success);
    assert_eq!(
        errors,
        vec![
            String::from("Yellow letter `b` conflicts with another yellow letter at position 2"),
            String::from("Yellow letter `a` conflicts with another yellow letter at position 2"),
        ]
    );
}

#[test]
fn test_guess_word() {
    let dictionary = words(&["лента", "мумия", "судья", "игрок", "мания", "буква", "умник"]);
    let words = strings_to_words(vec![
        String::from("лента"),
        String::from("с=удь=я"),
        String::from("?игрок"),
    ])
    .unwrap();
    let found_words = guess_word(&dictionary, words).unwrap();
    let x_result = vec![String::from("мумия")];
    assert_eq!(found_words, x_result);
}

#[test]
fn get_letters_stat_records_each_entry_once() {
    let st = get_letters_stat(attempts(&["^a?n=g?l=e", "^o?n=g?l=e"])).unwrap();
    assert_eq!(st.yellow_letters, vec![(2, 'g'), (4, 'e')]);
    assert_eq!(st.white_letters, vec![(1, 'n'), (3, 'l')]);
    assert_eq!(st.gray_letters, vec!['a', 'o']);
}

#[test]
fn get_letters_stat_reports_white_in_grays() {
    let err = get_letters_stat(attempts(&["?abcde", "afghi"])).unwrap_err();
    assert_eq!(err, vec![String::from("White letter `a` has been found in grays")]);
}

#[test]
fn scenario_absent_letter_excludes_words() {
    let dictionary = words(&["apple", "angle", "table"]);
    let found = guess_word(&dictionary, attempts(&["^a?n=g?l=e"])).unwrap();
    assert!(!found.contains(&String::from("angle")));
    assert!(!found.contains(&String::from("table")));
    assert!(found.is_empty());
}

#[test]
fn scenario_pinned_positions_checked() {
    let dictionary = words(&["table", "cable", "fable", "noble"]);
    let found = guess_word(&dictionary, attempts(&["^s=a^x^x=e"])).unwrap();
    assert_eq!(found, words(&["table", "cable", "fable"]));
}

#[test]
fn scenario_conflicting_correct_letters() {
    let dictionary = words(&["abcde", "fbcde"]);
    let err = guess_word(&dictionary, attempts(&["=abcde", "=fbcde"])).unwrap_err();
    assert_eq!(
        err,
        vec![String::from("Yellow letter `f` conflicts with another yellow letter at position 0")]
    );
}

#[test]
fn refiltering_changes_nothing() {
    let dictionary = words(&["crane", "brake", "trace", "grace", "price", "crate"]);
    let st = get_letters_stat(attempts(&["?c=r^o^w^n"])).unwrap();
    let once = find_matches(&st, &dictionary);
    let twice = find_matches(&st, &once);
    assert_eq!(once, twice);
    assert_eq!(once, words(&["trace", "grace", "price"]));
}

#[test]
fn returned_words_respect_every_constraint() {
    let dictionary =
        words(&["crane", "brake", "trace", "eruct", "grace", "erect", "react", "cargo"]);
    let st = get_letters_stat(attempts(&["?c=r^o^w?e"])).unwrap();
    let found = find_matches(&st, &dictionary);
    assert!(!found.is_empty());
    for w in &found {
        let cs: Vec<char> = w.chars().collect();
        assert!(!cs.contains(&'o') && !cs.contains(&'w'));
        assert_eq!(cs[1], 'r');
        assert_ne!(cs[0], 'c');
        assert_ne!(cs[4], 'e');
        assert!(cs.contains(&'c') && cs.contains(&'e'));
    }
    assert_eq!(found, words(&["eruct", "erect"]));
}

#[test]
fn attempt_order_does_not_matter() {
    let dictionary = words(&["crane", "brake", "trace", "grace", "price", "crate", "react"]);
    let a = "?c=r^o^w?e";
    let b = "^g=r^a^i?t";
    let ab = guess_word(&dictionary, attempts(&[a, b])).unwrap();
    let ba = guess_word(&dictionary, attempts(&[b, a])).unwrap();
    assert_eq!(ab, ba);
}

#[test]
fn attempt_order_does_not_matter_for_rejection() {
    let dictionary = words(&["crane"]);
    let a = "=abcde";
    let b = "?xyz^a^q";
    assert!(guess_word(&dictionary, attempts(&[a, b])).is_err());
    assert!(guess_word(&dictionary, attempts(&[b, a])).is_err());
}

#[test]
fn pinned_entry_in_word_shorter_than_position_rejects() {
    let dictionary = words(&["ab", "abcde"]);
    let found = guess_word(&dictionary, attempts(&["a^b^c^d=e"])).unwrap();
    assert!(found.is_empty());
    let letters = attempts(&["xyzw=e"]);
    assert_eq!(letters[0][4], Letter { color: Color::Yellow, letter: 'e' });
    assert_eq!(guess_word(&dictionary, letters).unwrap(), words(&["abcde"]));
}
