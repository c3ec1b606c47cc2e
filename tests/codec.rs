use tinkoff_guess_game_lib::{letters_from, string_to_letters, strings_to_words, Color, FormatError, Letter};

#[test]
fn test_word_to_letters() {
    let res = string_to_letters(&String::from("h=el=l?o")).unwrap();
    assert_eq!(res[0].color, Color::Gray);
    assert_eq!(res[0].letter, 'h');
    assert_eq!(res[1].color, Color::Yellow);
    assert_eq!(res[1].letter, 'e');
}

#[test]
fn word_to_letters_reads_every_marker() {
    let res = string_to_letters(&String::from("h=el^l?o")).unwrap();
    let colors: Vec<Color> = res.iter().map(|l| l.color).collect();
    let letters: String = res.iter().map(|l| l.letter).collect();
    assert_eq!(colors, vec![Color::Gray, Color::Yellow, Color::Gray, Color::Gray, Color::White]);
    assert_eq!(letters, "hello");
}

#[test]
fn word_to_letters_broken_format_is_rejected() {
    assert_eq!(
        string_to_letters(&String::from("ello")).unwrap_err(),
        FormatError::WrongCount { letters: 4 }
    );
}

#[test]
fn word_to_letters_empty_is_rejected() {
    assert_eq!(
        string_to_letters(&String::from("")).unwrap_err(),
        FormatError::WrongCount { letters: 0 }
    );
}

#[test]
fn word_to_letters_too_long_is_rejected() {
    assert_eq!(
        string_to_letters(&String::from("ghyeglylwowo")).unwrap_err(),
        FormatError::WrongCount { letters: 12 }
    );
}

#[test]
fn six_letters_are_rejected() {
    assert_eq!(
        string_to_letters(&String::from("a=bcd?ef")).unwrap_err(),
        FormatError::WrongCount { letters: 6 }
    );
}

#[test]
fn unknown_marker_is_malformed() {
    assert_eq!(string_to_letters(&String::from("ab!cde")).unwrap_err(), FormatError::Malformed);
}

#[test]
fn marker_without_letter_is_malformed() {
    assert_eq!(string_to_letters(&String::from("abcde?")).unwrap_err(), FormatError::Malformed);
    assert_eq!(string_to_letters(&String::from("abc=?de")).unwrap_err(), FormatError::Malformed);
}

#[test]
fn fixed_width_encoding_is_rejected() {
    // two characters per slot, with `g`, `w`, `y` as markers: ten plain letters
    assert_eq!(
        string_to_letters(&String::from("yяgмgнyдyа")).unwrap_err(),
        FormatError::WrongCount { letters: 10 }
    );
}

#[test]
fn cyrillic_attempt_decodes() {
    let res = string_to_letters(&String::from("с=удь=я")).unwrap();
    assert_eq!(res[1], Letter { color: Color::Yellow, letter: 'у' });
    assert_eq!(res[4], Letter { color: Color::Yellow, letter: 'я' });
    assert_eq!(res[2], Letter { color: Color::Gray, letter: 'д' });
}

#[test]
fn letters_from_follows_given_flags() {
    let chars: Vec<char> = "a?bcde".chars().collect();
    let alpha = vec![true, false, true, true, true, true];
    let res = letters_from(&chars, &alpha).unwrap();
    assert_eq!(res[1], Letter { color: Color::White, letter: 'b' });
    let alpha = vec![true, false, false, true, true, true];
    assert_eq!(letters_from(&chars, &alpha).unwrap_err(), FormatError::Malformed);
}

#[test]
fn strings_to_words_reports_first_error() {
    let res = strings_to_words(vec![String::from("abcde"), String::from("ab"), String::from("a!")]);
    assert_eq!(res.unwrap_err(), FormatError::WrongCount { letters: 2 });
    let ok = strings_to_words(vec![String::from("abcde"), String::from("=fghij")]).unwrap();
    assert_eq!(ok.len(), 2);
    assert_eq!(ok[1][0], Letter { color: Color::Yellow, letter: 'f' });
}
