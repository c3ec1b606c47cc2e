use std::collections::HashSet;
use tinkoff_guess_game_lib::{guess_word, pick_starters, suggest_words};

fn words(list: &[&str]) -> Vec<String> {
    list.iter().map(|w| w.to_string()).collect()
}

fn check_starters(dictionary: &Vec<String>, found: &Vec<String>) {
    let mut seen: HashSet<char> = HashSet::new();
    for w in found {
        assert!(dictionary.contains(w));
        let cs: HashSet<char> = w.chars().collect();
        assert_eq!(cs.len(), 5);
        assert_eq!(w.chars().count(), 5);
        assert!(cs.is_disjoint(&seen));
        seen.extend(cs);
    }
    assert!(found.len() <= 5);
}

#[test]
fn pick_starters_takes_fresh_words_in_order() {
    let dictionary = words(&["apple", "brick", "chant", "dozen", "fjord", "glyph", "squat", "quiet"]);
    let order: Vec<usize> = (0..dictionary.len()).collect();
    let found = pick_starters(&dictionary, &order);
    assert_eq!(found, words(&["brick", "dozen", "glyph", "squat"]));
}

#[test]
fn pick_starters_stops_at_five() {
    let dictionary = words(&["abcde", "fghij", "klmno", "pqrst", "uvwxy", "зубок", "жмых"]);
    let order: Vec<usize> = vec![5, 0, 1, 2, 3, 4];
    let found = pick_starters(&dictionary, &order);
    assert_eq!(found, words(&["зубок", "abcde", "fghij", "klmno", "pqrst"]));
}

#[test]
fn suggest_words_gives_diverse_dictionary_words() {
    let dictionary = words(&[
        "смазь", "флейц", "будяк", "выгон", "причт", "мумия", "лента", "шутка", "мысль",
    ]);
    for _ in 0..20 {
        let found = suggest_words(&dictionary);
        assert!(!found.is_empty());
        check_starters(&dictionary, &found);
    }
}

#[test]
fn suggest_words_without_candidates_is_empty() {
    assert!(suggest_words(&vec![]).is_empty());
    assert!(suggest_words(&words(&["мумия", "aabbc"])).is_empty());
}

#[test]
fn no_attempts_gives_starters() {
    let dictionary = words(&["смазь", "флейц", "мумия"]);
    let found = guess_word(&dictionary, vec![]).unwrap();
    assert!(!found.is_empty());
    check_starters(&dictionary, &found);
}
