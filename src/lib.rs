//! Narrows a dictionary of five-letter words to those still possible in a
//! word-guessing game, given the colours that earlier guesses received.

pub mod aggregate;
pub mod guess;
pub mod letters;
pub mod model;
pub mod stat;
pub mod suggest;
pub mod text;

pub use aggregate::get_letters_stat;
pub use guess::{find_matches, guess_word};
pub use letters::{
    chars_of, letters_from, string_to_letters, strings_to_words, Color, FormatError, Letter,
};
pub use stat::Stat;
pub use suggest::{pick_starters, suggest_words};
