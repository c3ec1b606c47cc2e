//! What a set of constraints lets through, stated over sets.

use vstd::prelude::*;

use crate::letters::WORD_LEN;

verus! {

// What is known of the answer, as three sets: `correct` holds the pairs
// `(position, letter)` of letters pinned to a position, `misplaced` the pairs of
// letters that occur but not at that position, `absent` the letters that do not
// occur.

pub open spec fn pinned(correct: Set<(usize, char)>, p: usize) -> bool {
    exists|c: char| #[trigger] correct.contains((p, c))
}

/// `w` holds an absent letter.
pub open spec fn gray_hit(absent: Set<char>, w: Seq<char>) -> bool {
    exists|c: char| #[trigger] absent.contains(c) && w.contains(c)
}

/// `w` has every pinned letter at its position.
pub open spec fn yellow_fit(correct: Set<(usize, char)>, w: Seq<char>) -> bool {
    forall|p: usize, c: char| #[trigger] correct.contains((p, c)) ==> p < w.len() && w[p as int] == c
}

/// At no unpinned position does `w` hold a letter excluded from there.
pub open spec fn white_apart(
    correct: Set<(usize, char)>,
    misplaced: Set<(usize, char)>,
    w: Seq<char>,
) -> bool {
    forall|p: usize, c: char|
        #[trigger] misplaced.contains((p, c)) && !pinned(correct, p) && p < w.len() ==> w[p as int]
            != c
}

/// `w` holds every misplaced letter somewhere.
pub open spec fn white_present(misplaced: Set<(usize, char)>, w: Seq<char>) -> bool {
    forall|p: usize, c: char| #[trigger] misplaced.contains((p, c)) ==> w.contains(c)
}

/// `w` is still a possible answer.
pub open spec fn admits(
    correct: Set<(usize, char)>,
    misplaced: Set<(usize, char)>,
    absent: Set<char>,
    w: Seq<char>,
) -> bool {
    &&& !gray_hit(absent, w)
    &&& yellow_fit(correct, w)
    &&& white_apart(correct, misplaced, w)
    &&& white_present(misplaced, w)
}

/// The distinct misplaced letters.
pub open spec fn misplaced_letters(misplaced: Set<(usize, char)>) -> Set<char> {
    misplaced.map(|e: (usize, char)| e.1)
}

/// No letter is both absent and present, no position is pinned to two letters,
/// and there are no more distinct misplaced letters than a word has.
pub open spec fn consistent(
    correct: Set<(usize, char)>,
    misplaced: Set<(usize, char)>,
    absent: Set<char>,
) -> bool {
    &&& forall|p: usize, c: char| #[trigger] misplaced.contains((p, c)) ==> !absent.contains(c)
    &&& misplaced_letters(misplaced).len() <= WORD_LEN
    &&& forall|p: usize, c: char| #[trigger] correct.contains((p, c)) ==> !absent.contains(c)
    &&& forall|p: usize, c: char, d: char|
        #[trigger] correct.contains((p, c)) && #[trigger] correct.contains((p, d)) ==> c == d
}

} // verus!
