//! The state folded from the attempts: matching a word, and validation.

use vstd::prelude::*;

use crate::letters::{chars_of, WORD_LEN};
use crate::model;
use crate::text::{char_message, decimal, push_decimal};

verus! {

/// What the attempts made so far say of the answer.
#[derive(Debug)]
pub struct Stat {
    /// `(position, letter)`: the letter stands at that position.
    pub yellow_letters: Vec<(usize, char)>,
    /// `(position, letter)`: the letter occurs, but not at that position.
    pub white_letters: Vec<(usize, char)>,
    /// Letters that do not occur at all.
    pub gray_letters: Vec<char>,
}

impl Stat {
    /// Positions pinned to a letter.
    pub open spec fn correct(&self) -> Set<(usize, char)> {
        self.yellow_letters@.to_set()
    }

    /// Letters excluded from a position, but known to occur.
    pub open spec fn misplaced(&self) -> Set<(usize, char)> {
        self.white_letters@.to_set()
    }

    /// Letters that do not occur.
    pub open spec fn absent(&self) -> Set<char> {
        self.gray_letters@.to_set()
    }

    pub open spec fn pinned(&self, p: usize) -> bool {
        model::pinned(self.correct(), p)
    }

    pub open spec fn gray_hit(&self, w: Seq<char>) -> bool {
        model::gray_hit(self.absent(), w)
    }

    pub open spec fn yellow_fit(&self, w: Seq<char>) -> bool {
        model::yellow_fit(self.correct(), w)
    }

    pub open spec fn white_apart(&self, w: Seq<char>) -> bool {
        model::white_apart(self.correct(), self.misplaced(), w)
    }

    pub open spec fn white_present(&self, w: Seq<char>) -> bool {
        model::white_present(self.misplaced(), w)
    }

    /// `w` is still a possible answer.
    pub open spec fn admits(&self, w: Seq<char>) -> bool {
        model::admits(self.correct(), self.misplaced(), self.absent(), w)
    }

    /// Whether the word holds some absent letter.
    pub fn has_gray_letters(&self, dict_word: &str) -> (r: bool)
        ensures
            r == self.gray_hit(dict_word@),
    {
        let w = chars_of(dict_word);
        let mut k: usize = 0;
        while k < self.gray_letters.len()
            invariant
                w@ == dict_word@,
                k <= self.gray_letters@.len(),
                forall|j: int| 0 <= j < k ==> !w@.contains(#[trigger] self.gray_letters@[j]),
            decreases self.gray_letters@.len() - k,
        {
            if contains_char(&w, self.gray_letters[k]) {
                assert(self.absent().contains(self.gray_letters@[k as int]));
                return true;
            }
            k = k + 1;
        }
        proof {
            if self.gray_hit(dict_word@) {
                let c = choose|c: char| #[trigger] self.absent().contains(c) && w@.contains(c);
                let j = choose|j: int| 0 <= j < self.gray_letters@.len() && self.gray_letters@[j] == c;
                assert(!w@.contains(self.gray_letters@[j]));
            }
        }
        false
    }

    /// Whether the word has every pinned letter at its position.
    pub fn has_yellow_in_place(&self, dict_word: &str) -> (r: bool)
        ensures
            r == self.yellow_fit(dict_word@),
    {
        let w = chars_of(dict_word);
        let mut k: usize = 0;
        while k < self.yellow_letters.len()
            invariant
                w@ == dict_word@,
                k <= self.yellow_letters@.len(),
                forall|j: int|
                    0 <= j < k ==> (#[trigger] self.yellow_letters@[j]).0 < w@.len()
                        && w@[self.yellow_letters@[j].0 as int] == self.yellow_letters@[j].1,
            decreases self.yellow_letters@.len() - k,
        {
            let (p, c) = self.yellow_letters[k];
            if p >= w.len() || w[p] != c {
                assert(self.correct().contains(self.yellow_letters@[k as int]));
                return false;
            }
            k = k + 1;
        }
        proof {
            assert forall|p: usize, c: char| #[trigger]
                self.correct().contains((p, c)) implies p < w@.len() && w@[p as int] == c by {
                let j = choose|j: int|
                    0 <= j < self.yellow_letters@.len() && self.yellow_letters@[j] == (p, c);
                assert(self.yellow_letters@[j].0 < w@.len());
            }
        }
        true
    }

    /// Whether position `p` is pinned.
    fn is_pinned(&self, p: usize) -> (r: bool)
        ensures
            r == self.pinned(p),
    {
        let mut k: usize = 0;
        while k < self.yellow_letters.len()
            invariant
                k <= self.yellow_letters@.len(),
                forall|j: int| 0 <= j < k ==> (#[trigger] self.yellow_letters@[j]).0 != p,
            decreases self.yellow_letters@.len() - k,
        {
            if self.yellow_letters[k].0 == p {
                assert(self.correct().contains((p, self.yellow_letters@[k as int].1)));
                return true;
            }
            k = k + 1;
        }
        proof {
            if self.pinned(p) {
                let c = choose|c: char| #[trigger] self.correct().contains((p, c));
                let j = choose|j: int|
                    0 <= j < self.yellow_letters@.len() && self.yellow_letters@[j] == (p, c);
                assert(self.yellow_letters@[j].0 != p);
            }
        }
        false
    }

    /// Whether the word keeps the misplaced letters off the unpinned positions
    /// they were seen at, and holds each of them somewhere.
    pub fn has_white_in_place(&self, dict_word: &str) -> (r: bool)
        ensures
            r == (self.white_apart(dict_word@) && self.white_present(dict_word@)),
    {
        let w = chars_of(dict_word);
        let mut k: usize = 0;
        while k < self.white_letters.len()
            invariant
                w@ == dict_word@,
                k <= self.white_letters@.len(),
                forall|j: int|
                    0 <= j < k && !self.pinned((#[trigger] self.white_letters@[j]).0)
                        && self.white_letters@[j].0 < w@.len() ==> w@[self.white_letters@[j].0 as int]
                        != self.white_letters@[j].1,
            decreases self.white_letters@.len() - k,
        {
            let (p, c) = self.white_letters[k];
            if p < w.len() && w[p] == c && !self.is_pinned(p) {
                assert(self.misplaced().contains(self.white_letters@[k as int]));
                return false;
            }
            k = k + 1;
        }
        assert(self.white_apart(w@)) by {
            assert forall|p: usize, c: char| #[trigger]
                self.misplaced().contains((p, c)) && !self.pinned(p) && p < w@.len() implies w@[p
                as int] != c by {
                let j = choose|j: int|
                    0 <= j < self.white_letters@.len() && self.white_letters@[j] == (p, c);
                assert(self.white_letters@[j].0 == p);
            }
        }
        let mut k: usize = 0;
        while k < self.white_letters.len()
            invariant
                w@ == dict_word@,
                k <= self.white_letters@.len(),
                self.white_apart(w@),
                forall|j: int| 0 <= j < k ==> w@.contains((#[trigger] self.white_letters@[j]).1),
            decreases self.white_letters@.len() - k,
        {
            if !contains_char(&w, self.white_letters[k].1) {
                let ghost e = self.white_letters@[k as int];
                assert(self.misplaced().contains((e.0, e.1)));
                return false;
            }
            k = k + 1;
        }
        proof {
            assert forall|p: usize, c: char| #[trigger]
                self.misplaced().contains((p, c)) implies w@.contains(c) by {
                let j = choose|j: int|
                    0 <= j < self.white_letters@.len() && self.white_letters@[j] == (p, c);
                assert(w@.contains(self.white_letters@[j].1));
            }
        }
        true
    }

    /// Whether the word is still a possible answer.
    pub fn is_matched(&self, dict_word: &str) -> (r: bool)
        ensures
            r == self.admits(dict_word@),
    {
        !(self.has_gray_letters(dict_word) || !self.has_yellow_in_place(dict_word)
            || !self.has_white_in_place(dict_word))
    }
}

pub open spec fn white_gray_message(c: char) -> Seq<char> {
    "White letter `"@.push(c) + "` has been found in grays"@
}

pub open spec fn too_many_message(n: nat) -> Seq<char> {
    "Too much unique white letters: "@ + decimal(n)
}

pub open spec fn yellow_gray_message(c: char) -> Seq<char> {
    "Yellow letter `"@.push(c) + "` has been found in grays"@
}

pub open spec fn conflict_message(c: char, p: usize) -> Seq<char> {
    "Yellow letter `"@.push(c) + "` conflicts with another yellow letter at position "@ + decimal(
        p as nat,
    )
}

/// One message for each white entry whose letter is absent, in order.
pub open spec fn white_gray_messages(white: Seq<(usize, char)>, absent: Set<char>) -> Seq<Seq<char>>
    decreases white.len(),
{
    if white.len() == 0 {
        Seq::empty()
    } else {
        let rest = white_gray_messages(white.drop_last(), absent);
        if absent.contains(white.last().1) {
            rest.push(white_gray_message(white.last().1))
        } else {
            rest
        }
    }
}

/// One message for each yellow entry whose letter is absent, in order.
pub open spec fn yellow_gray_messages(yellow: Seq<(usize, char)>, absent: Set<char>) -> Seq<
    Seq<char>,
>
    decreases yellow.len(),
{
    if yellow.len() == 0 {
        Seq::empty()
    } else {
        let rest = yellow_gray_messages(yellow.drop_last(), absent);
        if absent.contains(yellow.last().1) {
            rest.push(yellow_gray_message(yellow.last().1))
        } else {
            rest
        }
    }
}

/// Entry `k` pins its position to another letter than some earlier entry.
pub open spec fn conflicts_before(yellow: Seq<(usize, char)>, k: int) -> bool {
    exists|j: int| 0 <= j < k && yellow[j].0 == yellow[k].0 && yellow[j].1 != yellow[k].1
}

/// One message for each yellow entry that contradicts an earlier one, in order.
pub open spec fn conflict_messages(yellow: Seq<(usize, char)>) -> Seq<Seq<char>>
    decreases yellow.len(),
{
    if yellow.len() == 0 {
        Seq::empty()
    } else {
        let rest = conflict_messages(yellow.drop_last());
        if conflicts_before(yellow, yellow.len() - 1) {
            rest.push(conflict_message(yellow.last().1, yellow.last().0))
        } else {
            rest
        }
    }
}

pub open spec fn letters_of(entries: Seq<(usize, char)>) -> Set<char> {
    entries.map_values(|e: (usize, char)| e.1).to_set()
}

pub open spec fn strings_view(v: Seq<String>) -> Seq<Seq<char>> {
    v.map_values(|s: String| s@)
}

/// Every inconsistency of a state with these entries, in the order that
/// `Stat::validate` reports them.
pub open spec fn messages_of(
    yellow: Seq<(usize, char)>,
    white: Seq<(usize, char)>,
    gray: Seq<char>,
) -> Seq<Seq<char>> {
    let n = letters_of(white).len();
    white_gray_messages(white, gray.to_set()) + (if n > WORD_LEN {
        seq![too_many_message(n)]
    } else {
        Seq::empty()
    }) + yellow_gray_messages(yellow, gray.to_set()) + conflict_messages(yellow)
}

impl Stat {
    /// The distinct misplaced letters.
    pub open spec fn white_letter_set(&self) -> Set<char> {
        letters_of(self.white_letters@)
    }

    /// Every inconsistency of the state, in the order `validate` reports them.
    pub open spec fn messages(&self) -> Seq<Seq<char>> {
        messages_of(self.yellow_letters@, self.white_letters@, self.gray_letters@)
    }

    pub open spec fn consistent(&self) -> bool {
        model::consistent(self.correct(), self.misplaced(), self.absent())
    }

    /// Checks the state for contradictions and reports every one found: a
    /// misplaced letter that is absent, more distinct misplaced letters than a
    /// word has, a pinned letter that is absent, a position pinned to two
    /// letters.
    pub fn validate(&self) -> (r: (bool, Vec<String>))
        ensures
            strings_view(r.1@) == self.messages(),
            r.0 == (self.messages().len() == 0),
    {
        let mut errors: Vec<String> = Vec::new();
        let mut seen: Vec<char> = Vec::new();
        let ghost white = self.white_letters@;
        let mut k: usize = 0;
        while k < self.white_letters.len()
            invariant
                white == self.white_letters@,
                k <= white.len(),
                strings_view(errors@) == white_gray_messages(white.take(k as int), self.absent()),
                seen@.no_duplicates(),
                seen@.to_set() == letters_of(white.take(k as int)),
            decreases white.len() - k,
        {
            let c = self.white_letters[k].1;
            let ghost before = errors@;
            if contains_char(&self.gray_letters, c) {
                let m = char_message("White letter `", c, "` has been found in grays");
                proof {
                    lemma_strings_view_push(errors@, m);
                }
                errors.push(m);
            }
            let ghost seen_before = seen@;
            if !contains_char(&seen, c) {
                seen.push(c);
                proof {
                    assert forall|x: char| seen@.contains(x) == seen_before.to_set().insert(c).contains(x) by {
                        if seen_before.contains(x) {
                            let i = choose|i: int| 0 <= i < seen_before.len() && seen_before[i] == x;
                            assert(seen@[i] == x);
                        }
                        if seen@.contains(x) {
                            let i = choose|i: int| 0 <= i < seen@.len() && seen@[i] == x;
                            if i < seen_before.len() {
                                assert(seen_before[i] == x);
                            }
                        }
                        assert(seen@[seen_before.len() as int] == c);
                    }
                    assert(seen@.to_set() =~= seen_before.to_set().insert(c));
                }
            } else {
                assert(seen_before.to_set() =~= seen_before.to_set().insert(c));
            }
            proof {
                let t = white.take(k + 1);
                assert(t.drop_last() =~= white.take(k as int));
                assert(strings_view(errors@) =~= white_gray_messages(t, self.absent()));
                lemma_letters_of_push(white.take(k as int), white[k as int]);
                assert(t =~= white.take(k as int).push(white[k as int]));
                assert(seen@.to_set() =~= letters_of(t));
            }
            k = k + 1;
        }
        proof {
            assert(white.take(white.len() as int) =~= white);
            seen@.unique_seq_to_set();
        }
        let n = seen.len();
        if n > WORD_LEN {
            let mut m = String::from_str("Too much unique white letters: ");
            push_decimal(&mut m, n);
            proof {
                lemma_strings_view_push(errors@, m);
            }
            errors.push(m);
        }
        let ghost head = strings_view(errors@);
        let ghost yellow = self.yellow_letters@;
        let mut k: usize = 0;
        while k < self.yellow_letters.len()
            invariant
                yellow == self.yellow_letters@,
                k <= yellow.len(),
                strings_view(errors@) == head + yellow_gray_messages(
                    yellow.take(k as int),
                    self.absent(),
                ),
            decreases yellow.len() - k,
        {
            let c = self.yellow_letters[k].1;
            if contains_char(&self.gray_letters, c) {
                let m = char_message("Yellow letter `", c, "` has been found in grays");
                proof {
                    lemma_strings_view_push(errors@, m);
                }
                errors.push(m);
            }
            proof {
                let t = yellow.take(k + 1);
                assert(t.drop_last() =~= yellow.take(k as int));
                assert(strings_view(errors@) =~= head + yellow_gray_messages(t, self.absent()));
            }
            k = k + 1;
        }
        proof {
            assert(yellow.take(yellow.len() as int) =~= yellow);
        }
        let ghost head = strings_view(errors@);
        let mut k: usize = 0;
        while k < self.yellow_letters.len()
            invariant
                yellow == self.yellow_letters@,
                k <= yellow.len(),
                strings_view(errors@) == head + conflict_messages(yellow.take(k as int)),
            decreases yellow.len() - k,
        {
            let (p, c) = self.yellow_letters[k];
            let mut j: usize = 0;
            let mut clash = false;
            while j < k
                invariant
                    yellow == self.yellow_letters@,
                    j <= k < yellow.len(),
                    (p, c) == yellow[k as int],
                    clash == exists|i: int|
                        0 <= i < j && yellow[i].0 == p && yellow[i].1 != c,
                decreases k - j,
            {
                if self.yellow_letters[j].0 == p && self.yellow_letters[j].1 != c {
                    clash = true;
                }
                j = j + 1;
            }
            if clash {
                let mut m = char_message(
                    "Yellow letter `",
                    c,
                    "` conflicts with another yellow letter at position ",
                );
                push_decimal(&mut m, p);
                proof {
                    lemma_strings_view_push(errors@, m);
                }
                errors.push(m);
            }
            proof {
                let t = yellow.take(k + 1);
                assert(t.drop_last() =~= yellow.take(k as int));
                assert(forall|i: int| 0 <= i <= k ==> t[i] == yellow[i]);
                assert(clash == conflicts_before(t, k as int));
                assert(strings_view(errors@) =~= head + conflict_messages(t));
            }
            k = k + 1;
        }
        proof {
            assert(yellow.take(yellow.len() as int) =~= yellow);
        }
        (errors.len() == 0, errors)
    }
}

proof fn lemma_letters_of(s: Seq<(usize, char)>, c: char)
    ensures
        letters_of(s).contains(c) <==> exists|i: int| 0 <= i < s.len() && (#[trigger] s[i]).1 == c,
{
    let m = s.map_values(|e: (usize, char)| e.1);
    if letters_of(s).contains(c) {
        let i = choose|i: int| 0 <= i < m.len() && m[i] == c;
        assert(s[i].1 == c);
    }
    if exists|i: int| 0 <= i < s.len() && (#[trigger] s[i]).1 == c {
        let i = choose|i: int| 0 <= i < s.len() && (#[trigger] s[i]).1 == c;
        assert(m[i] == c);
    }
}

proof fn lemma_letters_of_push(s: Seq<(usize, char)>, e: (usize, char))
    ensures
        letters_of(s.push(e)) == letters_of(s).insert(e.1),
{
    let t = s.push(e);
    assert forall|c: char| letters_of(t).contains(c) == letters_of(s).insert(e.1).contains(c) by {
        lemma_letters_of(t, c);
        lemma_letters_of(s, c);
        if exists|i: int| 0 <= i < s.len() && (#[trigger] s[i]).1 == c {
            let i = choose|i: int| 0 <= i < s.len() && (#[trigger] s[i]).1 == c;
            assert(t[i] == s[i]);
        }
        if exists|i: int| 0 <= i < t.len() && (#[trigger] t[i]).1 == c {
            let i = choose|i: int| 0 <= i < t.len() && (#[trigger] t[i]).1 == c;
            if i < s.len() {
                assert(t[i] == s[i]);
            }
        }
        assert(t[s.len() as int] == e);
    }
    assert(letters_of(t) =~= letters_of(s).insert(e.1));
}

proof fn lemma_strings_view_push(v: Seq<String>, x: String)
    ensures
        strings_view(v.push(x)) == strings_view(v).push(x@),
{
    assert(strings_view(v.push(x)) =~= strings_view(v).push(x@));
}

proof fn lemma_letters_of_set(s: Seq<(usize, char)>)
    ensures
        letters_of(s) == model::misplaced_letters(s.to_set()),
{
    assert forall|c: char| letters_of(s).contains(c) == model::misplaced_letters(s.to_set()).contains(c) by {
        lemma_letters_of(s, c);
        if letters_of(s).contains(c) {
            let i = choose|i: int| 0 <= i < s.len() && (#[trigger] s[i]).1 == c;
            assert(s.to_set().contains(s[i]));
        }
        if model::misplaced_letters(s.to_set()).contains(c) {
            let x = choose|x: (usize, char)| s.to_set().contains(x) && c == x.1;
            let i = choose|i: int| 0 <= i < s.len() && s[i] == x;
            assert(s[i].1 == c);
        }
    }
    assert(letters_of(s) =~= model::misplaced_letters(s.to_set()));
}

proof fn lemma_white_gray_empty(w: Seq<(usize, char)>, a: Set<char>)
    ensures
        white_gray_messages(w, a).len() == 0 <==> forall|k: int|
            0 <= k < w.len() ==> !a.contains(#[trigger] w[k].1),
    decreases w.len(),
{
    if w.len() > 0 {
        lemma_white_gray_empty(w.drop_last(), a);
        assert(forall|k: int| 0 <= k < w.len() - 1 ==> w.drop_last()[k] == w[k]);
    }
}

proof fn lemma_yellow_gray_empty(y: Seq<(usize, char)>, a: Set<char>)
    ensures
        yellow_gray_messages(y, a).len() == 0 <==> forall|k: int|
            0 <= k < y.len() ==> !a.contains(#[trigger] y[k].1),
    decreases y.len(),
{
    if y.len() > 0 {
        lemma_yellow_gray_empty(y.drop_last(), a);
        assert(forall|k: int| 0 <= k < y.len() - 1 ==> y.drop_last()[k] == y[k]);
    }
}

proof fn lemma_conflicts_empty(y: Seq<(usize, char)>)
    ensures
        conflict_messages(y).len() == 0 <==> forall|i: int, j: int|
            0 <= i < y.len() && 0 <= j < y.len() && #[trigger] y[i].0 == #[trigger] y[j].0 ==> y[i].1
                == y[j].1,
    decreases y.len(),
{
    if y.len() > 0 {
        let d = y.drop_last();
        lemma_conflicts_empty(d);
        assert(forall|k: int| 0 <= k < y.len() - 1 ==> d[k] == y[k]);
        let n = y.len() - 1;
        if conflict_messages(y).len() == 0 {
            assert forall|i: int, j: int|
                0 <= i < y.len() && 0 <= j < y.len() && #[trigger] y[i].0 == #[trigger] y[j].0 implies y[i].1
                == y[j].1 by {
                if i < n && j < n {
                    assert(d[i] == y[i] && d[j] == y[j]);
                } else if i == n && j < n {
                    assert(!conflicts_before(y, n));
                } else if j == n && i < n {
                    assert(!conflicts_before(y, n));
                }
            }
        }
    }
}

/// A state with these entries has no inconsistency to report exactly when it
/// is consistent.
pub proof fn lemma_messages_consistent(y: Seq<(usize, char)>, w: Seq<(usize, char)>, g: Seq<char>)
    ensures
        messages_of(y, w, g).len() == 0 <==> model::consistent(y.to_set(), w.to_set(), g.to_set()),
{
    let a = g.to_set();
    let correct = y.to_set();
    let misplaced = w.to_set();
    lemma_white_gray_empty(w, a);
    lemma_yellow_gray_empty(y, a);
    lemma_conflicts_empty(y);
    lemma_letters_of_set(w);
    let n = letters_of(w).len();
    let mid: Seq<Seq<char>> = if n > WORD_LEN {
        seq![too_many_message(n)]
    } else {
        Seq::empty()
    };
    assert(messages_of(y, w, g).len() == white_gray_messages(w, a).len() + mid.len()
        + yellow_gray_messages(y, a).len() + conflict_messages(y).len());
    if messages_of(y, w, g).len() == 0 {
        assert forall|p: usize, c: char| #[trigger] misplaced.contains((p, c)) implies !a.contains(c) by {
            let k = choose|k: int| 0 <= k < w.len() && w[k] == (p, c);
            assert(!a.contains(w[k].1));
        }
        assert forall|p: usize, c: char| #[trigger] correct.contains((p, c)) implies !a.contains(c) by {
            let k = choose|k: int| 0 <= k < y.len() && y[k] == (p, c);
            assert(!a.contains(y[k].1));
        }
        assert forall|p: usize, c: char, d: char|
            #[trigger] correct.contains((p, c)) && #[trigger] correct.contains((p, d)) implies c
            == d by {
            let i = choose|i: int| 0 <= i < y.len() && y[i] == (p, c);
            let j = choose|j: int| 0 <= j < y.len() && y[j] == (p, d);
            assert(y[i].0 == y[j].0);
        }
    }
    if model::consistent(correct, misplaced, a) {
        assert forall|k: int| 0 <= k < w.len() implies !a.contains(#[trigger] w[k].1) by {
            assert(misplaced.contains((w[k].0, w[k].1)));
        }
        assert forall|k: int| 0 <= k < y.len() implies !a.contains(#[trigger] y[k].1) by {
            assert(correct.contains((y[k].0, y[k].1)));
        }
        assert forall|i: int, j: int|
            0 <= i < y.len() && 0 <= j < y.len() && #[trigger] y[i].0 == #[trigger] y[j].0 implies y[i].1
            == y[j].1 by {
            assert(correct.contains((y[i].0, y[i].1)));
            assert(correct.contains((y[i].0, y[j].1)));
        }
    }
}

/// Whether `c` occurs in `v`.
pub fn contains_char(v: &Vec<char>, c: char) -> (r: bool)
    ensures
        r == v@.contains(c),
{
    let mut k: usize = 0;
    while k < v.len()
        invariant
            k <= v@.len(),
            forall|j: int| 0 <= j < k ==> v@[j] != c,
        decreases v@.len() - k,
    {
        if v[k] == c {
            return true;
        }
        k = k + 1;
    }
    false
}

} // verus!
