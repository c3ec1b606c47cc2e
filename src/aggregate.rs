//! Folding attempts into one state.

use vstd::prelude::*;

use crate::letters::{Color, Letter};
use crate::stat::{messages_of, strings_view, Stat};

verus! {

/// Entries of a state: yellow `(position, letter)` pairs, white pairs, gray letters.
pub type Entries = (Seq<(usize, char)>, Seq<(usize, char)>, Seq<char>);

pub open spec fn insert_new<T>(s: Seq<T>, x: T) -> Seq<T> {
    if s.contains(x) {
        s
    } else {
        s.push(x)
    }
}

/// Records the letter seen at position `p`.
pub open spec fn note(acc: Entries, p: usize, l: Letter) -> Entries {
    match l.color {
        Color::Yellow => (insert_new(acc.0, (p, l.letter)), acc.1, acc.2),
        Color::White => (acc.0, insert_new(acc.1, (p, l.letter)), acc.2),
        Color::Gray => (acc.0, acc.1, insert_new(acc.2, l.letter)),
    }
}

/// Records the first `n` letters of attempt `a`.
pub open spec fn note_attempt(acc: Entries, a: Seq<Letter>, n: nat) -> Entries
    decreases n,
{
    if n == 0 || n > a.len() {
        acc
    } else {
        note(note_attempt(acc, a, (n - 1) as nat), (n - 1) as usize, a[n - 1])
    }
}

/// The entries that the attempts give, in the order they are first seen.
pub open spec fn tally(words: Seq<Seq<Letter>>) -> Entries
    decreases words.len(),
{
    if words.len() == 0 {
        (Seq::empty(), Seq::empty(), Seq::empty())
    } else {
        note_attempt(tally(words.drop_last()), words.last(), words.last().len())
    }
}

pub open spec fn attempts_view(words: Seq<Vec<Letter>>) -> Seq<Seq<Letter>> {
    words.map_values(|a: Vec<Letter>| a@)
}

pub open spec fn entries_of(st: Stat) -> Entries {
    (st.yellow_letters@, st.white_letters@, st.gray_letters@)
}

/// Pairs `(position, letter)` marked with `color` among the first `n` letters of `a`.
pub open spec fn marks(a: Seq<Letter>, n: nat, color: Color) -> Set<(usize, char)> {
    Set::new(
        |e: (usize, char)|
            e.0 < n && e.0 < a.len() && a[e.0 as int] == Letter { color, letter: e.1 },
    )
}

/// Letters marked gray among the first `n` letters of `a`.
pub open spec fn gray_marks(a: Seq<Letter>, n: nat) -> Set<char> {
    Set::new(
        |c: char|
            exists|p: int| 0 <= p < n && p < a.len() && a[p] == Letter { color: Color::Gray, letter: c },
    )
}

proof fn lemma_insert_new_set<T>(s: Seq<T>, x: T)
    ensures
        insert_new(s, x).to_set() == s.to_set().insert(x),
{
    if !s.contains(x) {
        assert forall|y: T| s.push(x).contains(y) == s.to_set().insert(x).contains(y) by {
            if s.contains(y) {
                let i = choose|i: int| 0 <= i < s.len() && s[i] == y;
                assert(s.push(x)[i] == y);
            }
            if s.push(x).contains(y) {
                let i = choose|i: int| 0 <= i < s.len() + 1 && s.push(x)[i] == y;
                if i < s.len() {
                    assert(s[i] == y);
                }
            }
            assert(s.push(x)[s.len() as int] == x);
        }
    }
    assert(insert_new(s, x).to_set() =~= s.to_set().insert(x));
}

/// Recording the first `n` letters of an attempt adds exactly their marks.
pub proof fn lemma_note_attempt_sets(acc: Entries, a: Seq<Letter>, n: nat)
    requires
        n <= a.len(),
        a.len() <= usize::MAX,
    ensures
        note_attempt(acc, a, n).0.to_set() == acc.0.to_set().union(marks(a, n, Color::Yellow)),
        note_attempt(acc, a, n).1.to_set() == acc.1.to_set().union(marks(a, n, Color::White)),
        note_attempt(acc, a, n).2.to_set() == acc.2.to_set().union(gray_marks(a, n)),
    decreases n,
{
    if n == 0 {
        assert(marks(a, n, Color::Yellow) =~= Set::empty());
        assert(marks(a, n, Color::White) =~= Set::empty());
        assert(gray_marks(a, n) =~= Set::empty());
        assert(acc.0.to_set().union(Set::empty()) =~= acc.0.to_set());
        assert(acc.1.to_set().union(Set::empty()) =~= acc.1.to_set());
        assert(acc.2.to_set().union(Set::empty()) =~= acc.2.to_set());
    } else {
        let m = (n - 1) as nat;
        lemma_note_attempt_sets(acc, a, m);
        let prev = note_attempt(acc, a, m);
        let p = m as usize;
        let l = a[m as int];
        assert(p as int == m);
        lemma_insert_new_set(prev.0, (p, l.letter));
        lemma_insert_new_set(prev.1, (p, l.letter));
        lemma_insert_new_set(prev.2, l.letter);
        let yes = |col: Color| if l.color == col {
            marks(a, m, col).insert((p, l.letter))
        } else {
            marks(a, m, col)
        };
        assert(marks(a, n, Color::Yellow) =~= yes(Color::Yellow));
        assert(marks(a, n, Color::White) =~= yes(Color::White));
        assert forall|c: char| gray_marks(a, n).contains(c) == (if l.color == Color::Gray {
            gray_marks(a, m).insert(l.letter)
        } else {
            gray_marks(a, m)
        }).contains(c) by {
            if gray_marks(a, n).contains(c) {
                let q = choose|q: int|
                    0 <= q < n && q < a.len() && a[q] == Letter { color: Color::Gray, letter: c };
                if q < m {
                    assert(gray_marks(a, m).contains(c));
                }
            }
            if gray_marks(a, m).contains(c) {
                let q = choose|q: int|
                    0 <= q < m && q < a.len() && a[q] == Letter { color: Color::Gray, letter: c };
                assert(gray_marks(a, n).contains(c));
            }
            if l.color == Color::Gray && c == l.letter {
                assert(a[m as int] == Letter { color: Color::Gray, letter: c });
            }
        }
        assert(gray_marks(a, n) =~= (if l.color == Color::Gray {
            gray_marks(a, m).insert(l.letter)
        } else {
            gray_marks(a, m)
        }));
        assert(note_attempt(acc, a, n).0.to_set() =~= acc.0.to_set().union(marks(a, n, Color::Yellow)));
        assert(note_attempt(acc, a, n).1.to_set() =~= acc.1.to_set().union(marks(a, n, Color::White)));
        assert(note_attempt(acc, a, n).2.to_set() =~= acc.2.to_set().union(gray_marks(a, n)));
    }
}

fn insert_pair(v: &mut Vec<(usize, char)>, e: (usize, char))
    ensures
        final(v)@ == insert_new(old(v)@, e),
{
    let mut k: usize = 0;
    while k < v.len()
        invariant
            k <= v@.len(),
            forall|j: int| 0 <= j < k ==> v@[j] != e,
        decreases v@.len() - k,
    {
        if v[k].0 == e.0 && v[k].1 == e.1 {
            assert(v@[k as int] == e);
            return;
        }
        k = k + 1;
    }
    v.push(e);
}

fn insert_letter(v: &mut Vec<char>, c: char)
    ensures
        final(v)@ == insert_new(old(v)@, c),
{
    let mut k: usize = 0;
    while k < v.len()
        invariant
            k <= v@.len(),
            forall|j: int| 0 <= j < k ==> v@[j] != c,
        decreases v@.len() - k,
    {
        if v[k] == c {
            return;
        }
        k = k + 1;
    }
    v.push(c);
}

/// Folds the attempts into one state and validates it.
///
/// A yellow letter pins its position, a white letter is excluded from its
/// position, a gray letter is absent; an entry already recorded is not
/// recorded twice. The state is returned if it is consistent, else every
/// message of `Stat::validate`.
pub fn get_letters_stat(words: Vec<Vec<Letter>>) -> (r: Result<Stat, Vec<String>>)
    ensures
        match r {
            Ok(st) => entries_of(st) == tally(attempts_view(words@)) && st.messages().len() == 0,
            Err(m) => {
                let t = tally(attempts_view(words@));
                &&& strings_view(m@) == messages_of(t.0, t.1, t.2)
                &&& m@.len() > 0
            },
        },
{
    let ghost ws = attempts_view(words@);
    let mut yellow: Vec<(usize, char)> = Vec::new();
    let mut white: Vec<(usize, char)> = Vec::new();
    let mut gray: Vec<char> = Vec::new();
    let mut i: usize = 0;
    while i < words.len()
        invariant
            ws == attempts_view(words@),
            i <= words@.len(),
            (yellow@, white@, gray@) == tally(ws.take(i as int)),
        decreases words@.len() - i,
    {
        let attempt = &words[i];
        let ghost acc = (yellow@, white@, gray@);
        let mut j: usize = 0;
        while j < attempt.len()
            invariant
                ws == attempts_view(words@),
                i < words@.len(),
                *attempt == words@[i as int],
                j <= attempt@.len(),
                (yellow@, white@, gray@) == note_attempt(acc, attempt@, j as nat),
            decreases attempt@.len() - j,
        {
            let l = attempt[j];
            match l.color {
                Color::Yellow => insert_pair(&mut yellow, (j, l.letter)),
                Color::White => insert_pair(&mut white, (j, l.letter)),
                Color::Gray => insert_letter(&mut gray, l.letter),
            }
            j = j + 1;
        }
        proof {
            let t = ws.take(i + 1);
            assert(t.drop_last() =~= ws.take(i as int));
            assert(t.last() == attempt@);
        }
        i = i + 1;
    }
    proof {
        assert(ws.take(words@.len() as int) =~= ws);
    }
    let st = Stat { yellow_letters: yellow, white_letters: white, gray_letters: gray };
    let (ok, errors) = st.validate();
    if ok {
        Ok(st)
    } else {
        Err(errors)
    }
}

} // verus!
