//! Filtering the dictionary, and what holds of the words it returns.

use vstd::prelude::*;

use crate::aggregate::{
    attempts_view, entries_of, get_letters_stat, lemma_note_attempt_sets, note_attempt, tally, Entries,
};
use crate::letters::Letter;
use crate::model;
use crate::stat::{lemma_messages_consistent, messages_of, strings_view, Stat};
use crate::suggest::{starters_ok, suggest_words};

verus! {

/// The words of `dict` that the entries admit, in dictionary order.
pub open spec fn matching(dict: Seq<String>, e: Entries) -> Seq<String> {
    dict.filter(|s: String| model::admits(e.0.to_set(), e.1.to_set(), e.2.to_set(), s@))
}

/// The words that remain after the attempts, or `None` where the attempts
/// contradict each other.
pub open spec fn outcome(dict: Seq<String>, words: Seq<Seq<Letter>>) -> Option<Seq<String>> {
    let e = tally(words);
    if model::consistent(e.0.to_set(), e.1.to_set(), e.2.to_set()) {
        Some(matching(dict, e))
    } else {
        None
    }
}

/// The words of the dictionary that the state admits, in dictionary order.
pub fn find_matches(stats: &Stat, dictionary: &Vec<String>) -> (r: Vec<String>)
    ensures
        r@ == matching(dictionary@, entries_of(*stats)),
{
    let ghost e = entries_of(*stats);
    let ghost pred = |s: String| model::admits(e.0.to_set(), e.1.to_set(), e.2.to_set(), s@);
    let mut r: Vec<String> = Vec::new();
    let mut i: usize = 0;
    while i < dictionary.len()
        invariant
            e == entries_of(*stats),
            pred == (|s: String| model::admits(e.0.to_set(), e.1.to_set(), e.2.to_set(), s@)),
            i <= dictionary@.len(),
            r@ == dictionary@.take(i as int).filter(pred),
        decreases dictionary@.len() - i,
    {
        let ghost t = dictionary@.take(i + 1);
        proof {
            assert(t =~= dictionary@.take(i as int).push(dictionary@[i as int]));
            dictionary@.take(i as int).lemma_filter_push(dictionary@[i as int], pred);
        }
        let ok = stats.is_matched(dictionary[i].as_str());
        proof {
            assert(ok == pred(dictionary@[i as int]));
        }
        if ok {
            let w = dictionary[i].clone();
            r.push(w);
            proof {
                assert(r@ =~= t.filter(pred));
            }
        }
        i = i + 1;
    }
    proof {
        assert(dictionary@.take(dictionary@.len() as int) =~= dictionary@);
    }
    r
}

/// The words of the dictionary that remain possible after the attempts.
///
/// With no attempt, the starter words of `suggest_words`. Otherwise the
/// attempts are folded into one state: if it is consistent, the words it
/// admits, in dictionary order; if not, every inconsistency found.
pub fn guess_word(dictionary: &Vec<String>, words: Vec<Vec<Letter>>) -> (r: Result<
    Vec<String>,
    Vec<String>,
>)
    ensures
        words@.len() == 0 ==> (r matches Ok(v) && starters_ok(dictionary@, v@)),
        words@.len() > 0 ==> match r {
            Ok(v) => outcome(dictionary@, attempts_view(words@)) == Some(v@),
            Err(m) => {
                let t = tally(attempts_view(words@));
                &&& outcome(dictionary@, attempts_view(words@)) is None
                &&& strings_view(m@) == messages_of(t.0, t.1, t.2)
                &&& m@.len() > 0
            },
        },
{
    if words.len() == 0 {
        return Ok(suggest_words(dictionary));
    }
    match get_letters_stat(words) {
        Ok(st) => {
            proof {
                lemma_messages_consistent(
                    st.yellow_letters@,
                    st.white_letters@,
                    st.gray_letters@,
                );
            }
            Ok(find_matches(&st, dictionary))
        },
        Err(m) => {
            proof {
                let t = tally(attempts_view(words@));
                lemma_messages_consistent(t.0, t.1, t.2);
            }
            Err(m)
        },
    }
}

proof fn lemma_filter_twice<A>(s: Seq<A>, pred: spec_fn(A) -> bool)
    ensures
        s.filter(pred).filter(pred) == s.filter(pred),
    decreases s.len(),
{
    if s.len() > 0 {
        let d = s.drop_last();
        lemma_filter_twice(d, pred);
        assert(s =~= d.push(s.last()));
        d.lemma_filter_push(s.last(), pred);
        d.filter(pred).lemma_filter_push(s.last(), pred);
    }
}

/// A word that the entries let through is a word of the dictionary and is admitted.
proof fn lemma_matching_admits(dict: Seq<String>, e: Entries, w: String)
    requires
        matching(dict, e).contains(w),
    ensures
        dict.contains(w),
        model::admits(e.0.to_set(), e.1.to_set(), e.2.to_set(), w@),
{
    let pred = |s: String| model::admits(e.0.to_set(), e.1.to_set(), e.2.to_set(), s@);
    let i = choose|i: int| 0 <= i < dict.filter(pred).len() && dict.filter(pred)[i] == w;
    dict.lemma_filter_pred(pred, i);
    dict.lemma_filter_contains_rev(pred, w);
}

/// Filtering the words that a state let through, by the same state, gives them
/// back unchanged.
pub proof fn lemma_refilter(stats: &Stat, dictionary: Seq<String>)
    ensures
        matching(matching(dictionary, entries_of(*stats)), entries_of(*stats)) == matching(
            dictionary,
            entries_of(*stats),
        ),
{
    let e = entries_of(*stats);
    lemma_filter_twice(
        dictionary,
        |s: String| model::admits(e.0.to_set(), e.1.to_set(), e.2.to_set(), s@),
    );
}

/// No word that is let through holds an absent letter.
pub proof fn lemma_absent_excluded(stats: &Stat, dictionary: Seq<String>, w: String, c: char)
    requires
        matching(dictionary, entries_of(*stats)).contains(w),
        stats.absent().contains(c),
    ensures
        !w@.contains(c),
{
    lemma_matching_admits(dictionary, entries_of(*stats), w);
}

/// Every word that is let through has each pinned letter at its position.
pub proof fn lemma_pinned_kept(stats: &Stat, dictionary: Seq<String>, w: String, p: usize, c: char)
    requires
        matching(dictionary, entries_of(*stats)).contains(w),
        stats.correct().contains((p, c)),
    ensures
        p < w@.len(),
        w@[p as int] == c,
{
    lemma_matching_admits(dictionary, entries_of(*stats), w);
}

/// No word that is let through has a misplaced letter at a position it was
/// excluded from, unless that same letter is also pinned there.
pub proof fn lemma_misplaced_moved(
    stats: &Stat,
    dictionary: Seq<String>,
    w: String,
    p: usize,
    c: char,
)
    requires
        matching(dictionary, entries_of(*stats)).contains(w),
        stats.misplaced().contains((p, c)),
        !stats.correct().contains((p, c)),
    ensures
        p < w@.len() ==> w@[p as int] != c,
{
    lemma_matching_admits(dictionary, entries_of(*stats), w);
    if stats.pinned(p) {
        let d = choose|d: char| #[trigger] stats.correct().contains((p, d));
        assert(w@[p as int] == d);
    }
}

/// Every word that is let through holds each misplaced letter somewhere.
pub proof fn lemma_misplaced_present(
    stats: &Stat,
    dictionary: Seq<String>,
    w: String,
    p: usize,
    c: char,
)
    requires
        matching(dictionary, entries_of(*stats)).contains(w),
        stats.misplaced().contains((p, c)),
    ensures
        w@.contains(c),
{
    lemma_matching_admits(dictionary, entries_of(*stats), w);
}

/// Two attempts give the same result in either order.
pub proof fn lemma_attempt_order(dictionary: Seq<String>, a: Seq<Letter>, b: Seq<Letter>)
    requires
        a.len() <= usize::MAX,
        b.len() <= usize::MAX,
    ensures
        outcome(dictionary, seq![a, b]) == outcome(dictionary, seq![b, a]),
{
    let none: Entries = (Seq::empty(), Seq::empty(), Seq::empty());
    assert(seq![a, b].drop_last() =~= seq![a]);
    assert(seq![b, a].drop_last() =~= seq![b]);
    assert(seq![a].drop_last() =~= Seq::<Seq<Letter>>::empty());
    assert(seq![b].drop_last() =~= Seq::<Seq<Letter>>::empty());
    assert(tally(Seq::<Seq<Letter>>::empty()) == none);
    assert(seq![a].last() == a && seq![b].last() == b);
    assert(seq![a, b].last() == b && seq![b, a].last() == a);
    let ea = note_attempt_of(none, a);
    let eb = note_attempt_of(none, b);
    assert(tally(seq![a]) == ea);
    assert(tally(seq![b]) == eb);
    let eab = tally(seq![a, b]);
    let eba = tally(seq![b, a]);
    assert(eab == note_attempt_of(ea, b));
    assert(eba == note_attempt_of(eb, a));
    lemma_note_attempt_sets(none, a, a.len());
    lemma_note_attempt_sets(none, b, b.len());
    lemma_note_attempt_sets(ea, b, b.len());
    lemma_note_attempt_sets(eb, a, a.len());
    assert(eab.0.to_set() =~= eba.0.to_set());
    assert(eab.1.to_set() =~= eba.1.to_set());
    assert(eab.2.to_set() =~= eba.2.to_set());
}

spec fn note_attempt_of(acc: Entries, a: Seq<Letter>) -> Entries {
    note_attempt(acc, a, a.len())
}

} // verus!
