//! Starter words for a game with no attempt yet.

use vstd::prelude::*;
use vstd::seq_lib::seq_to_set_distributes_over_add;

use crate::letters::{chars_of, WORD_LEN};
use crate::stat::contains_char;

verus! {

/// How many starter words are offered at most.
pub const STARTER_COUNT: usize = 5;

/// `w` has five letters, no two the same.
pub open spec fn distinct_five(w: Seq<char>) -> bool {
    w.len() == WORD_LEN && w.no_duplicates()
}

/// `w` has five distinct letters, none of them in `seen`.
pub open spec fn fresh(w: Seq<char>, seen: Set<char>) -> bool {
    distinct_five(w) && forall|i: int| 0 <= i < w.len() ==> !seen.contains(#[trigger] w[i])
}

/// The indices of the words taken when the dictionary is read in `order`: a
/// word is taken if its five letters are distinct and new, until `room` words
/// are taken.
pub open spec fn greedy(dict: Seq<String>, order: Seq<usize>, seen: Set<char>, room: nat) -> Seq<
    usize,
>
    decreases order.len(),
{
    if order.len() == 0 || room == 0 {
        Seq::empty()
    } else {
        let w = dict[order[0] as int]@;
        if fresh(w, seen) {
            seq![order[0]] + greedy(dict, order.drop_first(), seen.union(w.to_set()), (room - 1) as nat)
        } else {
            greedy(dict, order.drop_first(), seen, room)
        }
    }
}

/// The words at these indices share no letter, two by two.
pub open spec fn apart(dict: Seq<String>, g: Seq<usize>) -> bool {
    forall|j: int, k: int, c: char|
        0 <= j < g.len() && 0 <= k < g.len() && j != k && #[trigger] dict[g[j] as int]@.contains(c)
            ==> !#[trigger] dict[g[k] as int]@.contains(c)
}

/// Relies on rand's `SliceRandom::shuffle` with the thread-local generator:
/// the items are permuted in place, by swaps. Nothing is promised of the
/// order. (`thread_rng` fails only where the system gives no entropy.)
#[verifier::external_body]
fn shuffle(v: &mut Vec<usize>)
    ensures
        final(v)@.to_multiset() == old(v)@.to_multiset(),
{
    rand::seq::SliceRandom::shuffle(v.as_mut_slice(), &mut rand::thread_rng());
}

/// Whether `w` has five distinct letters, none of them in `seen`.
fn is_fresh(w: &Vec<char>, seen: &Vec<char>) -> (r: bool)
    ensures
        r == fresh(w@, seen@.to_set()),
{
    if w.len() != WORD_LEN {
        return false;
    }
    let mut i: usize = 0;
    while i < w.len()
        invariant
            w@.len() == WORD_LEN,
            i <= w@.len(),
            forall|a: int, b: int| 0 <= a < i && 0 <= b < i && a != b ==> w@[a] != w@[b],
            forall|a: int| 0 <= a < i ==> !seen@.to_set().contains(#[trigger] w@[a]),
        decreases w@.len() - i,
    {
        if contains_char(seen, w[i]) {
            return false;
        }
        let mut j: usize = 0;
        while j < i
            invariant
                i < w@.len(),
                j <= i,
                forall|b: int| 0 <= b < j ==> w@[b] != w@[i as int],
            decreases i - j,
        {
            if w[j] == w[i] {
                return false;
            }
            j = j + 1;
        }
        i = i + 1;
    }
    true
}

/// The starter words when the dictionary is read in `order`: each word of
/// five distinct letters that shares no letter with the words taken before
/// it, up to `STARTER_COUNT` words.
pub fn pick_starters(dictionary: &Vec<String>, order: &Vec<usize>) -> (r: Vec<String>)
    requires
        forall|i: int| 0 <= i < order@.len() ==> order@[i] < dictionary@.len(),
    ensures
        ({
            let g = greedy(dictionary@, order@, Set::empty(), STARTER_COUNT as nat);
            &&& r@.len() == g.len()
            &&& forall|k: int| 0 <= k < g.len() ==> r@[k] == dictionary@[g[k] as int]
        }),
{
    let ghost d = dictionary@;
    let ghost o = order@;
    let ghost all = greedy(d, o, Set::empty(), STARTER_COUNT as nat);
    let n = order.len();
    let mut r: Vec<String> = Vec::new();
    let mut seen: Vec<char> = Vec::new();
    let ghost mut picked: Seq<usize> = Seq::empty();
    let mut i: usize = 0;
    proof {
        assert(o.subrange(0, n as int) =~= o);
        assert(seen@.to_set() =~= Set::<char>::empty());
    }
    while i < n && r.len() < STARTER_COUNT
        invariant
            d == dictionary@,
            o == order@,
            n == o.len(),
            forall|j: int| 0 <= j < o.len() ==> o[j] < d.len(),
            i <= n,
            r@.len() == picked.len() <= STARTER_COUNT,
            forall|k: int| 0 <= k < picked.len() ==> r@[k] == d[picked[k] as int],
            all == picked + greedy(
                d,
                o.subrange(i as int, n as int),
                seen@.to_set(),
                (STARTER_COUNT - r@.len()) as nat,
            ),
        decreases n - i,
    {
        let idx = order[i];
        let w = chars_of(dictionary[idx].as_str());
        let ghost rest = o.subrange(i as int, n as int);
        proof {
            assert(rest.drop_first() =~= o.subrange(i + 1, n as int));
            assert(rest[0] == idx);
        }
        if is_fresh(&w, &seen) {
            let ghost before = seen@;
            let mut k: usize = 0;
            while k < w.len()
                invariant
                    k <= w@.len(),
                    seen@ == before + w@.take(k as int),
                decreases w@.len() - k,
            {
                seen.push(w[k]);
                proof {
                    assert(w@.take(k + 1) =~= w@.take(k as int).push(w@[k as int]));
                    assert(seen@ =~= before + w@.take(k + 1));
                }
                k = k + 1;
            }
            proof {
                assert(w@.take(w@.len() as int) =~= w@);
                seq_to_set_distributes_over_add(before, w@);
                assert(picked.push(idx) + greedy(d, o.subrange(i + 1, n as int), seen@.to_set(), (STARTER_COUNT - r@.len() - 1) as nat)
                    =~= picked + (seq![idx] + greedy(d, o.subrange(i + 1, n as int), seen@.to_set(), (STARTER_COUNT - r@.len() - 1) as nat)));
                picked = picked.push(idx);
            }
            r.push(dictionary[idx].clone());
        }
        i = i + 1;
    }
    proof {
        assert(picked + Seq::<usize>::empty() =~= picked);
    }
    r
}

/// Every word of `r` is a word of `dict` with five distinct letters, no two
/// words of `r` share a letter, there are at most `STARTER_COUNT` of them, and
/// there is one at least wherever `dict` has a word of five distinct letters.
pub open spec fn starters_ok(dict: Seq<String>, r: Seq<String>) -> bool {
    &&& r.len() <= STARTER_COUNT
    &&& forall|k: int| 0 <= k < r.len() ==> dict.contains(#[trigger] r[k])
    &&& forall|k: int| 0 <= k < r.len() ==> distinct_five(#[trigger] r[k]@)
    &&& forall|j: int, k: int, c: char|
        0 <= j < r.len() && 0 <= k < r.len() && j != k && #[trigger] r[j]@.contains(c)
            ==> !#[trigger] r[k]@.contains(c)
    &&& (exists|k: int| 0 <= k < dict.len() && distinct_five(#[trigger] dict[k]@)) ==> r.len() > 0
}

proof fn lemma_greedy(dict: Seq<String>, order: Seq<usize>, seen: Set<char>, room: nat)
    requires
        forall|i: int| 0 <= i < order.len() ==> order[i] < dict.len(),
    ensures
        ({
            let g = greedy(dict, order, seen, room);
            &&& g.len() <= room
            &&& forall|k: int| 0 <= k < g.len() ==> #[trigger] g[k] < dict.len()
            &&& forall|k: int| 0 <= k < g.len() ==> fresh(dict[#[trigger] g[k] as int]@, seen)
            &&& apart(dict, g)
        }),
    decreases order.len(),
{
    if order.len() > 0 && room > 0 {
        let o = order.drop_first();
        let w = dict[order[0] as int]@;
        if fresh(w, seen) {
            let u = seen.union(w.to_set());
            lemma_greedy(dict, o, u, (room - 1) as nat);
            let t = greedy(dict, o, u, (room - 1) as nat);
            let g = greedy(dict, order, seen, room);
            assert(g == seq![order[0]] + t);
            assert forall|k: int| 0 <= k < g.len() implies #[trigger] g[k] < dict.len() && fresh(
                dict[g[k] as int]@,
                seen,
            ) by {
                if k > 0 {
                    assert(g[k] == t[k - 1]);
                    assert(fresh(dict[t[k - 1] as int]@, u));
                }
            }
            assert forall|j: int, k: int, c: char|
                0 <= j < g.len() && 0 <= k < g.len() && j != k && #[trigger] dict[g[j] as int]@.contains(
                    c,
                ) implies !#[trigger] dict[g[k] as int]@.contains(c) by {
                if j > 0 && k > 0 {
                    assert(g[j] == t[j - 1] && g[k] == t[k - 1]);
                } else if j == 0 {
                    assert(g[k] == t[k - 1]);
                    let x = dict[t[k - 1] as int]@;
                    assert(u.contains(c));
                    if x.contains(c) {
                        let i = choose|i: int| 0 <= i < x.len() && x[i] == c;
                        assert(!u.contains(x[i]));
                    }
                } else {
                    assert(g[j] == t[j - 1]);
                    let x = dict[t[j - 1] as int]@;
                    let i = choose|i: int| 0 <= i < x.len() && x[i] == c;
                    assert(!u.contains(x[i]));
                }
            }
        } else {
            lemma_greedy(dict, o, seen, room);
        }
    }
}

proof fn lemma_greedy_nonempty(dict: Seq<String>, order: Seq<usize>, room: nat, i: int)
    requires
        room > 0,
        0 <= i < order.len(),
        distinct_five(dict[order[i] as int]@),
    ensures
        greedy(dict, order, Set::empty(), room).len() > 0,
    decreases order.len(),
{
    let w = dict[order[0] as int]@;
    if !fresh(w, Set::empty()) {
        assert(i != 0);
        assert(order.drop_first()[i - 1] == order[i]);
        lemma_greedy_nonempty(dict, order.drop_first(), room, i - 1);
    }
}

/// A handful of words to open with: the dictionary is read in a random order
/// and each word of five distinct letters that shares no letter with the words
/// taken before it is taken, up to `STARTER_COUNT` words.
pub fn suggest_words(dictionary: &Vec<String>) -> (r: Vec<String>)
    ensures
        starters_ok(dictionary@, r@),
{
    let mut order: Vec<usize> = Vec::new();
    let n = dictionary.len();
    let mut k: usize = 0;
    while k < n
        invariant
            n == dictionary@.len(),
            k <= n,
            order@ == Seq::new(k as nat, |j: int| j as usize),
        decreases n - k,
    {
        order.push(k);
        proof {
            assert(order@ =~= Seq::new((k + 1) as nat, |j: int| j as usize));
        }
        k = k + 1;
    }
    let ghost ids = order@;
    shuffle(&mut order);
    proof {
        broadcast use vstd::seq_lib::to_multiset_contains;
        assert forall|i: int| 0 <= i < order@.len() implies order@[i] < dictionary@.len() by {
            assert(order@.to_multiset().count(order@[i]) > 0);
            assert(ids.contains(order@[i]));
        }
    }
    let r = pick_starters(dictionary, &order);
    proof {
        let d = dictionary@;
        let g = greedy(d, order@, Set::empty(), STARTER_COUNT as nat);
        lemma_greedy(d, order@, Set::empty(), STARTER_COUNT as nat);
        assert forall|k: int| 0 <= k < r@.len() implies d.contains(#[trigger] r@[k]) && distinct_five(
            r@[k]@,
        ) by {
            assert(r@[k] == d[g[k] as int]);
            assert(g[k] < d.len());
        }
        assert forall|j: int, k: int, c: char|
            0 <= j < r@.len() && 0 <= k < r@.len() && j != k && #[trigger] r@[j]@.contains(c)
                implies !#[trigger] r@[k]@.contains(c) by {
            assert(r@[j] == d[g[j] as int] && r@[k] == d[g[k] as int]);
        }
        if exists|k: int| 0 <= k < d.len() && distinct_five(#[trigger] d[k]@) {
            broadcast use vstd::seq_lib::to_multiset_contains;
            let k = choose|k: int| 0 <= k < d.len() && distinct_five(#[trigger] d[k]@);
            assert(ids[k] == k as usize);
            assert(ids.to_multiset().count(k as usize) > 0);
            let i = choose|i: int| 0 <= i < order@.len() && order@[i] == k as usize;
            lemma_greedy_nonempty(d, order@, STARTER_COUNT as nat, i);
        }
    }
    r
}

} // verus!
