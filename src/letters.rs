//! Attempts as the game reports them, and their text encoding.
//!
//! An attempt is written with one unit per letter: a bare letter, or a letter
//! after one of the markers `^` (absent), `?` (present elsewhere) or `=` (in
//! place). A bare letter is absent. No other encoding is accepted.

use vstd::prelude::*;

verus! {

/// Feedback colour of one letter of a guess.
#[derive(Clone, Copy, Debug, PartialEq, Eq, Structural)]
pub enum Color {
    /// The letter does not occur in the answer.
    Gray,
    /// The letter occurs in the answer, but not at this position.
    White,
    /// The letter stands at this position in the answer.
    Yellow,
}

/// One letter of a guess with the colour it got.
#[derive(Clone, Copy, Debug, PartialEq, Eq, Structural)]
pub struct Letter {
    pub color: Color,
    pub letter: char,
}

/// Why an encoded attempt could not be decoded.
#[derive(Clone, Copy, Debug, PartialEq, Eq, Structural)]
pub enum FormatError {
    /// Some character is neither a letter nor a marker followed by a letter.
    Malformed,
    /// The attempt decodes, but into this many letters instead of five.
    WrongCount { letters: usize },
}

/// Number of letters in a word of the game.
pub const WORD_LEN: usize = 5;

/// Whether `c` has the Unicode `Alphabetic` property.
pub uninterp spec fn alphabetic(c: char) -> bool;

/// Relies on `char::is_alphabetic`: whether the character is alphabetic.
#[verifier::external_body]
fn is_alphabetic(c: char) -> (r: bool)
    ensures
        r == alphabetic(c),
{
    c.is_alphabetic()
}

pub open spec fn is_marker(c: char) -> bool {
    c == '^' || c == '?' || c == '='
}

pub open spec fn marker_color(c: char) -> Color {
    if c == '?' {
        Color::White
    } else if c == '=' {
        Color::Yellow
    } else {
        Color::Gray
    }
}

pub open spec fn prepend(p: Seq<Letter>, rest: Option<Seq<Letter>>) -> Option<Seq<Letter>> {
    match rest {
        Some(t) => Some(p + t),
        None => None,
    }
}

/// The letters an encoded attempt stands for, read unit by unit from the
/// front, where `alpha[i]` tells whether `s[i]` is a letter: a bare letter is
/// gray; `^`, `?` or `=` followed by a letter gives that letter gray, white or
/// yellow. `None` where some unit is neither.
pub open spec fn decode(s: Seq<char>, alpha: Seq<bool>) -> Option<Seq<Letter>>
    decreases s.len(),
{
    if s.len() == 0 {
        Some(Seq::empty())
    } else if alpha[0] {
        prepend(
            seq![Letter { color: Color::Gray, letter: s[0] }],
            decode(s.drop_first(), alpha.drop_first()),
        )
    } else if is_marker(s[0]) && s.len() >= 2 && alpha[1] {
        prepend(
            seq![Letter { color: marker_color(s[0]), letter: s[1] }],
            decode(s.subrange(2, s.len() as int), alpha.subrange(2, alpha.len() as int)),
        )
    } else {
        None
    }
}

/// The result of decoding an encoded attempt.
pub open spec fn parse_result(s: Seq<char>, alpha: Seq<bool>) -> Result<Seq<Letter>, FormatError> {
    match decode(s, alpha) {
        None => Err(FormatError::Malformed),
        Some(l) => if l.len() == WORD_LEN {
            Ok(l)
        } else {
            Err(FormatError::WrongCount { letters: l.len() as usize })
        },
    }
}

/// Which characters of `s` are alphabetic.
pub open spec fn alphabetic_flags(s: Seq<char>) -> Seq<bool> {
    s.map_values(|c: char| alphabetic(c))
}

/// The result of decoding the encoded attempt `s`.
pub open spec fn parse(s: Seq<char>) -> Result<Seq<Letter>, FormatError> {
    parse_result(s, alphabetic_flags(s))
}

proof fn lemma_push_concat(p: Seq<Letter>, l: Letter, t: Seq<Letter>)
    ensures
        p + (seq![l] + t) == p.push(l) + t,
{
    let one = seq![l];
    assert(one.len() == 1 && one[0] == l);
    assert(p + (one + t) =~= p.push(l) + t);
}

/// The characters of a string, in order.
pub fn chars_of(s: &str) -> (r: Vec<char>)
    ensures
        r@ == s@,
{
    let mut r: Vec<char> = Vec::new();
    for c in it: s.chars()
        invariant
            r@ == it.seq().take(it.index() as int),
    {
        r.push(c);
    }
    r
}

/// Decodes the characters of an attempt into its five letters, where
/// `alpha[i]` tells whether `chars[i]` is a letter.
pub fn letters_from(chars: &Vec<char>, alpha: &Vec<bool>) -> (r: Result<Vec<Letter>, FormatError>)
    requires
        alpha@.len() == chars@.len(),
    ensures
        match r {
            Ok(v) => parse_result(chars@, alpha@) == Ok::<Seq<Letter>, FormatError>(v@),
            Err(e) => parse_result(chars@, alpha@) == Err::<Seq<Letter>, FormatError>(e),
        },
{
    let ghost s = chars@;
    let ghost f = alpha@;
    let n = chars.len();
    let mut res: Vec<Letter> = Vec::new();
    let mut i: usize = 0;
    proof {
        assert(s.subrange(0, n as int) =~= s);
        assert(f.subrange(0, n as int) =~= f);
    }
    while i < n
        invariant
            chars@ == s,
            alpha@ == f,
            n == s.len(),
            n == f.len(),
            i <= n,
            decode(s, f) == prepend(
                res@,
                decode(s.subrange(i as int, n as int), f.subrange(i as int, n as int)),
            ),
        decreases n - i,
    {
        let ghost rest = s.subrange(i as int, n as int);
        let ghost frest = f.subrange(i as int, n as int);
        let c = chars[i];
        if alpha[i] {
            let l = Letter { color: Color::Gray, letter: c };
            proof {
                assert(rest.drop_first() =~= s.subrange(i + 1, n as int));
                assert(frest.drop_first() =~= f.subrange(i + 1, n as int));
                match decode(rest.drop_first(), frest.drop_first()) {
                    Some(t) => {
                        lemma_push_concat(res@, l, t);
                    },
                    None => {},
                }
            }
            res.push(l);
            i = i + 1;
        } else if (c == '^' || c == '?' || c == '=') && i + 1 < n && alpha[i + 1] {
            let color = if c == '?' {
                Color::White
            } else if c == '=' {
                Color::Yellow
            } else {
                Color::Gray
            };
            let l = Letter { color, letter: chars[i + 1] };
            proof {
                assert(rest.subrange(2, rest.len() as int) =~= s.subrange(i + 2, n as int));
                assert(frest.subrange(2, frest.len() as int) =~= f.subrange(i + 2, n as int));
                match decode(rest.subrange(2, rest.len() as int), frest.subrange(2, frest.len() as int)) {
                    Some(t) => {
                        lemma_push_concat(res@, l, t);
                    },
                    None => {},
                }
            }
            res.push(l);
            i = i + 2;
        } else {
            return Err(FormatError::Malformed);
        }
    }
    proof {
        assert(s.subrange(n as int, n as int) =~= Seq::<char>::empty());
        assert(res@ + Seq::<Letter>::empty() =~= res@);
    }
    if res.len() == WORD_LEN {
        Ok(res)
    } else {
        Err(FormatError::WrongCount { letters: res.len() })
    }
}

/// Decodes one encoded attempt into its five letters.
///
/// A bare letter is gray; a letter after `^` is gray, after `?` white, after
/// `=` yellow. Any other character, or a marker without a letter after it, is
/// `Malformed`; a well-formed attempt of other than five letters is
/// `WrongCount`.
pub fn string_to_letters(word: &String) -> (r: Result<Vec<Letter>, FormatError>)
    ensures
        match r {
            Ok(v) => parse(word@) == Ok::<Seq<Letter>, FormatError>(v@),
            Err(e) => parse(word@) == Err::<Seq<Letter>, FormatError>(e),
        },
{
    let chars = chars_of(word.as_str());
    let mut alpha: Vec<bool> = Vec::new();
    let mut i: usize = 0;
    while i < chars.len()
        invariant
            i <= chars@.len(),
            alpha@ == alphabetic_flags(chars@.take(i as int)),
        decreases chars@.len() - i,
    {
        alpha.push(is_alphabetic(chars[i]));
        proof {
            assert(alpha@ =~= alphabetic_flags(chars@.take(i + 1)));
        }
        i = i + 1;
    }
    proof {
        assert(chars@.take(chars@.len() as int) =~= chars@);
    }
    letters_from(&chars, &alpha)
}

/// Decodes every attempt, in order; the first one that does not decode gives
/// the error.
pub fn strings_to_words(strings: Vec<String>) -> (r: Result<Vec<Vec<Letter>>, FormatError>)
    ensures
        match r {
            Ok(v) => v@.len() == strings@.len() && forall|k: int|
                0 <= k < strings@.len() ==> parse(#[trigger] strings@[k]@) == Ok::<
                    Seq<Letter>,
                    FormatError,
                >(v@[k]@),
            Err(e) => exists|k: int|
                0 <= k < strings@.len() && parse(strings@[k]@) == Err::<Seq<Letter>, FormatError>(e)
                    && forall|j: int| 0 <= j < k ==> parse(#[trigger] strings@[j]@) is Ok,
        },
{
    let mut out: Vec<Vec<Letter>> = Vec::new();
    let mut i: usize = 0;
    while i < strings.len()
        invariant
            i <= strings@.len(),
            out@.len() == i,
            forall|k: int|
                0 <= k < i ==> parse(#[trigger] strings@[k]@) == Ok::<Seq<Letter>, FormatError>(
                    out@[k]@,
                ),
        decreases strings@.len() - i,
    {
        match string_to_letters(&strings[i]) {
            Ok(v) => {
                out.push(v);
            },
            Err(e) => {
                return Err(e);
            },
        }
        i = i + 1;
    }
    Ok(out)
}

} // verus!
