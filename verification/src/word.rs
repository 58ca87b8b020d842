//! The mathematical model of a word: five lowercase ASCII letters, ordered as
//! in a dictionary.

use vstd::prelude::*;
use vstd::string::StrSliceExecFns;

verus! {

/// Number of letters in every word of the game.
pub const WORD_LEN: usize = 5;

/// Whether `c` is one of the letters `a` to `z`.
pub open spec fn is_lower(c: char) -> bool {
    'a' <= c && c <= 'z'
}

/// Whether `w` is a word: exactly five characters, each a lowercase ASCII letter.
pub open spec fn is_word(w: Seq<char>) -> bool {
    &&& w.len() == WORD_LEN
    &&& forall|i: int| 0 <= i < w.len() ==> is_lower(#[trigger] w[i])
}

/// Whether every element of `words` is a word.
pub open spec fn all_words(words: Seq<Seq<char>>) -> bool {
    forall|i: int| 0 <= i < words.len() ==> is_word(#[trigger] words[i])
}

/// Dictionary order on sequences of equal length: `a` comes strictly before
/// `b` when they agree up to some position at which `a` holds the smaller
/// character.
pub open spec fn precedes(a: Seq<char>, b: Seq<char>) -> bool {
    exists|k: int|
        0 <= k < a.len() && k < b.len() && a[k] < b[k] && forall|j: int|
            0 <= j < k ==> a[j] == b[j]
}

/// Whether `words` is in strictly increasing dictionary order. A sequence of
/// words in this order holds no word twice.
pub open spec fn strictly_sorted(words: Seq<Seq<char>>) -> bool {
    forall|i: int, j: int| 0 <= i < j < words.len() ==> precedes(#[trigger] words[i], #[trigger] words[j])
}

/// Position of a letter in the alphabet, `a` being 0.
pub open spec fn letter_index(c: char) -> int {
    c as int - 'a' as int
}

/// Position of a word among all five-letter words in dictionary order: its
/// letters read as the digits of a number in base 26.
pub open spec fn word_rank(w: Seq<char>) -> int {
    (((letter_index(w[0]) * 26 + letter_index(w[1])) * 26 + letter_index(w[2])) * 26
        + letter_index(w[3])) * 26 + letter_index(w[4])
}

/// Dictionary order on words is the numeric order of their ranks.
pub proof fn lemma_precedes_is_rank_order(a: Seq<char>, b: Seq<char>)
    requires
        is_word(a),
        is_word(b),
    ensures
        precedes(a, b) <==> word_rank(a) < word_rank(b),
{
    assert(is_lower(a[0]) && is_lower(a[1]) && is_lower(a[2]) && is_lower(a[3]) && is_lower(a[4]));
    assert(is_lower(b[0]) && is_lower(b[1]) && is_lower(b[2]) && is_lower(b[3]) && is_lower(b[4]));
    if precedes(a, b) {
        let k = choose|k: int|
            0 <= k < a.len() && k < b.len() && a[k] < b[k] && forall|j: int|
                0 <= j < k ==> a[j] == b[j];
        assert(forall|j: int| 0 <= j < k ==> a[j] == b[j]);
        assert(word_rank(a) < word_rank(b));
    }
    if word_rank(a) < word_rank(b) {
        let k: int = if a[0] != b[0] {
            0
        } else if a[1] != b[1] {
            1
        } else if a[2] != b[2] {
            2
        } else if a[3] != b[3] {
            3
        } else {
            4
        };
        assert(a[k] < b[k]);
        assert(forall|j: int| 0 <= j < k ==> a[j] == b[j]);
    }
}

/// Two words of the same rank are the same word.
pub proof fn lemma_rank_injective(a: Seq<char>, b: Seq<char>)
    requires
        is_word(a),
        is_word(b),
        word_rank(a) == word_rank(b),
    ensures
        a == b,
{
    assert(is_lower(a[0]) && is_lower(a[1]) && is_lower(a[2]) && is_lower(a[3]) && is_lower(a[4]));
    assert(is_lower(b[0]) && is_lower(b[1]) && is_lower(b[2]) && is_lower(b[3]) && is_lower(b[4]));
    assert(a[0] == b[0] && a[1] == b[1] && a[2] == b[2] && a[3] == b[3] && a[4] == b[4]);
    assert(a =~= b);
}

/// Executable test for a lowercase ASCII letter.
pub(crate) fn lower(c: char) -> (r: bool)
    ensures
        r == is_lower(c),
{
    'a' <= c && c <= 'z'
}

/// Whether `v` holds `c`.
pub(crate) fn holds_char(v: &Vec<char>, c: char) -> (r: bool)
    ensures
        r == v@.contains(c),
{
    let mut j: usize = 0;
    while j < v.len()
        invariant
            j <= v.len(),
            forall|m: int| 0 <= m < j ==> v@[m] != c,
        decreases v.len() - j,
    {
        if v[j] == c {
            return true;
        }
        j = j + 1;
    }
    false
}

/// Computes the rank of a word.
pub(crate) fn rank_of(w: &str) -> (r: u32)
    requires
        is_word(w@),
    ensures
        r == word_rank(w@),
{
    let mut r: u32 = 0;
    let mut i: usize = 0;
    while i < WORD_LEN
        invariant
            is_word(w@),
            i <= WORD_LEN,
            i == 0 ==> r == 0,
            i == 1 ==> r == letter_index(w@[0]),
            i == 2 ==> r == letter_index(w@[0]) * 26 + letter_index(w@[1]),
            i == 3 ==> r == (letter_index(w@[0]) * 26 + letter_index(w@[1])) * 26 + letter_index(
                w@[2],
            ),
            i == 4 ==> r == ((letter_index(w@[0]) * 26 + letter_index(w@[1])) * 26 + letter_index(
                w@[2],
            )) * 26 + letter_index(w@[3]),
            i == 5 ==> r == word_rank(w@),
        decreases WORD_LEN - i,
    {
        let c = w.get_char(i);
        assert(is_lower(w@[i as int]));
        assert(is_lower(w@[0]) && is_lower(w@[1]) && is_lower(w@[2]) && is_lower(w@[3]) && is_lower(w@[4]));
        let d: u32 = c as u32 - 'a' as u32;
        r = r * 26 + d;
        i = i + 1;
    }
    r
}

} // verus!
