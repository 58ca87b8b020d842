//! The solver's state for one game: the dictionary, and what the guesses so
//! far have shown about the hidden word.

use vstd::prelude::*;
use vstd::string::StrSliceExecFns;
use crate::constraints::{admitted_by, candidates, Constraints};
use crate::heuristics::{best_opening, first_best, has_letter, is_best_at};
use crate::word::{all_words, holds_char, is_word, WORD_LEN};
use crate::word_bank::{str_views, word_views, WordBank};

verus! {

/// One game: a dictionary, and the constraints gathered so far.
pub struct Game {
    wordbank: WordBank,
    exclussions: Vec<char>,
    chars_exact: Vec<(usize, char)>,
    chars_shift: Vec<(usize, char)>,
}

/// Whether every pair of `pairs` names a position of a word.
spec fn in_word(pairs: Seq<(usize, char)>) -> bool {
    forall|i: int| 0 <= i < pairs.len() ==> (#[trigger] pairs[i]).0 < WORD_LEN
}

/// Whether `v` holds the pair of `pos` and `c`.
fn holds_pair(v: &Vec<(usize, char)>, pos: usize, c: char) -> (r: bool)
    ensures
        r == v@.to_set().contains((pos, c)),
{
    let mut j: usize = 0;
    while j < v.len()
        invariant
            j <= v.len(),
            forall|m: int| 0 <= m < j ==> v@[m] != (pos, c),
        decreases v.len() - j,
    {
        if v[j].0 == pos && v[j].1 == c {
            assert(v@.contains((pos, c)));
            return true;
        }
        j = j + 1;
    }
    false
}

/// Adds `c` to `v` unless `v` holds it already.
fn record_char(v: &mut Vec<char>, c: char)
    requires
        old(v)@.no_duplicates(),
    ensures
        final(v)@.no_duplicates(),
        final(v)@.to_set() == old(v)@.to_set().insert(c),
{
    if holds_char(v, c) {
        assert(v@.to_set().insert(c) =~= v@.to_set());
    } else {
        let ghost before = v@;
        v.push(c);
        assert(v@.to_set() =~= before.to_set().insert(c)) by {
            assert forall|x: char| v@.contains(x) <==> before.contains(x) || x == c by {
                if before.contains(x) {
                    let m = choose|m: int| 0 <= m < before.len() && before[m] == x;
                    assert(v@[m] == x);
                }
                if x == c {
                    assert(v@[before.len() as int] == x);
                }
            }
        }
    }
}

/// Adds the pair of `pos` and `c` to `v` unless `v` holds it already.
fn record_pair(v: &mut Vec<(usize, char)>, pos: usize, c: char)
    requires
        old(v)@.no_duplicates(),
        in_word(old(v)@),
        pos < WORD_LEN,
    ensures
        final(v)@.no_duplicates(),
        in_word(final(v)@),
        final(v)@.to_set() == old(v)@.to_set().insert((pos, c)),
{
    if holds_pair(v, pos, c) {
        assert(v@.to_set().insert((pos, c)) =~= v@.to_set());
    } else {
        let ghost before = v@;
        v.push((pos, c));
        assert(v@.to_set() =~= before.to_set().insert((pos, c))) by {
            assert forall|x: (usize, char)| v@.contains(x) <==> before.contains(x) || x == (
                pos,
                c,
            ) by {
                if before.contains(x) {
                    let m = choose|m: int| 0 <= m < before.len() && before[m] == x;
                    assert(v@[m] == x);
                }
                if x == (pos, c) {
                    assert(v@[before.len() as int] == x);
                }
            }
        }
    }
}

impl Game {
    #[verifier::type_invariant]
    spec fn well_formed(&self) -> bool {
        &&& self.exclussions@.no_duplicates()
        &&& self.chars_exact@.no_duplicates()
        &&& self.chars_shift@.no_duplicates()
        &&& in_word(self.chars_exact@)
        &&& in_word(self.chars_shift@)
    }

    /// The words of the dictionary, in its order.
    pub closed spec fn dictionary(&self) -> Seq<Seq<char>> {
        self.wordbank@
    }

    /// What is known about the hidden word.
    pub closed spec fn constraints(&self) -> Constraints {
        Constraints {
            excluded: self.exclussions@.to_set(),
            exact: self.chars_exact@.to_set(),
            shifted: self.chars_shift@.to_set(),
        }
    }

    /// Starts a game over `wordbank`, with nothing known.
    pub fn new(wordbank: WordBank) -> (game: Game)
        ensures
            game.dictionary() == wordbank@,
            game.constraints() == Constraints::empty(),
    {
        let game = Game {
            wordbank,
            exclussions: Vec::new(),
            chars_exact: Vec::new(),
            chars_shift: Vec::new(),
        };
        assert(game.exclussions@.to_set() =~= Set::<char>::empty());
        assert(game.chars_exact@.to_set() =~= Set::<(usize, char)>::empty());
        assert(game.chars_shift@.to_set() =~= Set::<(usize, char)>::empty());
        game
    }

    /// Forgets all that is known; the dictionary stays.
    pub fn reset(&mut self)
        ensures
            final(self).dictionary() == old(self).dictionary(),
            final(self).constraints() == Constraints::empty(),
    {
        proof {
            use_type_invariant(&*self);
        }
        self.exclussions = Vec::new();
        self.chars_shift = Vec::new();
        self.chars_exact = Vec::new();
        assert(self.exclussions@.to_set() =~= Set::<char>::empty());
        assert(self.chars_exact@.to_set() =~= Set::<(usize, char)>::empty());
        assert(self.chars_shift@.to_set() =~= Set::<(usize, char)>::empty());
    }

    /// Records that the hidden word does not hold `exclussion`.
    pub fn add_exclussion(&mut self, exclussion: char)
        ensures
            final(self).dictionary() == old(self).dictionary(),
            final(self).constraints() == old(self).constraints().with_excluded(exclussion),
    {
        proof {
            use_type_invariant(&*self);
        }
        let mut held: Vec<char> = Vec::new();
        std::mem::swap(&mut self.exclussions, &mut held);
        record_char(&mut held, exclussion);
        std::mem::swap(&mut self.exclussions, &mut held);
    }

    /// Records that `char` stands at position `loc` of the hidden word.
    pub fn char_exact(&mut self, loc: usize, char: char)
        requires
            loc < WORD_LEN,
        ensures
            final(self).dictionary() == old(self).dictionary(),
            final(self).constraints() == old(self).constraints().with_exact(loc, char),
    {
        proof {
            use_type_invariant(&*self);
        }
        let mut held: Vec<(usize, char)> = Vec::new();
        std::mem::swap(&mut self.chars_exact, &mut held);
        record_pair(&mut held, loc, char);
        std::mem::swap(&mut self.chars_exact, &mut held);
    }

    /// Records that the hidden word holds `char`, though not at position `loc`.
    pub fn char_shift(&mut self, loc: usize, char: char)
        requires
            loc < WORD_LEN,
        ensures
            final(self).dictionary() == old(self).dictionary(),
            final(self).constraints() == old(self).constraints().with_shifted(loc, char),
    {
        proof {
            use_type_invariant(&*self);
        }
        let mut held: Vec<(usize, char)> = Vec::new();
        std::mem::swap(&mut self.chars_shift, &mut held);
        record_pair(&mut held, loc, char);
        std::mem::swap(&mut self.chars_shift, &mut held);
    }

    /// Whether `char` has been recorded as standing at position `loc`.
    pub fn has_exact(&self, loc: usize, char: char) -> (known: bool)
        ensures
            known == self.constraints().exact.contains((loc, char)),
    {
        holds_pair(&self.chars_exact, loc, char)
    }

    /// A good opening guess: the first word of the dictionary that holds the
    /// most of the target letters. It is the empty string where the
    /// dictionary is empty.
    pub fn best_guess(&self) -> (guess: &str)
        ensures
            guess@ == best_opening(self.dictionary()),
            self.dictionary().len() > 0 ==> is_best_at(
                self.dictionary(),
                first_best(self.dictionary()),
            ),
    {
        self.wordbank.best_guess()
    }

    /// Whether the word `w` is consistent with all that is known.
    fn accepts(&self, w: &str) -> (r: bool)
        requires
            is_word(w@),
        ensures
            r == self.constraints().admits(w@),
    {
        proof {
            use_type_invariant(self);
        }
        let ghost known = self.constraints();
        let mut j: usize = 0;
        while j < WORD_LEN
            invariant
                j <= WORD_LEN,
                is_word(w@),
                known == self.constraints(),
                forall|m: int| 0 <= m < j ==> !known.excluded.contains(#[trigger] w@[m]),
            decreases WORD_LEN - j,
        {
            if holds_char(&self.exclussions, w.get_char(j)) {
                return false;
            }
            j = j + 1;
        }
        assert(known.clear_of_excluded(w@));
        let mut e: usize = 0;
        while e < self.chars_exact.len()
            invariant
                e <= self.chars_exact.len(),
                is_word(w@),
                known == self.constraints(),
                in_word(self.chars_exact@),
                forall|m: int|
                    0 <= m < e ==> w@[(#[trigger] self.chars_exact@[m]).0 as int]
                        == self.chars_exact@[m].1,
            decreases self.chars_exact.len() - e,
        {
            let (pos, c) = self.chars_exact[e];
            assert(self.chars_exact@[e as int].0 < WORD_LEN);
            if w.get_char(pos) != c {
                assert(known.exact.contains(self.chars_exact@[e as int])) by {
                    assert(self.chars_exact@.contains(self.chars_exact@[e as int]));
                }
                return false;
            }
            e = e + 1;
        }
        assert(known.meets_exact(w@)) by {
            assert forall|p: usize, c: char| #[trigger] known.exact.contains((p, c)) implies p
                < w@.len() && w@[p as int] == c by {
                let m = choose|m: int|
                    0 <= m < self.chars_exact@.len() && self.chars_exact@[m] == (p, c);
                assert(self.chars_exact@[m].0 < WORD_LEN);
            }
        }
        let mut s: usize = 0;
        while s < self.chars_shift.len()
            invariant
                s <= self.chars_shift.len(),
                is_word(w@),
                known == self.constraints(),
                in_word(self.chars_shift@),
                forall|m: int|
                    0 <= m < s ==> w@[(#[trigger] self.chars_shift@[m]).0 as int]
                        != self.chars_shift@[m].1 && w@.contains(self.chars_shift@[m].1),
            decreases self.chars_shift.len() - s,
        {
            let (pos, c) = self.chars_shift[s];
            assert(self.chars_shift@[s as int].0 < WORD_LEN);
            if w.get_char(pos) == c || !has_letter(w, c) {
                assert(known.shifted.contains(self.chars_shift@[s as int])) by {
                    assert(self.chars_shift@.contains(self.chars_shift@[s as int]));
                }
                return false;
            }
            s = s + 1;
        }
        assert(known.meets_shifted(w@)) by {
            assert forall|p: usize, c: char| #[trigger] known.shifted.contains((p, c)) implies p
                < w@.len() && w@[p as int] != c && w@.contains(c) by {
                let m = choose|m: int|
                    0 <= m < self.chars_shift@.len() && self.chars_shift@[m] == (p, c);
                assert(self.chars_shift@[m].0 < WORD_LEN);
            }
        }
        true
    }

    /// The candidates: the words of the dictionary that are consistent with
    /// all that is known, in the order of the dictionary.
    pub fn words(&self) -> (found: Vec<&str>)
        ensures
            str_views(found@) == candidates(self.dictionary(), self.constraints()),
    {
        let all = self.wordbank.all_valid_words();
        let ghost dictionary = self.dictionary();
        let ghost keep = admitted_by(self.constraints());
        let mut found: Vec<&str> = Vec::new();
        let mut i: usize = 0;
        assert(dictionary.take(0).filter(keep) =~= Seq::<Seq<char>>::empty()) by {
            dictionary.take(0).lemma_filter_len(keep);
        }
        while i < all.len()
            invariant
                i <= all.len(),
                word_views(all@) == dictionary,
                dictionary == self.dictionary(),
                all_words(dictionary),
                keep == admitted_by(self.constraints()),
                str_views(found@) == dictionary.take(i as int).filter(keep),
            decreases all.len() - i,
        {
            let w = all[i].as_str();
            assert(w@ == dictionary[i as int]);
            proof {
                assert(dictionary.take(i + 1) =~= dictionary.take(i as int).push(
                    dictionary[i as int],
                ));
                dictionary.take(i as int).lemma_filter_push(dictionary[i as int], keep);
            }
            if self.accepts(w) {
                let ghost before = str_views(found@);
                found.push(w);
                assert(str_views(found@) =~= before.push(w@));
            }
            i = i + 1;
        }
        assert(dictionary.take(all.len() as int) =~= dictionary);
        found
    }
}

} // verus!
