//! A guess and the feedback that the player gives on each of its letters.

use vstd::prelude::*;
use vstd::string::StrSliceExecFns;
use crate::constraints::Constraints;
use crate::word::WORD_LEN;

verus! {

/// The feedback on one letter of a guess.
#[derive(Copy, Clone, Debug, PartialEq, Eq, Structural)]
pub enum CharStatus {
    /// The hidden word does not hold the letter.
    Excluded,
    /// The hidden word holds the letter, at another position.
    Shift,
    /// The hidden word holds the letter at this position.
    Exact,
}

impl CharStatus {
    /// The status that follows this one when the player toggles a letter:
    /// excluded, shift, exact, and round again.
    pub open spec fn successor(self) -> CharStatus {
        match self {
            CharStatus::Excluded => CharStatus::Shift,
            CharStatus::Shift => CharStatus::Exact,
            CharStatus::Exact => CharStatus::Excluded,
        }
    }

    /// The name of this status.
    pub open spec fn name(self) -> Seq<char> {
        match self {
            CharStatus::Excluded => "excluded"@,
            CharStatus::Shift => "shift"@,
            CharStatus::Exact => "exact"@,
        }
    }

    /// Moves on to the next status.
    pub fn toggle(&mut self)
        ensures
            *final(self) == old(self).successor(),
    {
        match *self {
            CharStatus::Excluded => *self = CharStatus::Shift,
            CharStatus::Shift => *self = CharStatus::Exact,
            CharStatus::Exact => *self = CharStatus::Excluded,
        }
    }

    /// The name of this status.
    pub fn as_str(&self) -> (name: &'static str)
        ensures
            name@ == self.name(),
    {
        match *self {
            CharStatus::Excluded => "excluded",
            CharStatus::Shift => "shift",
            CharStatus::Exact => "exact",
        }
    }
}

impl Default for CharStatus {
    fn default() -> (status: CharStatus)
        ensures
            status == CharStatus::Excluded,
    {
        CharStatus::Excluded
    }
}

/// One letter of a guess, with its feedback.
#[derive(Copy, Clone, Debug, PartialEq, Eq, Structural)]
pub struct GuessCharacter {
    pub char: char,
    pub status: CharStatus,
}

impl Default for GuessCharacter {
    fn default() -> (blank: GuessCharacter)
        ensures
            blank == (GuessCharacter { char: ' ', status: CharStatus::Excluded }),
    {
        GuessCharacter { char: ' ', status: CharStatus::Excluded }
    }
}

/// The character at place `i` of a guess made of `text`: that of the text,
/// or a blank where the text is too short.
pub open spec fn letter_or_blank(text: Seq<char>, i: int) -> char {
    if 0 <= i < text.len() {
        text[i]
    } else {
        ' '
    }
}

/// The five letters of a guess made of `text`, before any feedback.
pub open spec fn plain_letters(text: Seq<char>) -> Seq<GuessCharacter> {
    Seq::new(
        WORD_LEN as nat,
        |i: int| GuessCharacter { char: letter_or_blank(text, i), status: CharStatus::Excluded },
    )
}

/// The five letters of a guess made of `text`, where each letter that is
/// known to stand at its position is marked exact already.
pub open spec fn marked_letters(known: Constraints, text: Seq<char>) -> Seq<GuessCharacter> {
    Seq::new(
        WORD_LEN as nat,
        |i: int|
            GuessCharacter {
                char: letter_or_blank(text, i),
                status: if known.exact.contains((i as usize, letter_or_blank(text, i))) {
                    CharStatus::Exact
                } else {
                    CharStatus::Excluded
                },
            },
    )
}

/// A guess: a word, and the feedback on its first five characters.
#[derive(Clone, Debug)]
pub struct Guess {
    pub characters: [GuessCharacter; 5],
    pub word: String,
}

impl Guess {
    /// A guess of `string`, before any feedback.
    pub fn from_string(string: &str) -> (guess: Guess)
        ensures
            guess.word@ == string@,
            guess.characters@ == plain_letters(string@),
    {
        let blank = GuessCharacter { char: ' ', status: CharStatus::Excluded };
        let mut characters = [blank;5];
        let len = string.unicode_len();
        let mut pos: usize = 0;
        while pos < WORD_LEN && pos < len
            invariant
                pos <= WORD_LEN,
                pos <= len,
                len == string@.len(),
                forall|i: int|
                    0 <= i < pos ==> #[trigger] characters@[i] == (GuessCharacter {
                        char: string@[i],
                        status: CharStatus::Excluded,
                    }),
                forall|i: int| pos <= i < WORD_LEN ==> #[trigger] characters@[i] == blank,
            decreases WORD_LEN - pos,
        {
            let c = string.get_char(pos);
            characters[pos] = GuessCharacter { char: c, status: CharStatus::Excluded };
            pos = pos + 1;
        }
        assert(characters@ =~= plain_letters(string@));
        Guess { characters, word: string.to_owned() }
    }

    /// Whether this is a guess of `word`.
    pub fn is_for(&self, word: &str) -> (same: bool)
        ensures
            same == (self.word@ == word@),
    {
        let other = word.to_owned();
        self.word == other
    }
}

} // verus!
