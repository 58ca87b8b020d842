//! A solving session: the game, the guess on the table, and the guesses
//! committed before it. The player's actions arrive as messages.

use vstd::prelude::*;
use crate::constraints::{candidates, Constraints};
use crate::game::Game;
use crate::guess::{marked_letters, plain_letters, CharStatus, Guess, GuessCharacter};
use crate::heuristics::best_opening;
use crate::word::WORD_LEN;

verus! {

/// What the player can do.
pub enum GameMessage {
    /// Put another word on the table.
    SelectWord(String),
    /// Move the feedback on the letter at this position to its next status.
    ToggleChar(usize),
    /// Take the feedback on the current guess for what is known, and go on
    /// to the next guess.
    CommitWord,
    /// Start over.
    Reset,
}

/// Whether the feedback `letters` excludes the letter `c`.
pub open spec fn feedback_excludes(letters: Seq<GuessCharacter>, c: char) -> bool {
    exists|i: int|
        0 <= i < letters.len() && #[trigger] letters[i] == (GuessCharacter {
            char: c,
            status: CharStatus::Excluded,
        })
}

/// Whether the feedback `letters` gives the letter at position `pos` as `c`,
/// with the status `status`.
pub open spec fn feedback_at(
    letters: Seq<GuessCharacter>,
    pos: usize,
    c: char,
    status: CharStatus,
) -> bool {
    pos < letters.len() && letters[pos as int] == (GuessCharacter { char: c, status })
}

/// What is known once the feedback `letters` is added to `known`.
pub open spec fn committed(known: Constraints, letters: Seq<GuessCharacter>) -> Constraints {
    Constraints {
        excluded: Set::new(|c: char| known.excluded.contains(c) || feedback_excludes(letters, c)),
        exact: Set::new(
            |at: (usize, char)|
                known.exact.contains(at) || feedback_at(letters, at.0, at.1, CharStatus::Exact),
        ),
        shifted: Set::new(
            |at: (usize, char)|
                known.shifted.contains(at) || feedback_at(letters, at.0, at.1, CharStatus::Shift),
        ),
    }
}

/// The word to put on the table when `known` is known: the first candidate,
/// or five dots where there is none.
pub open spec fn next_text(dictionary: Seq<Seq<char>>, known: Constraints) -> Seq<char> {
    if candidates(dictionary, known).len() > 0 {
        candidates(dictionary, known)[0]
    } else {
        "....."@
    }
}

/// Feedback on no letter adds nothing.
proof fn lemma_commit_none(known: Constraints, letters: Seq<GuessCharacter>)
    ensures
        committed(known, letters.take(0)) == known,
{
    let after = committed(known, letters.take(0));
    assert(after.excluded =~= known.excluded);
    assert(after.exact =~= known.exact);
    assert(after.shifted =~= known.shifted);
}

/// Feedback on one more letter adds the constraint that its status stands for.
proof fn lemma_commit_step(known: Constraints, letters: Seq<GuessCharacter>, pos: usize)
    requires
        pos < letters.len(),
    ensures
        committed(known, letters.take(pos + 1)) == match letters[pos as int].status {
            CharStatus::Excluded => committed(known, letters.take(pos as int)).with_excluded(
                letters[pos as int].char,
            ),
            CharStatus::Shift => committed(known, letters.take(pos as int)).with_shifted(
                pos,
                letters[pos as int].char,
            ),
            CharStatus::Exact => committed(known, letters.take(pos as int)).with_exact(
                pos,
                letters[pos as int].char,
            ),
        },
{
    let head = letters.take(pos as int);
    let more = letters.take(pos + 1);
    let l = letters[pos as int];
    let before = committed(known, head);
    let after = committed(known, more);
    let goal = match l.status {
        CharStatus::Excluded => before.with_excluded(l.char),
        CharStatus::Shift => before.with_shifted(pos, l.char),
        CharStatus::Exact => before.with_exact(pos, l.char),
    };
    assert(more[pos as int] == l);
    assert forall|c: char| feedback_excludes(more, c) <==> feedback_excludes(head, c) || (l.status
        == CharStatus::Excluded && l.char == c) by {
        if feedback_excludes(more, c) {
            let i = choose|i: int|
                0 <= i < more.len() && #[trigger] more[i] == (GuessCharacter {
                    char: c,
                    status: CharStatus::Excluded,
                });
            if i < pos {
                assert(head[i] == more[i]);
            }
        }
        if feedback_excludes(head, c) {
            let i = choose|i: int|
                0 <= i < head.len() && #[trigger] head[i] == (GuessCharacter {
                    char: c,
                    status: CharStatus::Excluded,
                });
            assert(more[i] == head[i]);
        }
    }
    assert forall|at: (usize, char), status: CharStatus|
        feedback_at(more, at.0, at.1, status) <==> feedback_at(head, at.0, at.1, status) || (at.0
            == pos && l.char == at.1 && l.status == status) by {
        if at.0 < pos {
            assert(head[at.0 as int] == more[at.0 as int]);
        }
    }
    assert(after.excluded =~= goal.excluded);
    assert(after.exact =~= goal.exact);
    assert(after.shifted =~= goal.shifted);
}

/// A guess of `text` in which each letter that `game` knows to stand at its
/// position is marked exact.
fn marked_guess(game: &Game, text: &str) -> (guess: Guess)
    ensures
        guess.word@ == text@,
        guess.characters@ == marked_letters(game.constraints(), text@),
{
    let mut guess = Guess::from_string(text);
    let mut pos: usize = 0;
    while pos < WORD_LEN
        invariant
            pos <= WORD_LEN,
            guess.word@ == text@,
            guess.characters@.len() == WORD_LEN,
            forall|i: int|
                0 <= i < pos ==> #[trigger] guess.characters@[i] == marked_letters(
                    game.constraints(),
                    text@,
                )[i],
            forall|i: int|
                pos <= i < WORD_LEN ==> #[trigger] guess.characters@[i] == plain_letters(text@)[i],
        decreases WORD_LEN - pos,
    {
        let c = guess.characters[pos].char;
        if game.has_exact(pos, c) {
            guess.characters[pos] = GuessCharacter { char: c, status: CharStatus::Exact };
        }
        pos = pos + 1;
    }
    assert(guess.characters@ =~= marked_letters(game.constraints(), text@));
    guess
}

/// The state of a solving session.
pub struct Session {
    pub game: Game,
    pub previous_guesses: Vec<Guess>,
    pub current_guess: Guess,
}

impl Session {
    /// Opens a session on `game`, with the best opening guess on the table.
    pub fn create(game: Game) -> (session: Session)
        ensures
            session.game == game,
            session.previous_guesses@.len() == 0,
            session.current_guess.word@ == best_opening(game.dictionary()),
            session.current_guess.characters@ == plain_letters(best_opening(game.dictionary())),
    {
        let current_guess = Guess::from_string(game.best_guess());
        Session { game, previous_guesses: Vec::new(), current_guess }
    }

    /// Carries out what the player asks for. The result tells that the
    /// session is to be shown anew, which is always so.
    pub fn update(&mut self, msg: GameMessage) -> (redraw: bool)
        requires
            msg matches GameMessage::ToggleChar(pos) ==> pos < WORD_LEN,
        ensures
            redraw,
            final(self).game.dictionary() == old(self).game.dictionary(),
            match msg {
                GameMessage::SelectWord(word) => {
                    &&& final(self).game.constraints() == old(self).game.constraints()
                    &&& final(self).previous_guesses@ == old(self).previous_guesses@
                    &&& final(self).current_guess.word@ == word@
                    &&& final(self).current_guess.characters@ == marked_letters(
                        old(self).game.constraints(),
                        word@,
                    )
                },
                GameMessage::ToggleChar(pos) => {
                    &&& final(self).game.constraints() == old(self).game.constraints()
                    &&& final(self).previous_guesses@ == old(self).previous_guesses@
                    &&& final(self).current_guess.word == old(self).current_guess.word
                    &&& final(self).current_guess.characters@ == old(
                        self,
                    ).current_guess.characters@.update(
                        pos as int,
                        (GuessCharacter {
                            char: old(self).current_guess.characters@[pos as int].char,
                            status: old(self).current_guess.characters@[pos as int].status.successor(),
                        }),
                    )
                },
                GameMessage::CommitWord => {
                    let known = committed(
                        old(self).game.constraints(),
                        old(self).current_guess.characters@,
                    );
                    let next = next_text(old(self).game.dictionary(), known);
                    &&& final(self).game.constraints() == known
                    &&& final(self).previous_guesses@ == old(self).previous_guesses@.push(
                        old(self).current_guess,
                    )
                    &&& final(self).current_guess.word@ == next
                    &&& final(self).current_guess.characters@ == marked_letters(known, next)
                },
                GameMessage::Reset => {
                    let opening = best_opening(old(self).game.dictionary());
                    &&& final(self).game.constraints() == Constraints::empty()
                    &&& final(self).previous_guesses@.len() == 0
                    &&& final(self).current_guess.word@ == opening
                    &&& final(self).current_guess.characters@ == plain_letters(opening)
                },
            },
    {
        match msg {
            GameMessage::SelectWord(word) => {
                self.current_guess = marked_guess(&self.game, word.as_str());
            },
            GameMessage::ToggleChar(pos) => {
                let mut letter = self.current_guess.characters[pos];
                letter.status.toggle();
                self.current_guess.characters[pos] = letter;
            },
            GameMessage::CommitWord => {
                let letters = self.current_guess.characters;
                let ghost known = self.game.constraints();
                proof {
                    lemma_commit_none(known, letters@);
                }
                let mut pos: usize = 0;
                while pos < WORD_LEN
                    invariant
                        pos <= WORD_LEN,
                        letters@.len() == WORD_LEN,
                        self.game.dictionary() == old(self).game.dictionary(),
                        self.game.constraints() == committed(known, letters@.take(pos as int)),
                        self.previous_guesses == old(self).previous_guesses,
                        self.current_guess == old(self).current_guess,
                    decreases WORD_LEN - pos,
                {
                    let letter = letters[pos];
                    proof {
                        lemma_commit_step(known, letters@, pos);
                    }
                    match letter.status {
                        CharStatus::Excluded => {
                            self.game.add_exclussion(letter.char);
                        },
                        CharStatus::Shift => {
                            self.game.char_shift(pos, letter.char);
                        },
                        CharStatus::Exact => {
                            self.game.char_exact(pos, letter.char);
                        },
                    }
                    pos = pos + 1;
                }
                assert(letters@.take(WORD_LEN as int) =~= letters@);
                let mut guess = self.next_guess();
                std::mem::swap(&mut self.current_guess, &mut guess);
                self.previous_guesses.push(guess);
            },
            GameMessage::Reset => {
                self.game.reset();
                self.previous_guesses.clear();
                self.current_guess = Guess::from_string(self.game.best_guess());
            },
        }
        true
    }

    /// The guess to put on the table next: the first candidate, or five dots
    /// where there is none, with the letters marked that are known already.
    fn next_guess(&self) -> (guess: Guess)
        ensures
            guess.word@ == next_text(self.game.dictionary(), self.game.constraints()),
            guess.characters@ == marked_letters(
                self.game.constraints(),
                next_text(self.game.dictionary(), self.game.constraints()),
            ),
    {
        let found = self.game.words();
        if found.len() > 0 {
            let first = found[0];
            assert(first@ == crate::word_bank::str_views(found@)[0]);
            marked_guess(&self.game, first)
        } else {
            marked_guess(&self.game, ".....")
        }
    }
}

} // verus!
