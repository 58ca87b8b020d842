use wordle_solver::game::Game;
use wordle_solver::guess::{CharStatus, Guess};
use wordle_solver::session::{GameMessage, Session};
use wordle_solver::word_bank::WordBank;

fn session(text: &str) -> Session {
    Session::create(Game::new(WordBank::from_string(text.to_string())))
}

fn letters(guess: &Guess) -> Vec<(char, CharStatus)> {
    guess.characters.iter().map(|l| (l.char, l.status)).collect()
}

const LIST: &str = "cares\nbores\nhikes\ntools\n";

#[test]
fn session_opens_with_the_best_guess() {
    let session = session(LIST);
    assert_eq!(session.current_guess.word, "bores");
    assert!(session.previous_guesses.is_empty());
    assert_eq!(
        letters(&session.current_guess),
        vec![
            ('b', CharStatus::Excluded),
            ('o', CharStatus::Excluded),
            ('r', CharStatus::Excluded),
            ('e', CharStatus::Excluded),
            ('s', CharStatus::Excluded),
        ]
    );
}

#[test]
fn session_on_an_empty_dictionary_opens_with_blanks() {
    let session = session("");
    assert_eq!(session.current_guess.word, "");
    assert!(session.current_guess.characters.iter().all(|l| l.char == ' '));
}

#[test]
fn toggling_moves_one_letter_on() {
    let mut session = session(LIST);
    assert!(session.update(GameMessage::ToggleChar(4)));
    assert_eq!(session.current_guess.characters[4].status, CharStatus::Shift);
    assert!(session.update(GameMessage::ToggleChar(4)));
    assert_eq!(session.current_guess.characters[4].status, CharStatus::Exact);
    assert_eq!(session.current_guess.characters[3].status, CharStatus::Excluded);
    assert!(session.update(GameMessage::ToggleChar(4)));
    assert_eq!(session.current_guess.characters[4].status, CharStatus::Excluded);
    assert_eq!(session.current_guess.word, "bores");
    assert_eq!(session.game.words().len(), 4);
}

#[test]
fn committing_records_the_feedback_and_moves_to_the_first_candidate() {
    let mut session = session(LIST);
    // bores: b excluded, o shift, r excluded, e exact, s exact
    session.update(GameMessage::ToggleChar(1));
    session.update(GameMessage::ToggleChar(3));
    session.update(GameMessage::ToggleChar(3));
    session.update(GameMessage::ToggleChar(4));
    session.update(GameMessage::ToggleChar(4));
    assert!(session.update(GameMessage::CommitWord));
    assert!(session.game.has_exact(3, 'e'));
    assert!(session.game.has_exact(4, 's'));
    assert!(!session.game.has_exact(1, 'o'));
    assert!(session.game.words().is_empty());
    assert_eq!(session.previous_guesses.len(), 1);
    assert_eq!(session.previous_guesses[0].word, "bores");
    assert_eq!(
        letters(&session.previous_guesses[0]),
        vec![
            ('b', CharStatus::Excluded),
            ('o', CharStatus::Shift),
            ('r', CharStatus::Excluded),
            ('e', CharStatus::Exact),
            ('s', CharStatus::Exact),
        ]
    );
    assert_eq!(session.current_guess.word, ".....");
    assert!(session.current_guess.characters.iter().all(|l| l.char == '.'));
    assert!(session.current_guess.characters.iter().all(|l| l.status == CharStatus::Excluded));
}

#[test]
fn next_guess_shows_what_is_known_as_exact() {
    let mut session = session(LIST);
    // bores: b, o, r excluded; e and s exact
    session.update(GameMessage::ToggleChar(3));
    session.update(GameMessage::ToggleChar(3));
    session.update(GameMessage::ToggleChar(4));
    session.update(GameMessage::ToggleChar(4));
    session.update(GameMessage::CommitWord);
    assert_eq!(session.game.words(), vec!["hikes"]);
    assert_eq!(session.current_guess.word, "hikes");
    assert_eq!(
        letters(&session.current_guess),
        vec![
            ('h', CharStatus::Excluded),
            ('i', CharStatus::Excluded),
            ('k', CharStatus::Excluded),
            ('e', CharStatus::Exact),
            ('s', CharStatus::Exact),
        ]
    );
}

#[test]
fn selecting_a_word_puts_it_on_the_table() {
    let mut session = session(LIST);
    session.update(GameMessage::ToggleChar(4));
    session.update(GameMessage::ToggleChar(4));
    session.update(GameMessage::CommitWord);
    // b, o, r, e are excluded and s is exact at the end: "tools" is no candidate, yet may be chosen.
    assert!(session.update(GameMessage::SelectWord("tools".to_string())));
    assert_eq!(session.current_guess.word, "tools");
    assert_eq!(
        letters(&session.current_guess),
        vec![
            ('t', CharStatus::Excluded),
            ('o', CharStatus::Excluded),
            ('o', CharStatus::Excluded),
            ('l', CharStatus::Excluded),
            ('s', CharStatus::Exact),
        ]
    );
    assert_eq!(session.previous_guesses.len(), 1);
}

#[test]
fn reset_starts_over() {
    let mut session = session(LIST);
    session.update(GameMessage::ToggleChar(0));
    session.update(GameMessage::ToggleChar(0));
    session.update(GameMessage::CommitWord);
    assert!(session.game.has_exact(0, 'b'));
    assert!(session.update(GameMessage::Reset));
    assert!(!session.game.has_exact(0, 'b'));
    assert!(session.previous_guesses.is_empty());
    assert_eq!(session.current_guess.word, "bores");
    assert!(session.current_guess.characters.iter().all(|l| l.status == CharStatus::Excluded));
    assert_eq!(session.game.words(), vec!["bores", "cares", "hikes", "tools"]);
}

#[test]
fn committing_a_blank_guess_excludes_the_blank() {
    let mut session = session("");
    session.update(GameMessage::CommitWord);
    assert_eq!(session.previous_guesses.len(), 1);
    assert_eq!(session.current_guess.word, ".....");
}
