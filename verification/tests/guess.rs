use wordle_solver::guess::{CharStatus, Guess, GuessCharacter};

#[test]
fn toggle_cycles_through_the_three_statuses() {
    let mut status = CharStatus::Excluded;
    status.toggle();
    assert_eq!(status, CharStatus::Shift);
    status.toggle();
    assert_eq!(status, CharStatus::Exact);
    status.toggle();
    assert_eq!(status, CharStatus::Excluded);
}

#[test]
fn statuses_have_names() {
    assert_eq!(CharStatus::Excluded.as_str(), "excluded");
    assert_eq!(CharStatus::Shift.as_str(), "shift");
    assert_eq!(CharStatus::Exact.as_str(), "exact");
}

#[test]
fn defaults_are_excluded_and_blank() {
    assert_eq!(CharStatus::default(), CharStatus::Excluded);
    assert_eq!(
        GuessCharacter::default(),
        GuessCharacter { char: ' ', status: CharStatus::Excluded }
    );
}

#[test]
fn guess_of_a_word_holds_its_letters() {
    let guess = Guess::from_string("cares");
    assert_eq!(guess.word, "cares");
    let letters: Vec<char> = guess.characters.iter().map(|l| l.char).collect();
    assert_eq!(letters, vec!['c', 'a', 'r', 'e', 's']);
    assert!(guess.characters.iter().all(|l| l.status == CharStatus::Excluded));
}

#[test]
fn guess_of_a_short_text_is_padded_with_blanks() {
    let guess = Guess::from_string("ab");
    assert_eq!(guess.word, "ab");
    let letters: Vec<char> = guess.characters.iter().map(|l| l.char).collect();
    assert_eq!(letters, vec!['a', 'b', ' ', ' ', ' ']);
    let empty = Guess::from_string("");
    assert_eq!(empty.word, "");
    assert!(empty.characters.iter().all(|l| *l == GuessCharacter::default()));
}

#[test]
fn guess_of_a_long_text_shows_its_first_five_characters() {
    let guess = Guess::from_string("straw\u{e9}berry");
    assert_eq!(guess.word, "straw\u{e9}berry");
    let letters: Vec<char> = guess.characters.iter().map(|l| l.char).collect();
    assert_eq!(letters, vec!['s', 't', 'r', 'a', 'w']);
    let accents = Guess::from_string("\u{e9}t\u{e9}s");
    let letters: Vec<char> = accents.characters.iter().map(|l| l.char).collect();
    assert_eq!(letters, vec!['\u{e9}', 't', '\u{e9}', 's', ' ']);
}

#[test]
fn guess_knows_its_word() {
    let guess = Guess::from_string("cares");
    assert!(guess.is_for("cares"));
    assert!(!guess.is_for("bores"));
    assert!(!guess.is_for("care"));
    assert!(!guess.is_for(""));
}
