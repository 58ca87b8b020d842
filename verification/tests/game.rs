use wordle_solver::game::Game;
use wordle_solver::word_bank::WordBank;

fn game(text: &str) -> Game {
    Game::new(WordBank::from_string(text.to_string()))
}

const LIST: &str = "cares\nbores\nhikes\ntools\nzebra\nfuzzy\napple\neagle\n";

#[test]
fn fresh_game_offers_the_whole_dictionary() {
    let bank = WordBank::from_string(LIST.to_string());
    let all: Vec<String> = bank.all_valid_words().clone();
    let game = Game::new(bank);
    assert_eq!(game.words(), all);
    assert_eq!(
        game.words(),
        vec!["apple", "bores", "cares", "eagle", "fuzzy", "hikes", "tools", "zebra"]
    );
}

#[test]
fn excluded_letter_is_in_no_candidate() {
    let mut game = game(LIST);
    game.char_exact(4, 'a');
    game.add_exclussion('z');
    for w in game.words() {
        assert!(!w.contains('z'));
    }
    let mut game = self::game(LIST);
    game.add_exclussion('z');
    assert_eq!(game.words(), vec!["apple", "bores", "cares", "eagle", "hikes", "tools"]);
}

#[test]
fn exact_letter_is_in_place_in_every_candidate() {
    let mut game = game(LIST);
    game.char_exact(0, 'a');
    assert_eq!(game.words(), vec!["apple"]);
    let mut game = self::game(LIST);
    game.add_exclussion('p');
    game.char_exact(0, 'a');
    assert!(game.words().is_empty());
}

#[test]
fn shifted_letter_is_elsewhere_in_every_candidate() {
    let mut game = game(LIST);
    game.char_shift(2, 'e');
    // "hikes", "bores", "cares", "apple", "eagle", "zebra" hold an e; none at the third place.
    assert_eq!(game.words(), vec!["apple", "bores", "cares", "eagle", "hikes", "zebra"]);
    let mut game = self::game(LIST);
    game.char_shift(3, 'e');
    assert_eq!(game.words(), vec!["apple", "eagle", "zebra"]);
    for w in game.words() {
        assert!(w.contains('e'));
        assert_ne!(w.chars().nth(3), Some('e'));
    }
}

#[test]
fn reset_brings_the_whole_dictionary_back() {
    let mut game = game(LIST);
    game.add_exclussion('e');
    game.char_exact(0, 't');
    game.char_shift(1, 's');
    assert!(game.words().len() < 8);
    game.reset();
    assert_eq!(
        game.words(),
        vec!["apple", "bores", "cares", "eagle", "fuzzy", "hikes", "tools", "zebra"]
    );
    assert!(!game.has_exact(0, 't'));
}

#[test]
fn excluding_twice_is_excluding_once() {
    let mut once = game(LIST);
    once.add_exclussion('a');
    let mut twice = game(LIST);
    twice.add_exclussion('a');
    twice.add_exclussion('a');
    assert_eq!(once.words(), twice.words());
    assert_eq!(once.words(), vec!["bores", "fuzzy", "hikes", "tools"]);
}

#[test]
fn marking_twice_is_marking_once() {
    let mut once = game(LIST);
    once.char_exact(4, 's');
    once.char_shift(0, 'o');
    let mut twice = game(LIST);
    twice.char_exact(4, 's');
    twice.char_exact(4, 's');
    twice.char_shift(0, 'o');
    twice.char_shift(0, 'o');
    assert_eq!(once.words(), twice.words());
    assert_eq!(once.words(), vec!["bores", "tools"]);
}

#[test]
fn has_exact_knows_the_recorded_pair_only() {
    let mut game = game(LIST);
    assert!(!game.has_exact(2, 'r'));
    game.char_exact(2, 'r');
    assert!(game.has_exact(2, 'r'));
    assert!(!game.has_exact(1, 'r'));
    assert!(!game.has_exact(3, 'r'));
    assert!(!game.has_exact(2, 'q'));
    game.char_shift(1, 'q');
    game.add_exclussion('x');
    assert!(!game.has_exact(1, 'q'));
    assert!(!game.has_exact(0, 'x'));
}

#[test]
fn has_exact_takes_any_position() {
    let game = game(LIST);
    assert!(!game.has_exact(5, 'a'));
    assert!(!game.has_exact(usize::MAX, 'a'));
}

#[test]
fn exact_then_exclude_narrows_four_words_to_three() {
    let mut game = game("cares\nbores\nhikes\ntools\n");
    game.char_exact(4, 's');
    assert_eq!(game.words(), vec!["bores", "cares", "hikes", "tools"]);
    game.add_exclussion('b');
    assert_eq!(game.words(), vec!["cares", "hikes", "tools"]);
}

#[test]
fn contradictory_constraints_leave_no_candidate() {
    let mut game = game(LIST);
    game.add_exclussion('s');
    game.char_exact(4, 's');
    assert!(game.words().is_empty());
    let mut game = self::game(LIST);
    game.char_exact(0, 'a');
    game.char_exact(0, 'b');
    assert!(game.words().is_empty());
    let mut game = self::game(LIST);
    game.char_exact(0, 'a');
    game.char_shift(0, 'a');
    assert!(game.words().is_empty());
}

#[test]
fn constraints_combine() {
    let mut game = game(LIST);
    game.add_exclussion('h');
    game.char_exact(4, 's');
    game.char_shift(2, 'o');
    assert_eq!(game.words(), vec!["bores"]);
}

#[test]
fn shifted_letter_may_later_become_exact() {
    let mut game = game(LIST);
    game.char_shift(0, 'e');
    assert_eq!(game.words(), vec!["apple", "bores", "cares", "hikes", "zebra"]);
    game.char_exact(1, 'e');
    assert_eq!(game.words(), vec!["zebra"]);
}

#[test]
fn game_on_an_empty_dictionary() {
    let mut game = game("");
    assert!(game.words().is_empty());
    assert_eq!(game.best_guess(), "");
    game.add_exclussion('a');
    assert!(game.words().is_empty());
}

#[test]
fn game_offers_the_best_guess_of_its_dictionary() {
    assert_eq!(game("cares\nbores\nhikes\ntools\n").best_guess(), "bores");
    let mut game = game(LIST);
    let first = game.best_guess().to_string();
    game.add_exclussion('a');
    assert_eq!(game.best_guess(), first);
}
