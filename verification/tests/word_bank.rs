use wordle_solver::word_bank::{LoadError, WordBank};

fn bank(text: &str) -> WordBank {
    WordBank::from_string(text.to_string())
}

fn listed(text: &str) -> Vec<String> {
    bank(text).all_valid_words().clone()
}

/// What the standard library's line splitting and a plain filter make of a text.
fn expected(text: &str) -> Vec<String> {
    let mut words: Vec<String> = text
        .lines()
        .filter(|line| line.chars().count() == 5 && line.chars().all(|c| c.is_ascii_lowercase()))
        .map(|line| line.to_string())
        .collect();
    words.sort();
    words.dedup();
    words
}

#[test]
fn keeps_words_of_five_lowercase_letters() {
    assert_eq!(listed("apple\n"), vec!["apple"]);
}

#[test]
fn drops_uppercase() {
    assert!(listed("APPLE\n").is_empty());
    assert!(listed("Apple\n").is_empty());
}

#[test]
fn drops_short_lines() {
    assert!(listed("appl\n").is_empty());
}

#[test]
fn drops_long_lines() {
    assert!(listed("apples\n").is_empty());
    assert!(listed("applesauce\n").is_empty());
}

#[test]
fn drops_lines_with_other_characters() {
    assert!(listed("apple1\n").is_empty());
    assert!(listed("appl3\n").is_empty());
    assert!(listed("app e\n").is_empty());
    assert!(listed("apple \n").is_empty());
    assert!(listed(" apple\n").is_empty());
    assert!(listed("appl\u{e9}\n").is_empty());
    assert!(listed("\u{e4}pple\n").is_empty());
}

#[test]
fn mixed_list_keeps_the_valid_lines_only() {
    assert_eq!(listed("apple\nbanan\nApple\nappl3\n"), vec!["apple", "banan"]);
    assert_eq!(listed("apple\nAPPLE\nappl\napple1\n"), vec!["apple"]);
}

#[test]
fn duplicates_collapse() {
    assert_eq!(listed("apple\napple\nberry\napple\n"), vec!["apple", "berry"]);
}

#[test]
fn words_come_in_dictionary_order() {
    assert_eq!(
        listed("tools\nhikes\ncares\nbores\nzebra\naback\n"),
        vec!["aback", "bores", "cares", "hikes", "tools", "zebra"]
    );
    assert_eq!(listed("abcde\nabcdd\nabcdf\naacde\n"), vec!["aacde", "abcdd", "abcde", "abcdf"]);
}

#[test]
fn last_line_needs_no_line_feed() {
    assert_eq!(listed("apple\nberry"), vec!["apple", "berry"]);
    assert_eq!(listed("apple"), vec!["apple"]);
}

#[test]
fn carriage_return_before_line_feed_ends_the_line() {
    assert_eq!(listed("apple\r\nberry\r\n"), vec!["apple", "berry"]);
}

#[test]
fn other_carriage_returns_belong_to_the_line() {
    assert!(listed("apple\r").is_empty());
    assert!(listed("apple\r\r\n").is_empty());
    assert!(listed("app\rle\n").is_empty());
    assert!(listed("\rapple\n").is_empty());
    assert_eq!(listed("apple\rberry\ncrown\n"), vec!["crown"]);
}

#[test]
fn empty_and_blank_texts_give_an_empty_dictionary() {
    assert!(listed("").is_empty());
    assert!(listed("\n\n\n").is_empty());
    assert!(listed("\r\n").is_empty());
    assert!(listed("no words here at all\n").is_empty());
}

#[test]
fn agrees_with_line_splitting_of_the_standard_library() {
    let texts = [
        "",
        "\n",
        "apple",
        "apple\n",
        "apple\r",
        "apple\r\n",
        "apple\n\r",
        "apple\r\r\n",
        "\r\napple",
        "apple\nberry\r\ncrown\rdelta\n\nevent",
        "apple\n\nberry\n\n",
        "abcde\r\nfghij\rklmno\npqrst\n\ruvwxy\r\n\r\nzabcd",
        "apples\napple\nappl\napple\n",
        "tools\nhikes\ncares\nbores\n",
        "x\u{e9}abc\nabcde\u{2028}fghij\nvalid\n",
    ];
    for text in texts {
        assert_eq!(listed(text), expected(text), "text {:?}", text);
    }
}

#[test]
fn every_loaded_word_is_valid_and_unique() {
    let text = "zebra\napple\napple\nAPPLE\nab\ncrown\r\nqueue\rstack\nstack\n12345\ncrown\n";
    let words = listed(text);
    for w in &words {
        assert_eq!(w.chars().count(), 5);
        assert!(w.chars().all(|c| c.is_ascii_lowercase()));
    }
    for i in 1..words.len() {
        assert!(words[i - 1] < words[i]);
    }
    assert_eq!(words, vec!["apple", "crown", "stack", "zebra"]);
}

#[test]
fn loads_from_utf8_bytes() {
    let loaded = WordBank::from_asset_words(b"cares\nbores\n".to_vec());
    let bank = loaded.unwrap();
    assert_eq!(*bank.all_valid_words(), vec!["bores", "cares"]);
}

#[test]
fn loads_from_utf8_bytes_with_other_scripts() {
    let loaded = WordBank::from_asset_words("h\u{e9}llo\nhello\n".as_bytes().to_vec());
    assert_eq!(*loaded.unwrap().all_valid_words(), vec!["hello"]);
}

#[test]
fn bytes_that_are_not_utf8_are_an_error() {
    let loaded = WordBank::from_asset_words(vec![b'a', b'p', b'p', b'l', b'e', b'\n', 0xff]);
    assert_eq!(loaded.err(), Some(LoadError::InvalidEncoding));
    let truncated = WordBank::from_asset_words(vec![b'a', 0xc3]);
    assert_eq!(truncated.err(), Some(LoadError::InvalidEncoding));
}

#[test]
fn letter_frequency_counts_each_word_once_per_letter() {
    let table = bank("cares\nbores\nhikes\ntools\n").most_used_chars();
    assert_eq!(
        table,
        vec![
            ('a', 1),
            ('b', 1),
            ('c', 1),
            ('h', 1),
            ('i', 1),
            ('k', 1),
            ('l', 1),
            ('t', 1),
            ('o', 2),
            ('r', 2),
            ('e', 3),
            ('s', 4),
        ]
    );
}

#[test]
fn letter_frequency_ignores_repeats_within_a_word() {
    assert_eq!(bank("aaaaa\n").most_used_chars(), vec![('a', 1)]);
    assert_eq!(bank("aabbb\nbbbbb\n").most_used_chars(), vec![('a', 1), ('b', 2)]);
}

#[test]
fn letter_frequency_of_an_empty_dictionary_is_empty() {
    assert!(bank("").most_used_chars().is_empty());
}

#[test]
fn best_guess_is_the_first_word_with_most_target_letters() {
    assert_eq!(bank("cares\nbores\nhikes\ntools\n").best_guess(), "bores");
    assert_eq!(bank("tools\nhikes\n").best_guess(), "hikes");
    assert_eq!(bank("crwth\naisle\nnymph\n").best_guess(), "aisle");
    assert_eq!(bank("sassy\naeios\n").best_guess(), "aeios");
}

#[test]
fn best_guess_counts_a_repeated_target_letter_once() {
    assert_eq!(bank("sssss\nabbbe\n").best_guess(), "abbbe");
}

#[test]
fn best_guess_of_an_empty_dictionary_is_empty() {
    assert_eq!(bank("").best_guess(), "");
}

#[test]
fn best_guess_without_target_letters_is_the_first_word() {
    assert_eq!(bank("nymph\ncrwth\n").best_guess(), "crwth");
}

#[test]
fn best_guesses_are_spelled_from_the_five_most_frequent_letters() {
    let bank = bank("store\nrotes\ntores\nroses\nstork\nbanjo\n");
    let table = bank.most_used_chars();
    let top: Vec<char> = table.iter().rev().take(5).map(|entry| entry.0).collect();
    let mut sorted = top.clone();
    sorted.sort();
    assert_eq!(sorted, vec!['e', 'o', 'r', 's', 't']);
    assert_eq!(bank.best_guesses(), vec!["rotes", "store", "tores"]);
}

#[test]
fn best_guesses_break_ties_towards_the_later_letter() {
    // Each of a, b, c, d, e, f is held by one word: the five last are taken.
    let bank = bank("abcde\nbcdef\nfedcb\n");
    assert_eq!(
        bank.most_used_chars(),
        vec![('a', 1), ('f', 2), ('b', 3), ('c', 3), ('d', 3), ('e', 3)]
    );
    assert_eq!(bank.best_guesses(), vec!["bcdef", "fedcb"]);
}

#[test]
fn best_guesses_may_be_empty() {
    assert!(bank("").best_guesses().is_empty());
    assert!(bank("aaaaa\n").best_guesses().is_empty());
    assert!(bank("cares\nbores\nhikes\ntools\n").best_guesses().is_empty());
}
