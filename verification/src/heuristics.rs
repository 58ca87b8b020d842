//! Heuristics for choosing a guess: how often each letter occurs in the
//! dictionary, which words the most frequent letters spell, and which word
//! holds most of the usual target letters.

use vstd::prelude::*;
use vstd::string::StrSliceExecFns;
use crate::word::{all_words, holds_char, is_lower, is_word, letter_index, WORD_LEN};
use crate::word_bank::{str_views, word_views, WordBank};

verus! {

/// The test whether a word holds the letter `c`.
pub open spec fn holds_letter(c: char) -> spec_fn(Seq<char>) -> bool {
    |w: Seq<char>| w.contains(c)
}

/// Number of words that hold the letter `c`, however often each holds it.
pub open spec fn letter_count(words: Seq<Seq<char>>, c: char) -> nat {
    words.filter(holds_letter(c)).len()
}

/// 1 if `s` holds `c`, else 0.
pub open spec fn hit(s: Seq<char>, c: char) -> nat {
    if s.contains(c) {
        1
    } else {
        0
    }
}

/// Order of the entries of a frequency table: by count, and among equal
/// counts by letter.
pub open spec fn entry_before(a: (char, usize), b: (char, usize)) -> bool {
    a.1 < b.1 || (a.1 == b.1 && a.0 < b.0)
}

/// Whether `table` is the frequency table of `words`: one entry for each
/// letter that occurs, with the number of words that hold it, in increasing
/// order.
pub open spec fn is_frequency_table(words: Seq<Seq<char>>, table: Seq<(char, usize)>) -> bool {
    &&& forall|i: int|
        0 <= i < table.len() ==> 0 < (#[trigger] table[i]).1 == letter_count(words, table[i].0)
    &&& forall|c: char| #[trigger]
        letter_count(words, c) > 0 ==> exists|i: int|
            0 <= i < table.len() && (#[trigger] table[i]).0 == c
    &&& forall|i: int, j: int|
        0 <= i < j < table.len() ==> entry_before(#[trigger] table[i], #[trigger] table[j])
}

/// The frequency table of `words`.
pub open spec fn frequency_table(words: Seq<Seq<char>>) -> Seq<(char, usize)> {
    choose|table: Seq<(char, usize)>| is_frequency_table(words, table)
}

/// The letters of the last five entries of a frequency table: the five most
/// frequent letters, or all of them where fewer occur.
pub open spec fn top_letters(table: Seq<(char, usize)>) -> Set<char> {
    Set::new(
        |c: char|
            exists|i: int|
                0 <= i < table.len() && table.len() - 5 <= i && (#[trigger] table[i]).0 == c,
    )
}

/// Whether the letters of `w` all differ and are exactly `letters`.
pub open spec fn spelled_from(w: Seq<char>, letters: Set<char>) -> bool {
    w.no_duplicates() && w.to_set() == letters
}

/// The test whether a word is spelled from the most frequent letters of a
/// frequency table.
pub open spec fn top_word(table: Seq<(char, usize)>) -> spec_fn(Seq<char>) -> bool {
    |w: Seq<char>| spelled_from(w, top_letters(table))
}

/// Number of the target letters `a`, `e`, `i`, `o` and `s` that `w` holds.
pub open spec fn target_score(w: Seq<char>) -> nat {
    hit(w, 'a') + hit(w, 'e') + hit(w, 'i') + hit(w, 'o') + hit(w, 's')
}

/// Whether the word at index `k` is the first of `words` with the highest
/// target score.
pub open spec fn is_best_at(words: Seq<Seq<char>>, k: int) -> bool {
    &&& 0 <= k < words.len()
    &&& forall|j: int|
        0 <= j < words.len() ==> target_score(#[trigger] words[j]) <= target_score(words[k])
    &&& forall|j: int| 0 <= j < k ==> target_score(#[trigger] words[j]) < target_score(words[k])
}

/// The index of the first word of `words` with the highest target score.
pub open spec fn first_best(words: Seq<Seq<char>>) -> int {
    choose|k: int| is_best_at(words, k)
}

/// The opening guess that `words` suggests: its first word with the highest
/// target score, or the empty sequence where there is no word.
pub open spec fn best_opening(words: Seq<Seq<char>>) -> Seq<char> {
    if words.len() == 0 {
        Seq::empty()
    } else {
        words[first_best(words)]
    }
}

/// At most one index is that of the first word with the highest target score.
pub proof fn lemma_best_unique(words: Seq<Seq<char>>, j: int, k: int)
    requires
        is_best_at(words, j),
        is_best_at(words, k),
    ensures
        j == k,
{
    if j < k {
        assert(target_score(words[j]) < target_score(words[k]));
        assert(target_score(words[k]) <= target_score(words[j]));
    }
    if k < j {
        assert(target_score(words[k]) < target_score(words[j]));
        assert(target_score(words[j]) <= target_score(words[k]));
    }
}

/// The letter at position `k` of the alphabet, `a` being at 0.
pub open spec fn letter_at(k: int) -> char {
    (k + 'a' as int) as char
}

/// The count over one more word adds that word's hit.
pub proof fn lemma_count_step(words: Seq<Seq<char>>, i: int, c: char)
    requires
        0 <= i < words.len(),
    ensures
        letter_count(words.take(i + 1), c) == letter_count(words.take(i), c) + hit(words[i], c),
{
    assert(words.take(i + 1) =~= words.take(i).push(words[i]));
    words.take(i).lemma_filter_push(words[i], holds_letter(c));
}

/// No letter is counted more often than there are words.
pub proof fn lemma_count_bound(words: Seq<Seq<char>>, c: char)
    ensures
        letter_count(words, c) <= words.len(),
{
    words.lemma_filter_len(holds_letter(c));
}

/// Only lowercase letters are counted in a sequence of words.
pub proof fn lemma_counted_is_lower(words: Seq<Seq<char>>, c: char)
    requires
        all_words(words),
        letter_count(words, c) > 0,
    ensures
        is_lower(c),
{
    let kept = words.filter(holds_letter(c));
    let w = kept[0];
    words.lemma_filter_pred(holds_letter(c), 0);
    assert(kept.contains(w));
    words.lemma_filter_contains_rev(holds_letter(c), w);
    let j = choose|j: int| 0 <= j < w.len() && w[j] == c;
    assert(is_lower(w[j]));
}

/// Two sequences in strictly increasing order that hold the same entries are equal.
proof fn lemma_increasing_equal(a: Seq<(char, usize)>, b: Seq<(char, usize)>)
    requires
        forall|i: int, j: int|
            0 <= i < j < a.len() ==> entry_before(#[trigger] a[i], #[trigger] a[j]),
        forall|i: int, j: int|
            0 <= i < j < b.len() ==> entry_before(#[trigger] b[i], #[trigger] b[j]),
        forall|x: (char, usize)| a.contains(x) <==> b.contains(x),
    ensures
        a == b,
    decreases a.len(),
{
    if a.len() == 0 {
        if b.len() > 0 {
            assert(b.contains(b[0]));
        }
        assert(a =~= b);
    } else {
        let top = a.last();
        assert(a.contains(top));
        let j = choose|j: int| 0 <= j < b.len() && b[j] == top;
        assert(b.contains(b.last()));
        let i = choose|i: int| 0 <= i < a.len() && a[i] == b.last();
        assert(j == b.len() - 1) by {
            if j < b.len() - 1 {
                assert(entry_before(b[j], b[b.len() - 1]));
                if i < a.len() - 1 {
                    assert(entry_before(a[i], a[a.len() - 1]));
                }
            }
        }
        let a0 = a.drop_last();
        let b0 = b.drop_last();
        assert forall|x: (char, usize)| a0.contains(x) <==> b0.contains(x) by {
            if a0.contains(x) {
                let m = choose|m: int| 0 <= m < a0.len() && a0[m] == x;
                assert(entry_before(a[m], a[a.len() - 1]));
                assert(a.contains(a[m]));
                let n = choose|n: int| 0 <= n < b.len() && b[n] == x;
                assert(b0[n] == x);
            }
            if b0.contains(x) {
                let m = choose|m: int| 0 <= m < b0.len() && b0[m] == x;
                assert(entry_before(b[m], b[b.len() - 1]));
                assert(b.contains(b[m]));
                let n = choose|n: int| 0 <= n < a.len() && a[n] == x;
                assert(a0[n] == x);
            }
        }
        assert forall|i: int, j: int| 0 <= i < j < a0.len() implies entry_before(
            #[trigger] a0[i],
            #[trigger] a0[j],
        ) by {
            assert(entry_before(a[i], a[j]));
        }
        assert forall|i: int, j: int| 0 <= i < j < b0.len() implies entry_before(
            #[trigger] b0[i],
            #[trigger] b0[j],
        ) by {
            assert(entry_before(b[i], b[j]));
        }
        lemma_increasing_equal(a0, b0);
        assert(a =~= a0.push(top));
        assert(b =~= b0.push(top));
    }
}

/// A sequence of words has at most one frequency table.
pub proof fn lemma_frequency_table_unique(
    words: Seq<Seq<char>>,
    a: Seq<(char, usize)>,
    b: Seq<(char, usize)>,
)
    requires
        is_frequency_table(words, a),
        is_frequency_table(words, b),
    ensures
        a == b,
{
    assert forall|x: (char, usize)| a.contains(x) implies b.contains(x) by {
        let i = choose|i: int| 0 <= i < a.len() && a[i] == x;
        assert(letter_count(words, a[i].0) > 0);
        let j = choose|j: int| 0 <= j < b.len() && (#[trigger] b[j]).0 == x.0;
        assert(b[j] == x);
    }
    assert forall|x: (char, usize)| b.contains(x) implies a.contains(x) by {
        let i = choose|i: int| 0 <= i < b.len() && b[i] == x;
        assert(letter_count(words, b[i].0) > 0);
        let j = choose|j: int| 0 <= j < a.len() && (#[trigger] a[j]).0 == x.0;
        assert(a[j] == x);
    }
    lemma_increasing_equal(a, b);
}

/// Every word that the most frequent letters spell has five letters that
/// all differ, and these are exactly the five most frequent letters of the
/// dictionary.
pub proof fn law_top_words_spell_top_letters(words: Seq<Seq<char>>, i: int)
    requires
        all_words(words),
        0 <= i < words.filter(top_word(frequency_table(words))).len(),
    ensures
        ({
            let w = words.filter(top_word(frequency_table(words)))[i];
            let top = top_letters(frequency_table(words));
            &&& words.contains(w)
            &&& w.no_duplicates()
            &&& w.to_set() == top
            &&& top.len() == 5
        }),
{
    let keep = top_word(frequency_table(words));
    let kept = words.filter(keep);
    let w = kept[i];
    words.lemma_filter_pred(keep, i);
    assert(kept.contains(w));
    words.lemma_filter_contains_rev(keep, w);
    w.unique_seq_to_set();
}

/// The letter at position `k` of the alphabet.
fn nth_letter(k: u8) -> (c: char)
    requires
        k < 26,
    ensures
        c == letter_at(k as int),
        is_lower(c),
        letter_index(c) == k,
{
    (k + 97u8) as char
}

/// The position of a lowercase letter in the alphabet.
fn index_of(c: char) -> (k: usize)
    requires
        is_lower(c),
    ensures
        k == letter_index(c),
        k < 26,
        letter_at(k as int) == c,
{
    (c as u32 - 'a' as u32) as usize
}

/// Whether one of the first `upto` characters of `w` is `c`.
pub(crate) fn prefix_has(w: &str, upto: usize, c: char) -> (r: bool)
    requires
        upto <= w@.len(),
    ensures
        r == w@.take(upto as int).contains(c),
{
    let mut j: usize = 0;
    while j < upto
        invariant
            j <= upto <= w@.len(),
            forall|m: int| 0 <= m < j ==> w@[m] != c,
        decreases upto - j,
    {
        if w.get_char(j) == c {
            assert(w@.take(upto as int)[j as int] == c);
            return true;
        }
        j = j + 1;
    }
    false
}

/// Whether the word `w` holds the letter `c`.
pub(crate) fn has_letter(w: &str, c: char) -> (r: bool)
    requires
        is_word(w@),
    ensures
        r == w@.contains(c),
{
    assert(w@.take(WORD_LEN as int) =~= w@);
    prefix_has(w, WORD_LEN, c)
}

/// For each letter of the alphabet, the number of words that hold it.
fn letter_counts(words: &Vec<String>) -> (counts: Vec<usize>)
    requires
        all_words(word_views(words@)),
    ensures
        counts.len() == 26,
        forall|k: int|
            0 <= k < 26 ==> #[trigger] counts[k] == letter_count(word_views(words@), letter_at(k)),
{
    let ghost all = word_views(words@);
    let mut counts: Vec<usize> = Vec::new();
    while counts.len() < 26
        invariant
            counts.len() <= 26,
            forall|k: int| 0 <= k < counts.len() ==> #[trigger] counts[k] == 0,
        decreases 26 - counts.len(),
    {
        counts.push(0);
    }
    proof {
        assert forall|k: int| 0 <= k < 26 implies #[trigger] counts[k] == letter_count(
            all.take(0),
            letter_at(k),
        ) by {
            lemma_count_bound(all.take(0), letter_at(k));
        }
    }
    let mut i: usize = 0;
    while i < words.len()
        invariant
            i <= words.len(),
            all == word_views(words@),
            all_words(all),
            counts.len() == 26,
            forall|k: int|
                0 <= k < 26 ==> #[trigger] counts[k] == letter_count(
                    all.take(i as int),
                    letter_at(k),
                ),
        decreases words.len() - i,
    {
        let w = words[i].as_str();
        assert(w@ == all[i as int]);
        assert(is_word(w@));
        let mut j: usize = 0;
        while j < WORD_LEN
            invariant
                j <= WORD_LEN,
                i < words.len(),
                all == word_views(words@),
                w@ == all[i as int],
                is_word(w@),
                counts.len() == 26,
                forall|k: int|
                    0 <= k < 26 ==> #[trigger] counts[k] == letter_count(
                        all.take(i as int),
                        letter_at(k),
                    ) + hit(w@.take(j as int), letter_at(k)),
            decreases WORD_LEN - j,
        {
            let c = w.get_char(j);
            assert(is_lower(w@[j as int]));
            let ghost prev = counts@;
            let ghost head = w@.take(j as int);
            let ghost next = w@.take(j + 1);
            assert(next =~= head.push(c));
            assert forall|d: char| next.contains(d) <==> head.contains(d) || d == c by {
                if head.contains(d) {
                    let m = choose|m: int| 0 <= m < head.len() && head[m] == d;
                    assert(next[m] == d);
                }
                if d == c {
                    assert(next[j as int] == d);
                }
            }
            if !prefix_has(w, j, c) {
                let k = index_of(c);
                proof {
                    lemma_count_bound(all.take(i as int), c);
                }
                let bumped = counts[k] + 1;
                counts.set(k, bumped);
            }
            j = j + 1;
        }
        proof {
            assert(w@.take(WORD_LEN as int) =~= w@);
            assert forall|k: int| 0 <= k < 26 implies #[trigger] counts[k] == letter_count(
                all.take(i + 1),
                letter_at(k),
            ) by {
                lemma_count_step(all, i as int, letter_at(k));
            }
        }
        i = i + 1;
    }
    proof {
        assert(all.take(words.len() as int) =~= all);
    }
    counts
}

/// Executable form of the order of table entries.
fn entry_less(a: (char, usize), b: (char, usize)) -> (r: bool)
    ensures
        r == entry_before(a, b),
{
    a.1 < b.1 || (a.1 == b.1 && a.0 < b.0)
}

/// Whether the letters of the word `w` all differ and are exactly those in `top`.
fn spells(w: &str, top: &Vec<char>) -> (r: bool)
    requires
        is_word(w@),
        top@.len() <= WORD_LEN,
    ensures
        r == spelled_from(w@, top@.to_set()),
{
    let mut j: usize = 0;
    while j < WORD_LEN
        invariant
            j <= WORD_LEN,
            is_word(w@),
            forall|m: int| 0 <= m < j ==> top@.contains(#[trigger] w@[m]),
            forall|m: int, n: int| 0 <= m < n < j ==> w@[m] != w@[n],
        decreases WORD_LEN - j,
    {
        let c = w.get_char(j);
        if !holds_char(top, c) {
            assert(w@.to_set().contains(w@[j as int]));
            return false;
        }
        if prefix_has(w, j, c) {
            let ghost m = choose|m: int| 0 <= m < j && w@.take(j as int)[m] == c;
            assert(w@[m] == w@[j as int]);
            return false;
        }
        assert forall|m: int| 0 <= m < j implies w@[m] != w@[j as int] by {
            assert(w@.take(j as int)[m] == w@[m]);
        }
        j = j + 1;
    }
    proof {
        let have = w@.to_set();
        let want = top@.to_set();
        assert(w@.no_duplicates());
        w@.unique_seq_to_set();
        top@.lemma_cardinality_of_set();
        assert(have.subset_of(want)) by {
            assert forall|c: char| have.contains(c) implies want.contains(c) by {
                let m = choose|m: int| 0 <= m < w@.len() && w@[m] == c;
                assert(top@.contains(w@[m]));
            }
        }
        vstd::seq_lib::seq_to_set_is_finite(w@);
        vstd::seq_lib::seq_to_set_is_finite(top@);
        vstd::set_lib::lemma_len_subset(have, want);
        vstd::set_lib::lemma_subset_equality(have, want);
    }
    true
}

/// The target score of a word.
fn score_of(w: &str) -> (r: usize)
    requires
        is_word(w@),
    ensures
        r == target_score(w@),
{
    let mut r: usize = 0;
    if has_letter(w, 'a') {
        r = r + 1;
    }
    if has_letter(w, 'e') {
        r = r + 1;
    }
    if has_letter(w, 'i') {
        r = r + 1;
    }
    if has_letter(w, 'o') {
        r = r + 1;
    }
    if has_letter(w, 's') {
        r = r + 1;
    }
    r
}

impl WordBank {
    /// A good opening guess: the first word of the dictionary that holds the
    /// most of the target letters `a`, `e`, `i`, `o` and `s`. It is the empty
    /// string where the dictionary is empty.
    pub fn best_guess(&self) -> (guess: &str)
        ensures
            guess@ == best_opening(self@),
            self@.len() > 0 ==> is_best_at(self@, first_best(self@)),
    {
        let words = self.all_valid_words();
        if words.len() == 0 {
            proof {
                reveal_strlit("");
                assert(""@ =~= Seq::<char>::empty());
            }
            return "";
        }
        let mut best: usize = 0;
        assert(is_word(self@[0]));
        let mut most: usize = score_of(words[0].as_str());
        let mut i: usize = 1;
        while i < words.len()
            invariant
                1 <= i <= words.len(),
                word_views(words@) == self@,
                all_words(self@),
                best < i,
                most == target_score(self@[best as int]),
                forall|j: int| 0 <= j < i ==> target_score(#[trigger] self@[j]) <= most,
                forall|j: int| 0 <= j < best ==> target_score(#[trigger] self@[j]) < most,
            decreases words.len() - i,
        {
            assert(is_word(self@[i as int]));
            let score = score_of(words[i].as_str());
            if score > most {
                most = score;
                best = i;
            }
            i = i + 1;
        }
        proof {
            assert(is_best_at(self@, best as int));
            lemma_best_unique(self@, best as int, first_best(self@));
        }
        words[best].as_str()
    }

    /// The frequency table of the dictionary: for each letter that occurs,
    /// the number of words that hold it, by increasing count, and among equal
    /// counts by letter.
    pub fn most_used_chars(&self) -> (table: Vec<(char, usize)>)
        ensures
            is_frequency_table(self@, table@),
            table@ == frequency_table(self@),
    {
        let words = self.all_valid_words();
        let counts = letter_counts(words);
        let mut table: Vec<(char, usize)> = Vec::new();
        let mut k: u8 = 0;
        while k < 26
            invariant
                k <= 26,
                counts.len() == 26,
                forall|i: int|
                    0 <= i < table.len() ==> is_lower((#[trigger] table[i]).0) && letter_index(
                        table[i].0,
                    ) < k && 0 < table[i].1 == counts[letter_index(table[i].0)],
                forall|j: int|
                    0 <= j < k && #[trigger] counts[j] > 0 ==> exists|i: int|
                        0 <= i < table.len() && (#[trigger] table[i]).0 == letter_at(j),
                forall|i: int, j: int|
                    0 <= i < j < table.len() ==> entry_before(
                        #[trigger] table[i],
                        #[trigger] table[j],
                    ),
            decreases 26 - k,
        {
            let n = counts[k as usize];
            if n > 0 {
                let c = nth_letter(k);
                let mut p: usize = 0;
                while p < table.len() && entry_less(table[p], (c, n))
                    invariant
                        p <= table.len(),
                        forall|i: int| 0 <= i < p ==> entry_before(#[trigger] table[i], (c, n)),
                    decreases table.len() - p,
                {
                    p = p + 1;
                }
                let ghost before = table@;
                table.insert(p, (c, n));
                proof {
                    let after = table@;
                    assert(after[p as int] == (c, n));
                    assert(forall|i: int| 0 <= i < p ==> after[i] == before[i]);
                    assert(forall|i: int| p < i < after.len() ==> after[i] == before[i - 1]);
                    assert forall|i: int, j: int| 0 <= i < j < after.len() implies entry_before(
                        #[trigger] after[i],
                        #[trigger] after[j],
                    ) by {
                        if i > p {
                            assert(after[i] == before[i - 1]);
                        }
                        if j > p {
                            assert(after[j] == before[j - 1]);
                            if i == p && j > p + 1 {
                                assert(entry_before(before[p as int], before[j - 1]));
                            }
                        }
                    }
                    assert forall|j: int| 0 <= j < k + 1 && #[trigger] counts[j] > 0 implies exists|
                        i: int,
                    |
                        0 <= i < after.len() && (#[trigger] after[i]).0 == letter_at(j) by {
                        if j == k {
                            assert(after[p as int].0 == letter_at(j));
                        } else {
                            let i = choose|i: int|
                                0 <= i < before.len() && (#[trigger] before[i]).0 == letter_at(j);
                            if i < p {
                                assert(after[i].0 == letter_at(j));
                            } else {
                                assert(after[i + 1].0 == letter_at(j));
                            }
                        }
                    }
                }
            }
            k = k + 1;
        }
        proof {
            assert forall|i: int| 0 <= i < table.len() implies 0 < (#[trigger] table[i]).1
                == letter_count(self@, table[i].0) by {
                let m = letter_index(table[i].0);
                assert(counts[m] == letter_count(self@, letter_at(m)));
            }
            assert forall|c: char| #[trigger] letter_count(self@, c) > 0 implies exists|i: int|
                0 <= i < table.len() && (#[trigger] table[i]).0 == c by {
                lemma_counted_is_lower(self@, c);
                let m = letter_index(c);
                assert(counts[m] == letter_count(self@, letter_at(m)));
            }
            assert(is_frequency_table(self@, table@));
            lemma_frequency_table_unique(self@, table@, frequency_table(self@));
        }
        table
    }

    /// The words that are spelled from the five most frequent letters of the
    /// dictionary, each letter once, in dictionary order.
    pub fn best_guesses(&self) -> (guesses: Vec<&str>)
        ensures
            is_frequency_table(self@, frequency_table(self@)),
            str_views(guesses@) == self@.filter(top_word(frequency_table(self@))),
    {
        let table = self.most_used_chars();
        let mut top: Vec<char> = Vec::new();
        let mut at: usize = table.len();
        while at > 0 && top.len() < WORD_LEN
            invariant
                at <= table.len(),
                top.len() == table.len() - at,
                top.len() <= WORD_LEN,
                forall|m: int| 0 <= m < top.len() ==> #[trigger] top[m] == table[table.len() - 1 - m].0,
            decreases at,
        {
            at = at - 1;
            top.push(table[at].0);
        }
        proof {
            assert forall|c: char| top@.to_set().contains(c) <==> top_letters(table@).contains(
                c,
            ) by {
                if top@.contains(c) {
                    let m = choose|m: int| 0 <= m < top.len() && top[m] == c;
                    assert(table[table.len() - 1 - m].0 == c);
                }
                if top_letters(table@).contains(c) {
                    let i = choose|i: int|
                        0 <= i < table.len() && table.len() - 5 <= i && (#[trigger] table[i]).0
                            == c;
                    assert(top[table.len() - 1 - i] == c);
                }
            }
            assert(top@.to_set() =~= top_letters(table@));
        }
        let words = self.all_valid_words();
        let ghost keep = top_word(table@);
        let mut guesses: Vec<&str> = Vec::new();
        let mut i: usize = 0;
        assert(self@.take(0).filter(keep) =~= Seq::<Seq<char>>::empty()) by {
            self@.take(0).lemma_filter_len(keep);
        }
        while i < words.len()
            invariant
                i <= words.len(),
                word_views(words@) == self@,
                all_words(self@),
                top@.len() <= WORD_LEN,
                top@.to_set() == top_letters(table@),
                keep == top_word(table@),
                str_views(guesses@) == self@.take(i as int).filter(keep),
            decreases words.len() - i,
        {
            let w = words[i].as_str();
            assert(w@ == self@[i as int]);
            proof {
                assert(self@.take(i + 1) =~= self@.take(i as int).push(self@[i as int]));
                self@.take(i as int).lemma_filter_push(self@[i as int], keep);
            }
            if spells(w, &top) {
                let ghost before = str_views(guesses@);
                guesses.push(w);
                assert(str_views(guesses@) =~= before.push(w@));
            }
            i = i + 1;
        }
        assert(self@.take(words.len() as int) =~= self@);
        guesses
    }
}

} // verus!
