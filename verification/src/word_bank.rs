//! The dictionary: the words that a word list offers, in dictionary order.

use vstd::prelude::*;
use vstd::utf8::{decode_utf8, encode_utf8_decode_utf8, valid_utf8};
use crate::lines::{
    lemma_blocked_after, lemma_blocked_inside, lemma_has_line_split, lemma_line_before_step,
    lemma_line_unique, line_at, line_before, listed, unbroken,
};
use crate::word::{
    all_words, is_lower, is_word, lemma_precedes_is_rank_order, lemma_rank_injective, lower,
    precedes, rank_of, strictly_sorted, word_rank, WORD_LEN,
};

verus! {

/// The character sequences that a sequence of strings holds, in order.
pub open spec fn word_views(v: Seq<String>) -> Seq<Seq<char>> {
    v.map_values(|s: String| s@)
}

/// The character sequences that a sequence of string slices holds, in order.
pub open spec fn str_views(v: Seq<&str>) -> Seq<Seq<char>> {
    v.map_values(|s: &str| s@)
}

/// Whether `words` can be the contents of a dictionary: every element is a
/// word, and they stand in strictly increasing dictionary order.
pub open spec fn is_dictionary(words: Seq<Seq<char>>) -> bool {
    all_words(words) && strictly_sorted(words)
}

/// Whether a sequence of words has strictly increasing ranks.
spec fn ranks_increase(words: Seq<Seq<char>>) -> bool {
    forall|i: int, j: int|
        0 <= i < j < words.len() ==> word_rank(#[trigger] words[i]) < word_rank(
            #[trigger] words[j],
        )
}

/// Words stand in dictionary order exactly when their ranks increase.
proof fn lemma_sorted_is_ranked(words: Seq<Seq<char>>)
    requires
        all_words(words),
    ensures
        strictly_sorted(words) <==> ranks_increase(words),
{
    assert forall|i: int, j: int| 0 <= i < j < words.len() implies (precedes(
        #[trigger] words[i],
        #[trigger] words[j],
    ) <==> word_rank(words[i]) < word_rank(words[j])) by {
        lemma_precedes_is_rank_order(words[i], words[j]);
    }
}

/// No word occurs twice in a dictionary.
pub proof fn lemma_dictionary_distinct(words: Seq<Seq<char>>)
    requires
        is_dictionary(words),
    ensures
        words.no_duplicates(),
{
    lemma_sorted_is_ranked(words);
    assert forall|i: int, j: int| 0 <= i < words.len() && 0 <= j < words.len() && i != j implies words[i]
        != words[j] by {
        if i < j {
            assert(word_rank(words[i]) < word_rank(words[j]));
        } else {
            assert(word_rank(words[j]) < word_rank(words[i]));
        }
    }
}

/// Two sequences of increasing ranks that hold the same words are equal.
proof fn lemma_ranked_equal(a: Seq<Seq<char>>, b: Seq<Seq<char>>)
    requires
        ranks_increase(a),
        ranks_increase(b),
        forall|w: Seq<char>| a.contains(w) <==> b.contains(w),
    ensures
        a == b,
    decreases a.len(),
{
    if a.len() == 0 {
        if b.len() > 0 {
            assert(b.contains(b[0]));
        }
        assert(a =~= b);
    } else {
        let top = a.last();
        assert(a.contains(top));
        let j = choose|j: int| 0 <= j < b.len() && b[j] == top;
        assert(b.contains(b.last()));
        let i = choose|i: int| 0 <= i < a.len() && a[i] == b.last();
        assert(j == b.len() - 1) by {
            if j < b.len() - 1 {
                assert(word_rank(b[j]) < word_rank(b[b.len() - 1]));
                if i < a.len() - 1 {
                    assert(word_rank(a[i]) < word_rank(a[a.len() - 1]));
                }
            }
        }
        let a0 = a.drop_last();
        let b0 = b.drop_last();
        assert forall|w: Seq<char>| a0.contains(w) <==> b0.contains(w) by {
            if a0.contains(w) {
                let m = choose|m: int| 0 <= m < a0.len() && a0[m] == w;
                assert(word_rank(a[m]) < word_rank(a[a.len() - 1]));
                assert(a.contains(a[m]));
                let n = choose|n: int| 0 <= n < b.len() && b[n] == w;
                assert(b0[n] == w);
            }
            if b0.contains(w) {
                let m = choose|m: int| 0 <= m < b0.len() && b0[m] == w;
                assert(word_rank(b[m]) < word_rank(b[b.len() - 1]));
                assert(b.contains(b[m]));
                let n = choose|n: int| 0 <= n < a.len() && a[n] == w;
                assert(a0[n] == w);
            }
        }
        assert(ranks_increase(a0)) by {
            assert forall|i: int, j: int| 0 <= i < j < a0.len() implies word_rank(
                #[trigger] a0[i],
            ) < word_rank(#[trigger] a0[j]) by {
                assert(word_rank(a[i]) < word_rank(a[j]));
            }
        }
        assert(ranks_increase(b0)) by {
            assert forall|i: int, j: int| 0 <= i < j < b0.len() implies word_rank(
                #[trigger] b0[i],
            ) < word_rank(#[trigger] b0[j]) by {
                assert(word_rank(b[i]) < word_rank(b[j]));
            }
        }
        lemma_ranked_equal(a0, b0);
        assert(a =~= a0.push(top));
        assert(b =~= b0.push(top));
    }
}

/// A dictionary is determined by the words it holds: two dictionaries of
/// the same words are the same sequence.
pub proof fn lemma_dictionary_unique(a: Seq<Seq<char>>, b: Seq<Seq<char>>)
    requires
        is_dictionary(a),
        is_dictionary(b),
        forall|w: Seq<char>| a.contains(w) <==> b.contains(w),
    ensures
        a == b,
{
    lemma_sorted_is_ranked(a);
    lemma_sorted_is_ranked(b);
    lemma_ranked_equal(a, b);
}

/// Puts `w` at its place in a dictionary, unless the dictionary holds it already.
fn insert_word(words: &mut Vec<String>, w: String)
    requires
        is_dictionary(word_views(old(words)@)),
        is_word(w@),
    ensures
        is_dictionary(word_views(final(words)@)),
        forall|x: Seq<char>|
            word_views(final(words)@).contains(x) <==> word_views(old(words)@).contains(x) || x
                == w@,
{
    let ghost before = word_views(words@);
    proof {
        lemma_sorted_is_ranked(before);
    }
    let key = rank_of(w.as_str());
    let mut lo: usize = 0;
    let mut hi: usize = words.len();
    while lo < hi
        invariant
            lo <= hi <= words.len(),
            before == word_views(words@),
            all_words(before),
            ranks_increase(before),
            key == word_rank(w@),
            forall|i: int| 0 <= i < lo ==> word_rank(#[trigger] before[i]) < key,
            forall|i: int| hi <= i < before.len() ==> word_rank(#[trigger] before[i]) >= key,
        decreases hi - lo,
    {
        let mid = lo + (hi - lo) / 2;
        assert(is_word(before[mid as int]));
        let probe = rank_of(words[mid].as_str());
        if probe < key {
            lo = mid + 1;
        } else {
            hi = mid;
        }
    }
    if lo < words.len() {
        assert(is_word(before[lo as int]));
        let found = rank_of(words[lo].as_str());
        if found == key {
            proof {
                lemma_rank_injective(before[lo as int], w@);
            }
            return ;
        }
    }
    let ghost at = lo as int;
    let ghost wv = w@;
    words.insert(lo, w);
    proof {
        let after = word_views(words@);
        assert(after.len() == before.len() + 1);
        assert(after[at] == wv);
        assert(forall|i: int| 0 <= i < at ==> after[i] == before[i]);
        assert(forall|i: int| at < i < after.len() ==> after[i] == before[i - 1]);
        assert(all_words(after));
        assert forall|i: int, j: int| 0 <= i < j < after.len() implies word_rank(
            #[trigger] after[i],
        ) < word_rank(#[trigger] after[j]) by {
            if i < at {
                assert(after[i] == before[i]);
            } else if i > at {
                assert(after[i] == before[i - 1]);
            }
            if j < at {
                assert(after[j] == before[j]);
            } else if j > at {
                assert(after[j] == before[j - 1]);
            }
        }
        lemma_sorted_is_ranked(after);
        assert forall|x: Seq<char>| after.contains(x) <==> before.contains(x) || x == wv by {
            if after.contains(x) {
                let i = choose|i: int| 0 <= i < after.len() && after[i] == x;
                if i < at {
                    assert(before[i] == x);
                } else if i > at {
                    assert(before[i - 1] == x);
                }
            }
            if before.contains(x) {
                let i = choose|i: int| 0 <= i < before.len() && before[i] == x;
                if i < at {
                    assert(after[i] == x);
                } else {
                    assert(after[i + 1] == x);
                }
            }
        }
    }
}

/// What has been read of the line that starts at `start`, after `n`
/// characters of `text`, while that line can still turn out to be a word:
/// `line` holds its letters, and `cr` tells whether a carriage return follows
/// them that has yet to prove part of a line ending.
spec fn pending(text: Seq<char>, start: int, n: int, line: Seq<char>, cr: bool) -> bool {
    let m = if cr {
        n - 1
    } else {
        n
    };
    &&& 0 <= start <= m
    &&& n <= text.len()
    &&& line.len() <= WORD_LEN
    &&& m == start + line.len()
    &&& line == text.subrange(start, m)
    &&& forall|i: int| 0 <= i < line.len() ==> is_lower(#[trigger] line[i])
    &&& cr ==> text[m] == '\r'
}

/// A pending line is a word once five letters are read and the line ends.
proof fn lemma_pending_complete(text: Seq<char>, start: int, n: int, line: Seq<char>, cr: bool)
    requires
        pending(text, start, n, line, cr),
        start == 0 || text[start - 1] == '\n',
        line.len() == WORD_LEN,
        if cr {
            n < text.len() && text[n] == '\n'
        } else {
            n == text.len() || text[n] == '\n'
        },
    ensures
        is_word(line),
        line_at(text, start, line),
        forall|w: Seq<char>| is_word(w) && line_at(text, start, w) ==> w == line,
{
    assert forall|w: Seq<char>| is_word(w) && line_at(text, start, w) implies w == line by {
        lemma_line_unique(text, start, w, line);
    }
}

/// A pending line is no word when it ends before its fifth letter, or on a
/// carriage return that no line feed follows.
proof fn lemma_pending_abandoned(text: Seq<char>, start: int, n: int, line: Seq<char>, cr: bool)
    requires
        pending(text, start, n, line, cr),
        line.len() < WORD_LEN || (cr && (n == text.len() || text[n] != '\n')),
        n == text.len() || text[n] == '\n' || cr,
    ensures
        forall|w: Seq<char>| is_word(w) ==> !line_at(text, start, w),
{
    if line.len() < WORD_LEN {
        lemma_blocked_inside(text, start, start + line.len());
    } else {
        lemma_blocked_after(text, start);
    }
}

/// A pending line is no word when the next character is neither a letter that
/// still fits nor part of a line ending.
proof fn lemma_pending_spoiled(text: Seq<char>, start: int, n: int, line: Seq<char>)
    requires
        pending(text, start, n, line, false),
        n < text.len(),
        text[n] != '\n',
        text[n] != '\r',
        !is_lower(text[n]) || line.len() == WORD_LEN,
    ensures
        forall|w: Seq<char>| is_word(w) ==> !line_at(text, start, w),
{
    if line.len() < WORD_LEN {
        lemma_blocked_inside(text, start, n);
    } else {
        lemma_blocked_after(text, start);
    }
}

/// Why a word list could not be loaded.
#[derive(Debug, Clone, Copy, PartialEq, Eq, Structural)]
pub enum LoadError {
    /// The bytes of the word list are not well-formed UTF-8.
    InvalidEncoding,
}

/// The dictionary of a word list.
pub struct WordBank {
    words: Vec<String>,
}

impl View for WordBank {
    type V = Seq<Seq<char>>;

    /// The words of the dictionary, in its order.
    closed spec fn view(&self) -> Seq<Seq<char>> {
        word_views(self.words@)
    }
}

impl WordBank {
    #[verifier::type_invariant]
    spec fn well_formed(&self) -> bool {
        is_dictionary(word_views(self.words@))
    }

    /// Reads a word list. The dictionary holds every word that the text lists
    /// on a line of its own, once each, in dictionary order; every other line
    /// is passed over.
    pub fn from_string(data: String) -> (bank: WordBank)
        ensures
            is_dictionary(bank@),
            bank@.no_duplicates(),
            forall|w: Seq<char>| bank@.contains(w) <==> listed(data@, w),
    {
        let ghost text = data@;
        let mut words: Vec<String> = Vec::new();
        let mut line = String::new();
        let mut count: usize = 0;
        let mut ok = true;
        let mut cr = false;
        let ghost mut start: int = 0;
        assert(line@ =~= text.subrange(0, 0));
        for c in it: data.as_str().chars()
            invariant
                it.seq() == text,
                0 <= start <= it.index() <= text.len(),
                start == 0 || text[start - 1] == '\n',
                unbroken(text, start, it.index() as int),
                is_dictionary(word_views(words@)),
                forall|w: Seq<char>|
                    word_views(words@).contains(w) <==> is_word(w) && line_before(text, start, w),
                count == line@.len(),
                ok ==> pending(text, start, it.index() as int, line@, cr),
                !ok ==> forall|w: Seq<char>| is_word(w) ==> !line_at(text, start, w),
        {
            let ghost n = it.index() as int;
            assert(c == text[n]);
            if c == '\n' {
                if ok && count == WORD_LEN {
                    proof {
                        lemma_pending_complete(text, start, n, line@, cr);
                    }
                    insert_word(&mut words, line);
                    assert forall|w: Seq<char>| word_views(words@).contains(w) <==> is_word(w)
                        && line_before(text, n + 1, w) by {
                        lemma_line_before_step(text, start, n, w);
                    }
                } else {
                    proof {
                        if ok {
                            lemma_pending_abandoned(text, start, n, line@, cr);
                        }
                        assert forall|w: Seq<char>| word_views(words@).contains(w) <==> is_word(w)
                            && line_before(text, n + 1, w) by {
                            lemma_line_before_step(text, start, n, w);
                        }
                    }
                }
                line = String::new();
                count = 0;
                ok = true;
                cr = false;
                proof {
                    start = n + 1;
                    assert(line@ =~= text.subrange(start, start));
                }
            } else if ok {
                if cr {
                    proof {
                        lemma_pending_abandoned(text, start, n, line@, cr);
                    }
                    ok = false;
                } else if c == '\r' {
                    cr = true;
                } else if lower(c) && count < WORD_LEN {
                    line.push(c);
                    count = count + 1;
                    assert(line@ =~= text.subrange(start, n + 1));
                } else {
                    proof {
                        lemma_pending_spoiled(text, start, n, line@);
                    }
                    ok = false;
                }
            }
        }
        let ghost n = text.len() as int;
        if ok && !cr && count == WORD_LEN {
            proof {
                lemma_pending_complete(text, start, n, line@, cr);
            }
            insert_word(&mut words, line);
        } else {
            proof {
                if ok {
                    lemma_pending_abandoned(text, start, n, line@, cr);
                }
            }
        }
        proof {
            assert forall|w: Seq<char>| word_views(words@).contains(w) <==> listed(text, w) by {
                lemma_has_line_split(text, start, w);
            }
            lemma_dictionary_distinct(word_views(words@));
        }
        WordBank { words }
    }

    /// Reads a word list from its bytes, which must be UTF-8: the dictionary
    /// is that of the text they encode. Bytes that are no UTF-8 give no
    /// dictionary at all.
    pub fn from_asset_words(bytes: Vec<u8>) -> (loaded: Result<WordBank, LoadError>)
        ensures
            loaded is Ok <==> valid_utf8(bytes@),
            loaded matches Ok(bank) ==> is_dictionary(bank@) && bank@.no_duplicates() && forall|
                w: Seq<char>,
            | bank@.contains(w) <==> listed(decode_utf8(bytes@), w),
            loaded matches Err(e) ==> e == LoadError::InvalidEncoding,
    {
        match String::from_utf8(bytes) {
            Ok(data) => {
                proof {
                    encode_utf8_decode_utf8(data@);
                }
                Ok(WordBank::from_string(data))
            },
            Err(_) => Err(LoadError::InvalidEncoding),
        }
    }

    /// The words of the dictionary, in dictionary order.
    pub fn all_valid_words(&self) -> (words: &Vec<String>)
        ensures
            word_views(words@) == self@,
            is_dictionary(self@),
    {
        proof {
            use_type_invariant(self);
        }
        &self.words
    }
}

} // verus!
