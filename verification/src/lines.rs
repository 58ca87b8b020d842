//! The word-list format: plain text, one candidate per line.
//!
//! A line ends at a line feed, or at the end of the text. A carriage return
//! directly before a line feed belongs to the line ending; any other carriage
//! return belongs to the line.

use vstd::prelude::*;
use crate::word::{is_lower, is_word};

verus! {

/// Whether the line of `text` that starts at index `start` reads exactly `w`.
///
/// This is meant for a `w` that holds neither a line feed nor a carriage
/// return, as every word does.
pub open spec fn line_at(text: Seq<char>, start: int, w: Seq<char>) -> bool {
    let end = start + w.len();
    &&& 0 <= start
    &&& end <= text.len()
    &&& (start == 0 || text[start - 1] == '\n')
    &&& text.subrange(start, end) == w
    &&& (end == text.len() || text[end] == '\n' || (end + 1 < text.len() && text[end] == '\r'
        && text[end + 1] == '\n'))
}

/// Whether some line of `text` reads exactly `w`.
pub open spec fn has_line(text: Seq<char>, w: Seq<char>) -> bool {
    exists|start: int| line_at(text, start, w)
}

/// Whether `w` is a word that `text` lists on a line of its own.
pub open spec fn listed(text: Seq<char>, w: Seq<char>) -> bool {
    is_word(w) && has_line(text, w)
}

/// Whether some line of `text` that starts before index `bound` reads exactly `w`.
pub open spec fn line_before(text: Seq<char>, bound: int, w: Seq<char>) -> bool {
    exists|start: int| start < bound && line_at(text, start, w)
}

/// Whether no line feed occurs in `text` from index `from` up to `to`.
pub open spec fn unbroken(text: Seq<char>, from: int, to: int) -> bool {
    forall|i: int| from <= i < to ==> text[i] != '\n'
}

/// No word is the line at `start` when one of its first five places is
/// missing or holds something other than a lowercase letter.
pub proof fn lemma_blocked_inside(text: Seq<char>, start: int, p: int)
    requires
        0 <= start <= p < start + 5,
        p >= text.len() || !is_lower(text[p]),
    ensures
        forall|w: Seq<char>| is_word(w) ==> !line_at(text, start, w),
{
    assert forall|w: Seq<char>| is_word(w) implies !line_at(text, start, w) by {
        if line_at(text, start, w) {
            assert(text.subrange(start, start + 5)[p - start] == text[p]);
            assert(is_lower(w[p - start]));
        }
    }
}

/// No word is the line at `start` when the sixth place neither ends the text
/// nor begins a line ending.
pub proof fn lemma_blocked_after(text: Seq<char>, start: int)
    requires
        0 <= start,
        start + 5 < text.len(),
        text[start + 5] != '\n',
        !(text[start + 5] == '\r' && start + 6 < text.len() && text[start + 6] == '\n'),
    ensures
        forall|w: Seq<char>| is_word(w) ==> !line_at(text, start, w),
{
}

/// Two words that are the line at the same place are the same word.
pub proof fn lemma_line_unique(text: Seq<char>, start: int, v: Seq<char>, w: Seq<char>)
    requires
        line_at(text, start, v),
        line_at(text, start, w),
        v.len() == w.len(),
    ensures
        v == w,
{
}

/// No line starts strictly inside a stretch without line feeds.
pub proof fn lemma_no_start_inside(text: Seq<char>, from: int, to: int, w: Seq<char>)
    requires
        0 <= from,
        unbroken(text, from, to),
    ensures
        forall|s: int| from < s <= to ==> !line_at(text, s, w),
{
    assert forall|s: int| from < s <= to implies !line_at(text, s, w) by {
        if line_at(text, s, w) {
            assert(text[s - 1] != '\n');
        }
    }
}

/// Moving the bound past a stretch without line feeds adds at most the line
/// that starts the stretch.
pub proof fn lemma_line_before_step(text: Seq<char>, from: int, to: int, w: Seq<char>)
    requires
        0 <= from <= to,
        unbroken(text, from, to),
    ensures
        line_before(text, to + 1, w) <==> line_before(text, from, w) || line_at(text, from, w),
{
    lemma_no_start_inside(text, from, to, w);
    if line_before(text, to + 1, w) {
        let s = choose|s: int| s < to + 1 && line_at(text, s, w);
        if s < from {
            assert(line_before(text, from, w));
        }
    }
    if line_before(text, from, w) {
        let s = choose|s: int| s < from && line_at(text, s, w);
        assert(s < to + 1);
    }
    if line_at(text, from, w) {
        assert(from < to + 1);
    }
}

/// Once the whole text is a stretch without line feeds from `from` on, its
/// lines are those before `from` and the one at `from`.
pub proof fn lemma_has_line_split(text: Seq<char>, from: int, w: Seq<char>)
    requires
        0 <= from <= text.len(),
        unbroken(text, from, text.len() as int),
    ensures
        has_line(text, w) <==> line_before(text, from, w) || line_at(text, from, w),
{
    lemma_line_before_step(text, from, text.len() as int, w);
    if has_line(text, w) {
        let s = choose|s: int| line_at(text, s, w);
        assert(s < text.len() + 1);
        assert(line_before(text, text.len() as int + 1, w));
    }
    if line_before(text, from, w) {
        let s = choose|s: int| s < from && line_at(text, s, w);
        assert(line_at(text, s, w));
    }
}

} // verus!
