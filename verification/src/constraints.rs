//! What is known about the hidden word, as a mathematical model: three sets
//! of constraints, the words they admit, and the laws that follow.

use vstd::prelude::*;

verus! {

/// What the guesses so far have shown about the hidden word.
pub struct Constraints {
    /// Letters that the hidden word does not hold.
    pub excluded: Set<char>,
    /// Letters known to stand at a position of the hidden word.
    pub exact: Set<(usize, char)>,
    /// Letters that the hidden word holds, but not at the position given.
    pub shifted: Set<(usize, char)>,
}

impl Constraints {
    /// Nothing is known.
    pub open spec fn empty() -> Constraints {
        Constraints { excluded: Set::empty(), exact: Set::empty(), shifted: Set::empty() }
    }

    /// These constraints, and that the hidden word does not hold `c`.
    pub open spec fn with_excluded(self, c: char) -> Constraints {
        Constraints { excluded: self.excluded.insert(c), ..self }
    }

    /// These constraints, and that `c` stands at position `pos` of the hidden word.
    pub open spec fn with_exact(self, pos: usize, c: char) -> Constraints {
        Constraints { exact: self.exact.insert((pos, c)), ..self }
    }

    /// These constraints, and that the hidden word holds `c`, though not at
    /// position `pos`.
    pub open spec fn with_shifted(self, pos: usize, c: char) -> Constraints {
        Constraints { shifted: self.shifted.insert((pos, c)), ..self }
    }

    /// Whether `w` holds no excluded letter.
    pub open spec fn clear_of_excluded(self, w: Seq<char>) -> bool {
        forall|i: int| 0 <= i < w.len() ==> !self.excluded.contains(#[trigger] w[i])
    }

    /// Whether `w` has each letter that is known to stand at a position, at
    /// that position.
    pub open spec fn meets_exact(self, w: Seq<char>) -> bool {
        forall|p: usize, c: char| #[trigger]
            self.exact.contains((p, c)) ==> p < w.len() && w[p as int] == c
    }

    /// Whether `w` holds each letter that is known to stand elsewhere, and
    /// not at the position that is ruled out for it.
    pub open spec fn meets_shifted(self, w: Seq<char>) -> bool {
        forall|p: usize, c: char| #[trigger]
            self.shifted.contains((p, c)) ==> p < w.len() && w[p as int] != c && w.contains(c)
    }

    /// Whether `w` is consistent with all that is known.
    pub open spec fn admits(self, w: Seq<char>) -> bool {
        &&& self.clear_of_excluded(w)
        &&& self.meets_exact(w)
        &&& self.meets_shifted(w)
    }
}

/// The test whether a word is consistent with `known`.
pub open spec fn admitted_by(known: Constraints) -> spec_fn(Seq<char>) -> bool {
    |w: Seq<char>| known.admits(w)
}

/// The words of `dictionary` that are consistent with `known`, in the order
/// of the dictionary.
pub open spec fn candidates(dictionary: Seq<Seq<char>>, known: Constraints) -> Seq<Seq<char>> {
    dictionary.filter(admitted_by(known))
}

/// Every candidate is a word of the dictionary that the constraints admit.
pub proof fn lemma_candidate(dictionary: Seq<Seq<char>>, known: Constraints, i: int)
    requires
        0 <= i < candidates(dictionary, known).len(),
    ensures
        known.admits(candidates(dictionary, known)[i]),
        dictionary.contains(candidates(dictionary, known)[i]),
{
    let found = candidates(dictionary, known);
    dictionary.lemma_filter_pred(admitted_by(known), i);
    assert(found.contains(found[i]));
    dictionary.lemma_filter_contains_rev(admitted_by(known), found[i]);
}

/// Every word of the dictionary that the constraints admit is a candidate.
pub proof fn lemma_admitted_is_candidate(dictionary: Seq<Seq<char>>, known: Constraints, i: int)
    requires
        0 <= i < dictionary.len(),
        known.admits(dictionary[i]),
    ensures
        candidates(dictionary, known).contains(dictionary[i]),
{
    dictionary.lemma_filter_contains(admitted_by(known), i);
}

/// With nothing known, the candidates are the whole dictionary, in its order.
pub proof fn law_nothing_known(dictionary: Seq<Seq<char>>)
    ensures
        candidates(dictionary, Constraints::empty()) == dictionary,
    decreases dictionary.len(),
{
    let keep = admitted_by(Constraints::empty());
    reveal(Seq::filter);
    if dictionary.len() > 0 {
        law_nothing_known(dictionary.drop_last());
        assert(Constraints::empty().admits(dictionary.last()));
        assert(keep(dictionary.last()));
        assert(dictionary.drop_last().push(dictionary.last()) =~= dictionary);
    }
}

/// Once a letter is excluded, no candidate holds it, whatever was known before.
pub proof fn law_excluded_letter_absent(dictionary: Seq<Seq<char>>, known: Constraints, c: char)
    ensures
        forall|i: int|
            0 <= i < candidates(dictionary, known.with_excluded(c)).len() ==> !(
            #[trigger] candidates(dictionary, known.with_excluded(c))[i]).contains(c),
{
    let after = known.with_excluded(c);
    let found = candidates(dictionary, after);
    assert forall|i: int| 0 <= i < found.len() implies !(#[trigger] found[i]).contains(c) by {
        lemma_candidate(dictionary, after, i);
        let w = found[i];
        if w.contains(c) {
            let j = choose|j: int| 0 <= j < w.len() && w[j] == c;
            assert(after.excluded.contains(w[j]));
        }
    }
}

/// Once a letter is known to stand at a position, every candidate has it there,
/// whatever was known before.
pub proof fn law_exact_letter_in_place(
    dictionary: Seq<Seq<char>>,
    known: Constraints,
    pos: usize,
    c: char,
)
    ensures
        forall|i: int|
            0 <= i < candidates(dictionary, known.with_exact(pos, c)).len() ==> pos < (
            #[trigger] candidates(dictionary, known.with_exact(pos, c))[i]).len() && candidates(
                dictionary,
                known.with_exact(pos, c),
            )[i][pos as int] == c,
{
    let after = known.with_exact(pos, c);
    let found = candidates(dictionary, after);
    assert forall|i: int| 0 <= i < found.len() implies pos < (#[trigger] found[i]).len()
        && found[i][pos as int] == c by {
        lemma_candidate(dictionary, after, i);
        assert(after.exact.contains((pos, c)));
    }
}

/// Once a letter is known to stand elsewhere than at a position, every
/// candidate holds it, and not at that position, whatever was known before.
pub proof fn law_shifted_letter_elsewhere(
    dictionary: Seq<Seq<char>>,
    known: Constraints,
    pos: usize,
    c: char,
)
    ensures
        forall|i: int|
            0 <= i < candidates(dictionary, known.with_shifted(pos, c)).len() ==> {
                let w = #[trigger] candidates(dictionary, known.with_shifted(pos, c))[i];
                pos < w.len() && w[pos as int] != c && w.contains(c)
            },
{
    let after = known.with_shifted(pos, c);
    let found = candidates(dictionary, after);
    assert forall|i: int| 0 <= i < found.len() implies {
        let w = #[trigger] found[i];
        pos < w.len() && w[pos as int] != c && w.contains(c)
    } by {
        lemma_candidate(dictionary, after, i);
        assert(after.shifted.contains((pos, c)));
    }
}

/// To record a constraint a second time changes nothing: neither what is
/// known, nor the candidates.
pub proof fn law_recording_is_idempotent(
    dictionary: Seq<Seq<char>>,
    known: Constraints,
    pos: usize,
    c: char,
)
    ensures
        known.with_excluded(c).with_excluded(c) == known.with_excluded(c),
        known.with_exact(pos, c).with_exact(pos, c) == known.with_exact(pos, c),
        known.with_shifted(pos, c).with_shifted(pos, c) == known.with_shifted(pos, c),
        candidates(dictionary, known.with_excluded(c).with_excluded(c)) == candidates(
            dictionary,
            known.with_excluded(c),
        ),
        candidates(dictionary, known.with_exact(pos, c).with_exact(pos, c)) == candidates(
            dictionary,
            known.with_exact(pos, c),
        ),
        candidates(dictionary, known.with_shifted(pos, c).with_shifted(pos, c)) == candidates(
            dictionary,
            known.with_shifted(pos, c),
        ),
{
    assert(known.excluded.insert(c).insert(c) =~= known.excluded.insert(c));
    assert(known.exact.insert((pos, c)).insert((pos, c)) =~= known.exact.insert((pos, c)));
    assert(known.shifted.insert((pos, c)).insert((pos, c)) =~= known.shifted.insert((pos, c)));
}

/// After a letter is recorded at a position, that pair is known as exact;
/// of every other pair, what was known before still holds and nothing more.
pub proof fn law_exact_is_remembered(
    known: Constraints,
    pos: usize,
    c: char,
    other_pos: usize,
    other: char,
)
    ensures
        known.with_exact(pos, c).exact.contains((pos, c)),
        (other_pos, other) != (pos, c) ==> (known.with_exact(pos, c).exact.contains(
            (other_pos, other),
        ) <==> known.exact.contains((other_pos, other))),
        Constraints::empty().with_exact(pos, c).exact.contains((other_pos, other)) <==> (
        other_pos,
        other,
    ) == (pos, c),
{
}

/// More knowledge never brings a word back: the candidates under more
/// constraints are among the candidates under fewer.
pub proof fn law_candidates_shrink(dictionary: Seq<Seq<char>>, less: Constraints, more: Constraints)
    requires
        less.excluded.subset_of(more.excluded),
        less.exact.subset_of(more.exact),
        less.shifted.subset_of(more.shifted),
    ensures
        forall|i: int|
            0 <= i < candidates(dictionary, more).len() ==> candidates(dictionary, less).contains(
                #[trigger] candidates(dictionary, more)[i],
            ),
{
    let found = candidates(dictionary, more);
    assert forall|i: int| 0 <= i < found.len() implies candidates(dictionary, less).contains(
        #[trigger] found[i],
    ) by {
        lemma_candidate(dictionary, more, i);
        let w = found[i];
        let j = choose|j: int| 0 <= j < dictionary.len() && dictionary[j] == w;
        assert(less.admits(w));
        lemma_admitted_is_candidate(dictionary, less, j);
    }
}

} // verus!
