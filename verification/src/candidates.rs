//! Candidate search: the words of a dictionary whose measured width lies
//! within a tolerance of a target width, closest first.

use std::collections::HashMap;
use vstd::prelude::*;
use crate::metrics::{measure_width, measured_width, width_delta, width_distance};
use crate::ranking::{lemma_ordered_unique, lemma_sort_len, lemma_sort_map, lemma_sort_ordered,
    lemma_sort_permutes, lemma_sort_same_items, rank_of, sort_by_rank, stable_sort, Ranked};

verus! {

/// A candidate is ranked by its delta, the smaller the better.
impl Ranked for (String, u64) {
    open spec fn rank(&self) -> int {
        self.1 as int
    }

    fn ranks_before(&self, other: &Self) -> (b: bool) {
        self.1 < other.1
    }
}

/// The views of the words of a dictionary.
pub open spec fn word_views(words: Seq<&str>) -> Seq<Seq<char>> {
    words.map_values(|w: &str| w@)
}

/// The views of a list of candidates.
pub open spec fn candidate_views(found: Seq<(String, u64)>) -> Seq<(Seq<char>, u64)> {
    found.map_values(|c: (String, u64)| (c.0@, c.1))
}

/// The rank by which candidate views are ordered: the delta.
pub open spec fn delta_rank() -> spec_fn((Seq<char>, u64)) -> int {
    |c: (Seq<char>, u64)| c.1 as int
}

/// The distance between the measured width of `word` and the target width.
pub open spec fn delta_of(word: Seq<char>, glyphs: Map<u32, u64>, target: u64) -> nat {
    width_distance(measured_width(word, glyphs), target as nat)
}

/// The words of `words` whose delta is at most `tolerance`, each with its
/// delta, in the order of `words`.
pub open spec fn within_tolerance(
    words: Seq<Seq<char>>,
    glyphs: Map<u32, u64>,
    target: u64,
    tolerance: u64,
) -> Seq<(Seq<char>, u64)>
    decreases words.len(),
{
    if words.len() == 0 {
        Seq::empty()
    } else {
        let before = within_tolerance(words.drop_last(), glyphs, target, tolerance);
        let delta = delta_of(words.last(), glyphs, target);
        if delta <= tolerance {
            before.push((words.last(), delta as u64))
        } else {
            before
        }
    }
}

/// The candidates for a target width: the words within tolerance, smallest
/// delta first, words of equal delta in the order of the dictionary.
pub open spec fn closest_first(
    words: Seq<Seq<char>>,
    glyphs: Map<u32, u64>,
    target: u64,
    tolerance: u64,
) -> Seq<(Seq<char>, u64)> {
    stable_sort(within_tolerance(words, glyphs, target, tolerance), delta_rank())
}

/// What is within tolerance: each item is a word of the dictionary with its
/// delta, which is at most the tolerance, and each word of the dictionary
/// with such a delta is an item.
pub proof fn lemma_within_tolerance(
    words: Seq<Seq<char>>,
    glyphs: Map<u32, u64>,
    target: u64,
    tolerance: u64,
)
    ensures
        forall|c: (Seq<char>, u64)| #[trigger]
            within_tolerance(words, glyphs, target, tolerance).contains(c) <==> words.contains(c.0)
                && c.1 == delta_of(c.0, glyphs, target) && c.1 <= tolerance,
    decreases words.len(),
{
    let found = within_tolerance(words, glyphs, target, tolerance);
    if words.len() == 0 {
    } else {
        let before = within_tolerance(words.drop_last(), glyphs, target, tolerance);
        let delta = delta_of(words.last(), glyphs, target);
        lemma_within_tolerance(words.drop_last(), glyphs, target, tolerance);
        assert forall|c: (Seq<char>, u64)| #[trigger]
            found.contains(c) <==> words.contains(c.0) && c.1 == delta_of(c.0, glyphs, target)
                && c.1 <= tolerance by {
            if found.contains(c) {
                let i = choose|i: int| 0 <= i < found.len() && found[i] == c;
                if i < before.len() {
                    assert(before[i] == c);
                    assert(before.contains(c));
                    let j = choose|j: int|
                        0 <= j < words.drop_last().len() && words.drop_last()[j] == c.0;
                    assert(words[j] == c.0);
                } else {
                    assert(c == (words.last(), delta as u64));
                    assert(words[words.len() - 1] == c.0);
                }
            }
            if words.contains(c.0) && c.1 == delta_of(c.0, glyphs, target) && c.1 <= tolerance {
                let j = choose|j: int| 0 <= j < words.len() && words[j] == c.0;
                if j < words.len() - 1 {
                    assert(words.drop_last()[j] == c.0);
                    assert(words.drop_last().contains(c.0));
                    assert(before.contains(c));
                    let i = choose|i: int| 0 <= i < before.len() && before[i] == c;
                    assert(found[i] == c);
                } else {
                    assert(found[found.len() - 1] == c);
                }
            }
        }
    }
}

/// Tolerance bound and ordering of the candidates. Each candidate is a word
/// of the dictionary with its delta, and that delta is at most the tolerance.
/// Each word of the dictionary whose delta is at most the tolerance is among
/// the candidates, so a word that is not has a delta above the tolerance. The
/// deltas never decrease along the candidates.
pub proof fn lemma_candidates(
    words: Seq<Seq<char>>,
    glyphs: Map<u32, u64>,
    target: u64,
    tolerance: u64,
)
    ensures
        forall|c: (Seq<char>, u64)| #[trigger]
            closest_first(words, glyphs, target, tolerance).contains(c) <==> words.contains(c.0)
                && c.1 == delta_of(c.0, glyphs, target) && c.1 <= tolerance,
        forall|i: int, j: int|
            0 <= i <= j < closest_first(words, glyphs, target, tolerance).len() ==> closest_first(
                words,
                glyphs,
                target,
                tolerance,
            )[i].1 <= closest_first(words, glyphs, target, tolerance)[j].1,
        closest_first(words, glyphs, target, tolerance).len() <= words.len(),
{
    let kept = within_tolerance(words, glyphs, target, tolerance);
    let sorted = closest_first(words, glyphs, target, tolerance);
    lemma_within_tolerance(words, glyphs, target, tolerance);
    lemma_sort_same_items(kept, delta_rank());
    lemma_sort_ordered(kept, delta_rank());
    lemma_sort_len(kept, delta_rank());
    lemma_within_tolerance_len(words, glyphs, target, tolerance);
    assert forall|c: (Seq<char>, u64)| #[trigger]
        sorted.contains(c) <==> words.contains(c.0) && c.1 == delta_of(c.0, glyphs, target) && c.1
            <= tolerance by {
        assert(sorted.contains(c) <==> kept.contains(c));
    }
    assert forall|i: int, j: int| 0 <= i <= j < sorted.len() implies sorted[i].1 <= sorted[j].1 by {
        assert(delta_rank()(sorted[i]) <= delta_rank()(sorted[j]));
    }
}

/// There are at most as many words within tolerance as there are words.
pub proof fn lemma_within_tolerance_len(
    words: Seq<Seq<char>>,
    glyphs: Map<u32, u64>,
    target: u64,
    tolerance: u64,
)
    ensures
        within_tolerance(words, glyphs, target, tolerance).len() <= words.len(),
    decreases words.len(),
{
    if words.len() > 0 {
        lemma_within_tolerance_len(words.drop_last(), glyphs, target, tolerance);
    }
}

/// How often a candidate is within tolerance: as often as its word is in the
/// dictionary where it is the word with its delta and the delta is at most
/// the tolerance, and not at all otherwise.
pub proof fn lemma_within_tolerance_count(
    words: Seq<Seq<char>>,
    glyphs: Map<u32, u64>,
    target: u64,
    tolerance: u64,
    c: (Seq<char>, u64),
)
    ensures
        within_tolerance(words, glyphs, target, tolerance).to_multiset().count(c) == if c.1
            == delta_of(c.0, glyphs, target) && c.1 <= tolerance {
            words.to_multiset().count(c.0)
        } else {
            0
        },
    decreases words.len(),
{
    broadcast use vstd::seq_lib::to_multiset_build;
    broadcast use vstd::multiset::group_multiset_axioms;

    if words.len() == 0 {
        vstd::seq_lib::to_multiset_contains(words, c.0);
        vstd::seq_lib::to_multiset_contains(within_tolerance(words, glyphs, target, tolerance), c);
    } else {
        let before = words.drop_last();
        lemma_within_tolerance_count(before, glyphs, target, tolerance, c);
        assert(words =~= before.push(words.last()));
        assert(words.to_multiset() =~= before.to_multiset().insert(words.last()));
    }
}

/// The order of the dictionary does not matter to what is found: two
/// dictionaries of the same words give the same candidates, each as often. It
/// does not matter to their order either where no two different words within
/// tolerance have the same delta.
pub proof fn lemma_dictionary_order(
    words: Seq<Seq<char>>,
    other: Seq<Seq<char>>,
    glyphs: Map<u32, u64>,
    target: u64,
    tolerance: u64,
)
    requires
        words.to_multiset() == other.to_multiset(),
    ensures
        closest_first(words, glyphs, target, tolerance).to_multiset() == closest_first(
            other,
            glyphs,
            target,
            tolerance,
        ).to_multiset(),
        (forall|v: Seq<char>, w: Seq<char>|
            words.contains(v) && words.contains(w) && delta_of(v, glyphs, target) == delta_of(
                w,
                glyphs,
                target,
            ) && delta_of(v, glyphs, target) <= tolerance ==> v == w) ==> closest_first(
            words,
            glyphs,
            target,
            tolerance,
        ) == closest_first(other, glyphs, target, tolerance),
{
    let kept = within_tolerance(words, glyphs, target, tolerance);
    let other_kept = within_tolerance(other, glyphs, target, tolerance);
    let found = closest_first(words, glyphs, target, tolerance);
    let other_found = closest_first(other, glyphs, target, tolerance);
    assert forall|c: (Seq<char>, u64)|
        kept.to_multiset().count(c) == other_kept.to_multiset().count(c) by {
        lemma_within_tolerance_count(words, glyphs, target, tolerance, c);
        lemma_within_tolerance_count(other, glyphs, target, tolerance, c);
    }
    assert(kept.to_multiset() =~= other_kept.to_multiset());
    lemma_sort_permutes(kept, delta_rank());
    lemma_sort_permutes(other_kept, delta_rank());
    if forall|v: Seq<char>, w: Seq<char>|
        words.contains(v) && words.contains(w) && delta_of(v, glyphs, target) == delta_of(
            w,
            glyphs,
            target,
        ) && delta_of(v, glyphs, target) <= tolerance ==> v == w {
        lemma_sort_ordered(kept, delta_rank());
        lemma_sort_ordered(other_kept, delta_rank());
        lemma_candidates(words, glyphs, target, tolerance);
        assert forall|x: (Seq<char>, u64), y: (Seq<char>, u64)|
            found.contains(x) && found.contains(y) && delta_rank()(x) == delta_rank()(
                y,
            ) implies x == y by {
            assert(words.contains(x.0) && words.contains(y.0));
            assert(x.0 == y.0);
        }
        lemma_ordered_unique(found, other_found, delta_rank());
    }
}

/// Finds the words of `dictionary` whose measured width is within `tolerance`
/// of `target_width`. Each comes with its delta, the distance between its
/// width and the target; the smallest delta comes first, and words of equal
/// delta keep the order of the dictionary. Where no word is within tolerance
/// the list is empty.
pub fn find_candidates(
    target_width: u64,
    glyphs: &HashMap<u32, u64>,
    dictionary: &[&str],
    tolerance: u64,
) -> (found: Vec<(String, u64)>)
    ensures
        candidate_views(found@) == closest_first(
            word_views(dictionary@),
            glyphs@,
            target_width,
            tolerance,
        ),
        forall|i: int|
            0 <= i < found@.len() ==> (#[trigger] found@[i]).1 <= tolerance && found@[i].1
                == delta_of(found@[i].0@, glyphs@, target_width) && word_views(
                dictionary@,
            ).contains(found@[i].0@),
        forall|j: int|
            0 <= j < dictionary@.len() ==> (delta_of(
                (#[trigger] dictionary@[j])@,
                glyphs@,
                target_width,
            ) <= tolerance <==> exists|i: int|
                0 <= i < found@.len() && (#[trigger] found@[i]).0@ == dictionary@[j]@),
        forall|i: int, j: int| 0 <= i <= j < found@.len() ==> found@[i].1 <= found@[j].1,
        found@.len() <= dictionary@.len(),
{
    let ghost words = word_views(dictionary@);
    let mut kept: Vec<(String, u64)> = Vec::new();
    let mut k: usize = 0;
    proof {
        assert(words.take(0) =~= Seq::<Seq<char>>::empty());
        assert(candidate_views(kept@) =~= Seq::<(Seq<char>, u64)>::empty());
    }
    while k < dictionary.len()
        invariant
            k <= dictionary.len(),
            words == word_views(dictionary@),
            candidate_views(kept@) == within_tolerance(
                words.take(k as int),
                glyphs@,
                target_width,
                tolerance,
            ),
        decreases dictionary.len() - k,
    {
        let word: &str = dictionary[k];
        let delta = width_delta(measure_width(word, glyphs), target_width);
        proof {
            assert(words.take(k + 1).drop_last() =~= words.take(k as int));
            assert(words.take(k + 1).last() == word@);
        }
        if delta <= tolerance {
            let ghost before = kept@;
            let entry = (word.to_owned(), delta);
            kept.push(entry);
            proof {
                assert(candidate_views(kept@) =~= candidate_views(before).push((word@, delta)));
            }
        }
        k += 1;
    }
    let ghost unsorted = kept@;
    let found = sort_by_rank(kept);
    proof {
        assert(words.take(words.len() as int) =~= words);
        let view = |c: (String, u64)| (c.0@, c.1);
        assert forall|c: (String, u64)| #[trigger]
            delta_rank()(view(c)) == rank_of::<(String, u64)>()(c) by {}
        lemma_sort_map(unsorted, view, rank_of::<(String, u64)>(), delta_rank());
        lemma_candidates(words, glyphs@, target_width, tolerance);
        let views = candidate_views(found@);
        assert forall|i: int| 0 <= i < found@.len() implies (#[trigger] found@[i]).1 <= tolerance
            && found@[i].1 == delta_of(found@[i].0@, glyphs@, target_width) && words.contains(
            found@[i].0@,
        ) by {
            assert(views[i] == (found@[i].0@, found@[i].1));
            assert(views.contains(views[i]));
        }
        assert forall|j: int| 0 <= j < dictionary@.len() implies (delta_of(
            (#[trigger] dictionary@[j])@,
            glyphs@,
            target_width,
        ) <= tolerance <==> exists|i: int|
            0 <= i < found@.len() && (#[trigger] found@[i]).0@ == dictionary@[j]@) by {
            let w = dictionary@[j]@;
            let d = delta_of(w, glyphs@, target_width);
            assert(words[j] == w);
            assert(words.contains(w));
            if d <= tolerance {
                let c = (w, d as u64);
                assert(views.contains(c));
                let i = choose|i: int| 0 <= i < views.len() && views[i] == c;
                assert(found@[i].0@ == w);
            }
            if exists|i: int| 0 <= i < found@.len() && (#[trigger] found@[i]).0@ == w {
                let i = choose|i: int| 0 <= i < found@.len() && (#[trigger] found@[i]).0@ == w;
                assert(views[i] == (found@[i].0@, found@[i].1));
                assert(views.contains(views[i]));
            }
        }
        assert forall|i: int, j: int| 0 <= i <= j < found@.len() implies found@[i].1 <= found@[j].1 by {
            assert(views[i].1 <= views[j].1);
        }
    }
    found
}

} // verus!
