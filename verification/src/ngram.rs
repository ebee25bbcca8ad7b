//! Character n-grams: counting the grams of a corpus and looking them up.
//!
//! A gram is a run of exactly `n` characters. Training slides a window of
//! that length over the corpus, character by character, and counts each gram
//! it sees.

use vstd::hash_map::StringHashMap;
use vstd::prelude::*;
use crate::text::chars_of;

verus! {

/// The grams of a corpus with their counts.
pub struct NGramModel {
    /// The length of a gram, at least 1.
    pub n: usize,
    /// How often each gram occurs.
    pub counts: StringHashMap<usize>,
    /// The number of windows counted: the sum of all counts.
    pub total: usize,
}

/// The number of windows of length `n` in a text of `len` characters.
pub open spec fn window_count(len: nat, n: nat) -> nat {
    if len >= n {
        (len - n + 1) as nat
    } else {
        0
    }
}

/// The window of length `n` that starts at character `i` of `text`.
pub open spec fn window(text: Seq<char>, n: nat, i: int) -> Seq<char> {
    text.subrange(i, i + n)
}

/// How many of the first `k` windows of `text` are `gram`.
pub open spec fn occurrences(text: Seq<char>, n: nat, gram: Seq<char>, k: nat) -> nat
    decreases k,
{
    if k == 0 {
        0
    } else {
        occurrences(text, n, gram, (k - 1) as nat) + if window(text, n, k - 1) == gram {
            1nat
        } else {
            0nat
        }
    }
}

/// The counts after the first `k` windows of `text`: an entry for each gram
/// among them, with the number of its occurrences.
pub open spec fn gram_counts_upto(text: Seq<char>, n: nat, k: nat) -> Map<Seq<char>, usize> {
    Map::new(
        |gram: Seq<char>| occurrences(text, n, gram, k) > 0,
        |gram: Seq<char>| occurrences(text, n, gram, k) as usize,
    )
}

/// The counts of all grams of length `n` in `text`.
pub open spec fn gram_counts(text: Seq<char>, n: nat) -> Map<Seq<char>, usize> {
    gram_counts_upto(text, n, window_count(text.len(), n))
}

/// The sum of all counts in `counts`.
pub open spec fn counts_sum(counts: Map<Seq<char>, usize>) -> nat
    decreases counts.dom().len(),
    when counts.dom().finite()
    via counts_sum_decreases
{
    if counts.dom().len() == 0 {
        0
    } else {
        let gram = counts.dom().choose();
        counts[gram] as nat + counts_sum(counts.remove(gram))
    }
}

#[via_fn]
proof fn counts_sum_decreases(counts: Map<Seq<char>, usize>) {
    if counts.dom().len() != 0 {
        let gram = counts.dom().choose();
        vstd::set_lib::axiom_is_empty_len0(counts.dom());
        assert(counts.dom().contains(gram));
        assert(counts.remove(gram).dom() =~= counts.dom().remove(gram));
    }
}

/// The count with which a gram enters a score: its count in `counts`, and 1
/// where it has none.
pub open spec fn smoothed_count(counts: Map<Seq<char>, usize>, gram: Seq<char>) -> usize {
    if counts.contains_key(gram) {
        counts[gram]
    } else {
        1
    }
}

impl Default for NGramModel {
    /// The model of order zero without grams. It is not well formed: train a
    /// model to get one that is.
    fn default() -> (model: Self)
        ensures
            model.n == 0,
            model.counts@ == Map::<Seq<char>, usize>::empty(),
            model.total == 0,
    {
        NGramModel { n: 0, counts: StringHashMap::new(), total: 0 }
    }
}

impl NGramModel {
    /// The model's invariant: grams have at least one character, every gram
    /// counted has exactly `n` of them and a positive count, and `total` is
    /// the sum of all counts.
    pub open spec fn well_formed(&self) -> bool {
        &&& self.n >= 1
        &&& self.counts@.dom().finite()
        &&& forall|gram: Seq<char>| #[trigger]
            self.counts@.contains_key(gram) ==> gram.len() == self.n && self.counts@[gram] > 0
        &&& self.total == counts_sum(self.counts@)
    }

    /// The count of `gram`, zero where the corpus did not hold it.
    pub fn count(&self, gram: &str) -> (c: usize)
        ensures
            c == if self.counts@.contains_key(gram@) {
                self.counts@[gram@]
            } else {
                0
            },
    {
        match self.counts.get(gram) {
            Some(c) => *c,
            None => 0,
        }
    }

    /// The number of different grams counted.
    pub fn gram_count(&self) -> (c: usize)
        ensures
            c == self.counts@.len(),
    {
        self.counts.len()
    }
}

/// A gram occurs among the first `k` windows at most `k` times.
pub proof fn lemma_occurrences_bound(text: Seq<char>, n: nat, gram: Seq<char>, k: nat)
    ensures
        occurrences(text, n, gram, k) <= k,
    decreases k,
{
    if k > 0 {
        lemma_occurrences_bound(text, n, gram, (k - 1) as nat);
    }
}

/// Only a gram of length `n` occurs among the windows of a text.
pub proof fn lemma_occurring_gram_len(text: Seq<char>, n: nat, gram: Seq<char>, k: nat)
    requires
        k <= window_count(text.len(), n),
        occurrences(text, n, gram, k) > 0,
    ensures
        gram.len() == n,
    decreases k,
{
    if k > 0 {
        if window(text, n, k - 1) == gram {
        } else {
            lemma_occurring_gram_len(text, n, gram, (k - 1) as nat);
        }
    }
}

/// Counting one more window adds one to the count of its gram and leaves the
/// other counts as they are.
pub proof fn lemma_counts_step(text: Seq<char>, n: nat, k: nat)
    ensures
        gram_counts_upto(text, n, k + 1) == gram_counts_upto(text, n, k).insert(
            window(text, n, k as int),
            (occurrences(text, n, window(text, n, k as int), k) + 1) as usize,
        ),
{
    assert(gram_counts_upto(text, n, k + 1) =~= gram_counts_upto(text, n, k).insert(
        window(text, n, k as int),
        (occurrences(text, n, window(text, n, k as int), k) + 1) as usize,
    ));
}

/// The sum of the counts is the count of any one gram plus the sum of the
/// others.
pub proof fn lemma_sum_remove(counts: Map<Seq<char>, usize>, gram: Seq<char>)
    requires
        counts.dom().finite(),
        counts.contains_key(gram),
    ensures
        counts_sum(counts) == counts[gram] + counts_sum(counts.remove(gram)),
    decreases counts.dom().len(),
{
    vstd::set_lib::axiom_is_empty_len0(counts.dom());
    let chosen = counts.dom().choose();
    if chosen != gram {
        let without_chosen = counts.remove(chosen);
        let without_gram = counts.remove(gram);
        assert(without_chosen.dom() =~= counts.dom().remove(chosen));
        assert(without_gram.dom() =~= counts.dom().remove(gram));
        lemma_sum_remove(without_chosen, gram);
        lemma_sum_remove(without_gram, chosen);
        assert(without_chosen.remove(gram) =~= without_gram.remove(chosen));
    }
}

/// Setting the count of a gram changes the sum by the difference to the
/// count it had, or to zero where it had none.
pub proof fn lemma_sum_insert(counts: Map<Seq<char>, usize>, gram: Seq<char>, count: usize)
    requires
        counts.dom().finite(),
    ensures
        counts.insert(gram, count).dom().finite(),
        counts_sum(counts.insert(gram, count)) + (if counts.contains_key(gram) {
            counts[gram] as nat
        } else {
            0
        }) == counts_sum(counts) + count,
{
    let after = counts.insert(gram, count);
    assert(after.dom() =~= counts.dom().insert(gram));
    lemma_sum_remove(after, gram);
    if counts.contains_key(gram) {
        lemma_sum_remove(counts, gram);
        assert(after.remove(gram) =~= counts.remove(gram));
    } else {
        assert(after.remove(gram) =~= counts);
    }
}

/// After `k` windows the counts are finitely many and sum up to `k`.
pub proof fn lemma_counts_sum_upto(text: Seq<char>, n: nat, k: nat)
    requires
        k <= usize::MAX,
    ensures
        gram_counts_upto(text, n, k).dom().finite(),
        counts_sum(gram_counts_upto(text, n, k)) == k,
    decreases k,
{
    if k == 0 {
        assert(gram_counts_upto(text, n, 0).dom() =~= Set::<Seq<char>>::empty());
    } else {
        let before = gram_counts_upto(text, n, (k - 1) as nat);
        let gram = window(text, n, k - 1);
        lemma_counts_sum_upto(text, n, (k - 1) as nat);
        lemma_counts_step(text, n, (k - 1) as nat);
        lemma_occurrences_bound(text, n, gram, (k - 1) as nat);
        lemma_sum_insert(before, gram, (occurrences(text, n, gram, (k - 1) as nat) + 1) as usize);
    }
}

/// The total of a trained model: the counts of all grams of a text sum up to
/// the number of its windows, which is the number of its characters minus
/// `n - 1`, and zero where the text is shorter than `n`.
pub proof fn lemma_total_is_sum(text: Seq<char>, n: nat)
    requires
        n >= 1,
        text.len() <= usize::MAX,
    ensures
        gram_counts(text, n).dom().finite(),
        counts_sum(gram_counts(text, n)) == window_count(text.len(), n),
        window_count(text.len(), n) == if text.len() + 1 >= n {
            text.len() + 1 - n
        } else {
            0
        },
{
    lemma_counts_sum_upto(text, n, window_count(text.len(), n));
}

/// The characters of `chars` from `start` on, `n` of them, as a string.
fn gram_at(chars: &Vec<char>, start: usize, n: usize) -> (gram: String)
    requires
        start + n <= chars.len(),
    ensures
        gram@ == window(chars@, n as nat, start as int),
{
    let mut gram = String::new();
    let mut j: usize = 0;
    while j < n
        invariant
            j <= n,
            start + n <= chars.len(),
            gram@ == chars@.subrange(start as int, start + j),
        decreases n - j,
    {
        gram.push(chars[start + j]);
        proof {
            assert(chars@.subrange(start as int, start + j + 1) =~= chars@.subrange(
                start as int,
                start + j,
            ).push(chars@[start + j]));
        }
        j += 1;
    }
    gram
}

/// Trains a model of order `n` on `text`: every window of `n` characters
/// counts once for its gram. A text of fewer than `n` characters gives a
/// model without grams.
pub fn train_ngram(text: &str, n: usize) -> (model: NGramModel)
    requires
        n >= 1,
    ensures
        model.n == n,
        model.counts@ == gram_counts(text@, n as nat),
        model.total == window_count(text@.len(), n as nat),
        model.total == counts_sum(model.counts@),
        model.well_formed(),
{
    let chars = chars_of(text);
    let windows: usize = if chars.len() >= n {
        chars.len() - (n - 1)
    } else {
        0
    };
    let mut counts: StringHashMap<usize> = StringHashMap::new();
    let mut total: usize = 0;
    proof {
        assert(counts@ =~= gram_counts_upto(text@, n as nat, 0));
    }
    while total < windows
        invariant
            n >= 1,
            chars@ == text@,
            windows == window_count(text@.len(), n as nat),
            total <= windows,
            counts@ == gram_counts_upto(text@, n as nat, total as nat),
        decreases windows - total,
    {
        let gram = gram_at(&chars, total, n);
        let seen = match counts.get(gram.as_str()) {
            Some(c) => *c,
            None => 0,
        };
        proof {
            lemma_occurrences_bound(text@, n as nat, gram@, total as nat);
            lemma_counts_step(text@, n as nat, total as nat);
        }
        counts.insert(gram, seen + 1);
        total += 1;
    }
    proof {
        lemma_total_is_sum(text@, n as nat);
        assert forall|gram: Seq<char>| #[trigger] counts@.contains_key(gram) implies gram.len() == n
            && counts@[gram] > 0 by {
            lemma_occurring_gram_len(text@, n as nat, gram, windows as nat);
            lemma_occurrences_bound(text@, n as nat, gram, windows as nat);
        }
    }
    NGramModel { n, counts, total }
}

/// The counts that a score of `text` is made of: for each window of `text`,
/// in order, the count of its gram in the model, and 1 for a gram that the
/// model does not hold.
pub fn smoothed_counts(text: &str, model: &NGramModel) -> (counts: Vec<usize>)
    requires
        model.n >= 1,
    ensures
        counts@.len() == window_count(text@.len(), model.n as nat),
        forall|i: int|
            0 <= i < counts@.len() ==> counts@[i] == smoothed_count(
                model.counts@,
                window(text@, model.n as nat, i),
            ),
{
    let chars = chars_of(text);
    let windows: usize = if chars.len() >= model.n {
        chars.len() - (model.n - 1)
    } else {
        0
    };
    let mut counts: Vec<usize> = Vec::new();
    let mut i: usize = 0;
    while i < windows
        invariant
            model.n >= 1,
            chars@ == text@,
            windows == window_count(text@.len(), model.n as nat),
            i <= windows,
            counts@.len() == i,
            forall|j: int|
                0 <= j < i ==> counts@[j] == smoothed_count(
                    model.counts@,
                    window(text@, model.n as nat, j),
                ),
        decreases windows - i,
    {
        let gram = gram_at(&chars, i, model.n);
        let count = match model.counts.get(gram.as_str()) {
            Some(c) => *c,
            None => 1,
        };
        counts.push(count);
        i += 1;
    }
    counts
}

} // verus!
