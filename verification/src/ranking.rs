//! Stable ordering of a sequence by an integer rank.
//!
//! Items with a smaller rank come first; items of equal rank keep the order
//! in which they were given.

use vstd::prelude::*;

verus! {

/// A value that is ordered by an integer rank. Smaller ranks come first.
pub trait Ranked: Sized {
    /// The rank of the value.
    spec fn rank(&self) -> int;

    /// Whether the rank of `self` is strictly below that of `other`.
    fn ranks_before(&self, other: &Self) -> (b: bool)
        ensures
            b == (self.rank() < other.rank()),
    ;
}

/// The number of leading items of `s` whose rank is strictly below `r`.
pub open spec fn lead_below<A>(s: Seq<A>, rank: spec_fn(A) -> int, r: int) -> nat
    decreases s.len(),
{
    if s.len() == 0 || rank(s.first()) >= r {
        0
    } else {
        1 + lead_below(s.drop_first(), rank, r)
    }
}

/// `sorted` with `x` put behind its leading items of strictly lower rank.
pub open spec fn insert_ranked<A>(sorted: Seq<A>, rank: spec_fn(A) -> int, x: A) -> Seq<A> {
    sorted.insert(lead_below(sorted, rank, rank(x)) as int, x)
}

/// The items of `s` in non-decreasing order of rank, items of equal rank in
/// the order they have in `s`.
pub open spec fn stable_sort<A>(s: Seq<A>, rank: spec_fn(A) -> int) -> Seq<A>
    decreases s.len(),
{
    if s.len() == 0 {
        s
    } else {
        insert_ranked(stable_sort(s.drop_first(), rank), rank, s.first())
    }
}

/// The test for an item of rank `r`.
pub open spec fn of_rank<A>(rank: spec_fn(A) -> int, r: int) -> spec_fn(A) -> bool {
    |x: A| rank(x) == r
}

/// Whether the ranks along `s` never decrease.
pub open spec fn is_ordered<A>(s: Seq<A>, rank: spec_fn(A) -> int) -> bool {
    forall|i: int, j: int| 0 <= i <= j < s.len() ==> rank(s[i]) <= rank(s[j])
}

/// The rank that the trait gives, as a function.
pub open spec fn rank_of<T: Ranked>() -> spec_fn(T) -> int {
    |x: T| x.rank()
}

/// `stable_sort` by the rank that the trait gives.
pub open spec fn sort_ranked<T: Ranked>(s: Seq<T>) -> Seq<T> {
    stable_sort(s, rank_of::<T>())
}

/// `lead_below` is at most the length, everything before it ranks below `r`,
/// and the item at it, if there is one, does not.
pub proof fn lemma_lead_below<A>(s: Seq<A>, rank: spec_fn(A) -> int, r: int)
    ensures
        lead_below(s, rank, r) <= s.len(),
        forall|i: int| 0 <= i < lead_below(s, rank, r) ==> rank(#[trigger] s[i]) < r,
        lead_below(s, rank, r) < s.len() ==> rank(s[lead_below(s, rank, r) as int]) >= r,
    decreases s.len(),
{
    if s.len() == 0 || rank(s.first()) >= r {
    } else {
        let t = s.drop_first();
        lemma_lead_below(t, rank, r);
        assert forall|i: int| 0 <= i < lead_below(s, rank, r) implies rank(#[trigger] s[i]) < r by {
            if i > 0 {
                assert(s[i] == t[i - 1]);
            }
        }
        if lead_below(s, rank, r) < s.len() {
            assert(s[lead_below(s, rank, r) as int] == t[lead_below(t, rank, r) as int]);
        }
    }
}

/// A position that splits `s` into items ranking below `r` and a first item
/// that does not is `lead_below`.
pub proof fn lemma_lead_below_found<A>(s: Seq<A>, rank: spec_fn(A) -> int, r: int, p: int)
    requires
        0 <= p <= s.len(),
        forall|i: int| 0 <= i < p ==> rank(#[trigger] s[i]) < r,
        p < s.len() ==> rank(s[p]) >= r,
    ensures
        lead_below(s, rank, r) == p,
    decreases s.len(),
{
    if p == 0 {
    } else {
        let t = s.drop_first();
        assert(rank(s[0]) < r);
        assert forall|i: int| 0 <= i < p - 1 implies rank(#[trigger] t[i]) < r by {
            assert(t[i] == s[i + 1]);
        }
        if p - 1 < t.len() {
            assert(t[p - 1] == s[p]);
        }
        lemma_lead_below_found(t, rank, r, p - 1);
    }
}

/// Sorting keeps the number of items.
pub proof fn lemma_sort_len<A>(s: Seq<A>, rank: spec_fn(A) -> int)
    ensures
        stable_sort(s, rank).len() == s.len(),
    decreases s.len(),
{
    if s.len() > 0 {
        let rest = stable_sort(s.drop_first(), rank);
        lemma_sort_len(s.drop_first(), rank);
        lemma_lead_below(rest, rank, rank(s.first()));
    }
}

/// Sorting keeps every item, as often as it occurs.
pub proof fn lemma_sort_permutes<A>(s: Seq<A>, rank: spec_fn(A) -> int)
    ensures
        stable_sort(s, rank).to_multiset() == s.to_multiset(),
    decreases s.len(),
{
    broadcast use vstd::seq_lib::to_multiset_insert;

    if s.len() > 0 {
        let rest = stable_sort(s.drop_first(), rank);
        lemma_sort_permutes(s.drop_first(), rank);
        lemma_lead_below(rest, rank, rank(s.first()));
        assert(s =~= s.drop_first().insert(0, s.first()));
    }
}

/// Putting an item into an ordered sequence leaves it ordered.
pub proof fn lemma_insert_ordered<A>(sorted: Seq<A>, rank: spec_fn(A) -> int, x: A)
    requires
        is_ordered(sorted, rank),
    ensures
        is_ordered(insert_ranked(sorted, rank, x), rank),
{
    let p = lead_below(sorted, rank, rank(x)) as int;
    let out = insert_ranked(sorted, rank, x);
    lemma_lead_below(sorted, rank, rank(x));
    assert forall|i: int, j: int| 0 <= i <= j < out.len() implies rank(out[i]) <= rank(out[j]) by {
        if j < p {
            assert(out[i] == sorted[i] && out[j] == sorted[j]);
        } else if i > p {
            assert(out[i] == sorted[i - 1] && out[j] == sorted[j - 1]);
        } else if i == p {
            if j > p {
                assert(out[j] == sorted[j - 1]);
                assert(rank(sorted[p]) <= rank(sorted[j - 1]));
            }
        } else {
            assert(out[i] == sorted[i]);
            if j > p {
                assert(out[j] == sorted[j - 1]);
                assert(rank(sorted[i]) <= rank(sorted[j - 1]));
            }
        }
    }
}

/// The ranks along a sorted sequence never decrease.
pub proof fn lemma_sort_ordered<A>(s: Seq<A>, rank: spec_fn(A) -> int)
    ensures
        is_ordered(stable_sort(s, rank), rank),
    decreases s.len(),
{
    if s.len() > 0 {
        lemma_sort_ordered(s.drop_first(), rank);
        lemma_insert_ordered(stable_sort(s.drop_first(), rank), rank, s.first());
    }
}

/// Every item of the sorted sequence is an item of the given one, and the
/// other way round.
pub proof fn lemma_sort_same_items<A>(s: Seq<A>, rank: spec_fn(A) -> int)
    ensures
        forall|x: A| #[trigger] stable_sort(s, rank).contains(x) <==> s.contains(x),
{
    lemma_sort_permutes(s, rank);
    assert forall|x: A| #[trigger] stable_sort(s, rank).contains(x) <==> s.contains(x) by {
        vstd::seq_lib::to_multiset_contains(stable_sort(s, rank), x);
        vstd::seq_lib::to_multiset_contains(s, x);
    }
}

/// Sorting is stable: the items of any one rank come in the order that they
/// have in the given sequence.
pub proof fn lemma_sort_stable<A>(s: Seq<A>, rank: spec_fn(A) -> int, r: int)
    ensures
        stable_sort(s, rank).filter(of_rank(rank, r)) == s.filter(of_rank(rank, r)),
    decreases s.len(),
{
    let same = of_rank(rank, r);
    if s.len() > 0 {
        let x = s.first();
        let rest = stable_sort(s.drop_first(), rank);
        let p = lead_below(rest, rank, rank(x)) as int;
        let head = rest.subrange(0, p);
        let tail = rest.subrange(p, rest.len() as int);
        lemma_sort_stable(s.drop_first(), rank, r);
        lemma_lead_below(rest, rank, rank(x));
        assert(s =~= seq![x] + s.drop_first());
        assert(rest =~= head + tail);
        assert(rest.insert(p, x) =~= head + (seq![x] + tail));
        Seq::filter_distributes_over_add(head, tail, same);
        Seq::filter_distributes_over_add(head, seq![x] + tail, same);
        s.drop_first().lemma_filter_prepend(x, same);
        tail.lemma_filter_prepend(x, same);
        if same(x) {
            assert(head.all(|y: A| !same(y))) by {
                assert forall|i: int| 0 <= i < head.len() implies !same(#[trigger] head[i]) by {
                    assert(head[i] == rest[i]);
                }
            }
            head.lemma_all_neg_filter_empty(same);
            assert(head.filter(same) =~= Seq::<A>::empty());
            assert(head.filter(same) + (seq![x] + tail.filter(same)) =~= seq![x] + (head.filter(
                same,
            ) + tail.filter(same)));
        } else {
            assert(Seq::<A>::empty() + tail.filter(same) =~= tail.filter(same));
            assert(Seq::<A>::empty() + s.drop_first().filter(same) =~= s.drop_first().filter(same));
        }
    }
}

/// An ordered sequence is determined by its items where no two different
/// items share a rank: two ordered sequences of the same items, each as often
/// in the one as in the other, are then equal.
pub proof fn lemma_ordered_unique<A>(a: Seq<A>, b: Seq<A>, rank: spec_fn(A) -> int)
    requires
        is_ordered(a, rank),
        is_ordered(b, rank),
        a.to_multiset() == b.to_multiset(),
        forall|x: A, y: A| a.contains(x) && a.contains(y) && rank(x) == rank(y) ==> x == y,
    ensures
        a == b,
    decreases a.len(),
{
    vstd::seq_lib::to_multiset_len(a);
    vstd::seq_lib::to_multiset_len(b);
    if a.len() == 0 {
        assert(a =~= b);
    } else {
        vstd::seq_lib::to_multiset_contains(a, a[0]);
        vstd::seq_lib::to_multiset_contains(b, a[0]);
        vstd::seq_lib::to_multiset_contains(a, b[0]);
        vstd::seq_lib::to_multiset_contains(b, b[0]);
        assert(a.contains(a[0]));
        assert(b.contains(b[0]));
        let j = choose|j: int| 0 <= j < b.len() && b[j] == a[0];
        let i = choose|i: int| 0 <= i < a.len() && a[i] == b[0];
        assert(rank(b[0]) <= rank(b[j]));
        assert(rank(a[0]) <= rank(a[i]));
        assert(a[0] == b[0]);
        let rest_a = a.drop_first();
        let rest_b = b.drop_first();
        vstd::seq_lib::to_multiset_remove(a, 0);
        vstd::seq_lib::to_multiset_remove(b, 0);
        assert(a.remove(0) =~= rest_a);
        assert(b.remove(0) =~= rest_b);
        assert forall|x: A, y: A|
            rest_a.contains(x) && rest_a.contains(y) && rank(x) == rank(y) implies x == y by {
            let k = choose|k: int| 0 <= k < rest_a.len() && rest_a[k] == x;
            let l = choose|l: int| 0 <= l < rest_a.len() && rest_a[l] == y;
            assert(a[k + 1] == x && a[l + 1] == y);
            assert(a.contains(x) && a.contains(y));
        }
        assert forall|k: int, l: int| 0 <= k <= l < rest_a.len() implies rank(rest_a[k]) <= rank(
            rest_a[l],
        ) by {
            assert(rest_a[k] == a[k + 1] && rest_a[l] == a[l + 1]);
        }
        assert forall|k: int, l: int| 0 <= k <= l < rest_b.len() implies rank(rest_b[k]) <= rank(
            rest_b[l],
        ) by {
            assert(rest_b[k] == b[k + 1] && rest_b[l] == b[l + 1]);
        }
        lemma_ordered_unique(rest_a, rest_b, rank);
        assert(a =~= seq![a[0]] + rest_a);
        assert(b =~= seq![b[0]] + rest_b);
    }
}

/// Sorting leaves an ordered sequence as it is.
pub proof fn lemma_sort_of_ordered<A>(s: Seq<A>, rank: spec_fn(A) -> int)
    requires
        is_ordered(s, rank),
    ensures
        stable_sort(s, rank) == s,
    decreases s.len(),
{
    if s.len() > 0 {
        let rest = s.drop_first();
        assert forall|k: int, l: int| 0 <= k <= l < rest.len() implies rank(rest[k]) <= rank(
            rest[l],
        ) by {
            assert(rest[k] == s[k + 1] && rest[l] == s[l + 1]);
        }
        lemma_sort_of_ordered(rest, rank);
        if rest.len() > 0 {
            assert(rest[0] == s[1]);
            assert(rank(s[0]) <= rank(s[1]));
        }
        assert(rest.insert(0, s.first()) =~= s);
    }
}

/// A first item that no other item ranks below stays first.
pub proof fn lemma_first_stays<A>(s: Seq<A>, rank: spec_fn(A) -> int)
    requires
        s.len() > 0,
        forall|i: int| 0 <= i < s.len() ==> rank(s[0]) <= rank(#[trigger] s[i]),
    ensures
        stable_sort(s, rank).len() == s.len(),
        stable_sort(s, rank)[0] == s[0],
{
    let rest = stable_sort(s.drop_first(), rank);
    lemma_sort_len(s, rank);
    lemma_sort_len(s.drop_first(), rank);
    lemma_sort_same_items(s.drop_first(), rank);
    if rest.len() > 0 {
        assert(rest.contains(rest[0]));
        assert(s.drop_first().contains(rest[0]));
        let i = choose|i: int| 0 <= i < s.drop_first().len() && s.drop_first()[i] == rest[0];
        assert(s[i + 1] == rest[0]);
    }
}

/// Sorting goes through a mapping of the items that keeps their ranks.
pub proof fn lemma_sort_map<A, B>(
    s: Seq<A>,
    f: spec_fn(A) -> B,
    rank_a: spec_fn(A) -> int,
    rank_b: spec_fn(B) -> int,
)
    requires
        forall|a: A| #[trigger] rank_b(f(a)) == rank_a(a),
    ensures
        stable_sort(s.map_values(f), rank_b) == stable_sort(s, rank_a).map_values(f),
    decreases s.len(),
{
    if s.len() == 0 {
        assert(s.map_values(f) =~= stable_sort(s, rank_a).map_values(f));
    } else {
        let rest_a = stable_sort(s.drop_first(), rank_a);
        let rest_b = stable_sort(s.drop_first().map_values(f), rank_b);
        lemma_sort_map(s.drop_first(), f, rank_a, rank_b);
        assert(s.map_values(f).drop_first() =~= s.drop_first().map_values(f));
        let x = s.first();
        let p = lead_below(rest_a, rank_a, rank_a(x)) as int;
        lemma_lead_below(rest_a, rank_a, rank_a(x));
        assert forall|i: int| 0 <= i < p implies rank_b(#[trigger] rest_b[i]) < rank_b(f(x)) by {
            assert(rest_b[i] == f(rest_a[i]));
        }
        if p < rest_b.len() {
            assert(rest_b[p] == f(rest_a[p]));
        }
        lemma_lead_below_found(rest_b, rank_b, rank_b(f(x)), p);
        assert(rest_b.insert(p, f(x)) =~= rest_a.insert(p, x).map_values(f));
    }
}

/// Sorts `v` by rank, smallest first; items of equal rank keep their order.
pub fn sort_by_rank<T: Ranked>(v: Vec<T>) -> (out: Vec<T>)
    ensures
        out@ == sort_ranked(v@),
{
    let ghost orig = v@;
    let ghost rank = rank_of::<T>();
    let mut rest = v;
    let mut out: Vec<T> = Vec::new();
    proof {
        assert(orig.subrange(orig.len() as int, orig.len() as int) =~= Seq::<T>::empty());
    }
    while rest.len() > 0
        invariant
            rest@.len() <= orig.len(),
            rest@ == orig.subrange(0, rest@.len() as int),
            out@ == stable_sort(orig.subrange(rest@.len() as int, orig.len() as int), rank),
            forall|y: T| #[trigger] rank(y) == y.rank(),
        decreases rest.len(),
    {
        let ghost k = rest@.len() as int;
        let x = rest.pop().unwrap();
        let mut i: usize = 0;
        let mut found = false;
        while i < out.len() && !found
            invariant
                i <= out.len(),
                forall|j: int| 0 <= j < i ==> (#[trigger] out@[j]).rank() < x.rank(),
                found ==> i < out.len() && out@[i as int].rank() >= x.rank(),
            decreases out.len() - i + (if found { 0int } else { 1int }),
        {
            if out[i].ranks_before(&x) {
                i += 1;
            } else {
                found = true;
            }
        }
        proof {
            lemma_lead_below_found(out@, rank, rank(x), i as int);
            let tail = orig.subrange(k - 1, orig.len() as int);
            assert(tail.first() == x);
            assert(tail.drop_first() =~= orig.subrange(k, orig.len() as int));
        }
        out.insert(i, x);
    }
    proof {
        assert(orig.subrange(0, orig.len() as int) =~= orig);
    }
    out
}

} // verus!
