//! The order of strings, sorting pairs of them, and sequences that differ in their
//! order only.
//!
//! Strings are ordered by their characters, the first difference deciding, which
//! is how the standard library orders them.

use crate::text::chars_of;
use vstd::prelude::*;
use vstd::relations::{sorted_by, total_ordering};

verus! {

/// A text comes no later than another: at the first difference its character is
/// the smaller one, or it ends there.
pub open spec fn text_le(a: Seq<char>, b: Seq<char>) -> bool
    decreases a.len(),
{
    if a.len() == 0 {
        true
    } else if b.len() == 0 {
        false
    } else if a.first() != b.first() {
        a.first() < b.first()
    } else {
        text_le(a.drop_first(), b.drop_first())
    }
}

/// A pair of texts comes no later than another: by the first text of each, or by
/// the second where the first are the same.
pub open spec fn pair_le(a: (Seq<char>, Seq<char>), b: (Seq<char>, Seq<char>)) -> bool {
    if a.0 == b.0 {
        text_le(a.1, b.1)
    } else {
        text_le(a.0, b.0)
    }
}

/// The first texts of some pairs strictly increase.
pub open spec fn strictly_increase(pairs: Seq<(Seq<char>, Seq<char>)>) -> bool {
    forall|i: int, j: int|
        0 <= i < j < pairs.len() ==> text_le((#[trigger] pairs[i]).0, (#[trigger] pairs[j]).0)
            && pairs[i].0 != pairs[j].0
}

/// The order of pairs as a relation.
pub open spec fn pair_order() -> spec_fn(
    (Seq<char>, Seq<char>),
    (Seq<char>, Seq<char>),
) -> bool {
    |a: (Seq<char>, Seq<char>), b: (Seq<char>, Seq<char>)| pair_le(a, b)
}

/// Some pairs in order.
pub open spec fn sorted_pairs(pairs: Seq<(Seq<char>, Seq<char>)>) -> Seq<(Seq<char>, Seq<char>)> {
    pairs.sort_by(pair_order())
}

proof fn lemma_text_le_total(a: Seq<char>, b: Seq<char>)
    ensures
        text_le(a, b) || text_le(b, a),
        text_le(a, a),
        text_le(a, b) && text_le(b, a) ==> a == b,
    decreases a.len(),
{
    if a.len() > 0 && b.len() > 0 {
        lemma_text_le_total(a.drop_first(), b.drop_first());
        if a.first() == b.first() && a.drop_first() == b.drop_first() {
            assert(a == seq![a.first()] + a.drop_first());
            assert(b == seq![b.first()] + b.drop_first());
        }
    } else if a.len() > 0 {
        lemma_text_le_total(a.drop_first(), a.drop_first());
    } else if b.len() == 0 {
        assert(a == b);
    }
}

proof fn lemma_text_le_transitive(a: Seq<char>, b: Seq<char>, c: Seq<char>)
    requires
        text_le(a, b),
        text_le(b, c),
    ensures
        text_le(a, c),
    decreases a.len(),
{
    if a.len() > 0 && a.first() == b.first() && b.first() == c.first() {
        lemma_text_le_transitive(a.drop_first(), b.drop_first(), c.drop_first());
    }
}

/// The order of pairs is total.
pub proof fn lemma_pair_order()
    ensures
        total_ordering(pair_order()),
{
    let leq = pair_order();
    assert forall|x: (Seq<char>, Seq<char>)| #[trigger] leq(x, x) by {
        lemma_text_le_total(x.1, x.1);
    }
    assert forall|x: (Seq<char>, Seq<char>), y: (Seq<char>, Seq<char>)| #[trigger]
        leq(x, y) && #[trigger] leq(y, x) implies x == y by {
        lemma_text_le_total(x.0, y.0);
        lemma_text_le_total(x.1, y.1);
    }
    assert forall|x: (Seq<char>, Seq<char>), y: (Seq<char>, Seq<char>)| #[trigger]
        leq(x, y) || #[trigger] leq(y, x) by {
        lemma_text_le_total(x.0, y.0);
        lemma_text_le_total(x.1, y.1);
    }
    assert forall|
        x: (Seq<char>, Seq<char>),
        y: (Seq<char>, Seq<char>),
        z: (Seq<char>, Seq<char>),
    | #[trigger]
        leq(x, y) && #[trigger] leq(y, z) implies leq(x, z) by {
        lemma_text_le_total(x.0, y.0);
        lemma_text_le_total(y.0, z.0);
        if x.0 == y.0 && y.0 == z.0 {
            lemma_text_le_transitive(x.1, y.1, z.1);
        } else {
            lemma_text_le_transitive(x.0, y.0, z.0);
        }
    }
}

/// Whether a string comes no later than another.
pub fn comes_no_later(a: &str, b: &str) -> (r: bool)
    ensures
        r == text_le(a@, b@),
{
    let left = chars_of(a);
    let right = chars_of(b);
    let mut i: usize = 0;
    proof {
        assert(left@.skip(0) == left@);
        assert(right@.skip(0) == right@);
    }
    while i < left.len() && i < right.len()
        invariant
            i <= left.len(),
            i <= right.len(),
            left@ == a@,
            right@ == b@,
            text_le(a@, b@) == text_le(left@.skip(i as int), right@.skip(i as int)),
        decreases left.len() - i,
    {
        if left[i] != right[i] {
            return left[i] < right[i];
        }
        proof {
            assert(left@.skip(i as int).drop_first() == left@.skip(i + 1));
            assert(right@.skip(i as int).drop_first() == right@.skip(i + 1));
        }
        i = i + 1;
    }
    i == left.len()
}

fn pair_comes_no_later(a: &(String, String), b: &(String, String)) -> (r: bool)
    ensures
        r == pair_le(a.deep_view(), b.deep_view()),
{
    if a.0 == b.0 {
        comes_no_later(a.1.as_str(), b.1.as_str())
    } else {
        comes_no_later(a.0.as_str(), b.0.as_str())
    }
}

/// Put some pairs in order.
pub fn sort_pairs(pairs: Vec<(String, String)>) -> (r: Vec<(String, String)>)
    ensures
        r.deep_view() == sorted_pairs(pairs.deep_view()),
{
    let ghost all = pairs.deep_view();
    let ghost leq = pair_order();
    let mut sorted: Vec<(String, String)> = Vec::new();
    proof {
        lemma_pair_order();
        assert(sorted.deep_view() == all.take(0));
    }
    for pair in it: pairs
        invariant
            leq == pair_order(),
            total_ordering(leq),
            it.seq() == pairs@,
            all == pairs.deep_view(),
            sorted_by(sorted.deep_view(), leq),
            sorted.deep_view().to_multiset() == all.take(it.index() as int).to_multiset(),
    {
        let ghost before = sorted.deep_view();
        let ghost new = pair.deep_view();
        let mut p: usize = 0;
        while p < sorted.len() && pair_comes_no_later(&sorted[p], &pair)
            invariant
                p <= sorted.len(),
                before == sorted.deep_view(),
                new == pair.deep_view(),
                forall|j: int| 0 <= j < p ==> pair_le(#[trigger] before[j], new),
            decreases sorted.len() - p,
        {
            p = p + 1;
        }
        proof {
            assert forall|j: int| p <= j < before.len() implies pair_le(new, #[trigger] before[j]) by {
                assert(leq(new, before[p as int]) || leq(before[p as int], new));
                if j > p {
                    assert(leq(before[p as int], before[j]));
                    assert(leq(new, before[p as int]));
                }
            }
        }
        sorted.insert(p, pair);
        proof {
            let after = sorted.deep_view();
            assert(after == before.insert(p as int, new));
            vstd::seq_lib::to_multiset_insert(before, p as int, new);
            let k = it.index() as int;
            assert(all.take(k + 1) == all.take(k).push(all[k]));
            vstd::seq_lib::to_multiset_build(all.take(k), all[k]);
            assert forall|i: int, j: int| 0 <= i < j < after.len() implies #[trigger] leq(
                after[i],
                after[j],
            ) by {
                if i < p && j > p {
                    assert(leq(before[i], before[j - 1]));
                } else if i > p {
                    assert(leq(before[i - 1], before[j - 1]));
                } else if j < p {
                    assert(leq(before[i], before[j]));
                }
            }
        }
    }
    proof {
        assert(all.take(all.len() as int) == all);
        all.lemma_sort_by_ensures(leq);
        vstd::seq_lib::lemma_sorted_unique(sorted.deep_view(), all.sort_by(leq), leq);
    }
    sorted
}

// ---------------------------------------------------------------------------
// Sequences with the same items
// ---------------------------------------------------------------------------

/// Mapping two sequences with the same items gives two sequences with the same
/// items.
pub proof fn lemma_same_items_mapped<A, B>(a: Seq<A>, b: Seq<A>, f: spec_fn(A) -> B)
    requires
        a.to_multiset() == b.to_multiset(),
    ensures
        a.map_values(f).to_multiset() == b.map_values(f).to_multiset(),
    decreases a.len(),
{
    broadcast use vstd::seq_lib::group_to_multiset_ensures;

    assert(a.len() == a.to_multiset().len());
    assert(b.len() == b.to_multiset().len());
    if a.len() == 0 {
        assert(a == b);
    } else {
        let x = a.last();
        assert(a.contains(x));
        assert(a.to_multiset().count(x) > 0);
        assert(b.contains(x));
        let i = choose|i: int| 0 <= i < b.len() && b[i] == x;
        let n = a.len() - 1;
        let shorter = b.remove(i);
        assert(a.remove(n) == a.drop_last());
        assert(a.drop_last().to_multiset() == a.to_multiset().remove(x));
        assert(shorter.to_multiset() == b.to_multiset().remove(x));
        lemma_same_items_mapped(a.drop_last(), shorter, f);
        let left = a.map_values(f);
        let right = b.map_values(f);
        assert(left.remove(n) == a.drop_last().map_values(f));
        assert(right.remove(i) == shorter.map_values(f));
        assert(left.remove(n).to_multiset() == left.to_multiset().remove(f(x)));
        assert(right.remove(i).to_multiset() == right.to_multiset().remove(f(x)));
        assert(left[n] == f(x) && right[i] == f(x));
        assert(left.contains(f(x)) && right.contains(f(x)));
        assert(left.to_multiset().count(f(x)) > 0);
        assert(right.to_multiset().count(f(x)) > 0);
        assert(left.to_multiset() == left.to_multiset().remove(f(x)).insert(f(x)));
        assert(right.to_multiset() == right.to_multiset().remove(f(x)).insert(f(x)));
    }
}

/// Of two sequences with the same items, both repeat one or neither does.
pub proof fn lemma_same_items_distinct<A>(a: Seq<A>, b: Seq<A>)
    requires
        a.to_multiset() == b.to_multiset(),
    ensures
        a.no_duplicates() == b.no_duplicates(),
{
    if a.no_duplicates() {
        a.lemma_multiset_has_no_duplicates();
        b.lemma_multiset_has_no_duplicates_conv();
    }
    if b.no_duplicates() {
        b.lemma_multiset_has_no_duplicates();
        a.lemma_multiset_has_no_duplicates_conv();
    }
}

// ---------------------------------------------------------------------------
// Laws
// ---------------------------------------------------------------------------

/// Texts are ordered by their first difference: a text comes no later than those that it
/// starts, and of two that differ at a place, and nowhere before it, the one with the
/// smaller character there comes first.
pub proof fn law_texts_are_ordered_by_their_first_difference(
    front: Seq<char>,
    a: Seq<char>,
    b: Seq<char>,
)
    ensures
        text_le(front, front + a),
        a.len() > 0 ==> !text_le(front + a, front),
        a.len() > 0 && b.len() > 0 && a[0] < b[0] ==> text_le(front + a, front + b) && !text_le(
            front + b,
            front + a,
        ),
    decreases front.len(),
{
    if front.len() == 0 {
        assert(front + a == a && front + b == b);
    } else {
        let more = front.drop_first();
        law_texts_are_ordered_by_their_first_difference(more, a, b);
        assert((front + a).drop_first() == more + a);
        assert((front + b).drop_first() == more + b);
    }
}

/// Pairs are ordered by their first texts, and by their second ones where these are the
/// same. Sorting keeps the pairs, each as often as it is there, and puts them in this order.
pub proof fn law_pairs_are_sorted_by_the_first_and_then_by_the_second(
    a: Seq<char>,
    b: Seq<char>,
    c: Seq<char>,
    d: Seq<char>,
    pairs: Seq<(Seq<char>, Seq<char>)>,
)
    ensures
        pair_le((a, b), (a, d)) <==> text_le(b, d),
        a != c ==> (pair_le((a, b), (c, d)) <==> text_le(a, c)),
        sorted_pairs(pairs).to_multiset() == pairs.to_multiset(),
        forall|i: int, j: int|
            0 <= i < j < sorted_pairs(pairs).len() ==> pair_le(
                #[trigger] sorted_pairs(pairs)[i],
                #[trigger] sorted_pairs(pairs)[j],
            ),
{
    lemma_pair_order();
    pairs.lemma_sort_by_ensures(pair_order());
    let sorted = sorted_pairs(pairs);
    let leq = pair_order();
    assert forall|i: int, j: int| 0 <= i < j < sorted.len() implies pair_le(
        #[trigger] sorted[i],
        #[trigger] sorted[j],
    ) by {
        assert(leq(sorted[i], sorted[j]));
    }
}

} // verus!
