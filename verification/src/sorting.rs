//! Sorting of `(key, index)` pairs with std's sort.
use vstd::prelude::*;

verus! {

/// The lexicographic order of `(i64, usize)` pairs, std's `Ord` for tuples.
pub open spec fn pair_le(a: (i64, usize), b: (i64, usize)) -> bool {
    a.0 < b.0 || (a.0 == b.0 && a.1 <= b.1)
}

/// `slice::sort` on `(i64, usize)` pairs: afterwards the vector holds the same
/// pairs, in non-decreasing lexicographic order.
#[verifier::external_body]
pub(crate) fn sort_pairs(v: &mut Vec<(i64, usize)>)
    ensures
        final(v)@.to_multiset() == old(v)@.to_multiset(),
        final(v)@.len() == old(v)@.len(),
        forall|i: int, j: int| 0 <= i < j < final(v)@.len() ==> pair_le(#[trigger] final(v)@[i], #[trigger] final(v)@[j]),
{
    v.sort();
}

/// Mapping two sequences with the same items gives two sequences with the
/// same items.
pub proof fn lemma_map_same_items<A, B>(a: Seq<A>, b: Seq<A>, f: spec_fn(A) -> B)
    requires
        a.to_multiset() == b.to_multiset(),
    ensures
        a.map_values(f).to_multiset() == b.map_values(f).to_multiset(),
    decreases a.len(),
{
    broadcast use vstd::seq_lib::group_to_multiset_ensures;
    if a.len() == 0 {
        assert(a.to_multiset().len() == 0);
        assert(b.to_multiset().len() == b.len());
        assert(b.len() == 0);
        assert(a.map_values(f) =~= b.map_values(f));
    } else {
        let x = a.last();
        let a1 = a.drop_last();
        assert(a1.push(x) =~= a);
        assert(a.to_multiset().count(x) > 0) by {
            assert(a.contains(x)) by { assert(a[a.len() - 1] == x); }
        }
        assert(b.contains(x));
        let i = choose|i: int| 0 <= i < b.len() && b[i] == x;
        let b1 = b.remove(i);
        assert(a1.to_multiset() =~= b1.to_multiset());
        lemma_map_same_items(a1, b1, f);
        assert(a.map_values(f) =~= a1.map_values(f).push(f(x)));
        assert(b.map_values(f).remove(i) =~= b1.map_values(f));
        let mb = b.map_values(f);
        assert(mb[i] == f(x));
        assert(mb.to_multiset() =~= b1.map_values(f).to_multiset().insert(f(x))) by {
            assert(mb.to_multiset().count(f(x)) > 0) by { assert(mb.contains(f(x))); }
        }
    }
}

/// An item of one of two sequences with the same items is an item of the
/// other.
pub proof fn lemma_same_items_member<A>(a: Seq<A>, b: Seq<A>, x: A)
    requires
        a.to_multiset() == b.to_multiset(),
        a.contains(x),
    ensures
        b.contains(x),
{
    broadcast use vstd::seq_lib::group_to_multiset_ensures;
    assert(a.to_multiset().count(x) > 0);
    assert(b.to_multiset().count(x) > 0);
}

/// `pair_le` as a relation.
pub open spec fn pair_order() -> spec_fn((i64, usize), (i64, usize)) -> bool {
    |a: (i64, usize), b: (i64, usize)| pair_le(a, b)
}

/// The lexicographic order of pairs is a total order.
pub proof fn lemma_pair_order_total()
    ensures
        vstd::relations::total_ordering(pair_order()),
{
    let r = pair_order();
    assert(vstd::relations::reflexive(r));
    assert(vstd::relations::antisymmetric(r)) by {
        assert forall|x: (i64, usize), y: (i64, usize)| #[trigger] r(x, y) && #[trigger] r(y, x) implies x == y by {
            assert(x.0 == y.0 && x.1 == y.1);
        }
    }
    assert(vstd::relations::transitive(r));
    assert(vstd::relations::strongly_connected(r));
}

/// Sorting pairs in lexicographic order has one outcome: a sequence with the
/// items of `p`, each before the larger ones, is `p` sorted.
pub proof fn lemma_pairs_sorted_unique(p: Seq<(i64, usize)>, q: Seq<(i64, usize)>)
    requires
        q.to_multiset() == p.to_multiset(),
        forall|i: int, j: int| 0 <= i < j < q.len() ==> pair_le(#[trigger] q[i], #[trigger] q[j]),
    ensures
        q == p.sort_by(pair_order()),
{
    lemma_pair_order_total();
    p.lemma_sort_by_ensures(pair_order());
    assert(vstd::relations::sorted_by(q, pair_order())) by {
        assert forall|i: int, j: int| 0 <= i < j < q.len() implies #[trigger] (pair_order())(q[i], q[j]) by {
            assert(pair_le(q[i], q[j]));
        }
    }
    vstd::seq_lib::lemma_sorted_unique(q, p.sort_by(pair_order()), pair_order());
}

} // verus!
