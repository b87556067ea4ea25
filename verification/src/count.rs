// How often a value stands in a list.

use vstd::prelude::*;

verus! {

/// How often `x` stands in `items`.
pub open spec fn count_of<A>(items: Seq<A>, x: A) -> nat {
    items.to_multiset().count(x)
}

/// Nothing stands in the empty list.
pub proof fn lemma_count_empty<A>(x: A)
    ensures
        count_of(Seq::<A>::empty(), x) == 0,
{
    vstd::seq_lib::to_multiset_contains(Seq::<A>::empty(), x);
}

/// One more value at the end counts once more if it is `x`.
pub proof fn lemma_count_push<A>(items: Seq<A>, y: A, x: A)
    ensures
        count_of(items.push(y), x) == count_of(items, x) + if y == x {
            1nat
        } else {
            0nat
        },
{
    broadcast use vstd::multiset::group_multiset_axioms;

    vstd::seq_lib::to_multiset_build(items, y);
}

/// In two lists joined, a value stands as often as in both together.
pub proof fn lemma_count_add<A>(a: Seq<A>, b: Seq<A>, x: A)
    ensures
        count_of(a + b, x) == count_of(a, x) + count_of(b, x),
{
    broadcast use vstd::multiset::group_multiset_axioms;

    vstd::seq_lib::lemma_multiset_commutative(a, b);
}

/// A value stands in a list if and only if it stands there at least once,
/// and in a list without repetition it stands there once at most.
pub proof fn lemma_count_contains<A>(items: Seq<A>, x: A)
    ensures
        items.contains(x) <==> count_of(items, x) > 0,
        items.no_duplicates() ==> count_of(items, x) <= 1,
{
    broadcast use vstd::multiset::group_multiset_axioms;

    vstd::seq_lib::to_multiset_contains(items, x);
    if items.no_duplicates() {
        items.lemma_multiset_has_no_duplicates();
    }
}

} // verus!
