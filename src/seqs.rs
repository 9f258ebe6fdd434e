//! Mapping each element of a sequence to a run of results, and what that
//! does with concatenation and reordering.

use vstd::prelude::*;
use vstd::seq_lib::lemma_multiset_commutative;

verus! {

broadcast use {vstd::seq_lib::group_to_multiset_ensures, vstd::multiset::group_multiset_axioms};

/// The runs `f(s[0])`, `f(s[1])`, ... one after the other.
pub open spec fn flat_map<A, B>(s: Seq<A>, f: spec_fn(A) -> Seq<B>) -> Seq<B>
    decreases s.len(),
{
    if s.len() == 0 {
        seq![]
    } else {
        flat_map(s.drop_last(), f) + f(s.last())
    }
}

/// Mapping a concatenation gives the concatenation of the mapped parts.
pub proof fn lemma_flat_map_append<A, B>(a: Seq<A>, b: Seq<A>, f: spec_fn(A) -> Seq<B>)
    ensures
        flat_map(a + b, f) == flat_map(a, f) + flat_map(b, f),
    decreases b.len(),
{
    if b.len() == 0 {
        assert(a + b =~= a);
        assert(flat_map(a, f) + flat_map(b, f) =~= flat_map(a, f));
    } else {
        assert((a + b).drop_last() =~= a + b.drop_last());
        assert((a + b).last() == b.last());
        lemma_flat_map_append(a, b.drop_last(), f);
        assert(flat_map(a + b, f) =~= flat_map(a, f) + flat_map(b, f));
    }
}

/// The results for `s`, counted with multiplicity, are those for `s`
/// without its element at `i` together with that element's run.
pub proof fn lemma_flat_map_remove<A, B>(s: Seq<A>, i: int, f: spec_fn(A) -> Seq<B>)
    requires
        0 <= i < s.len(),
    ensures
        flat_map(s, f).to_multiset() == flat_map(s.remove(i), f).to_multiset().add(
            f(s[i]).to_multiset(),
        ),
    decreases s.len(),
{
    lemma_multiset_commutative(flat_map(s.drop_last(), f), f(s.last()));
    if i == s.len() - 1 {
        assert(s.remove(i) =~= s.drop_last());
    } else {
        let r = s.remove(i);
        assert(r.drop_last() =~= s.drop_last().remove(i));
        assert(r.last() == s.last());
        assert(s.drop_last()[i] == s[i]);
        lemma_flat_map_remove(s.drop_last(), i, f);
        lemma_multiset_commutative(flat_map(r.drop_last(), f), f(r.last()));
        assert(flat_map(s, f).to_multiset() =~= flat_map(r, f).to_multiset().add(
            f(s[i]).to_multiset(),
        ));
    }
}

/// Reordering the elements reorders the results only: two permutations of
/// the same elements give the same results, counted with multiplicity.
pub proof fn lemma_flat_map_permutation<A, B>(a: Seq<A>, b: Seq<A>, f: spec_fn(A) -> Seq<B>)
    requires
        a.to_multiset() == b.to_multiset(),
    ensures
        flat_map(a, f).to_multiset() == flat_map(b, f).to_multiset(),
    decreases a.len(),
{
    if a.len() == 0 {
        assert(b.to_multiset().len() == 0);
        assert(b =~= Seq::<A>::empty());
    } else {
        let x = a.last();
        assert(a =~= a.drop_last().push(x));
        assert(a.to_multiset().count(x) > 0);
        assert(b.contains(x));
        let i = choose|i: int| 0 <= i < b.len() && b[i] == x;
        assert(b.remove(i).to_multiset() =~= a.drop_last().to_multiset());
        lemma_flat_map_permutation(a.drop_last(), b.remove(i), f);
        lemma_flat_map_remove(a, a.len() - 1, f);
        assert(a.remove(a.len() - 1) =~= a.drop_last());
        lemma_flat_map_remove(b, i, f);
    }
}

} // verus!
