//! Lexicographic order on byte strings (the order of `str` and `String`) and
//! a sort of byte strings by it.

use vstd::prelude::*;
use vstd::relations::*;
use vstd::seq_lib::*;
use std::collections::VecDeque;

verus! {

broadcast use {vstd::seq_lib::group_to_multiset_ensures, vstd::multiset::group_multiset_axioms};

/// `a` is at most `b` in lexicographic byte order: a proper prefix comes
/// first, otherwise the first differing byte decides.
pub open spec fn bytes_leq(a: Seq<u8>, b: Seq<u8>) -> bool
    decreases a.len(),
{
    if a.len() == 0 {
        true
    } else if b.len() == 0 {
        false
    } else if a[0] != b[0] {
        a[0] < b[0]
    } else {
        bytes_leq(a.drop_first(), b.drop_first())
    }
}

/// `bytes_leq` as a relation value.
pub open spec fn bytes_order() -> spec_fn(Seq<u8>, Seq<u8>) -> bool {
    |a: Seq<u8>, b: Seq<u8>| bytes_leq(a, b)
}

/// The views of a sequence of byte vectors.
pub open spec fn byte_views(s: Seq<Vec<u8>>) -> Seq<Seq<u8>> {
    s.map_values(|x: Vec<u8>| x@)
}

proof fn lemma_leq_reflexive(a: Seq<u8>)
    ensures
        bytes_leq(a, a),
    decreases a.len(),
{
    if a.len() > 0 {
        lemma_leq_reflexive(a.drop_first());
    }
}

proof fn lemma_leq_antisymmetric(a: Seq<u8>, b: Seq<u8>)
    requires
        bytes_leq(a, b),
        bytes_leq(b, a),
    ensures
        a == b,
    decreases a.len(),
{
    if a.len() > 0 && b.len() > 0 {
        lemma_leq_antisymmetric(a.drop_first(), b.drop_first());
        assert(a =~= seq![a[0]] + a.drop_first());
        assert(b =~= seq![b[0]] + b.drop_first());
    } else {
        assert(a =~= b);
    }
}

proof fn lemma_leq_transitive(a: Seq<u8>, b: Seq<u8>, c: Seq<u8>)
    requires
        bytes_leq(a, b),
        bytes_leq(b, c),
    ensures
        bytes_leq(a, c),
    decreases a.len(),
{
    if a.len() > 0 && b.len() > 0 && c.len() > 0 && a[0] == b[0] && b[0] == c[0] {
        lemma_leq_transitive(a.drop_first(), b.drop_first(), c.drop_first());
    }
}

proof fn lemma_leq_connected(a: Seq<u8>, b: Seq<u8>)
    ensures
        bytes_leq(a, b) || bytes_leq(b, a),
    decreases a.len(),
{
    if a.len() > 0 && b.len() > 0 && a[0] == b[0] {
        lemma_leq_connected(a.drop_first(), b.drop_first());
    }
}

/// Lexicographic byte order is a total order.
pub proof fn lemma_bytes_order_total()
    ensures
        total_ordering(bytes_order()),
{
    assert forall|a: Seq<u8>| #[trigger] bytes_order()(a, a) by {
        lemma_leq_reflexive(a);
    }
    assert forall|a: Seq<u8>, b: Seq<u8>|
        #[trigger] bytes_order()(a, b) && #[trigger] bytes_order()(b, a) implies a == b by {
        lemma_leq_antisymmetric(a, b);
    }
    assert forall|a: Seq<u8>, b: Seq<u8>, c: Seq<u8>|
        #[trigger] bytes_order()(a, b) && #[trigger] bytes_order()(b, c) implies bytes_order()(a, c) by {
        lemma_leq_transitive(a, b, c);
    }
    assert forall|a: Seq<u8>, b: Seq<u8>| #[trigger] bytes_order()(a, b) || #[trigger] bytes_order()(b, a) by {
        lemma_leq_connected(a, b);
    }
}

/// Sorting by the byte order depends only on which strings occur, and how
/// often: any two orderings of the same strings sort to the same sequence.
pub proof fn lemma_sort_depends_on_multiset(x: Seq<Seq<u8>>, y: Seq<Seq<u8>>)
    requires
        x.to_multiset() == y.to_multiset(),
    ensures
        x.sort_by(bytes_order()) == y.sort_by(bytes_order()),
{
    lemma_bytes_order_total();
    x.lemma_sort_by_ensures(bytes_order());
    y.lemma_sort_by_ensures(bytes_order());
    lemma_sorted_unique(x.sort_by(bytes_order()), y.sort_by(bytes_order()), bytes_order());
}

/// Whether `a` comes no later than `b` in lexicographic byte order.
pub fn bytes_le(a: &[u8], b: &[u8]) -> (r: bool)
    ensures
        r == bytes_leq(a@, b@),
{
    let mut i: usize = 0;
    assert(a@.skip(0) =~= a@);
    assert(b@.skip(0) =~= b@);
    while i < a.len() && i < b.len()
        invariant
            i <= a@.len(),
            i <= b@.len(),
            bytes_leq(a@, b@) == bytes_leq(a@.skip(i as int), b@.skip(i as int)),
        decreases a@.len() - i,
    {
        if a[i] != b[i] {
            return a[i] < b[i];
        }
        assert(a@.skip(i as int).drop_first() =~= a@.skip(i + 1));
        assert(b@.skip(i as int).drop_first() =~= b@.skip(i + 1));
        i = i + 1;
    }
    i == a.len()
}

/// Every element's view is at most every later element's view.
pub open spec fn views_sorted(s: Seq<Vec<u8>>) -> bool {
    forall|i: int, j: int| 0 <= i < j < s.len() ==> bytes_leq(#[trigger] s[i]@, #[trigger] s[j]@)
}

/// Every element's view in `a` is at most every element's view in `b`.
pub open spec fn views_below(a: Seq<Vec<u8>>, b: Seq<Vec<u8>>) -> bool {
    forall|i: int, j: int| 0 <= i < a.len() && 0 <= j < b.len() ==> bytes_leq(#[trigger] a[i]@, #[trigger] b[j]@)
}

proof fn lemma_views_sorted_concat(a: Seq<Vec<u8>>, b: Seq<Vec<u8>>)
    requires
        views_sorted(a),
        views_sorted(b),
        views_below(a, b),
    ensures
        views_sorted(a + b),
{
    assert forall|i: int, j: int| 0 <= i < j < (a + b).len() implies bytes_leq(
        #[trigger] (a + b)[i]@,
        #[trigger] (a + b)[j]@,
    ) by {
        if j < a.len() {
            assert((a + b)[i] == a[i] && (a + b)[j] == a[j]);
        } else if i < a.len() {
            assert((a + b)[i] == a[i] && (a + b)[j] == b[j - a.len()]);
        } else {
            assert((a + b)[i] == b[i - a.len()] && (a + b)[j] == b[j - a.len()]);
        }
    }
}

proof fn lemma_views_multiset_front(s: Seq<Vec<u8>>)
    requires
        s.len() > 0,
    ensures
        byte_views(s).to_multiset() == byte_views(s.subrange(1, s.len() as int)).to_multiset().insert(
            s[0]@,
        ),
{
    let rest = s.subrange(1, s.len() as int);
    assert(byte_views(s) =~= seq![s[0]@] + byte_views(rest));
    lemma_multiset_commutative(seq![s[0]@], byte_views(rest));
    assert(seq![s[0]@] =~= Seq::<Seq<u8>>::empty().push(s[0]@));
    assert(byte_views(s).to_multiset() =~= byte_views(rest).to_multiset().insert(s[0]@));
}

proof fn lemma_views_multiset_concat(a: Seq<Vec<u8>>, b: Seq<Vec<u8>>)
    ensures
        byte_views(a + b).to_multiset() == byte_views(a).to_multiset().add(byte_views(b).to_multiset()),
{
    assert(byte_views(a + b) =~= byte_views(a) + byte_views(b));
    lemma_multiset_commutative(byte_views(a), byte_views(b));
}

/// Merges two runs that are each in lexicographic order into one.
fn merge_runs(a: VecDeque<Vec<u8>>, b: VecDeque<Vec<u8>>) -> (r: VecDeque<Vec<u8>>)
    requires
        views_sorted(a@),
        views_sorted(b@),
    ensures
        views_sorted(r@),
        byte_views(r@).to_multiset() == byte_views(a@).to_multiset().add(byte_views(b@).to_multiset()),
{
    proof {
        lemma_bytes_order_total();
    }
    let ghost total = byte_views(a@).to_multiset().add(byte_views(b@).to_multiset());
    let mut a = a;
    let mut b = b;
    let mut out: VecDeque<Vec<u8>> = VecDeque::new();
    while a.len() > 0 && b.len() > 0
        invariant
            views_sorted(a@),
            views_sorted(b@),
            views_sorted(out@),
            views_below(out@, a@),
            views_below(out@, b@),
            byte_views(out@).to_multiset().add(byte_views(a@).to_multiset()).add(
                byte_views(b@).to_multiset(),
            ) == total,
            total_ordering(bytes_order()),
        decreases a@.len() + b@.len(),
    {
        let ghost oa = a@;
        let ghost ob = b@;
        let ghost oo = out@;
        if bytes_le(a[0].as_slice(), b[0].as_slice()) {
            proof {
                lemma_views_multiset_front(oa);
            }
            match a.pop_front() {
                Some(x) => {
                    out.push_back(x);
                    proof {
                        assert forall|j: int| 0 <= j < ob.len() implies bytes_leq(x@, #[trigger] ob[j]@) by {
                            if j > 0 {
                                lemma_leq_transitive(x@, ob[0]@, ob[j]@);
                            }
                        }
                    }
                },
                None => {},
            }
        } else {
            proof {
                lemma_views_multiset_front(ob);
                lemma_leq_connected(oa[0]@, ob[0]@);
            }
            match b.pop_front() {
                Some(x) => {
                    out.push_back(x);
                    proof {
                        assert forall|j: int| 0 <= j < oa.len() implies bytes_leq(x@, #[trigger] oa[j]@) by {
                            if j > 0 {
                                lemma_leq_transitive(x@, oa[0]@, oa[j]@);
                            }
                        }
                    }
                },
                None => {},
            }
        }
        proof {
            let x = out@.last();
            assert(out@ =~= oo.push(x));
            assert(byte_views(out@) =~= byte_views(oo).push(x@));
            assert forall|i: int, j: int| 0 <= i < j < out@.len() implies bytes_leq(
                #[trigger] out@[i]@,
                #[trigger] out@[j]@,
            ) by {
                if j == oo.len() {
                    assert(out@[i] == oo[i]);
                } else {
                    assert(out@[i] == oo[i] && out@[j] == oo[j]);
                }
            }
            assert forall|i: int, j: int| 0 <= i < out@.len() && 0 <= j < a@.len() implies bytes_leq(
                #[trigger] out@[i]@,
                #[trigger] a@[j]@,
            ) by {
                if a@.len() < oa.len() {
                    assert(a@[j] == oa[j + 1]);
                    if i == oo.len() {
                        lemma_leq_reflexive(oa[0]@);
                    } else {
                        assert(out@[i] == oo[i]);
                    }
                } else {
                    assert(a@[j] == oa[j]);
                    if i < oo.len() {
                        assert(out@[i] == oo[i]);
                    }
                }
            }
            assert forall|i: int, j: int| 0 <= i < out@.len() && 0 <= j < b@.len() implies bytes_leq(
                #[trigger] out@[i]@,
                #[trigger] b@[j]@,
            ) by {
                if b@.len() < ob.len() {
                    assert(b@[j] == ob[j + 1]);
                    if i == oo.len() {
                        lemma_leq_reflexive(ob[0]@);
                    } else {
                        assert(out@[i] == oo[i]);
                    }
                } else {
                    assert(b@[j] == ob[j]);
                    if i < oo.len() {
                        assert(out@[i] == oo[i]);
                    }
                }
            }
            assert(byte_views(out@).to_multiset().add(byte_views(a@).to_multiset()).add(
                byte_views(b@).to_multiset(),
            ) =~= total);
        }
    }
    let ghost oo = out@;
    let ghost oa = a@;
    let ghost ob = b@;
    out.append(&mut a);
    out.append(&mut b);
    proof {
        lemma_views_sorted_concat(oo, oa);
        if oa.len() == 0 {
            assert(oo + oa =~= oo);
            lemma_views_sorted_concat(oo, ob);
        } else {
            assert(ob.len() == 0);
        }
        assert(out@ =~= oo + oa + ob);
        lemma_views_multiset_concat(oo, oa);
        lemma_views_multiset_concat(oo + oa, ob);
    }
    out
}

/// Sorts by halves: each half is sorted on its own, then the two are merged.
fn merge_sort_runs(v: VecDeque<Vec<u8>>) -> (r: VecDeque<Vec<u8>>)
    ensures
        views_sorted(r@),
        byte_views(r@).to_multiset() == byte_views(v@).to_multiset(),
    decreases v@.len(),
{
    let n = v.len();
    if n <= 1 {
        return v;
    }
    let ghost whole = v@;
    let mut left = v;
    let right = left.split_off(n / 2);
    assert(whole =~= left@ + right@);
    proof {
        lemma_views_multiset_concat(left@, right@);
    }
    let l = merge_sort_runs(left);
    let r = merge_sort_runs(right);
    merge_runs(l, r)
}

/// Sorts byte strings into lexicographic order (merge sort).
pub fn sort_byte_strings(v: VecDeque<Vec<u8>>) -> (r: VecDeque<Vec<u8>>)
    ensures
        byte_views(r@) == byte_views(v@).sort_by(bytes_order()),
{
    let r = merge_sort_runs(v);
    proof {
        lemma_bytes_order_total();
        assert forall|i: int, j: int| 0 <= i < j < byte_views(r@).len() implies
            #[trigger] bytes_order()(byte_views(r@)[i], byte_views(r@)[j]) by {
            assert(bytes_leq(r@[i]@, r@[j]@));
        }
        byte_views(v@).lemma_sort_by_ensures(bytes_order());
        lemma_sorted_unique(byte_views(r@), byte_views(v@).sort_by(bytes_order()), bytes_order());
    }
    r
}

} // verus!
