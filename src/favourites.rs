//! The configured list of favourite folders: paths separated by `;`.

use vstd::prelude::*;
use vstd::string::StrSliceExecFns;

verus! {

/// The index of the last `c` in `s`, or -1 when there is none.
pub open spec fn last_index_of(s: Seq<char>, c: char) -> int
    decreases s.len(),
{
    if s.len() == 0 {
        -1
    } else if s.last() == c {
        s.len() - 1
    } else {
        last_index_of(s.drop_last(), c)
    }
}

/// The pieces of `s` between occurrences of `c`, in order; `n` occurrences
/// give `n + 1` pieces, some possibly empty.
pub open spec fn split_on(s: Seq<char>, c: char) -> Seq<Seq<char>>
    decreases s.len(),
{
    let k = last_index_of(s, c);
    if k < 0 || k >= s.len() {
        seq![s]
    } else {
        split_on(s.take(k), c).push(s.skip(k + 1))
    }
}

/// The views of a sequence of strings.
pub open spec fn string_views(v: Seq<String>) -> Seq<Seq<char>> {
    v.map_values(|x: String| x@)
}

proof fn lemma_last_index_bounds(s: Seq<char>, c: char)
    ensures
        -1 <= last_index_of(s, c) < s.len(),
        last_index_of(s, c) >= 0 ==> s[last_index_of(s, c)] == c,
    decreases s.len(),
{
    if s.len() > 0 && s.last() != c {
        lemma_last_index_bounds(s.drop_last(), c);
    }
}

/// The folder paths of a `;`-separated list, in order.
pub fn split_folder_list(value: &str) -> (r: Vec<String>)
    ensures
        string_views(r@) == split_on(value@, ';'),
{
    let n = value.unicode_len();
    let mut pieces: Vec<String> = Vec::new();
    let mut st: usize = 0;
    let mut i: usize = 0;
    assert(value@.take(0) =~= Seq::<char>::empty());
    assert(string_views(pieces@).push(value@.subrange(0, 0)) =~= seq![Seq::<char>::empty()]);
    while i < n
        invariant
            n == value@.len(),
            st <= i <= n,
            st as int == last_index_of(value@.take(i as int), ';') + 1,
            split_on(value@.take(i as int), ';') == string_views(pieces@).push(
                value@.subrange(st as int, i as int),
            ),
        decreases n - i,
    {
        let ghost s = value@;
        let ghost t = s.take(i + 1);
        assert(t.drop_last() =~= s.take(i as int));
        proof {
            lemma_last_index_bounds(s.take(i as int), ';');
        }
        if value.get_char(i) == ';' {
            assert(t.take(i as int) =~= s.take(i as int));
            assert(t.skip(i + 1) =~= Seq::<char>::empty());
            let piece = value.substring_char(st, i);
            let ghost before = pieces@;
            pieces.push(piece.to_owned());
            assert(string_views(pieces@) =~= string_views(before).push(s.subrange(st as int, i as int)));
            st = i + 1;
            assert(s.subrange(st as int, i + 1) =~= Seq::<char>::empty());
            assert(t.last() == ';');
            assert(last_index_of(t, ';') == i);
            assert(split_on(t, ';') == split_on(s.take(i as int), ';').push(Seq::<char>::empty()));
            assert(split_on(t, ';') =~= string_views(pieces@).push(s.subrange(st as int, i + 1)));
        } else {
            let ghost k = last_index_of(s.take(i as int), ';');
            proof {
            assert(t.last() != ';');
            assert(last_index_of(t, ';') == k);
            let old_views = split_on(s.take(i as int), ';');
            assert(string_views(pieces@) =~= old_views.drop_last());
            if k >= 0 {
                assert(t.take(k) =~= s.take(k));
                assert(s.take(i as int).take(k) =~= s.take(k));
                assert(k < i);
                assert(s.take(i as int).skip(k + 1) =~= s.subrange(k + 1, i as int));
                assert(t.skip(k + 1) =~= s.subrange(k + 1, i + 1));
                assert(old_views == split_on(s.take(k), ';').push(s.subrange(k + 1, i as int)));
                assert(split_on(t, ';') == split_on(s.take(k), ';').push(s.subrange(k + 1, i + 1)));
                assert(split_on(t, ';') =~= string_views(pieces@).push(s.subrange(st as int, i + 1)));
            } else {
                assert(t =~= s.subrange(0, i + 1));
                assert(split_on(t, ';') =~= string_views(pieces@).push(s.subrange(st as int, i + 1)));
            }
            }
        }
        i = i + 1;
    }
    assert(value@.take(n as int) =~= value@);
    let last = value.substring_char(st, n);
    pieces.push(last.to_owned());
    assert(string_views(pieces@) =~= split_on(value@, ';'));
    pieces
}

} // verus!
