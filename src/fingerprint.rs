//! The change fingerprint of a directory: a SHA-256 digest over the sorted
//! names and modification times of its media files, rendered as lower-case
//! hexadecimal. It reads no file contents.

use std::collections::VecDeque;
use vstd::prelude::*;
use vstd::seq_lib::lemma_multiset_commutative;
use vstd::string::StringExecFns;
use vstd::string::StringSliceAdditionalSpecFns;
use vstd::utf8::encode_utf8;
use crate::filter::{is_media, is_media_name};
use crate::seqs::{flat_map, lemma_flat_map_permutation, lemma_flat_map_remove};
use crate::order::{byte_views, bytes_order, lemma_sort_depends_on_multiset, sort_byte_strings};

verus! {

broadcast use {vstd::seq_lib::group_to_multiset_ensures, vstd::multiset::group_multiset_axioms};

/// What the fingerprint reads of one directory child: its file name, and the
/// text of its modification time in seconds since the epoch, or `None` when
/// its metadata or modification time could not be read.
pub struct HashEntry {
    pub name: String,
    pub modified: Option<String>,
}

/// A `HashEntry` as byte strings (UTF-8).
pub struct HashEntryView {
    pub name: Seq<u8>,
    pub modified: Option<Seq<u8>>,
}

impl View for HashEntry {
    type V = HashEntryView;

    open spec fn view(&self) -> HashEntryView {
        HashEntryView {
            name: encode_utf8(self.name@),
            modified: match self.modified {
                Some(m) => Some(encode_utf8(m@)),
                None => None,
            },
        }
    }
}

/// The views of a sequence of entries.
pub open spec fn entry_views(s: Seq<HashEntry>) -> Seq<HashEntryView> {
    s.map_values(|e: HashEntry| e@)
}

/// What one entry adds to the digested strings: its name and its
/// modification time, for a media file whose time could be read; nothing
/// otherwise.
pub open spec fn contribution(e: HashEntryView) -> Seq<Seq<u8>> {
    match e.modified {
        Some(m) => if is_media_name(e.name) {
            seq![e.name, m]
        } else {
            seq![]
        },
        None => seq![],
    }
}

/// The strings that a sequence of entries contributes, in entry order.
pub open spec fn digest_strings(s: Seq<HashEntryView>) -> Seq<Seq<u8>> {
    flat_map(s, |e: HashEntryView| contribution(e))
}

/// The concatenation of a sequence of byte strings.
pub open spec fn concat_all(s: Seq<Seq<u8>>) -> Seq<u8>
    decreases s.len(),
{
    if s.len() == 0 {
        seq![]
    } else {
        concat_all(s.drop_last()) + s.last()
    }
}

/// The bytes fed to the digest: the contributed strings in lexicographic
/// byte order, one after the other.
pub open spec fn digest_input_of(s: Seq<HashEntryView>) -> Seq<u8> {
    concat_all(digest_strings(s).sort_by(bytes_order()))
}

/// The SHA-256 digest of a byte string.
pub uninterp spec fn sha256_of(data: Seq<u8>) -> Seq<u8>;

/// The lower-case hexadecimal digits.
pub open spec fn hex_chars() -> Seq<char> {
    seq!['0', '1', '2', '3', '4', '5', '6', '7', '8', '9', 'a', 'b', 'c', 'd', 'e', 'f']
}

/// Two lower-case hexadecimal digits per byte, high nibble first.
pub open spec fn hex_of(b: Seq<u8>) -> Seq<char>
    decreases b.len(),
{
    if b.len() == 0 {
        seq![]
    } else {
        hex_of(b.drop_last()) + seq![hex_chars()[b.last() as int / 16], hex_chars()[b.last() as int % 16]]
    }
}

/// The fingerprint of a directory whose children are `s`.
pub open spec fn fingerprint_of(s: Seq<HashEntryView>) -> Seq<char> {
    hex_of(sha256_of(digest_input_of(s)))
}

/// Relies on sha2's `Sha256::digest`: the 32-byte SHA-256 digest of `data`,
/// a function of `data` alone.
#[verifier::external_body]
fn sha256(data: &[u8]) -> (r: Vec<u8>)
    ensures
        r@ == sha256_of(data@),
        r@.len() == 32,
{
    <sha2::Sha256 as sha2::Digest>::digest(data).to_vec()
}

fn copy_bytes(s: &[u8]) -> (r: Vec<u8>)
    ensures
        r@ == s@,
{
    let mut r: Vec<u8> = Vec::new();
    let mut i: usize = 0;
    while i < s.len()
        invariant
            i <= s@.len(),
            r@ == s@.take(i as int),
        decreases s@.len() - i,
    {
        r.push(s[i]);
        i = i + 1;
        assert(r@ =~= s@.take(i as int));
    }
    assert(s@.take(s@.len() as int) =~= s@);
    r
}

/// The strings that `entries` contribute to the digest, in entry order.
pub fn collect_digest_strings(entries: &Vec<HashEntry>) -> (r: VecDeque<Vec<u8>>)
    ensures
        byte_views(r@) == digest_strings(entry_views(entries@)),
{
    let mut r: VecDeque<Vec<u8>> = VecDeque::new();
    let mut i: usize = 0;
    while i < entries.len()
        invariant
            i <= entries@.len(),
            byte_views(r@) == digest_strings(entry_views(entries@).take(i as int)),
        decreases entries@.len() - i,
    {
        let e = &entries[i];
        let ghost before = r@;
        let ghost prefix = entry_views(entries@).take(i + 1);
        assert(prefix.drop_last() =~= entry_views(entries@).take(i as int));
        assert(prefix.last() == e@);
        match &e.modified {
            Some(m) => {
                if is_media(e.name.as_str()) {
                    r.push_back(copy_bytes(e.name.as_str().as_bytes()));
                    r.push_back(copy_bytes(m.as_str().as_bytes()));
                    assert(byte_views(r@) =~= byte_views(before) + contribution(e@));
                } else {
                    assert(contribution(e@) =~= seq![]);
                    assert(byte_views(r@) =~= byte_views(before) + contribution(e@));
                }
            },
            None => {
                assert(byte_views(r@) =~= byte_views(before) + contribution(e@));
            },
        }
        i = i + 1;
    }
    assert(entry_views(entries@).take(entries@.len() as int) =~= entry_views(entries@));
    r
}

/// The bytes that the fingerprint digests for a directory with children
/// `entries`.
pub fn digest_input(entries: &Vec<HashEntry>) -> (r: Vec<u8>)
    ensures
        r@ == digest_input_of(entry_views(entries@)),
{
    let strings = collect_digest_strings(entries);
    let sorted = sort_byte_strings(strings);
    let mut r: Vec<u8> = Vec::new();
    let mut i: usize = 0;
    while i < sorted.len()
        invariant
            i <= sorted@.len(),
            r@ == concat_all(byte_views(sorted@).take(i as int)),
        decreases sorted@.len() - i,
    {
        let ghost before = r@;
        let piece = sorted[i].as_slice();
        let mut k: usize = 0;
        while k < piece.len()
            invariant
                k <= piece@.len(),
                r@ == before + piece@.take(k as int),
            decreases piece@.len() - k,
        {
            r.push(piece[k]);
            k = k + 1;
            assert(r@ =~= before + piece@.take(k as int));
        }
        assert(piece@.take(piece@.len() as int) =~= piece@);
        assert(byte_views(sorted@).take(i + 1).drop_last() =~= byte_views(sorted@).take(i as int));
        i = i + 1;
    }
    assert(byte_views(sorted@).take(sorted@.len() as int) =~= byte_views(sorted@));
    r
}

fn hex_digit(n: u8) -> (r: &'static str)
    requires
        n < 16,
    ensures
        r@ == seq![hex_chars()[n as int]],
{
    proof {
        reveal_strlit("0");
        reveal_strlit("1");
        reveal_strlit("2");
        reveal_strlit("3");
        reveal_strlit("4");
        reveal_strlit("5");
        reveal_strlit("6");
        reveal_strlit("7");
        reveal_strlit("8");
        reveal_strlit("9");
        reveal_strlit("a");
        reveal_strlit("b");
        reveal_strlit("c");
        reveal_strlit("d");
        reveal_strlit("e");
        reveal_strlit("f");
    }
    match n {
        0 => "0",
        1 => "1",
        2 => "2",
        3 => "3",
        4 => "4",
        5 => "5",
        6 => "6",
        7 => "7",
        8 => "8",
        9 => "9",
        10 => "a",
        11 => "b",
        12 => "c",
        13 => "d",
        14 => "e",
        _ => "f",
    }
}

/// Renders a digest as lower-case hexadecimal, two digits per byte.
pub fn digest_hex(digest: &[u8]) -> (r: String)
    ensures
        r@ == hex_of(digest@),
{
    let mut r = String::new();
    let mut i: usize = 0;
    while i < digest.len()
        invariant
            i <= digest@.len(),
            r@ == hex_of(digest@.take(i as int)),
        decreases digest@.len() - i,
    {
        let b = digest[i];
        r.append(hex_digit(b / 16));
        r.append(hex_digit(b % 16));
        assert(digest@.take(i + 1).drop_last() =~= digest@.take(i as int));
        i = i + 1;
        assert(r@ =~= hex_of(digest@.take(i as int)));
    }
    assert(digest@.take(digest@.len() as int) =~= digest@);
    r
}

/// The change fingerprint of a directory whose children are `entries`.
pub fn fingerprint(entries: &Vec<HashEntry>) -> (r: String)
    ensures
        r@ == fingerprint_of(entry_views(entries@)),
        r@.len() == 64,
{
    let input = digest_input(entries);
    let digest = sha256(input.as_slice());
    let r = digest_hex(digest.as_slice());
    proof {
        lemma_hex_len(digest@);
    }
    r
}

/// The fingerprint does not depend on the order in which the directory's
/// children are enumerated: any permutation of the same children gives the
/// same fingerprint.
pub proof fn lemma_fingerprint_order_independent(a: Seq<HashEntryView>, b: Seq<HashEntryView>)
    requires
        a.to_multiset() == b.to_multiset(),
    ensures
        digest_input_of(a) == digest_input_of(b),
        fingerprint_of(a) == fingerprint_of(b),
{
    lemma_flat_map_permutation(a, b, |e: HashEntryView| contribution(e));
    lemma_sort_depends_on_multiset(digest_strings(a), digest_strings(b));
}

/// Adding a child that is not a media file, at any position, leaves the
/// fingerprint unchanged.
pub proof fn lemma_non_media_child_ignored(s: Seq<HashEntryView>, i: int, e: HashEntryView)
    requires
        0 <= i <= s.len(),
        !is_media_name(e.name),
    ensures
        fingerprint_of(s.insert(i, e)) == fingerprint_of(s),
{
    assert(s.push(e).to_multiset() == s.insert(i, e).to_multiset());
    lemma_fingerprint_order_independent(s.insert(i, e), s.push(e));
    assert(contribution(e) =~= seq![]);
    assert(s.push(e).drop_last() =~= s);
    assert(digest_strings(s.push(e)) =~= digest_strings(s));
}

/// Adding a media file whose modification time is readable adds its name
/// and its time to the digested strings.
pub proof fn lemma_media_child_digested(s: Seq<HashEntryView>, e: HashEntryView)
    requires
        is_media_name(e.name),
        e.modified is Some,
    ensures
        digest_strings(s.push(e)).to_multiset() == digest_strings(s).to_multiset().insert(
            e.name,
        ).insert(e.modified->0),
{
    assert(s.push(e).drop_last() =~= s);
    lemma_multiset_commutative(digest_strings(s), contribution(e));
    assert(contribution(e) =~= seq![e.name].push(e.modified->0));
    assert(seq![e.name] =~= Seq::<Seq<u8>>::empty().push(e.name));
    assert(digest_strings(s.push(e)).to_multiset() =~= digest_strings(s).to_multiset().insert(
        e.name,
    ).insert(e.modified->0));
}

/// Giving a media file at position `i` a different modification time
/// changes the digested strings.
pub proof fn lemma_touched_media_child_digested(
    s: Seq<HashEntryView>,
    i: int,
    new_time: Seq<u8>,
)
    requires
        0 <= i < s.len(),
        is_media_name(s[i].name),
        s[i].modified is Some,
        s[i].modified->0 != new_time,
    ensures
        digest_strings(s.update(i, HashEntryView { name: s[i].name, modified: Some(new_time) })).to_multiset()
            != digest_strings(s).to_multiset(),
{
    let t = s.update(i, HashEntryView { name: s[i].name, modified: Some(new_time) });
    let old_time = s[i].modified->0;
    lemma_flat_map_remove(s, i, |e: HashEntryView| contribution(e));
    lemma_flat_map_remove(t, i, |e: HashEntryView| contribution(e));
    assert(t.remove(i) =~= s.remove(i));
    let rest = digest_strings(s.remove(i)).to_multiset();
    assert(contribution(s[i]) =~= seq![s[i].name, old_time]);
    assert(contribution(t[i]) =~= seq![s[i].name, new_time]);
    assert(seq![s[i].name, old_time].to_multiset().count(old_time)
        == seq![s[i].name, new_time].to_multiset().count(old_time) + 1) by {
        assert(seq![s[i].name, old_time] =~= seq![s[i].name].push(old_time));
        assert(seq![s[i].name, new_time] =~= seq![s[i].name].push(new_time));
    }
    assert(digest_strings(s).to_multiset().count(old_time)
        != digest_strings(t).to_multiset().count(old_time));
}

proof fn lemma_hex_len(b: Seq<u8>)
    ensures
        hex_of(b).len() == 2 * b.len(),
    decreases b.len(),
{
    if b.len() > 0 {
        lemma_hex_len(b.drop_last());
    }
}

} // verus!
