//! Classifies file names as displayable media by their extension.

use vstd::prelude::*;
use vstd::string::StringSliceAdditionalSpecFns;

verus! {

/// ASCII lower-casing of one byte ('A'..='Z' are 65..=90); every other byte
/// is unchanged.
pub open spec fn ascii_lower(b: u8) -> u8 {
    if 65 <= b && b <= 90 {
        (b + 32) as u8
    } else {
        b
    }
}

/// ASCII lower-casing of a byte string.
pub open spec fn lower_bytes(s: Seq<u8>) -> Seq<u8> {
    s.map_values(|b: u8| ascii_lower(b))
}

/// `s` ends with `suffix`.
pub open spec fn has_suffix(s: Seq<u8>, suffix: Seq<u8>) -> bool {
    suffix.len() <= s.len() && s.subrange(s.len() - suffix.len(), s.len() as int) == suffix
}

/// The recognised extensions, lower case, with their leading dot, as ASCII
/// bytes: .jpg .jpeg .jfif .png .svg .gif .webp .webm .mp4 .mkv
pub open spec fn media_extensions() -> Seq<Seq<u8>> {
    seq![
        seq![46, 106, 112, 103],
        seq![46, 106, 112, 101, 103],
        seq![46, 106, 102, 105, 102],
        seq![46, 112, 110, 103],
        seq![46, 115, 118, 103],
        seq![46, 103, 105, 102],
        seq![46, 119, 101, 98, 112],
        seq![46, 119, 101, 98, 109],
        seq![46, 109, 112, 52],
        seq![46, 109, 107, 118],
    ]
}

/// A name (as UTF-8 bytes) is media when, ASCII lower-cased, it ends with
/// one of the recognised extensions.
pub open spec fn is_media_name(name: Seq<u8>) -> bool {
    exists|i: int|
        0 <= i < media_extensions().len() && has_suffix(lower_bytes(name), #[trigger] media_extensions()[i])
}

/// The number of recognised extensions.
pub const MEDIA_EXTENSION_COUNT: usize = 10;

/// The extension at position `i` of the list, as bytes.
pub fn media_extension(i: usize) -> (r: Vec<u8>)
    requires
        i < MEDIA_EXTENSION_COUNT,
    ensures
        r@ == media_extensions()[i as int],
{
    if i == 0 {
        vec![46, 106, 112, 103]
    } else if i == 1 {
        vec![46, 106, 112, 101, 103]
    } else if i == 2 {
        vec![46, 106, 102, 105, 102]
    } else if i == 3 {
        vec![46, 112, 110, 103]
    } else if i == 4 {
        vec![46, 115, 118, 103]
    } else if i == 5 {
        vec![46, 103, 105, 102]
    } else if i == 6 {
        vec![46, 119, 101, 98, 112]
    } else if i == 7 {
        vec![46, 119, 101, 98, 109]
    } else if i == 8 {
        vec![46, 109, 112, 52]
    } else {
        vec![46, 109, 107, 118]
    }
}

fn lower_byte(b: u8) -> (r: u8)
    ensures
        r == ascii_lower(b),
{
    if 65 <= b && b <= 90 {
        b + 32
    } else {
        b
    }
}

/// Whether `name`, ASCII lower-cased, ends with `suffix`.
pub fn ends_with_lowered(name: &[u8], suffix: &[u8]) -> (r: bool)
    ensures
        r == has_suffix(lower_bytes(name@), suffix@),
{
    if suffix.len() > name.len() {
        return false;
    }
    let n: usize = name.len();
    let start: usize = n - suffix.len();
    let mut k: usize = 0;
    while k < suffix.len()
        invariant
            suffix@.len() <= name@.len(),
            n == name@.len(),
            start + suffix@.len() == n,
            k <= suffix@.len(),
            forall|j: int| 0 <= j < k ==> ascii_lower(#[trigger] name@[start + j]) == suffix@[j],
        decreases suffix@.len() - k,
    {
        if lower_byte(name[start + k]) != suffix[k] {
            assert(lower_bytes(name@).subrange(start as int, name@.len() as int)[k as int]
                != suffix@[k as int]);
            return false;
        }
        k = k + 1;
    }
    assert forall|j: int| 0 <= j < suffix@.len() implies
        lower_bytes(name@).subrange(start as int, name@.len() as int)[j] == suffix@[j] by {
        assert(ascii_lower(name@[start + j]) == suffix@[j]);
    }
    assert(lower_bytes(name@).subrange(start as int, name@.len() as int) =~= suffix@);
    true
}

/// Whether the file name `name` has one of the recognised media extensions,
/// compared without regard to ASCII case.
pub fn is_media(name: &str) -> (r: bool)
    ensures
        r == is_media_name(name.spec_bytes()),
{
    let bytes = name.as_bytes();
    let mut i: usize = 0;
    while i < MEDIA_EXTENSION_COUNT
        invariant
            bytes@ == name.spec_bytes(),
            i <= MEDIA_EXTENSION_COUNT,
            forall|j: int| 0 <= j < i ==> !has_suffix(lower_bytes(name.spec_bytes()), #[trigger] media_extensions()[j]),
        decreases MEDIA_EXTENSION_COUNT - i,
    {
        let ext = media_extension(i);
        if ends_with_lowered(bytes, ext.as_slice()) {
            return true;
        }
        i = i + 1;
    }
    false
}

} // verus!
