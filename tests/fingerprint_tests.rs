use folder_snapshot::fingerprint::{digest_hex, digest_input, fingerprint, HashEntry};
use sha2::{Digest, Sha256};

fn entry(name: &str, modified: Option<&str>) -> HashEntry {
    HashEntry { name: name.to_string(), modified: modified.map(|m| m.to_string()) }
}

fn sha_hex(data: &[u8]) -> String {
    Sha256::digest(data).iter().map(|b| format!("{:02x}", b)).collect()
}

#[test]
fn empty_directory_hashes_empty_input() {
    let fp = fingerprint(&vec![]);
    assert_eq!(fp, "e3b0c44298fc1c149afbf4c8996fb92427ae41e4649b934ca495991b7852b855");
}

#[test]
fn digest_input_is_sorted_names_and_times() {
    let entries = vec![entry("b.png", Some("20")), entry("a.jpg", Some("1700000000.5"))];
    let input = digest_input(&entries);
    assert_eq!(input, b"1700000000.520a.jpgb.png".to_vec());
    assert_eq!(fingerprint(&entries), sha_hex(b"1700000000.520a.jpgb.png"));
}

#[test]
fn unreadable_and_non_media_entries_are_skipped() {
    let entries = vec![entry("a.jpg", None), entry("notes.txt", Some("3")), entry("B.GIF", Some("4"))];
    assert_eq!(digest_input(&entries), b"4B.GIF".to_vec());
}

#[test]
fn fingerprint_ignores_enumeration_order() {
    let a = vec![entry("x.jpg", Some("1")), entry("y.png", Some("2")), entry("z.mp4", Some("3"))];
    let b = vec![entry("z.mp4", Some("3")), entry("x.jpg", Some("1")), entry("y.png", Some("2"))];
    assert_eq!(fingerprint(&a), fingerprint(&b));
}

#[test]
fn non_media_addition_keeps_fingerprint() {
    let a = vec![entry("x.jpg", Some("1"))];
    let b = vec![entry("readme.md", Some("9")), entry("x.jpg", Some("1"))];
    assert_eq!(fingerprint(&a), fingerprint(&b));
}

#[test]
fn media_addition_changes_fingerprint() {
    let a = vec![entry("x.jpg", Some("1"))];
    let b = vec![entry("x.jpg", Some("1")), entry("new.webm", Some("2"))];
    assert_ne!(fingerprint(&a), fingerprint(&b));
}

#[test]
fn touching_media_changes_fingerprint() {
    let a = vec![entry("x.jpg", Some("1"))];
    let b = vec![entry("x.jpg", Some("1.25"))];
    assert_ne!(fingerprint(&a), fingerprint(&b));
}

#[test]
fn hex_rendering() {
    assert_eq!(digest_hex(&[0x00, 0x0f, 0xa5, 0xff]), "000fa5ff");
    assert_eq!(digest_hex(&[]), "");
}

#[test]
fn large_directory_digest_input_is_fully_sorted() {
    let entries: Vec<HashEntry> = (0..1500u32)
        .map(|i| HashEntry {
            name: format!("img{}.{}", (i * 7919) % 1500, if i % 4 == 0 { "txt" } else { "png" }),
            modified: Some(format!("{}", (i * 31) % 97)),
        })
        .collect();
    let mut expected: Vec<String> = vec![];
    for e in &entries {
        if e.name.ends_with(".png") {
            expected.push(e.name.clone());
            expected.push(e.modified.clone().unwrap());
        }
    }
    expected.sort();
    assert_eq!(digest_input(&entries), expected.concat().into_bytes());
    assert_eq!(fingerprint(&entries), sha_hex(expected.concat().as_bytes()));
}
