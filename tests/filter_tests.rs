use folder_snapshot::filter::{ends_with_lowered, is_media, media_extension, MEDIA_EXTENSION_COUNT};

#[test]
fn media_names_by_extension() {
    assert!(is_media("Photo.JPG"));
    assert!(!is_media("notes.txt"));
    assert!(!is_media("archive.tar.gz"));
    assert!(is_media("clip.MP4"));
}

#[test]
fn every_listed_extension_is_media() {
    for i in 0..MEDIA_EXTENSION_COUNT {
        let ext = String::from_utf8(media_extension(i)).unwrap();
        assert!(is_media(&format!("x{}", ext)));
        assert!(is_media(&format!("x{}", ext.to_uppercase())));
    }
}

#[test]
fn names_without_media_extension() {
    assert!(!is_media(""));
    assert!(!is_media("jpg"));
    assert!(!is_media("README"));
    assert!(!is_media("photo.jpg.bak"));
    assert!(!is_media("photo.JPGX"));
    assert!(is_media(".jpg"));
    assert!(is_media("été.WebP"));
}

#[test]
fn suffix_comparison_lowers_the_name_only() {
    assert!(ends_with_lowered(b"A.PNG", b".png"));
    assert!(!ends_with_lowered(b"a.png", b".PNG"));
    assert!(!ends_with_lowered(b"g", b".png"));
}
