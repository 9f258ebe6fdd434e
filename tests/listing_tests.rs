use folder_snapshot::listing::{
    assemble_snapshot, check_directory, check_fingerprint_request, chunk_ranges, chunk_size, classify,
    host_chunk_ranges, is_parallel, parent_entry, ChildInfo, EntryMeta, FileEntry, FolderEntry, ListError,
    PathKind, Timestamp,
};

fn meta(secs: u64, link: bool) -> Option<EntryMeta> {
    Some(EntryMeta { is_symlink: link, modified: Timestamp { secs, nanos: 0 } })
}

fn child(name: &str, dir: Option<bool>, m: Option<EntryMeta>) -> ChildInfo {
    ChildInfo { name: Some(name.to_string()), path: format!("/d/{}", name), target_is_dir: dir, meta: m }
}

fn synthetic(n: usize) -> Vec<ChildInfo> {
    (0..n)
        .map(|i| match i % 3 {
            0 => child(&format!("dir{}", i), Some(true), meta(i as u64, i % 2 == 0)),
            1 => child(&format!("img{}.png", i), Some(false), meta(i as u64, false)),
            _ => child(&format!("doc{}.txt", i), Some(false), meta(i as u64, false)),
        })
        .collect()
}

fn names(r: &(Vec<FolderEntry>, Vec<FileEntry>)) -> (Vec<String>, Vec<String>) {
    (r.0.iter().map(|f| f.path.clone()).collect(), r.1.iter().map(|f| f.path.clone()).collect())
}

fn chunked(children: &[ChildInfo], ranges: &[(usize, usize)]) -> (Vec<FolderEntry>, Vec<FileEntry>) {
    let mut folders = vec![];
    let mut files = vec![];
    for &(a, b) in ranges {
        let (fo, fi) = classify(&children[a..b]);
        folders.extend(fo);
        files.extend(fi);
    }
    (folders, files)
}

#[test]
fn classify_sorts_children_into_folders_and_media_files() {
    let children = vec![
        child("sub", Some(true), meta(5, true)),
        child("a.JPG", Some(false), meta(7, false)),
        child("b.txt", Some(false), meta(8, false)),
        child("gone", None, meta(1, false)),
        child("nometa.png", Some(false), None),
        ChildInfo { name: None, path: "/".to_string(), target_is_dir: Some(true), meta: meta(0, false) },
        child("linked.mkv", Some(true), meta(9, true)),
    ];
    let (folders, files) = classify(&children);
    assert_eq!(folders.len(), 2);
    assert_eq!(folders[0].name, "sub");
    assert!(folders[0].symlink);
    assert_eq!(folders[1].name, "linked.mkv");
    assert_eq!(files.len(), 1);
    assert_eq!(files[0].name, "a.JPG");
    assert_eq!(files[0].path, "/d/a.JPG");
    assert_eq!(files[0].mtime, Timestamp { secs: 7, nanos: 0 });
    assert!(!files[0].symlink);
}

#[test]
fn threshold_between_serial_and_parallel() {
    assert!(!is_parallel(50));
    assert!(is_parallel(51));
    assert_eq!(chunk_ranges(50, 4), vec![(0, 50)]);
    assert_eq!(chunk_ranges(0, 4), vec![(0, 0)]);
    assert_eq!(chunk_ranges(51, 1), vec![(0, 17), (17, 34), (34, 51)]);
}

#[test]
fn chunk_sizes() {
    assert_eq!(chunk_size(100, 4), 11);
    assert_eq!(chunk_size(60, 64), 1);
    assert_eq!(chunk_size(51, usize::MAX), 1);
    let r = chunk_ranges(100, 4);
    assert_eq!(r.len(), 10);
    assert_eq!(r[9], (99, 100));
    assert_eq!(chunk_ranges(60, 64).len(), 60);
}

#[test]
fn parallel_and_serial_listings_agree() {
    for n in [50usize, 51, 97, 500] {
        let children = synthetic(n);
        let serial = classify(&children);
        for cpus in [1usize, 2, 8, 64] {
            let parallel = chunked(&children, &chunk_ranges(n, cpus));
            assert_eq!(names(&serial), names(&parallel));
        }
        let host = chunked(&children, &host_chunk_ranges(n));
        assert_eq!(names(&serial), names(&host));
    }
}

#[test]
fn snapshot_starts_with_parent_entry() {
    let children = synthetic(6);
    let part = classify(&children);
    let snap = assemble_snapshot("/a/b".to_string(), vec![part], "h".to_string());
    assert_eq!(snap.canonical_path, "/a/b");
    assert_eq!(snap.hash, "h");
    assert_eq!(snap.folders[0].name, "..");
    assert_eq!(snap.folders[0].path, "/a");
    assert!(!snap.folders[0].symlink);
    assert_eq!(snap.folders.len(), 3);
    assert_eq!(snap.files.len(), 2);
}

#[test]
fn root_is_its_own_parent() {
    assert_eq!(parent_entry("/").path, "/");
    assert_eq!(parent_entry("C:/").path, "C:/");
    assert_eq!(parent_entry("/a").path, "/");
}

#[test]
fn snapshot_joins_parts_in_order() {
    let children = synthetic(9);
    let first = classify(&children[0..4]);
    let second = classify(&children[4..9]);
    let snap = assemble_snapshot("/d".to_string(), vec![first, second], String::new());
    let whole = classify(&children);
    let listed: Vec<String> = snap.folders[1..].iter().map(|f| f.path.clone()).collect();
    assert_eq!(listed, names(&whole).0);
    let files: Vec<String> = snap.files.iter().map(|f| f.path.clone()).collect();
    assert_eq!(files, names(&whole).1);
}

#[test]
fn request_errors() {
    assert_eq!(check_directory(PathKind::Missing), Err(ListError::NotFound));
    assert_eq!(check_directory(PathKind::NotDirectory), Err(ListError::NotADirectory));
    assert_eq!(check_directory(PathKind::Directory), Ok(()));
    assert_eq!(check_fingerprint_request(""), Err(ListError::EmptyPath));
    assert_eq!(check_fingerprint_request("/x"), Ok(()));
    assert_eq!(ListError::NotFound.message(), "Path does not exist");
    assert_eq!(ListError::EmptyPath.message(), "Path is empty");
}
