use folder_snapshot::favourites::split_folder_list;

#[test]
fn folder_list_splits_on_semicolons() {
    assert_eq!(split_folder_list("~/Pictures;/srv/photos"), vec!["~/Pictures", "/srv/photos"]);
    assert_eq!(split_folder_list("C:\\Photos"), vec!["C:\\Photos"]);
}

#[test]
fn folder_list_keeps_empty_pieces() {
    assert_eq!(split_folder_list(""), vec![""]);
    assert_eq!(split_folder_list(";x;"), vec!["", "x", ""]);
    assert_eq!(split_folder_list("é;ü"), vec!["é", "ü"]);
}
