use folder_snapshot::paths::{
    check_tilde, expand_tilde, join_path, normalize_display, parent_path, resolve_display, PathStyle,
};

#[test]
fn display_form_uses_forward_slashes() {
    assert_eq!(normalize_display("C:\\Users\\u\\Pictures", PathStyle::Windows), "C:/Users/u/Pictures");
    assert_eq!(normalize_display("/home/u/a\\b", PathStyle::Unix), "/home/u/a/b");
    assert_eq!(normalize_display("", PathStyle::Unix), "");
}

#[test]
fn extended_length_prefix_is_stripped_on_windows_only() {
    assert_eq!(normalize_display("\\\\?\\C:\\photos", PathStyle::Windows), "C:/photos");
    assert_eq!(normalize_display("\\\\?\\C:\\photos", PathStyle::Unix), "//?/C:/photos");
    assert_eq!(normalize_display("//?", PathStyle::Windows), "//?");
}

#[test]
fn tilde_is_expanded_with_the_home_directory() {
    assert_eq!(expand_tilde("~/Pictures", Some("/home/u")), "/home/u/Pictures");
    assert_eq!(expand_tilde("~\\Pictures", Some("C:\\Users\\u")), "C:\\Users\\u/Pictures");
    assert_eq!(expand_tilde("~/Pictures", Some("/home/u/")), "/home/u/Pictures");
    assert_eq!(expand_tilde("~/Pictures", None), "~/Pictures");
    assert_eq!(expand_tilde("~user/x", Some("/home/u")), "~user/x");
    assert_eq!(expand_tilde("/abs/~/x", Some("/home/u")), "/abs/~/x");
}

#[test]
fn tilde_request_resolves_like_home_request() {
    let a = resolve_display("~/Pictures", "/default", Some("/home/u"), PathStyle::Unix);
    let b = resolve_display("/home/u/Pictures", "/default", Some("/home/u"), PathStyle::Unix);
    assert_eq!(a, b);
    assert_eq!(a, "/home/u/Pictures");
}

#[test]
fn empty_request_resolves_to_default_directory() {
    assert_eq!(resolve_display("", "C:\\Users\\u\\Pictures", None, PathStyle::Windows), "C:/Users/u/Pictures");
}

#[test]
fn join_inserts_one_separator() {
    assert_eq!(join_path("/home/u", "x"), "/home/u/x");
    assert_eq!(join_path("/home/u/", "x"), "/home/u/x");
    assert_eq!(join_path("", "x"), "x");
}

#[test]
fn check_tilde_leaves_other_paths_alone() {
    assert_eq!(check_tilde("/srv/photos"), "/srv/photos");
    let expanded = check_tilde("~/Pictures");
    assert!(expanded == "~/Pictures" || expanded.ends_with("/Pictures"));
}

#[test]
fn parents_of_display_paths() {
    assert_eq!(parent_path("/a/b"), Some("/a".to_string()));
    assert_eq!(parent_path("/a/b/"), Some("/a".to_string()));
    assert_eq!(parent_path("/a"), Some("/".to_string()));
    assert_eq!(parent_path("/a//b"), Some("/a".to_string()));
    assert_eq!(parent_path("/"), None);
    assert_eq!(parent_path(""), None);
    assert_eq!(parent_path("C:/Users/u"), Some("C:/Users".to_string()));
    assert_eq!(parent_path("C:/Users"), Some("C:/".to_string()));
    assert_eq!(parent_path("C:/"), None);
    assert_eq!(parent_path("photos"), None);
}
