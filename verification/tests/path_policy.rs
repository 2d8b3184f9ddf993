use texture_sync::paths::{
    get_disabled_path, get_enabled_path, is_disabled_file, should_skip_path,
};

#[test]
fn disabled_path_no_directory() {
    assert_eq!(get_disabled_path("a.png"), "-a.png");
}

#[test]
fn disabled_path_one_directory() {
    assert_eq!(get_disabled_path("dir/a.png"), "dir/-a.png");
}

#[test]
fn disabled_path_many_directories() {
    assert_eq!(get_disabled_path("a/b/c/texture.png"), "a/b/c/-texture.png");
}

#[test]
fn enabled_path_no_directory() {
    assert_eq!(get_enabled_path("-a.png"), Some("a.png".to_string()));
}

#[test]
fn enabled_path_with_directories() {
    assert_eq!(get_enabled_path("a/b/-c.png"), Some("a/b/c.png".to_string()));
}

#[test]
fn enabled_path_of_plain_path_is_none() {
    assert_eq!(get_enabled_path("a.png"), None);
    assert_eq!(get_enabled_path("dir/a.png"), None);
}

#[test]
fn round_trip_zero_one_many_segments() {
    for p in ["a.png", "dir/a.png", "a/b/c/d.png", "-already.png", ""] {
        let d = get_disabled_path(p);
        assert_eq!(get_enabled_path(&d), Some(p.to_string()));
    }
}

#[test]
fn disabled_marker_detection() {
    assert!(is_disabled_file("-a.png"));
    assert!(!is_disabled_file("a.png"));
    assert!(!is_disabled_file(""));
}

#[test]
fn excluded_subtree_detection() {
    assert!(should_skip_path("user-customs/keep.png"));
    assert!(should_skip_path("a/user-customs/b.png"));
    assert!(should_skip_path("user-customs"));
    assert!(!should_skip_path("a.png"));
    assert!(!should_skip_path("user-custom/s.png"));
    assert!(!should_skip_path(""));
}
