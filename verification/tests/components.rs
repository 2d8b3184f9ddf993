use texture_sync::mapping::TreeMapping;
use texture_sync::remote::{
    complete_listing_blobs, find_subtree_entry, join_path, record_blobs, split_tree_level,
    EntryKind, TreeEntry, TreeListing,
};
use texture_sync::scan::build_local_file_map;
use texture_sync::state::{
    mark_setup_complete, set_initial_setup_done, set_textures_path, update_last_sync_commit,
    AppState,
};
use texture_sync::sync::{deleting_progress, downloading_progress, stage_progress};

fn entry(path: &str, kind: EntryKind, sha: &str) -> TreeEntry {
    TreeEntry { path: path.to_string(), kind, sha: sha.to_string() }
}

#[test]
fn mapping_insert_get_contains() {
    let mut m = TreeMapping::new();
    assert_eq!(m.len(), 0);
    m.insert("a.png".to_string(), "1".to_string());
    m.insert("b.png".to_string(), "2".to_string());
    assert_eq!(m.len(), 2);
    assert!(m.contains_path("a.png"));
    assert!(!m.contains_path("c.png"));
    assert_eq!(m.get("b.png"), Some("2".to_string()));
    assert_eq!(m.get("c.png"), None);
    // replacing keeps one entry per path
    m.insert("a.png".to_string(), "9".to_string());
    assert_eq!(m.len(), 2);
    assert_eq!(m.get("a.png"), Some("9".to_string()));
}

#[test]
fn local_map_applies_policy_and_hashes() {
    let files: Vec<(String, Vec<u8>)> = vec![
        ("a.png".to_string(), b"hello\n".to_vec()),
        (".hidden".to_string(), b"x".to_vec()),
        ("dir/.git/config".to_string(), b"x".to_vec()),
        ("user-customs/keep.png".to_string(), b"x".to_vec()),
        ("dir/b.png".to_string(), Vec::new()),
    ];
    let m = build_local_file_map(&files);
    assert_eq!(m.len(), 2);
    assert_eq!(
        m.get("a.png"),
        Some("ce013625030ba8dba906f756967f9e9ca394464a".to_string())
    );
    assert_eq!(
        m.get("dir/b.png"),
        Some("e69de29bb2d1d6434b8b29ae775ad8c2e48c5391".to_string())
    );
    assert!(!m.contains_path(".hidden"));
    assert!(!m.contains_path("dir/.git/config"));
    assert!(!m.contains_path("user-customs/keep.png"));
}

#[test]
fn subtree_navigation_picks_directory_entries() {
    let entries = vec![
        entry("textures", EntryKind::Blob, "wrong"),
        entry("textures", EntryKind::Tree, "t1"),
        entry("other", EntryKind::Tree, "t2"),
    ];
    assert_eq!(find_subtree_entry(&entries, "textures"), Some("t1".to_string()));
    assert_eq!(find_subtree_entry(&entries, "other"), Some("t2".to_string()));
    assert_eq!(find_subtree_entry(&entries, "missing"), None);
}

#[test]
fn join_path_handles_empty_base() {
    assert_eq!(join_path("", "a.png"), "a.png");
    assert_eq!(join_path("dir", "a.png"), "dir/a.png");
    assert_eq!(join_path("a/b", "c.png"), "a/b/c.png");
}

#[test]
fn split_level_separates_blobs_and_subtrees() {
    let listing = TreeListing {
        entries: vec![
            entry("a.png", EntryKind::Blob, "1"),
            entry("sub", EntryKind::Tree, "t"),
            entry("link", EntryKind::Other, "x"),
            entry("b.png", EntryKind::Blob, "2"),
        ],
        truncated: true,
    };
    let (blobs, subtrees) = split_tree_level(&listing.entries, "base");
    assert_eq!(
        blobs,
        vec![
            ("base/a.png".to_string(), "1".to_string()),
            ("base/b.png".to_string(), "2".to_string()),
        ]
    );
    assert_eq!(subtrees, vec![("t".to_string(), "base/sub".to_string())]);
}

#[test]
fn truncated_listing_is_not_trusted() {
    let entries = vec![entry("a.png", EntryKind::Blob, "1")];
    let complete = TreeListing { entries, truncated: false };
    assert_eq!(
        complete_listing_blobs(&complete, ""),
        Some(vec![("a.png".to_string(), "1".to_string())])
    );
    let partial = TreeListing { entries: vec![entry("a.png", EntryKind::Blob, "1")], truncated: true };
    assert_eq!(complete_listing_blobs(&partial, ""), None);
}

#[test]
fn record_blobs_inserts_each_leaf_once() {
    let mut m = TreeMapping::new();
    let blobs = vec![
        ("a.png".to_string(), "1".to_string()),
        ("d/b.png".to_string(), "2".to_string()),
    ];
    record_blobs(&mut m, &blobs);
    assert_eq!(m.len(), 2);
    assert_eq!(m.get("a.png"), Some("1".to_string()));
    assert_eq!(m.get("d/b.png"), Some("2".to_string()));
}

#[test]
fn progress_payloads_carry_item_counts() {
    let p = downloading_progress("a.png", 1, 3);
    assert_eq!(p.stage, "downloading");
    assert_eq!(p.message, "Downloading: a.png");
    assert_eq!(p.current, Some(1));
    assert_eq!(p.total, Some(3));
    let d = deleting_progress("old.png", 2, 2);
    assert_eq!(d.stage, "deleting");
    assert_eq!(d.message, "Deleting: old.png");
    assert_eq!(d.current, Some(2));
    assert_eq!(d.total, Some(2));
    let s = stage_progress("fetching".to_string(), "Fetching repository information...".to_string());
    assert_eq!(s.stage, "fetching");
    assert_eq!(s.current, None);
    assert_eq!(s.total, None);
}

#[test]
fn state_updates_touch_only_their_field() {
    let s0 = AppState::default();
    assert_eq!(s0.textures_path, None);
    assert!(!s0.initial_setup_done);
    assert_eq!(s0.last_sync_commit, None);
    let s1 = set_textures_path(s0, "/textures".to_string());
    assert_eq!(s1.textures_path, Some("/textures".to_string()));
    let s2 = mark_setup_complete(s1.clone(), "rev1".to_string());
    assert!(s2.initial_setup_done);
    assert_eq!(s2.last_sync_commit, Some("rev1".to_string()));
    assert_eq!(s2.textures_path, s1.textures_path);
    let s3 = update_last_sync_commit(s2, "rev2".to_string());
    assert_eq!(s3.last_sync_commit, Some("rev2".to_string()));
    let s4 = set_initial_setup_done(s3, false);
    assert!(!s4.initial_setup_done);
    assert_eq!(s4.last_sync_commit, Some("rev2".to_string()));
}
