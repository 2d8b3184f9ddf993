use texture_sync::mapping::TreeMapping;
use texture_sync::plan::build_sync_plan;
use texture_sync::sync::{check_sync_counts, download_source_path, sync_summary};

fn mapping(entries: &[(&str, &str)]) -> TreeMapping {
    let mut m = TreeMapping::new();
    for (p, id) in entries {
        m.insert(p.to_string(), id.to_string());
    }
    m
}

#[test]
fn scenario_fresh_download() {
    // remote has one file, local is empty: download it
    let remote = mapping(&[("a.png", "111")]);
    let local = mapping(&[]);
    let plan = build_sync_plan(&remote, &local);
    assert_eq!(plan.to_download, vec!["a.png".to_string()]);
    assert_eq!(plan.to_delete, Vec::<String>::new());
    let result = sync_summary(&plan, "rev1".to_string());
    assert_eq!(result.files_downloaded, 1);
    assert_eq!(result.files_deleted, 0);
    assert_eq!(result.new_commit_sha, "rev1");
}

#[test]
fn scenario_disabled_up_to_date() {
    // local keeps an up-to-date disabled copy: skip, no download
    let remote = mapping(&[("a.png", "111")]);
    let local = mapping(&[("-a.png", "111")]);
    let plan = build_sync_plan(&remote, &local);
    assert_eq!(plan.to_download, Vec::<String>::new());
    assert_eq!(plan.to_delete, Vec::<String>::new());
    assert_eq!(plan.skipped, 1);
    assert_eq!(plan.up_to_date, 1);
}

#[test]
fn scenario_stale_disabled_copy() {
    // local keeps a stale disabled copy: download to the disabled path,
    // content fetched from the enabled remote path
    let remote = mapping(&[("a.png", "222")]);
    let local = mapping(&[("-a.png", "111")]);
    let plan = build_sync_plan(&remote, &local);
    assert_eq!(plan.to_download, vec!["-a.png".to_string()]);
    assert_eq!(plan.to_delete, Vec::<String>::new());
    assert_eq!(download_source_path("-a.png"), "a.png");
}

#[test]
fn scenario_orphan_deleted_excluded_kept() {
    // the orphaned file goes; the excluded subtree is untouched
    let remote = mapping(&[]);
    let local = mapping(&[("old.png", "x"), ("user-customs/keep.png", "y")]);
    let plan = build_sync_plan(&remote, &local);
    assert_eq!(plan.to_download, Vec::<String>::new());
    assert_eq!(plan.to_delete, vec!["old.png".to_string()]);
}

#[test]
fn identical_trees_empty_plan() {
    let entries = [("a.png", "1"), ("b/c.png", "2"), ("d.png", "3")];
    let remote = mapping(&entries);
    let local = mapping(&entries);
    let plan = build_sync_plan(&remote, &local);
    assert_eq!(plan.to_download, Vec::<String>::new());
    assert_eq!(plan.to_delete, Vec::<String>::new());
    assert_eq!(plan.up_to_date, 3);
    assert_eq!(plan.skipped, 0);
}

#[test]
fn plan_sets_stable_under_entry_order() {
    let remote1 = mapping(&[("a.png", "1"), ("b.png", "2"), ("c.png", "9")]);
    let remote2 = mapping(&[("c.png", "9"), ("a.png", "1"), ("b.png", "2")]);
    let local1 = mapping(&[("b.png", "2"), ("z.png", "7")]);
    let local2 = mapping(&[("z.png", "7"), ("b.png", "2")]);
    let plan1 = build_sync_plan(&remote1, &local1);
    let plan2 = build_sync_plan(&remote2, &local2);
    let mut d1 = plan1.to_download.clone();
    let mut d2 = plan2.to_download.clone();
    d1.sort();
    d2.sort();
    assert_eq!(d1, d2);
    let mut x1 = plan1.to_delete.clone();
    let mut x2 = plan2.to_delete.clone();
    x1.sort();
    x2.sort();
    assert_eq!(x1, x2);
}

#[test]
fn live_disabled_variant_never_deleted() {
    // the disabled variant of a path the remote still carries stays
    let remote = mapping(&[("a.png", "111")]);
    let local = mapping(&[("-a.png", "000")]);
    let plan = build_sync_plan(&remote, &local);
    assert!(!plan.to_delete.contains(&"-a.png".to_string()));
}

#[test]
fn orphaned_disabled_variant_deleted() {
    // the disabled variant of a path the remote no longer carries goes
    let remote = mapping(&[("other.png", "5")]);
    let local = mapping(&[("-gone.png", "1"), ("other.png", "5")]);
    let plan = build_sync_plan(&remote, &local);
    assert_eq!(plan.to_delete, vec!["-gone.png".to_string()]);
}

#[test]
fn excluded_paths_never_planned() {
    let remote = mapping(&[("user-customs/r.png", "1"), ("a.png", "2")]);
    let local = mapping(&[("user-customs/l.png", "3"), ("a.png", "9")]);
    let plan = build_sync_plan(&remote, &local);
    assert!(!plan.to_download.iter().any(|p| p.contains("user-customs")));
    assert!(!plan.to_delete.iter().any(|p| p.contains("user-customs")));
    assert_eq!(plan.skipped, 1);
    assert_eq!(plan.to_download, vec!["a.png".to_string()]);
}

#[test]
fn changed_file_downloaded_in_place() {
    let remote = mapping(&[("a.png", "new")]);
    let local = mapping(&[("a.png", "old")]);
    let plan = build_sync_plan(&remote, &local);
    assert_eq!(plan.to_download, vec!["a.png".to_string()]);
    assert_eq!(plan.to_delete, Vec::<String>::new());
}

#[test]
fn status_counts_follow_plan() {
    let remote = mapping(&[("a.png", "1"), ("b.png", "2")]);
    let local = mapping(&[("a.png", "1"), ("stale.png", "9")]);
    let plan = build_sync_plan(&remote, &local);
    let status = check_sync_counts(&plan, "head".to_string());
    assert_eq!(status.latest_commit_sha, "head");
    assert_eq!(status.files_to_download, 1);
    assert_eq!(status.files_to_delete, 1);
    assert_eq!(status.files_up_to_date, 1);
    assert!(!status.is_up_to_date);
}

#[test]
fn status_up_to_date() {
    let remote = mapping(&[("a.png", "1")]);
    let local = mapping(&[("a.png", "1")]);
    let plan = build_sync_plan(&remote, &local);
    let status = check_sync_counts(&plan, "head".to_string());
    assert!(status.is_up_to_date);
    assert_eq!(status.files_up_to_date, 1);
}

#[test]
fn download_source_of_plain_path() {
    assert_eq!(download_source_path("a/b.png"), "a/b.png");
}
