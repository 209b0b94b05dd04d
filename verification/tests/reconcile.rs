//! Reconciliation scenarios: diffing directories against the store, move
//! detection, identifier allocation, idempotence and the index rebuild.

use niobium::config::{Config, DirOverride};
use niobium::index::Gallery;
use niobium::password::Passwords;
use niobium::photo::Photo;
use niobium::reconcile::{
    allocate_uids, build_index, detect_moves, diff_dir, insert_dir_photos, removed_path_photos,
    scan_tree, stale_cache_files, DirTree, ScanReport,
};
use niobium::uid::UID;

fn record(path: &str, filename: &str, uid: &str, md5: &str) -> Photo {
    let mut p = Photo::new();
    p.path = path.to_string();
    p.filename = filename.to_string();
    p.uid = UID::try_from_str(uid).unwrap();
    p.md5 = md5.to_string();
    p
}

fn leaf_dir(name: &str, files: &[&str]) -> DirTree {
    DirTree {
        name: name.to_string(),
        files: files.iter().map(|f| f.to_string()).collect(),
        cache_files: Vec::new(),
        config: DirOverride::none(),
        subdirs: Vec::new(),
    }
}

#[test]
fn diff_splits_new_files_and_gone_records() {
    let files = vec!["a.jpg".to_string(), "b.jpg".to_string(), "notes.txt".to_string()];
    let records = vec![
        record("", "a.jpg", "0000000001", "h1"),
        record("", "gone.jpg", "0000000002", "h2"),
    ];
    let (inserts, removes) = diff_dir(&files, &records);
    assert_eq!(inserts, vec!["b.jpg"]);
    assert_eq!(removes.len(), 1);
    assert_eq!(removes[0].filename, "gone.jpg");
}

#[test]
fn new_directory_photo_is_inserted_once() {
    // The directory holds a.jpg and b.jpg; the store records only a.jpg:
    // exactly one insertion candidate appears, for b.jpg, and a.jpg is
    // untouched.
    let store = vec![record("vacation", "a.jpg", "0000000001", "ha")];
    let mut root = leaf_dir("", &[]);
    root.subdirs.push(leaf_dir("vacation", &["a.jpg", "b.jpg"]));
    let config = Config::default();
    let mut report = ScanReport::new();
    scan_tree(&root, "", &store, &config, &mut report);

    assert_eq!(report.inserts.len(), 1);
    let ins = &report.inserts[0];
    assert_eq!(ins.path, "vacation");
    assert_eq!(ins.filename, "b.jpg");
    assert_eq!(ins.full_path, "photos/vacation/b.jpg");
    assert_eq!(ins.md5, "");
    assert!(report.removes.is_empty());
    assert_eq!(report.paths_found, vec!["", "vacation"]);

    // A freshly allocated identifier and hash complete the record.
    let mut inserts = report.inserts;
    let mut existing: Vec<UID> = store.iter().map(|p| p.uid.clone()).collect();
    allocate_uids(&mut inserts, &mut existing);
    assert_eq!(inserts[0].uid.as_str().chars().count(), 10);
    assert_ne!(inserts[0].uid.as_str(), "0000000001");
    assert_eq!(existing.len(), 2);
}

#[test]
fn moved_photo_is_reported_exactly_once_with_its_identifier() {
    // The store records old/pic.jpg with hash H; the filesystem now holds
    // new/pic.jpg with the same content and nothing at the old path. The
    // pass records a single move keeping the identifier, no insert and no
    // removal.
    let old_record = record("old", "pic.jpg", "0000000007", "H");
    let mut new_candidate = Photo::new();
    new_candidate.path = "new".to_string();
    new_candidate.filename = "pic.jpg".to_string();
    new_candidate.md5 = "H".to_string();

    let (inserts, removes, moves) =
        detect_moves(vec![new_candidate], vec![old_record]);
    assert!(inserts.is_empty());
    assert!(removes.is_empty());
    assert_eq!(moves.len(), 1);
    let (from, to) = &moves[0];
    assert_eq!(from.path, "old");
    assert_eq!(from.uid.as_str(), "0000000007");
    assert_eq!(to.path, "new");
    assert_eq!(from.md5, to.md5);
}

#[test]
fn unmatched_candidates_stay_inserts_and_removes() {
    let ins = record("a", "x.jpg", "0000000001", "h-new");
    let rem = record("b", "y.jpg", "0000000002", "h-old");
    let (inserts, removes, moves) = detect_moves(vec![ins], vec![rem]);
    assert_eq!(inserts.len(), 1);
    assert_eq!(removes.len(), 1);
    assert!(moves.is_empty());
}

#[test]
fn reconciliation_is_idempotent_when_nothing_changed() {
    // Disk and store agree everywhere: the scan proposes no change, and a
    // vanished-path sweep finds nothing either.
    let mut root = leaf_dir("", &["top.jpg"]);
    root.subdirs.push(leaf_dir("trips", &["sea.jpg"]));
    let store = vec![
        record("", "top.jpg", "0000000001", "h1"),
        record("trips", "sea.jpg", "0000000002", "h2"),
    ];
    let config = Config::default();
    let mut report = ScanReport::new();
    scan_tree(&root, "", &store, &config, &mut report);
    assert!(report.inserts.is_empty());
    assert!(report.removes.is_empty());
    assert!(removed_path_photos(&store, &report.paths_found).is_empty());
    let (inserts, removes, moves) = detect_moves(report.inserts, report.removes);
    assert!(inserts.is_empty() && removes.is_empty() && moves.is_empty());
}

#[test]
fn records_in_vanished_paths_are_removal_candidates() {
    let store = vec![
        record("kept", "a.jpg", "0000000001", "h1"),
        record("gone", "b.jpg", "0000000002", "h2"),
    ];
    let paths = vec!["".to_string(), "kept".to_string()];
    let removed = removed_path_photos(&store, &paths);
    assert_eq!(removed.len(), 1);
    assert_eq!(removed[0].path, "gone");
}

#[test]
fn stale_cache_files_are_recognized() {
    let records = vec![record("d", "a.jpg", "0123456789", "h")];
    let cache = vec![
        "thumbnail_0123456789.jpg".to_string(),
        "thumbnail_0123456789.webp".to_string(),
        "thumbnail_zzzzzzzzz9.jpg".to_string(),
        "large_zzzzzzzzz9.webp".to_string(),
        "thumbnail_short.jpg".to_string(),
        "unrelated.jpg".to_string(),
    ];
    let stale = stale_cache_files(&cache, &records);
    assert_eq!(
        stale,
        vec!["thumbnail_zzzzzzzzz9.jpg", "large_zzzzzzzzz9.webp"]
    );
}

#[test]
fn photos_do_not_climb_past_a_parent_that_hides_subdir_photos() {
    // The parent "album" disables showing photos from subdirectories: a
    // photo of "album/day1" appears in its own listing but not in the
    // parent's, and not at the root either.
    let mut g = Gallery::new();
    let mut parent_cfg = Config::default();
    parent_cfg.SHOW_PHOTOS_FROM_SUBDIRS = false;
    let stack = vec![
        ("".to_string(), Config::default()),
        ("album".to_string(), parent_cfg),
        ("album/day1".to_string(), Config::default()),
    ];
    let p = record("album/day1", "x.jpg", "0000000009", "h");
    insert_dir_photos(&mut g, &stack, &vec![p]);
    g.update_counts();

    let own = g.read("album/day1", None, None, None, &Passwords::new()).unwrap();
    assert_eq!(own.total, 1);
    let parent = g.read("album", None, None, None, &Passwords::new());
    assert!(parent.is_none() || parent.unwrap().total == 0);
    let root = g.read("", None, None, None, &Passwords::new());
    assert!(root.is_none() || root.unwrap().total == 0);
}

#[test]
fn photos_climb_through_parents_that_show_them() {
    let mut g = Gallery::new();
    let stack = vec![
        ("".to_string(), Config::default()),
        ("album".to_string(), Config::default()),
    ];
    let p = record("album", "x.jpg", "0000000010", "h");
    insert_dir_photos(&mut g, &stack, &vec![p]);
    g.update_counts();
    assert_eq!(g.read("album", None, None, None, &Passwords::new()).unwrap().total, 1);
    assert_eq!(g.read("", None, None, None, &Passwords::new()).unwrap().total, 1);
}

#[test]
fn hidden_directory_keeps_its_own_photos_but_does_not_propagate() {
    let mut g = Gallery::new();
    let mut hidden_cfg = Config::default();
    hidden_cfg.HIDDEN = true;
    let stack = vec![
        ("".to_string(), Config::default()),
        ("secret".to_string(), hidden_cfg),
    ];
    let p = record("secret", "x.jpg", "0000000011", "h");
    insert_dir_photos(&mut g, &stack, &vec![p]);
    g.update_counts();
    assert_eq!(g.read("secret", None, None, None, &Passwords::new()).unwrap().total, 1);
    let root = g.read("", None, None, None, &Passwords::new());
    assert!(root.is_none() || root.unwrap().total == 0);
}

#[test]
fn build_index_walks_the_tree_and_registers_everything() {
    let mut root = leaf_dir("", &["top.jpg"]);
    let mut trips = leaf_dir("trips", &["sea.jpg"]);
    trips.config.PASSWORD = Some(niobium::config::PasswordSetting::Value("pw".to_string()));
    root.subdirs.push(trips);
    let store = vec![
        record("", "top.jpg", "0000000001", "h1"),
        record("trips", "sea.jpg", "0000000002", "h2"),
    ];
    let config = Config::default();
    let mut g = Gallery::new();
    let mut stack: Vec<(String, Config)> = Vec::new();
    build_index(&mut g, &root, "", &store, &config, &mut stack).unwrap();
    assert!(stack.is_empty());
    g.update_counts();
    g.apply_reverse_sort();

    assert!(g.path_exists(""));
    assert!(g.path_exists("trips"));
    assert_eq!(g.len(), 2);
    assert!(g.get_passwords().contains_key("trips"));

    // Without the password the protected photo stays out of the root's
    // count; the root's own photo is visible.
    let lock = g.read("", None, None, None, &Passwords::new()).unwrap();
    assert_eq!(lock.total, 1);
    let mut creds = Passwords::new();
    creds.insert("trips".to_string(), "pw".to_string());
    let lock = g.read("", None, None, None, &creds).unwrap();
    assert_eq!(lock.total, 2);
    assert_eq!(g.get_subdirs("", None), vec!["trips"]);
}
