//! The in-memory index: listings, shared records, credential-aware counts,
//! pagination and navigation.

use niobium::config::Config;
use niobium::index::Gallery;
use niobium::nav_data::NavData;
use niobium::password::{OptionalPassword, PasswordError, Passwords};
use niobium::photo::Photo;
use niobium::subdirs::{Subdir, Subdirs};
use niobium::uid::UID;

fn photo(uid: &str, filename: &str) -> Photo {
    let mut p = Photo::new();
    p.uid = UID::try_from_str(uid).unwrap();
    p.filename = filename.to_string();
    p
}

fn no_creds() -> Passwords {
    Passwords::new()
}

#[test]
fn paths_and_records() {
    let mut g = Gallery::new();
    assert!(!g.path_exists("trips"));
    g.insert_path("trips");
    assert!(g.path_exists("trips"));
    assert_eq!(g.len(), 0);

    let p = photo("0000000001", "a.jpg");
    g.insert_photo("trips", &p, Vec::new());
    assert_eq!(g.len(), 1);
    let got = g.get_from_uid(&p.uid).unwrap();
    assert_eq!(got.filename, "a.jpg");

    // Listing the same photo at a second path shares the record.
    g.insert_photo("", &p, Vec::new());
    assert_eq!(g.len(), 1);

    g.clear();
    assert_eq!(g.len(), 0);
    assert!(!g.path_exists("trips"));
}

#[test]
fn read_windows_are_clamped_and_filtered() {
    let mut g = Gallery::new();
    g.insert_path("g");
    g.add_password("g/sec", "pw".to_string());
    g.insert_photo("g", &photo("0000000001", "a.jpg"), Vec::new());
    g.insert_photo("g", &photo("0000000002", "b.jpg"), Vec::new());
    g.insert_photo(
        "g",
        &photo("0000000003", "c.jpg"),
        vec![("g/sec".to_string(), "pw".to_string())],
    );
    g.update_counts();

    // Without the password, the protected photo is neither counted nor
    // listed.
    let lock = g.read("g", None, None, None, &no_creds()).unwrap();
    assert_eq!(lock.total, 2);
    assert_eq!(lock.max_count, 2);
    assert_eq!(lock.start, 0);
    let mut it = lock.iter();
    assert_eq!(it.next().unwrap().filename, "a.jpg");
    assert_eq!(it.next().unwrap().filename, "b.jpg");
    assert!(it.next().is_none());

    // With the password, all three are visible.
    let mut creds = Passwords::new();
    creds.insert("g/sec".to_string(), "pw".to_string());
    let lock = g.read("g", None, None, None, &creds).unwrap();
    assert_eq!(lock.total, 3);
    assert_eq!(lock.photos.len(), 3);

    // The window length is min(count, total - start).
    let lock = g.read("g", Some(1), Some(10), None, &creds).unwrap();
    assert_eq!(lock.start, 1);
    assert_eq!(lock.max_count, 2);
    assert_eq!(lock.photos[0].filename, "b.jpg");

    // An out-of-range start resets to zero.
    let lock = g.read("g", Some(7), Some(1), None, &creds).unwrap();
    assert_eq!(lock.start, 0);
    assert_eq!(lock.max_count, 1);

    // An unknown path yields nothing.
    assert!(g.read("missing", None, None, None, &creds).is_none());
}

#[test]
fn read_caps_windows_at_one_hundred() {
    let mut g = Gallery::new();
    g.insert_path("big");
    for i in 0..105u32 {
        let uid = format!("{:010}", i);
        g.insert_photo("big", &photo(&uid, &format!("{i}.jpg")), Vec::new());
    }
    g.update_counts();
    let lock = g.read("big", None, None, None, &no_creds()).unwrap();
    assert_eq!(lock.total, 105);
    assert_eq!(lock.max_count, 100);
    assert_eq!(lock.photos.len(), 100);
}

#[test]
fn read_locates_a_requested_identifier_among_visible_photos() {
    let mut g = Gallery::new();
    g.insert_path("g");
    g.insert_photo("g", &photo("0000000001", "a.jpg"), Vec::new());
    g.insert_photo("g", &photo("0000000002", "b.jpg"), Vec::new());
    g.update_counts();

    let wanted = UID::try_from_str("0000000002").unwrap();
    let lock = g.read("g", None, None, Some(&wanted), &no_creds()).unwrap();
    assert_eq!(lock.start, 1);
    assert_eq!(lock.max_count, 1);
    assert_eq!(lock.photos[0].filename, "b.jpg");

    // A missing identifier falls back to plain windowing.
    let missing = UID::try_from_str("zzzzzzzzzz").unwrap();
    let lock = g.read("g", Some(0), Some(1), Some(&missing), &no_creds()).unwrap();
    assert_eq!(lock.start, 0);
    assert_eq!(lock.max_count, 1);
    assert_eq!(lock.photos[0].filename, "a.jpg");
}

#[test]
fn gallery_check_password_delegates_to_the_evaluator() {
    let mut g = Gallery::new();
    g.add_password("top", "A".to_string());
    let session = Passwords::new();
    match g.check_password("top/x", &session, &OptionalPassword::none()) {
        Err(PasswordError::Required(p)) => assert_eq!(p, "top"),
        _ => panic!("the protected ancestor must be required"),
    }
    let (ok, persist) = g
        .check_password("top/x", &session, &OptionalPassword::from_plain("A".to_string()))
        .unwrap();
    assert_eq!(ok.get("top").unwrap(), "A");
    assert_eq!(persist, vec!["top".to_string()]);
}

#[test]
fn subdirs_listing_sorts_and_appends_missing_name() {
    let mut g = Gallery::new();
    let mut sd = Subdirs::new();
    sd.push(Subdir::new("zeta10".to_string(), false));
    sd.push(Subdir::new("zeta2".to_string(), false));
    sd.push(Subdir::new("secret".to_string(), true));
    g.set_subdirs("trips", sd);

    let names = g.get_subdirs("trips", None);
    assert_eq!(names, vec!["zeta2", "zeta10"]);

    let extra = "open-me".to_string();
    let names = g.get_subdirs("trips", Some(&extra));
    assert_eq!(names, vec!["open-me", "zeta2", "zeta10"]);

    assert!(g.get_subdirs("missing", None).is_empty());
}

#[test]
fn reverse_sort_order_reverses_only_marked_paths() {
    let mut g = Gallery::new();
    g.insert_path("rev");
    g.insert_path("fwd");
    g.insert_photo("rev", &photo("0000000001", "a.jpg"), Vec::new());
    g.insert_photo("rev", &photo("0000000002", "b.jpg"), Vec::new());
    g.insert_photo("fwd", &photo("0000000003", "c.jpg"), Vec::new());
    g.insert_photo("fwd", &photo("0000000004", "d.jpg"), Vec::new());
    let mut rev_cfg = Config::default();
    rev_cfg.REVERSE_SORT_ORDER = true;
    g.set_config("rev", rev_cfg);
    g.set_config("fwd", Config::default());
    g.update_counts();
    g.apply_reverse_sort();

    let lock = g.read("rev", None, None, None, &no_creds()).unwrap();
    assert_eq!(lock.photos[0].filename, "b.jpg");
    assert_eq!(lock.photos[1].filename, "a.jpg");
    let lock = g.read("fwd", None, None, None, &no_creds()).unwrap();
    assert_eq!(lock.photos[0].filename, "c.jpg");
}

#[test]
fn nav_data_lists_and_locks_subdirectories() {
    let mut g = Gallery::new();
    let mut sd = Subdirs::new();
    sd.push(Subdir::new("open".to_string(), false));
    sd.push(Subdir::new("locked".to_string(), false));
    g.set_subdirs("trips", sd);
    g.set_subdirs("", Subdirs::new());
    g.add_password("trips/locked", "pw".to_string());

    let config = Config::default();
    let nav = NavData::from_path("trips", &g, &config, None);
    assert_eq!(nav.title, "Niobium");
    assert!(!nav.is_root);
    assert_eq!(nav.current, "trips");
    assert_eq!(nav.path_current, "trips");
    assert_eq!(nav.subdirs, vec!["locked", "open"]);
    assert_eq!(nav.locked_subdirs, vec!["locked"]);
    assert!(nav.unlocked_subdirs.is_empty());

    let mut creds = Passwords::new();
    creds.insert("trips/locked".to_string(), "pw".to_string());
    let nav = NavData::from_path("trips", &g, &config, Some(&creds));
    assert_eq!(nav.unlocked_subdirs, vec!["locked"]);
    assert!(nav.locked_subdirs.is_empty());

    // A leaf without subdirectories keeps its parent's listing open.
    let nav = NavData::from_path("trips/open", &g, &config, None);
    assert_eq!(nav.open_subdir.as_deref(), Some("open"));
    assert_eq!(nav.path_current, "trips");
    assert!(nav.subdirs.contains(&"open".to_string()));

    let denied = NavData::new();
    assert!(denied.is_root);
    assert!(denied.subdirs.is_empty());
}
