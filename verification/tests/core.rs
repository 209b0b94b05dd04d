//! Identifier, password, string and image-pipeline behaviour on concrete
//! values.

use niobium::config::{apply_override, Config, DirOverride, ImageFormat, PasswordSetting};
use niobium::error::Error;
use niobium::hash::calculate_md5;
use niobium::metadata::{average_color, remove_quotes, ExifFields};
use niobium::password::{
    check_access, cookie_name, required_passwords, OptionalPassword, PasswordDecodeError,
    PasswordError, Passwords,
};
use niobium::photo::Photo;
use niobium::resize::{
    clamp_quality, file_extension, plan_resized, resized_file_name, resized_file_path, ResizePlan,
    ResizedType,
};
use niobium::sort::{parse_sort_fields, sort_photos, SortField};
use niobium::strutil::{
    is_image_filename, join_path, parent_path, split_commas_exec, split_path, str_eq,
    str_starts_with, to_lower_ascii, trim_spaces,
};
use niobium::subdirs::sort_strings_natural;
use niobium::uid::{UID, UID_LENGTH};

fn photo_named(filename: &str, id: u32) -> Photo {
    let mut p = Photo::new();
    p.filename = filename.to_string();
    p.id = id;
    p
}

#[test]
fn uid_parsing_accepts_exact_alphabet() {
    let ok = UID::try_from_str("a1b2c3d4e5").unwrap();
    assert_eq!(ok.as_str(), "a1b2c3d4e5");
    assert!(matches!(
        UID::try_from_str("a1b2c3d4e"),
        Err(Error::MalformedIdentifier { .. })
    ));
    assert!(matches!(
        UID::try_from_str("a1b2c3d4e5f"),
        Err(Error::MalformedIdentifier { .. })
    ));
    assert!(matches!(
        UID::try_from_str("A1b2c3d4e5"),
        Err(Error::MalformedIdentifier { .. })
    ));
    assert!(matches!(
        UID::try_from_str("a1b2c3d4e."),
        Err(Error::MalformedIdentifier { .. })
    ));
}

#[test]
fn uid_generation_avoids_existing() {
    let mut existing = Vec::new();
    for _ in 0..50 {
        let u = UID::new(&existing);
        assert_eq!(u.as_str().chars().count(), UID_LENGTH);
        assert!(u
            .as_str()
            .chars()
            .all(|c| c.is_ascii_digit() || c.is_ascii_lowercase()));
        assert!(existing.iter().all(|e| e.as_str() != u.as_str()));
        existing.push(u);
    }
}

#[test]
fn password_map_inserts_and_replaces() {
    let mut pw = Passwords::new();
    assert!(pw.is_empty());
    pw.insert("a".to_string(), "one".to_string());
    pw.insert("a/b".to_string(), "two".to_string());
    pw.insert("a".to_string(), "three".to_string());
    assert_eq!(pw.len(), 2);
    assert_eq!(pw.get("a").unwrap(), "three");
    assert_eq!(pw.get("a/b").unwrap(), "two");
    assert!(pw.get("missing").is_none());
    assert!(pw.contains_key("a/b"));
}

#[test]
fn access_control_needs_every_ancestor_password() {
    // The root-most path "top" requires password A, the leaf "top/inner"
    // requires B: holding only B is rejected at "top", holding both
    // succeeds.
    let mut gallery = Passwords::new();
    gallery.insert("top".to_string(), "A".to_string());
    gallery.insert("top/inner".to_string(), "B".to_string());

    let mut only_b = Passwords::new();
    only_b.insert("top/inner".to_string(), "B".to_string());
    let r = check_access(&gallery, &only_b, &OptionalPassword::none(), "top/inner");
    match r {
        Err(PasswordError::Required(p)) => assert_eq!(p, "top"),
        _ => panic!("expected a password to be required for the root-most path"),
    }

    let mut both = Passwords::new();
    both.insert("top".to_string(), "A".to_string());
    both.insert("top/inner".to_string(), "B".to_string());
    let (validated, persist) =
        check_access(&gallery, &both, &OptionalPassword::none(), "top/inner").unwrap();
    assert_eq!(validated.len(), 2);
    assert!(persist.is_empty());
}

#[test]
fn required_passwords_run_from_root_to_leaf() {
    let mut gallery = Passwords::new();
    gallery.insert("top/inner".to_string(), "B".to_string());
    gallery.insert("top".to_string(), "A".to_string());
    gallery.insert("elsewhere".to_string(), "C".to_string());
    let required = required_passwords(&gallery, "top/inner/leaf");
    assert_eq!(
        required,
        vec![
            ("top".to_string(), "A".to_string()),
            ("top/inner".to_string(), "B".to_string()),
        ]
    );
    assert!(required_passwords(&gallery, "open/path").is_empty());
}

#[test]
fn access_control_promotes_request_password() {
    let mut gallery = Passwords::new();
    gallery.insert("top".to_string(), "A".to_string());
    let session = Passwords::new();
    let request = OptionalPassword::from_plain("A".to_string());
    let (validated, persist) = check_access(&gallery, &session, &request, "top/inner").unwrap();
    assert_eq!(validated.get("top").unwrap(), "A");
    assert_eq!(persist, vec!["top".to_string()]);

    let wrong = OptionalPassword::from_plain("bad".to_string());
    match check_access(&gallery, &session, &wrong, "top/inner") {
        Err(PasswordError::Invalid(p)) => assert_eq!(p, "top"),
        _ => panic!("a wrong request password must be rejected as invalid"),
    }
}

#[test]
fn access_control_open_path_gives_empty_set() {
    let gallery = Passwords::new();
    let session = Passwords::new();
    let (validated, persist) =
        check_access(&gallery, &session, &OptionalPassword::none(), "anywhere").unwrap();
    assert!(validated.is_empty());
    assert!(persist.is_empty());
}

#[test]
fn base64_password_decoding() {
    let p = OptionalPassword::from_base64("cGFzcw==").unwrap();
    assert_eq!(p.as_string().as_deref(), Some("pass"));
    assert!(matches!(
        OptionalPassword::from_base64("!!!"),
        Err(PasswordDecodeError::Base64DecodeError)
    ));
    // 0xff 0xfe is valid base64 content but not valid UTF-8.
    assert!(matches!(
        OptionalPassword::from_base64("//4="),
        Err(PasswordDecodeError::Utf8DecodeError)
    ));
}

#[test]
fn cookie_name_carries_path() {
    assert_eq!(cookie_name("a/b"), "niobium_pw_a/b");
    assert_eq!(cookie_name(""), "niobium_pw_");
}

#[test]
fn password_error_messages_name_the_path() {
    assert!(PasswordError::Required("a".to_string())
        .message()
        .contains("\"a\""));
    assert_eq!(
        PasswordError::Invalid(String::new()).message(),
        "Invalid password"
    );
}

#[test]
fn md5_of_known_bytes() {
    assert_eq!(calculate_md5(&Vec::new()), "d41d8cd98f00b204e9800998ecf8427e");
    assert_eq!(
        calculate_md5(&b"hello".to_vec()),
        "5d41402abc4b2a76b9719d911017c592"
    );
}

#[test]
fn natural_sort_orders_numbers_by_value() {
    let mut v = vec![
        "img10".to_string(),
        "img2".to_string(),
        "IMG1".to_string(),
    ];
    sort_strings_natural(&mut v);
    assert_eq!(v, vec!["IMG1", "img2", "img10"]);
}

#[test]
fn string_helpers() {
    assert!(str_eq("abc", "abc"));
    assert!(!str_eq("abc", "abd"));
    assert_eq!(to_lower_ascii("AbC.JpG"), "abc.jpg");
    assert!(is_image_filename("photo.JPG"));
    assert!(is_image_filename("photo.jpeg"));
    assert!(!is_image_filename(".hidden.jpg"));
    assert!(!is_image_filename("notes.txt"));
    assert_eq!(parent_path("a/b/c"), "a/b");
    assert_eq!(parent_path("a"), "");
    assert_eq!(join_path("", "x"), "x");
    assert_eq!(join_path("a/b", "x"), "a/b/x");
    assert_eq!(split_path("a/b"), vec!["a", "b"]);
    assert!(split_path("").is_empty());
    assert_eq!(trim_spaces("  x y\t"), "x y");
    assert_eq!(split_commas_exec("a, b,"), vec!["a", " b", ""]);
    assert!(str_starts_with("thumbnail_x", "thumbnail_"));
}

#[test]
fn sort_fields_parse_and_order_photos() {
    let fields = parse_sort_fields(" filename , id ").unwrap();
    assert_eq!(fields, vec![SortField::Filename, SortField::Id]);
    assert!(matches!(
        parse_sort_fields("filename; drop"),
        Err(Error::PersistenceError { .. })
    ));
    assert_eq!(parse_sort_fields("").unwrap(), Vec::<SortField>::new());

    let mut photos = vec![
        photo_named("b.jpg", 1),
        photo_named("a.jpg", 3),
        photo_named("a.jpg", 2),
    ];
    sort_photos(&mut photos, &fields);
    assert_eq!(photos[0].filename, "a.jpg");
    assert_eq!(photos[0].id, 2);
    assert_eq!(photos[1].id, 3);
    assert_eq!(photos[2].filename, "b.jpg");
}

#[test]
fn average_color_is_darkened_hex() {
    // One pixel (6, 12, 18): channel averages 6, 12, 18, darkened by 6.
    assert_eq!(average_color(&vec![6, 12, 18]), "010203");
    // Two pixels averaging (252, 0, 6) -> darkened (42, 0, 1) = 2a0001.
    assert_eq!(average_color(&vec![252, 0, 6, 252, 0, 6]), "2a0001");
}

#[test]
fn metadata_is_applied_with_quotes_stripped() {
    assert_eq!(remove_quotes("\"Nikon\""), "Nikon");
    assert_eq!(remove_quotes("plain"), "plain");
    let mut p = Photo::new();
    let exif = ExifFields {
        date_taken: Some("\"2021-05-01\"".to_string()),
        camera_model: Some("Cam".to_string()),
        lens_model: None,
        focal_length: None,
        aperture: None,
        exposure_time: None,
        sensitivity: None,
    };
    p.apply_metadata(800, 600, &vec![6, 12, 18], &exif);
    assert_eq!(p.width, 800);
    assert_eq!(p.height, 600);
    assert_eq!(p.color, "010203");
    assert_eq!(p.date_taken, "2021-05-01");
    assert_eq!(p.camera_model, "Cam");
    assert!(p.metadata_parsed);
    assert_eq!(p.lens_model, "");
}

#[test]
fn resized_cache_paths_are_deterministic() {
    let uid = UID::try_from_str("0123456789").unwrap();
    let name = resized_file_name(ResizedType::THUMBNAIL, ImageFormat::WEBP, &uid);
    assert_eq!(name, "thumbnail_0123456789.webp");
    let full = resized_file_path("cache", "trips/sea", &name);
    assert_eq!(full, "cache/trips/sea/thumbnail_0123456789.webp");
    let root_full = resized_file_path("cache", "", &name);
    assert_eq!(root_full, "cache/thumbnail_0123456789.webp");
    assert_eq!(file_extension(ImageFormat::JPEG), "jpg");
}

#[test]
fn resized_cache_hit_never_reencodes() {
    let config = Config::default();
    // First request: the file is missing, so it is generated once.
    let first = plan_resized(false, ResizedType::LARGE, &config);
    assert_eq!(
        first,
        ResizePlan::Generate {
            max_size: 1920,
            quality: 85
        }
    );
    // Second request for the same photo and profile finds the file.
    let second = plan_resized(true, ResizedType::LARGE, &config);
    assert_eq!(second, ResizePlan::UseExisting);
    assert_eq!(clamp_quality(80), 80);
    assert_eq!(clamp_quality(300), 80);
    assert_eq!(clamp_quality(255), 255);
}

#[test]
fn override_resolution_resets_hidden_and_password() {
    let mut parent = Config::default();
    parent.HIDDEN = true;
    parent.PASSWORD = "root-secret".to_string();
    parent.SORT_ORDER = "id".to_string();

    // Below the root, neither the hidden flag nor the password propagates.
    let child = apply_override(&parent, &DirOverride::none(), false);
    assert!(!child.HIDDEN);
    assert_eq!(child.PASSWORD, "");
    assert_eq!(child.SORT_ORDER, "id");

    // At the root, the password is kept.
    let root = apply_override(&parent, &DirOverride::none(), true);
    assert_eq!(root.PASSWORD, "root-secret");

    let over = DirOverride {
        INDEX: Some(false),
        HIDDEN: Some(true),
        PASSWORD: Some(PasswordSetting::Value("pw".to_string())),
        SHOW_PHOTOS_FROM_SUBDIRS: Some(false),
        SORT_ORDER: Some("title".to_string()),
        REVERSE_SORT_ORDER: Some(true),
    };
    let c2 = apply_override(&parent, &over, false);
    assert!(!c2.INDEX);
    assert!(c2.HIDDEN);
    assert_eq!(c2.PASSWORD, "pw");
    assert!(!c2.SHOW_PHOTOS_FROM_SUBDIRS);
    assert_eq!(c2.SORT_ORDER, "title");
    assert!(c2.REVERSE_SORT_ORDER);

    // An unusable password value blocks access with a random password.
    let blocked = apply_override(
        &parent,
        &DirOverride {
            PASSWORD: Some(PasswordSetting::Invalid),
            ..DirOverride::none()
        },
        false,
    );
    assert_eq!(blocked.PASSWORD.chars().count(), 32);
}

#[test]
fn error_messages_are_not_empty() {
    assert!(!Error::DecodeError {
        path: "x.jpg".to_string()
    }
    .message()
    .is_empty());
    assert!(Error::FileAccess {
        path: "p".to_string(),
        not_found: true
    }
    .message()
    .contains("not found"));
}
