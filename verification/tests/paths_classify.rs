use vaultguard::doc_type::{category_of, doc_type_for_path};
use vaultguard::exclusion::is_excluded_path;
use vaultguard::paths::{
    base_name, browse_allowed, get_db_path, has_drive_prefix, is_path_allowed, is_unc_path,
    normalize, normalize_drive_for_storage, normalize_mount, normalize_path,
};
use vaultguard::tokens::{pick_session_token, session_is_valid};

#[test]
fn normalize_strips_long_path_prefix() {
    let p = String::from("\\\\?\\C:\\Users\\docs\\a.txt");
    assert_eq!(normalize(&p), "C:\\Users\\docs\\a.txt");
}

#[test]
fn normalize_strips_repeated_prefixes() {
    let p = String::from("\\\\?\\\\\\?\\C:\\x");
    assert_eq!(normalize(&p), "C:\\x");
    // only the leading marker is a decoration; the rest of the path stays
    let q = String::from("\\\\?\\UNC\\unc\\server\\share");
    assert_eq!(normalize(&q), "\\\\unc\\server\\share");
    // a rewrite that would manufacture a fresh long-path prefix strips it
    let r = String::from("unc\\?\\x");
    assert_eq!(normalize(&r), "x");
}

#[test]
fn normalize_rewrites_long_unc_form() {
    let p = String::from("\\\\?\\UNC\\server\\share\\f.txt");
    assert_eq!(normalize(&p), "\\\\server\\share\\f.txt");
}

#[test]
fn normalize_rewrites_lowercase_unc_marker() {
    let p = String::from("unc\\server\\share");
    assert_eq!(normalize(&p), "\\\\server\\share");
}

#[test]
fn normalize_leaves_plain_paths_alone() {
    let p = String::from("/home/user/docs/a.txt");
    assert_eq!(normalize(&p), "/home/user/docs/a.txt");
}

#[test]
fn normalize_path_unifies_slashes() {
    assert_eq!(normalize_path("C:\\Users\\x/y"), "C:/Users/x/y");
    assert_eq!(normalize_path("/already/unix"), "/already/unix");
}

#[test]
fn drive_of_unix_absolute_path_is_root() {
    assert_eq!(normalize_drive_for_storage("/home/user/f.txt"), "/");
}

#[test]
fn drive_of_drive_letter_path_is_uppercased() {
    assert_eq!(normalize_drive_for_storage("C:\\Users\\x"), "C:\\");
    assert_eq!(normalize_drive_for_storage("c:\\users\\x"), "C:\\");
}

#[test]
fn drive_of_long_path_prefixed_path() {
    assert_eq!(normalize_drive_for_storage("\\\\?\\D:\\data"), "D:\\");
}

#[test]
fn drive_of_unc_path_is_server_share() {
    assert_eq!(normalize_drive_for_storage("\\\\server\\share\\f"), "\\\\server\\share");
    assert_eq!(normalize_drive_for_storage("\\\\server"), "\\\\server");
}

#[test]
fn drive_of_relative_path_passes_through() {
    assert_eq!(normalize_drive_for_storage("abc/def/g"), "abc/def/g");
    assert_eq!(normalize_drive_for_storage(""), "");
}

#[test]
fn drive_normalization_is_idempotent() {
    for p in [
        "/home/user/f.txt",
        "C:\\Users\\x",
        "\\\\server\\share\\f",
        "\\\\server",
        "abc/def",
        "unc\\?\\x",
        "\\x",
        "",
    ] {
        let once = normalize_drive_for_storage(p);
        assert_eq!(normalize_drive_for_storage(&once), once);
    }
}

#[test]
fn base_name_takes_last_component() {
    assert_eq!(base_name("/a/b/c.txt"), "c.txt");
    assert_eq!(base_name("C:\\x\\y.pdf"), "y.pdf");
    assert_eq!(base_name("plain"), "plain");
}

#[test]
fn db_path_is_under_the_data_dir() {
    assert_eq!(get_db_path("/data"), "/data/vaultguard/vaultguard.sqlite");
}

#[test]
fn doc_types_follow_the_extension_table() {
    assert_eq!(doc_type_for_path("/x/a.pdf", false), "PDF");
    assert_eq!(doc_type_for_path("/x/a.docx", false), "DOC");
    assert_eq!(doc_type_for_path("/x/a.csv", false), "SHEET");
    assert_eq!(doc_type_for_path("/x/a.pptx", false), "PPT");
    assert_eq!(doc_type_for_path("/x/a.JPEG", false), "IMAGE");
    assert_eq!(doc_type_for_path("/x/a.7z", false), "ARCHIVE");
    assert_eq!(doc_type_for_path("/x/a.TXT", false), "TEXT");
    assert_eq!(doc_type_for_path("/x/a.dll", false), "BINARY");
}

#[test]
fn directories_always_classify_as_dir() {
    assert_eq!(doc_type_for_path("/x/a.pdf", true), "dir");
}

#[test]
fn unknown_and_fallback_extensions() {
    assert_eq!(doc_type_for_path("/x/noext", false), "unknown");
    assert_eq!(doc_type_for_path("/x/.bashrc", false), "unknown");
    assert_eq!(doc_type_for_path("/x/trailing.", false), "unknown");
    assert_eq!(doc_type_for_path("/x/a.xyz", false), "XYZ");
}

#[test]
fn categories_fold_stored_doc_types() {
    assert_eq!(category_of("dir"), "Dir");
    assert_eq!(category_of("PDF"), "PDF");
    assert_eq!(category_of("doc"), "Docs");
    assert_eq!(category_of("IMAGE"), "Images");
    assert_eq!(category_of("ARCHIVE"), "Binary/Archive");
    assert_eq!(category_of("mp4"), "Videos");
    assert_eq!(category_of("TEXT"), "Other");
    assert_eq!(category_of("something"), "Other");
}

#[test]
fn exclusion_rules_prune_known_subtrees() {
    assert!(is_excluded_path("/home/u/project/node_modules"));
    assert!(is_excluded_path("/home/u/project/.git"));
    assert!(is_excluded_path("/home/u/project/.git/objects"));
    assert!(is_excluded_path("/home/u/.cache/fontconfig"));
    assert!(is_excluded_path("C:\\Windows\\System32"));
    assert!(is_excluded_path("C:\\Program Files\\App"));
    assert!(is_excluded_path("C:\\$Recycle.Bin\\S-1-5"));
    assert!(is_excluded_path("D:\\System Volume Information"));
    assert!(is_excluded_path("/Volumes/X/.Spotlight-V100"));
}

#[test]
fn ordinary_paths_are_not_excluded() {
    assert!(!is_excluded_path("/home/u/documents"));
    assert!(!is_excluded_path("/home/u/projects/src"));
    assert!(!is_excluded_path("C:\\Users\\u\\Desktop"));
}

#[test]
fn allow_list_matches_normalized_mounts() {
    let mounts = vec![normalize_mount("/home/User/"), normalize_mount("/mnt/data")];
    assert_eq!(mounts[0], "/home/user");
    assert!(is_path_allowed("/home/User/docs", &mounts));
    assert!(is_path_allowed("/MNT/data/x", &mounts));
    assert!(!is_path_allowed("/etc/passwd", &mounts));
}

#[test]
fn windows_style_roots_are_recognized() {
    assert!(has_drive_prefix("C:\\Users"));
    assert!(has_drive_prefix("\\\\C:\\x"));
    assert!(!has_drive_prefix("/home/u"));
    assert!(is_unc_path("\\\\server\\share"));
    assert!(!is_unc_path("C:\\x"));
}

#[test]
fn browse_decision_combines_roots_and_mounts() {
    let mounts = vec![normalize_mount("/home/u")];
    assert!(browse_allowed("/home/u/docs", &mounts));
    assert!(browse_allowed("C:\\anything", &mounts));
    assert!(browse_allowed("\\\\server\\share", &mounts));
    assert!(!browse_allowed("/etc/passwd", &mounts));
}

#[test]
fn session_token_picking_prefers_the_second_spelling() {
    assert_eq!(
        pick_session_token(Some("a".to_string()), Some("b".to_string())),
        Some("b".to_string())
    );
    assert_eq!(pick_session_token(Some("a".to_string()), None), Some("a".to_string()));
    assert_eq!(pick_session_token(None, None), None);
}

#[test]
fn session_validity_follows_the_expiry() {
    assert!(session_is_valid(None, 1_000));
    assert!(session_is_valid(Some(1_000), 1_000));
    assert!(!session_is_valid(Some(999), 1_000));
}
