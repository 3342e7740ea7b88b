use vaultguard::store::{FileIndexEntry, FileType, IndexStore, StoreError};
use vaultguard::sweep::remove_missing;
use vaultguard::tags::TagStore;

fn entry(path: &str, name: &str, file_type: FileType, doc_type: &str, size: Option<i64>, ts: i64, drive: &str) -> FileIndexEntry {
    FileIndexEntry {
        path: path.to_string(),
        name: name.to_string(),
        file_type,
        doc_type: doc_type.to_string(),
        size,
        indexed_at: ts,
        drive: drive.to_string(),
    }
}

#[test]
fn indexing_the_same_path_twice_keeps_one_row_with_latest_metadata() {
    let mut store = IndexStore::new();
    store.upsert(entry("/r/a.txt", "a.txt", FileType::File, "TEXT", Some(10), 100, "/"));
    store.upsert(entry("/r/a.txt", "a.txt", FileType::File, "TEXT", Some(42), 200, "/"));
    assert_eq!(store.len(), 1);
    let got = store.lookup(&"/r/a.txt".to_string()).unwrap();
    assert_eq!(got.size, Some(42));
    assert_eq!(got.indexed_at, 200);
}

#[test]
fn distinct_paths_get_distinct_rows() {
    let mut store = IndexStore::new();
    store.upsert(entry("/r/a.txt", "a.txt", FileType::File, "TEXT", Some(1), 1, "/"));
    store.upsert(entry("/r/b.txt", "b.txt", FileType::File, "TEXT", Some(2), 2, "/"));
    assert_eq!(store.len(), 2);
    assert!(store.contains(&"/r/a.txt".to_string()));
    assert!(store.contains(&"/r/b.txt".to_string()));
}

#[test]
fn delete_removes_the_row_and_its_shadow() {
    let mut store = IndexStore::new();
    store.upsert(entry("/r/a.txt", "a.txt", FileType::File, "TEXT", Some(1), 1, "/"));
    assert!(store.shadow_contains(&"/r/a.txt".to_string()));
    assert!(store.delete(&"/r/a.txt".to_string()));
    assert_eq!(store.len(), 0);
    assert!(!store.contains(&"/r/a.txt".to_string()));
    assert!(!store.shadow_contains(&"/r/a.txt".to_string()));
    assert!(!store.delete(&"/r/a.txt".to_string()));
}

#[test]
fn rename_rederives_the_name_and_keeps_content_columns() {
    let mut store = IndexStore::new();
    store.upsert(entry("/r/old.pdf", "old.pdf", FileType::File, "PDF", Some(7), 50, "/"));
    let ok = store.rename(&"/r/old.pdf".to_string(), &"/r/sub/new.pdf".to_string());
    assert!(matches!(ok, Ok(true)));
    assert!(!store.contains(&"/r/old.pdf".to_string()));
    let got = store.lookup(&"/r/sub/new.pdf".to_string()).unwrap();
    assert_eq!(got.name, "new.pdf");
    assert_eq!(got.doc_type, "PDF");
    assert_eq!(got.size, Some(7));
    assert_eq!(got.indexed_at, 50);
    assert_eq!(got.drive, "/");
    assert!(store.shadow_contains(&"/r/sub/new.pdf".to_string()));
    assert!(!store.shadow_contains(&"/r/old.pdf".to_string()));
}

#[test]
fn rename_to_an_existing_path_is_rejected() {
    let mut store = IndexStore::new();
    store.upsert(entry("/r/a", "a", FileType::File, "unknown", Some(1), 1, "/"));
    store.upsert(entry("/r/b", "b", FileType::File, "unknown", Some(2), 2, "/"));
    let r = store.rename(&"/r/a".to_string(), &"/r/b".to_string());
    match r {
        Err(StoreError::PathCollision) => {
            assert_eq!(StoreError::PathCollision.message(), "destination path already indexed");
        },
        _ => panic!("expected a path collision"),
    }
    assert_eq!(store.len(), 2);
    assert!(store.contains(&"/r/a".to_string()));
}

#[test]
fn rename_of_a_missing_path_is_a_no_op() {
    let mut store = IndexStore::new();
    let r = store.rename(&"/nope".to_string(), &"/other".to_string());
    assert!(matches!(r, Ok(false)));
    assert_eq!(store.len(), 0);
}

#[test]
fn sweep_removes_exactly_the_missing_paths() {
    let mut store = IndexStore::new();
    store.upsert(entry("/r/gone.txt", "gone.txt", FileType::File, "TEXT", Some(1), 1, "/"));
    store.upsert(entry("/r/kept.txt", "kept.txt", FileType::File, "TEXT", Some(2), 2, "/"));
    let missing = vec!["/r/gone.txt".to_string(), "/r/never-indexed".to_string()];
    let removed = remove_missing(&mut store, &missing);
    assert_eq!(removed, 1);
    assert!(!store.contains(&"/r/gone.txt".to_string()));
    assert!(!store.shadow_contains(&"/r/gone.txt".to_string()));
    assert!(store.contains(&"/r/kept.txt".to_string()));
    assert_eq!(store.len(), 1);
}

#[test]
fn sweep_counts_a_twice_listed_path_once() {
    let mut store = IndexStore::new();
    store.upsert(entry("/r/x", "x", FileType::File, "unknown", None, 1, "/"));
    let missing = vec!["/r/x".to_string(), "/r/x".to_string()];
    assert_eq!(remove_missing(&mut store, &missing), 1);
    assert_eq!(store.len(), 0);
}

#[test]
fn store_paths_enumerates_every_row() {
    let mut store = IndexStore::new();
    store.upsert(entry("/a", "a", FileType::File, "unknown", None, 1, "/"));
    store.upsert(entry("/b", "b", FileType::Dir, "dir", None, 2, "/"));
    let ps = store.paths();
    assert_eq!(ps, vec!["/a".to_string(), "/b".to_string()]);
}

#[test]
fn tagging_a_path_replaces_its_previous_tag() {
    let mut tags = TagStore::new();
    let p = "/r/a.txt".to_string();
    tags.tag_path(&p, &"work".to_string(), Some(1), 100);
    tags.tag_path(&p, &"personal".to_string(), Some(2), 200);
    assert_eq!(tags.len(), 1);
    let rows = tags.tags_for_path(&p);
    assert_eq!(rows.len(), 1);
    assert_eq!(rows[0].tag, "personal");
    assert_eq!(rows[0].created_by, Some(2));
    assert_eq!(rows[0].created_at, 200);
}

#[test]
fn tags_on_different_paths_are_independent() {
    let mut tags = TagStore::new();
    tags.tag_path(&"/a".to_string(), &"one".to_string(), None, 1);
    tags.tag_path(&"/b".to_string(), &"two".to_string(), None, 2);
    assert_eq!(tags.len(), 2);
    assert_eq!(tags.tags_for_path(&"/a".to_string())[0].tag, "one");
    assert_eq!(tags.tags_for_path(&"/b".to_string())[0].tag, "two");
}

#[test]
fn untag_removes_the_matching_row_slash_tolerantly() {
    let mut tags = TagStore::new();
    tags.tag_path(&"C:\\docs\\a.pdf".to_string(), &"work".to_string(), None, 1);
    let removed = tags.untag_path(&"C:/docs/a.pdf".to_string(), &"work".to_string());
    assert_eq!(removed, 1);
    assert_eq!(tags.len(), 0);
}

#[test]
fn untag_with_a_different_tag_removes_nothing() {
    let mut tags = TagStore::new();
    tags.tag_path(&"/a".to_string(), &"work".to_string(), None, 1);
    assert_eq!(tags.untag_path(&"/a".to_string(), &"other".to_string()), 0);
    assert_eq!(tags.len(), 1);
}

#[test]
fn listing_tags_tolerates_slash_direction() {
    let mut tags = TagStore::new();
    tags.tag_path(&"C:\\x\\y".to_string(), &"t".to_string(), Some(9), 5);
    let rows = tags.tags_for_path(&"C:/x/y".to_string());
    assert_eq!(rows.len(), 1);
    assert_eq!(rows[0].tag, "t");
}

#[test]
fn listing_tags_orders_matching_rows_newest_first() {
    // two slash spellings of one path can coexist; the listing returns both,
    // newest tag first
    let mut tags = TagStore::new();
    tags.tag_path(&"C:\\x\\y".to_string(), &"older".to_string(), None, 10);
    tags.tag_path(&"C:/x/y".to_string(), &"newer".to_string(), None, 20);
    let rows = tags.tags_for_path(&"C:/x/y".to_string());
    assert_eq!(rows.len(), 2);
    assert_eq!(rows[0].tag, "newer");
    assert_eq!(rows[1].tag, "older");
}

#[test]
fn tag_path_now_records_the_creator() {
    let mut tags = TagStore::new();
    tags.tag_path_now(&"/a".to_string(), &"t".to_string(), Some(7));
    let rows = tags.tags_for_path(&"/a".to_string());
    assert_eq!(rows.len(), 1);
    assert_eq!(rows[0].created_by, Some(7));
}
