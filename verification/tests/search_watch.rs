use vaultguard::aggregate::{
    get_files_per_drive, get_indexing_by_category_global, get_indexing_by_drive_and_type,
};
use vaultguard::listing::{build_drive_list, order_recent_items, sort_file_entries, DiskObs, FsItem};
use vaultguard::search::{search_files_by_tag, search_prefix};
use vaultguard::store::{FileIndexEntry, FileType, IndexStore};
use vaultguard::tags::TagStore;
use vaultguard::watcher::{handle_event, watch_rename, CreateObs, WatchEvent};

fn entry(path: &str, name: &str, file_type: FileType, doc_type: &str, size: Option<i64>, ts: i64, drive: &str) -> FileIndexEntry {
    FileIndexEntry {
        path: path.to_string(),
        name: name.to_string(),
        file_type,
        doc_type: doc_type.to_string(),
        size,
        indexed_at: ts,
        drive: drive.to_string(),
    }
}

fn sample_store() -> IndexStore {
    let mut store = IndexStore::new();
    store.upsert(entry("/r/report1.pdf", "report1.pdf", FileType::File, "PDF", Some(1), 100, "/"));
    store.upsert(entry("/r/Report-2024.txt", "Report-2024.txt", FileType::File, "TEXT", Some(2), 200, "/"));
    store.upsert(entry("/r/other.txt", "other.txt", FileType::File, "TEXT", Some(3), 50, "/"));
    store.upsert(entry("/reports", "reports", FileType::Dir, "dir", None, 150, "/"));
    store
}

#[test]
fn empty_or_whitespace_queries_yield_empty_results() {
    let store = sample_store();
    assert_eq!(search_prefix(&store, "", 10, 0).len(), 0);
    assert_eq!(search_prefix(&store, "   \t ", 10, 0).len(), 0);
}

#[test]
fn prefix_search_is_case_insensitive_and_newest_first() {
    let store = sample_store();
    let r = search_prefix(&store, "report", 10, 0);
    // name matches: report1.pdf, Report-2024.txt and the directory named
    // "reports"; ordered by most-recently-indexed first
    assert_eq!(r.len(), 3);
    assert_eq!(r[0].name, "Report-2024.txt");
    assert_eq!(r[1].name, "reports");
    assert_eq!(r[2].name, "report1.pdf");
    let upper = search_prefix(&store, "REPORT", 10, 0);
    assert_eq!(upper.len(), 3);
}

#[test]
fn prefix_search_matches_paths_too() {
    let store = sample_store();
    let r = search_prefix(&store, "/reports", 10, 0);
    assert_eq!(r.len(), 1);
    assert_eq!(r[0].name, "reports");
    assert!(r[0].is_dir);
}

#[test]
fn prefix_search_pages_with_limit_and_offset() {
    let store = sample_store();
    let page1 = search_prefix(&store, "report", 1, 0);
    assert_eq!(page1.len(), 1);
    assert_eq!(page1[0].name, "Report-2024.txt");
    let page2 = search_prefix(&store, "report", 1, 1);
    assert_eq!(page2.len(), 1);
    assert_eq!(page2[0].name, "reports");
    let tail = search_prefix(&store, "report", 5, 2);
    assert_eq!(tail.len(), 1);
    assert_eq!(tail[0].name, "report1.pdf");
    let beyond = search_prefix(&store, "report", 5, 3);
    assert_eq!(beyond.len(), 0);
}

#[test]
fn leading_whitespace_in_the_query_is_trimmed() {
    let store = sample_store();
    let r = search_prefix(&store, "  report  ", 10, 0);
    assert_eq!(r.len(), 3);
}

#[test]
fn watcher_create_then_delete_round_trip() {
    // A create event for /root/new.pdf makes the entry visible with its
    // type; the following delete event removes it (and its shadow row).
    let mut store = IndexStore::new();
    let create = WatchEvent::Create {
        items: vec![CreateObs {
            raw_path: "/root/new.pdf".to_string(),
            canonical: Some("/root/new.pdf".to_string()),
            is_dir: false,
            size: Some(77),
        }],
    };
    let notes = handle_event(&mut store, &create, 500);
    assert_eq!(notes.len(), 1);
    assert_eq!(notes[0].kind, "create");
    assert_eq!(notes[0].path, "/root/new.pdf");
    assert_eq!(notes[0].ts, 500);
    let e = store.lookup(&"/root/new.pdf".to_string()).unwrap();
    assert_eq!(e.doc_type, "PDF");
    assert_eq!(e.size, Some(77));
    let remove = WatchEvent::Remove { paths: vec!["/root/new.pdf".to_string()] };
    let notes = handle_event(&mut store, &remove, 501);
    assert_eq!(notes.len(), 1);
    assert_eq!(notes[0].kind, "delete");
    assert!(!store.contains(&"/root/new.pdf".to_string()));
    assert!(!store.shadow_contains(&"/root/new.pdf".to_string()));
}

#[test]
fn watcher_create_falls_back_to_the_raw_path() {
    let mut store = IndexStore::new();
    let create = WatchEvent::Create {
        items: vec![CreateObs {
            raw_path: "/root/vanished.txt".to_string(),
            canonical: None,
            is_dir: false,
            size: None,
        }],
    };
    handle_event(&mut store, &create, 9);
    let e = store.lookup(&"/root/vanished.txt".to_string()).unwrap();
    assert_eq!(e.doc_type, "TEXT");
    assert_eq!(e.size, None);
}

#[test]
fn watcher_paired_rename_updates_the_row_in_place() {
    let mut store = IndexStore::new();
    store.upsert(entry("/r/a.pdf", "a.pdf", FileType::File, "PDF", Some(4), 40, "/"));
    let ev = WatchEvent::RenameBoth {
        old_path: "/r/a.pdf".to_string(),
        new_path: "/r/b.pdf".to_string(),
    };
    let notes = handle_event(&mut store, &ev, 41);
    assert_eq!(notes.len(), 1);
    assert_eq!(notes[0].kind, "move");
    assert_eq!(notes[0].path, "/r/a.pdf -> /r/b.pdf");
    let e = store.lookup(&"/r/b.pdf".to_string()).unwrap();
    assert_eq!(e.name, "b.pdf");
    assert_eq!(e.doc_type, "PDF");
    assert_eq!(e.indexed_at, 40);
    assert!(!store.contains(&"/r/a.pdf".to_string()));
}

#[test]
fn watcher_rename_into_an_occupied_path_leaves_the_store_unchanged() {
    let mut store = IndexStore::new();
    store.upsert(entry("/r/a", "a", FileType::File, "unknown", None, 1, "/"));
    store.upsert(entry("/r/b", "b", FileType::File, "unknown", None, 2, "/"));
    let (note, outcome) = watch_rename(&mut store, &"/r/a".to_string(), &"/r/b".to_string(), 3);
    assert_eq!(note.kind, "move");
    assert!(outcome.is_err());
    assert_eq!(store.len(), 2);
    assert!(store.contains(&"/r/a".to_string()));
}

#[test]
fn other_watcher_events_are_ignored() {
    let mut store = IndexStore::new();
    let notes = handle_event(&mut store, &WatchEvent::Other, 1);
    assert_eq!(notes.len(), 0);
    assert_eq!(store.len(), 0);
}

#[test]
fn tag_search_joins_against_the_index() {
    let store = sample_store();
    let mut tags = TagStore::new();
    tags.tag_path(&"/r/report1.pdf".to_string(), &"work".to_string(), None, 10);
    tags.tag_path(&"/elsewhere/orphan.txt".to_string(), &"work".to_string(), None, 20);
    tags.tag_path(&"/r/other.txt".to_string(), &"play".to_string(), None, 30);
    let r = search_files_by_tag(&store, &tags, "work", 10, 0);
    assert_eq!(r.len(), 2);
    // newest tag first: the orphan (created_at 20) precedes report1 (10)
    assert_eq!(r[0].path, "/elsewhere/orphan.txt");
    assert_eq!(r[0].name, "orphan.txt");
    assert_eq!(r[0].modified, None);
    assert_eq!(r[1].path, "/r/report1.pdf");
    assert_eq!(r[1].modified, Some(100));
    assert_eq!(search_files_by_tag(&store, &tags, "nothing", 10, 0).len(), 0);
}

#[test]
fn per_drive_counts_are_exact_and_ordered() {
    let mut store = IndexStore::new();
    store.upsert(entry("/a", "a", FileType::File, "TEXT", None, 1, "/"));
    store.upsert(entry("/b", "b", FileType::File, "TEXT", None, 2, "/"));
    store.upsert(entry("/c", "c", FileType::File, "TEXT", None, 3, "/"));
    store.upsert(entry("C:\\x", "x", FileType::File, "TEXT", None, 4, "C:\\"));
    let r = get_files_per_drive(&store, None);
    assert_eq!(r, vec![("/".to_string(), 3), ("C:\\".to_string(), 1)]);
    let limited = get_files_per_drive(&store, Some(1));
    assert_eq!(limited, vec![("/".to_string(), 3)]);
}

#[test]
fn per_drive_and_type_counts_split_files_and_directories() {
    let mut store = IndexStore::new();
    store.upsert(entry("/a", "a", FileType::File, "TEXT", None, 1, "/"));
    store.upsert(entry("/d", "d", FileType::Dir, "dir", None, 2, "/"));
    store.upsert(entry("/e", "e", FileType::File, "PDF", None, 3, "/"));
    let r = get_indexing_by_drive_and_type(&store, None);
    assert_eq!(r.len(), 2);
    assert_eq!(r[0], ("/".to_string(), "file".to_string(), 2));
    assert_eq!(r[1], ("/".to_string(), "dir".to_string(), 1));
}

#[test]
fn category_counts_fold_doc_types() {
    let mut store = IndexStore::new();
    store.upsert(entry("/a", "a", FileType::File, "PDF", None, 1, "/"));
    store.upsert(entry("/b", "b", FileType::File, "PDF", None, 2, "/"));
    store.upsert(entry("/d", "d", FileType::Dir, "dir", None, 3, "/"));
    store.upsert(entry("/t", "t", FileType::File, "TEXT", None, 4, "/"));
    let r = get_indexing_by_category_global(&store);
    assert_eq!(r[0], ("PDF".to_string(), 2));
    assert!(r.contains(&("Dir".to_string(), 1)));
    assert!(r.contains(&("Other".to_string(), 1)));
    assert_eq!(r.len(), 3);
}

#[test]
fn the_drive_list_appends_the_home_directory_once() {
    let disks = vec![DiskObs {
        mount_point: "/".to_string(),
        file_system: "ext4".to_string(),
        total_bytes: 1000,
        available_bytes: 400,
    }];
    let home = "/home/u".to_string();
    let r = build_drive_list(&disks, Some(&home), Some(77));
    assert_eq!(r.len(), 2);
    assert_eq!(r[0].mount_point, "/");
    assert_eq!(r[0].total_bytes, 1000);
    assert_eq!(r[0].last_scan_epoch, Some(77));
    assert_eq!(r[1].mount_point, "/home/u");
    assert_eq!(r[1].id, "home:/home/u");
    assert_eq!(r[1].last_scan_epoch, None);

    let disks2 = vec![DiskObs {
        mount_point: "/home/u".to_string(),
        file_system: "ext4".to_string(),
        total_bytes: 5,
        available_bytes: 1,
    }];
    let r2 = build_drive_list(&disks2, Some(&home), None);
    assert_eq!(r2.len(), 1);
}

#[test]
fn browse_listing_puts_directories_first_then_names_case_insensitively() {
    let fe = |name: &str, is_dir: bool| vaultguard::search::FileEntry {
        name: name.to_string(),
        is_dir,
        size: None,
        modified: None,
        path: format!("/r/{}", name),
    };
    let sorted = sort_file_entries(vec![
        fe("zeta.txt", false),
        fe("Alpha", true),
        fe("beta.txt", false),
        fe("gamma", true),
    ]);
    let names: Vec<&str> = sorted.iter().map(|e| e.name.as_str()).collect();
    assert_eq!(names, vec!["Alpha", "gamma", "beta.txt", "zeta.txt"]);
}

#[test]
fn recent_items_come_newest_first_and_respect_the_limit() {
    let it = |name: &str, modified: Option<&str>| FsItem {
        name: name.to_string(),
        is_dir: false,
        size: Some(1),
        modified: modified.map(|m| m.to_string()),
        path: format!("/r/{}", name),
    };
    let ordered = order_recent_items(
        vec![
            it("old", Some("2023-01-01 10:00")),
            it("new", Some("2024-06-01 09:30")),
            it("unknown", None),
            it("mid", Some("2023-12-31 23:59")),
        ],
        3,
    );
    let names: Vec<&str> = ordered.iter().map(|e| e.name.as_str()).collect();
    assert_eq!(names, vec!["new", "mid", "old"]);
}
