use vaultguard::crawler::{
    build_index_entry, crawl, record_entry_outcome, should_descend, DirListing, EntryMeta,
    FsSnapshot,
};
use vaultguard::jobs::{IndexJobState, JobRegistry};
use vaultguard::search::search_prefix;
use vaultguard::store::{FileType, IndexStore};

fn meta(path: &str, name: &str, is_dir: bool, size: u64) -> EntryMeta {
    EntryMeta { path: path.to_string(), name: name.to_string(), is_dir, size }
}

fn running_processed(st: &IndexJobState) -> Option<usize> {
    match st {
        IndexJobState::Running { processed, .. } => Some(*processed),
        _ => None,
    }
}

#[test]
fn crawl_indexes_the_root_and_prunes_excluded_subtrees() {
    // A root with a text file and a node_modules subtree: after the crawl
    // the file is indexed with its type, the excluded subtree's contents
    // are absent, and a prefix search finds the file.
    let snapshot = FsSnapshot {
        dirs: vec![
            DirListing {
                path: "/root".to_string(),
                entries: vec![
                    meta("/root/a.txt", "a.txt", false, 10),
                    meta("/root/node_modules", "node_modules", true, 0),
                ],
            },
            DirListing {
                path: "/root/node_modules".to_string(),
                entries: vec![meta("/root/node_modules/x.js", "x.js", false, 5)],
            },
        ],
    };
    let roots = vec!["/root".to_string()];
    let mut store = IndexStore::new();
    let mut reg = JobRegistry::new();
    let id = reg.start();
    let processed = crawl(&mut reg, id, snapshot, &roots, &mut store, 1_000);
    assert_eq!(processed, 2);
    let a = store.lookup(&"/root/a.txt".to_string()).unwrap();
    assert_eq!(a.doc_type, "TEXT");
    assert_eq!(a.size, Some(10));
    assert_eq!(a.indexed_at, 1_000);
    assert!(store.contains(&"/root/node_modules".to_string()));
    assert!(!store.contains(&"/root/node_modules/x.js".to_string()));
    match reg.status(id).unwrap() {
        IndexJobState::Finished { processed } => assert_eq!(processed, 2),
        _ => panic!("job did not finish"),
    }
    let found = search_prefix(&store, "a", 10, 0);
    assert_eq!(found.len(), 1);
    assert_eq!(found[0].name, "a.txt");
}

#[test]
fn crawl_descends_into_ordinary_subdirectories() {
    let snapshot = FsSnapshot {
        dirs: vec![
            DirListing {
                path: "/r".to_string(),
                entries: vec![meta("/r/sub", "sub", true, 0)],
            },
            DirListing {
                path: "/r/sub".to_string(),
                entries: vec![meta("/r/sub/deep.pdf", "deep.pdf", false, 9)],
            },
        ],
    };
    let mut store = IndexStore::new();
    let mut reg = JobRegistry::new();
    let id = reg.start();
    let processed = crawl(&mut reg, id, snapshot, &vec!["/r".to_string()], &mut store, 7);
    assert_eq!(processed, 2);
    let deep = store.lookup(&"/r/sub/deep.pdf".to_string()).unwrap();
    assert_eq!(deep.doc_type, "PDF");
    assert_eq!(deep.file_type, FileType::File);
}

#[test]
fn an_unreadable_directory_is_skipped_without_failing_the_crawl() {
    // The subdirectory has no listing in the snapshot: it is indexed as an
    // entry but never expanded, and the crawl still finishes.
    let snapshot = FsSnapshot {
        dirs: vec![DirListing {
            path: "/r".to_string(),
            entries: vec![meta("/r/locked", "locked", true, 0)],
        }],
    };
    let mut store = IndexStore::new();
    let mut reg = JobRegistry::new();
    let id = reg.start();
    let processed = crawl(&mut reg, id, snapshot, &vec!["/r".to_string()], &mut store, 1);
    assert_eq!(processed, 1);
    assert!(store.contains(&"/r/locked".to_string()));
    assert!(matches!(reg.status(id), Some(IndexJobState::Finished { .. })));
}

#[test]
fn re_crawling_does_not_duplicate_rows() {
    let mk = || FsSnapshot {
        dirs: vec![DirListing {
            path: "/r".to_string(),
            entries: vec![meta("/r/a.txt", "a.txt", false, 1)],
        }],
    };
    let mut store = IndexStore::new();
    let mut reg = JobRegistry::new();
    let id1 = reg.start();
    crawl(&mut reg, id1, mk(), &vec!["/r".to_string()], &mut store, 10);
    let id2 = reg.start();
    crawl(&mut reg, id2, mk(), &vec!["/r".to_string()], &mut store, 20);
    assert_eq!(store.len(), 1);
    assert_eq!(store.lookup(&"/r/a.txt".to_string()).unwrap().indexed_at, 20);
}

#[test]
fn job_progress_is_monotone_and_finishing_is_terminal() {
    let mut reg = JobRegistry::new();
    let id = reg.start();
    assert_eq!(running_processed(&reg.status(id).unwrap()), Some(0));
    reg.update_running(id, 5, Some("/r/one".to_string()));
    assert_eq!(running_processed(&reg.status(id).unwrap()), Some(5));
    reg.update_running(id, 5, Some("/r/two".to_string()));
    reg.update_running(id, 9, None);
    assert_eq!(running_processed(&reg.status(id).unwrap()), Some(9));
    reg.finish(id, 12);
    match reg.status(id).unwrap() {
        IndexJobState::Finished { processed } => assert_eq!(processed, 12),
        _ => panic!("expected a finished job"),
    }
}

#[test]
fn polling_an_unknown_job_yields_none() {
    let reg = JobRegistry::new();
    assert!(reg.status(42).is_none());
}

#[test]
fn jobs_are_tracked_independently() {
    let mut reg = JobRegistry::new();
    let a = reg.start();
    let b = reg.start();
    assert_ne!(a, b);
    reg.update_running(a, 3, None);
    assert_eq!(running_processed(&reg.status(b).unwrap()), Some(0));
    reg.fail(b, "worker db open failed".to_string());
    assert_eq!(running_processed(&reg.status(a).unwrap()), Some(3));
}

#[test]
fn a_storage_failure_on_the_fiftieth_upsert_fails_the_job_at_forty_nine() {
    // The crawl worker reports each store write's outcome; the fiftieth
    // write hits a fatal storage error and the job ends Failed with the
    // counter reflecting exactly the 49 upserts recorded before the failure.
    let mut reg = JobRegistry::new();
    let id = reg.start();
    for done in 1..=49usize {
        let path = format!("/r/file{}", done);
        let cont = record_entry_outcome(&mut reg, id, path, Ok(()));
        assert!(cont);
        assert_eq!(running_processed(&reg.status(id).unwrap()), Some(done));
    }
    assert_eq!(running_processed(&reg.status(id).unwrap()), Some(49));
    let cont = record_entry_outcome(
        &mut reg,
        id,
        "/r/file50".to_string(),
        Err("db insert failed at /r/file50: disk I/O error".to_string()),
    );
    assert!(!cont);
    match reg.status(id).unwrap() {
        IndexJobState::Failed { message } => {
            assert_eq!(message, "db insert failed at /r/file50: disk I/O error");
        },
        _ => panic!("expected a failed job"),
    }
}

#[test]
fn build_index_entry_normalizes_and_classifies() {
    let e = build_index_entry(
        &"\\\\?\\C:\\docs\\Report.PDF".to_string(),
        &"Report.PDF".to_string(),
        false,
        123,
        99,
    );
    assert_eq!(e.path, "C:\\docs\\Report.PDF");
    assert_eq!(e.name, "Report.PDF");
    assert_eq!(e.doc_type, "PDF");
    assert_eq!(e.drive, "C:\\");
    assert_eq!(e.size, Some(123));
    assert_eq!(e.indexed_at, 99);
    assert_eq!(e.file_type, FileType::File);
}

#[test]
fn descent_is_pruned_exactly_by_the_exclusion_filter() {
    assert!(should_descend("/r/docs", true));
    assert!(!should_descend("/r/docs/a.txt", false));
    assert!(!should_descend("/r/node_modules", true));
}
