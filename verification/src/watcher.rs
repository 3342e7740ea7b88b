//! Translation of live filesystem watcher events into index mutations.
//!
//! The supervised watch loop itself (registering OS watches, blocking on the
//! event channel, sleeping and restarting after a failure) is outside work;
//! it hands each event here as plain values. Remove events delete the row
//! under the normalized path; create events mirror the crawler's per-entry
//! logic for a single path, falling back to the raw path when the file had
//! already vanished by handling time; a rename delivered as one paired event
//! updates the row in place. Every handled event yields change notes
//! `{kind, path, timestamp}` for the subscribers the caller notifies;
//! delivering them is a side effect of the caller and never an error here.

use vstd::prelude::*;
use crate::doc_type::spec_doc_type;
use crate::paths::{base_name, normalize, spec_base_name, spec_drive, spec_normalize};
use crate::store::{
    contains_path, entry_for, lemma_delete_effect, lemma_upsert_effect, spec_delete,
    FileIndexEntry, FileType, IndexStore, StoreError,
};

verus! {

/// What the watch loop observed about a created path: the raw event path,
/// the canonical form when the path could still be resolved, and the stat
/// results.
pub struct CreateObs {
    pub raw_path: String,
    /// `None` when the path had vanished again before it could be resolved;
    /// the raw path is used instead of being dropped.
    pub canonical: Option<String>,
    pub is_dir: bool,
    /// Byte size for files whose metadata could be read.
    pub size: Option<u64>,
}

/// One filesystem change event, as delivered by the OS notification stream.
/// A rename is only reconciled when the notification carries both paths in
/// one paired event; all other event kinds are ignored.
pub enum WatchEvent {
    Remove { paths: Vec<String> },
    Create { items: Vec<CreateObs> },
    RenameBoth { old_path: String, new_path: String },
    Other,
}

/// A change notification for external subscribers.
pub struct ChangeNote {
    pub kind: String,
    pub path: String,
    pub ts: i64,
}

/// The normalized path a create observation is indexed under.
pub open spec fn obs_norm(obs: CreateObs) -> Seq<char> {
    match obs.canonical {
        Some(c) => spec_normalize(c@),
        None => spec_normalize(obs.raw_path@),
    }
}

/// The index row `e` is what handling create observation `obs` at `now`
/// produces.
pub open spec fn created_from(e: FileIndexEntry, obs: CreateObs, now: i64) -> bool {
    &&& e.path@ == obs_norm(obs)
    &&& e.name@ == spec_base_name(obs_norm(obs))
    &&& e.file_type == (if obs.is_dir {
        FileType::Dir
    } else {
        FileType::File
    })
    &&& e.doc_type@ == spec_doc_type(obs_norm(obs), obs.is_dir)
    &&& e.size == (if obs.is_dir {
        Option::<i64>::None
    } else {
        match obs.size {
            Some(s) => Option::<i64>::Some(s as i64),
            None => Option::<i64>::None,
        }
    })
    &&& e.indexed_at == now
    &&& e.drive@ == spec_drive(obs_norm(obs))
}

/// `q` is the normalized path of one of the observations.
pub open spec fn some_obs_norm(items: Seq<CreateObs>, q: Seq<char>) -> bool {
    exists|i: int| 0 <= i < items.len() && obs_norm(#[trigger] items[i]) == q
}

/// `q` is the normalized spelling of one of the removed paths.
pub open spec fn some_removed(paths: Seq<String>, q: Seq<char>) -> bool {
    exists|i: int| 0 <= i < paths.len() && spec_normalize((#[trigger] paths[i])@) == q
}

/// Observation `i` is the last one for its path.
pub open spec fn last_obs_for_path(items: Seq<CreateObs>, i: int) -> bool {
    forall|j: int| i < j < items.len() ==> obs_norm(#[trigger] items[j]) != obs_norm(items[i])
}

/// Handles a remove event for one path: the row under the normalized path
/// (and its shadow row) is deleted, and a `delete` note is produced.
pub fn watch_remove(store: &mut IndexStore, path: &String, now: i64) -> (note: ChangeNote)
    requires
        old(store).wf(),
    ensures
        final(store).wf(),
        final(store)@ == spec_delete(old(store)@, spec_normalize(path@)),
        !contains_path(final(store)@, spec_normalize(path@)),
        note.kind@ == "delete"@,
        note.path@ == spec_normalize(path@),
        note.ts == now,
{
    proof {
        lemma_delete_effect(old(store)@, spec_normalize(path@));
    }
    let path_str = normalize(path);
    store.delete(&path_str);
    ChangeNote { kind: "delete".to_owned(), path: path_str, ts: now }
}

/// Handles a create event for one observation: the path is normalized (the
/// canonical form when available, the raw one otherwise), classified, and
/// upserted with the same row the crawler would build; a `create` note is
/// produced.
pub fn watch_create(store: &mut IndexStore, obs: &CreateObs, now: i64) -> (note: ChangeNote)
    requires
        old(store).wf(),
    ensures
        final(store).wf(),
        contains_path(final(store)@, obs_norm(*obs)),
        created_from(entry_for(final(store)@, obs_norm(*obs)), *obs, now),
        final(store)@.len() == if contains_path(old(store)@, obs_norm(*obs)) {
            old(store)@.len()
        } else {
            old(store)@.len() + 1
        },
        forall|q: Seq<char>|
            q != obs_norm(*obs) ==> (#[trigger] contains_path(final(store)@, q) <==> contains_path(
                old(store)@,
                q,
            )),
        forall|q: Seq<char>|
            q != obs_norm(*obs) && contains_path(old(store)@, q) ==> #[trigger] entry_for(
                final(store)@,
                q,
            ) == entry_for(old(store)@, q),
        note.kind@ == "create"@,
        note.path@ == obs_norm(*obs),
        note.ts == now,
{
    let effective = match &obs.canonical {
        Some(c) => c.clone(),
        None => obs.raw_path.clone(),
    };
    let path_str = normalize(&effective);
    let name = base_name(path_str.as_str());
    let doc_type = crate::doc_type::doc_type_for_path(path_str.as_str(), obs.is_dir);
    let drive = crate::paths::normalize_drive_for_storage(path_str.as_str());
    let e = FileIndexEntry {
        path: path_str.clone(),
        name,
        file_type: if obs.is_dir {
            FileType::Dir
        } else {
            FileType::File
        },
        doc_type,
        size: if obs.is_dir {
            None
        } else {
            match obs.size {
                Some(s) => Some(#[verifier::truncate] (s as i64)),
                None => None,
            }
        },
        indexed_at: now,
        drive,
    };
    proof {
        lemma_upsert_effect(old(store)@, e);
    }
    store.upsert(e);
    ChangeNote { kind: "create".to_owned(), path: path_str, ts: now }
}

/// Handles a paired rename event: the row under the old normalized path gets
/// the new path and its re-derived name while document type, size, timestamp
/// and drive survive; a missing source or a destination collision leaves the
/// store unchanged, exactly as the constraint-rejected update it mirrors. A
/// `move` note naming both paths is produced either way.
pub fn watch_rename(store: &mut IndexStore, old_path: &String, new_path: &String, now: i64) -> (r:
    (ChangeNote, Result<bool, StoreError>))
    requires
        old(store).wf(),
    ensures
        final(store).wf(),
        !contains_path(old(store)@, spec_normalize(old_path@)) ==> r.1 == Ok::<bool, StoreError>(
            false,
        ) && final(store)@ == old(store)@,
        contains_path(old(store)@, spec_normalize(old_path@)) && spec_normalize(new_path@)
            != spec_normalize(old_path@) && contains_path(old(store)@, spec_normalize(new_path@))
            ==> r.1 == Err::<bool, StoreError>(StoreError::PathCollision) && final(store)@ == old(
            store,
        )@,
        contains_path(old(store)@, spec_normalize(old_path@)) && (spec_normalize(new_path@)
            == spec_normalize(old_path@) || !contains_path(
            old(store)@,
            spec_normalize(new_path@),
        )) ==> {
            let i = crate::store::index_of_path(old(store)@, spec_normalize(old_path@));
            &&& r.1 == Ok::<bool, StoreError>(true)
            &&& final(store)@.len() == old(store)@.len()
            &&& forall|j: int|
                0 <= j < old(store)@.len() && j != i ==> final(store)@[j] == old(store)@[j]
            &&& final(store)@[i].path@ == spec_normalize(new_path@)
            &&& final(store)@[i].name@ == spec_base_name(spec_normalize(new_path@))
            &&& final(store)@[i].file_type == old(store)@[i].file_type
            &&& final(store)@[i].doc_type == old(store)@[i].doc_type
            &&& final(store)@[i].size == old(store)@[i].size
            &&& final(store)@[i].indexed_at == old(store)@[i].indexed_at
            &&& final(store)@[i].drive == old(store)@[i].drive
        },
        r.0.kind@ == "move"@,
        r.0.path@ == spec_normalize(old_path@) + " -> "@ + spec_normalize(new_path@),
        r.0.ts == now,
{
    let old_norm = normalize(old_path);
    let new_norm = normalize(new_path);
    let outcome = store.rename(&old_norm, &new_norm);
    let mut label = old_norm;
    label.append(" -> ");
    label.append(new_norm.as_str());
    (ChangeNote { kind: "move".to_owned(), path: label, ts: now }, outcome)
}

/// Handles one watcher event at time `now`: deletes for every removed path,
/// upserts for every created one, an in-place update for a paired rename,
/// and nothing for other event kinds. Returns the change notes to deliver.
pub fn handle_event(store: &mut IndexStore, event: &WatchEvent, now: i64) -> (notes: Vec<
    ChangeNote,
>)
    requires
        old(store).wf(),
    ensures
        final(store).wf(),
        match event {
            WatchEvent::Remove { paths } => {
                &&& notes@.len() == paths@.len()
                &&& forall|i: int|
                    0 <= i < notes@.len() ==> (#[trigger] notes@[i]).kind@ == "delete"@
                        && notes@[i].path@ == spec_normalize(paths@[i]@) && notes@[i].ts == now
                &&& forall|i: int|
                    0 <= i < paths@.len() ==> !contains_path(
                        final(store)@,
                        spec_normalize((#[trigger] paths@[i])@),
                    )
                &&& forall|q: Seq<char>|
                    !some_removed(paths@, q) ==> (#[trigger] contains_path(final(store)@, q)
                        <==> contains_path(old(store)@, q))
                &&& forall|q: Seq<char>|
                    !some_removed(paths@, q) && contains_path(old(store)@, q) ==> #[trigger]
                    entry_for(final(store)@, q) == entry_for(old(store)@, q)
            },
            WatchEvent::Create { items } => {
                &&& notes@.len() == items@.len()
                &&& forall|i: int|
                    0 <= i < notes@.len() ==> (#[trigger] notes@[i]).kind@ == "create"@
                        && notes@[i].path@ == obs_norm(items@[i]) && notes@[i].ts == now
                &&& forall|i: int|
                    0 <= i < items@.len() ==> contains_path(
                        final(store)@,
                        obs_norm(#[trigger] items@[i]),
                    )
                &&& forall|i: int|
                    0 <= i < items@.len() && last_obs_for_path(items@, i) ==> created_from(
                        entry_for(final(store)@, obs_norm(#[trigger] items@[i])),
                        items@[i],
                        now,
                    )
                &&& forall|q: Seq<char>|
                    !some_obs_norm(items@, q) ==> (#[trigger] contains_path(final(store)@, q)
                        <==> contains_path(old(store)@, q))
                &&& forall|q: Seq<char>|
                    !some_obs_norm(items@, q) && contains_path(old(store)@, q) ==> #[trigger]
                    entry_for(final(store)@, q) == entry_for(old(store)@, q)
            },
            WatchEvent::RenameBoth { old_path, new_path } => {
                let o = spec_normalize(old_path@);
                let n = spec_normalize(new_path@);
                &&& notes@.len() == 1
                &&& notes@[0].kind@ == "move"@
                &&& notes@[0].path@ == o + " -> "@ + n
                &&& notes@[0].ts == now
                &&& (!contains_path(old(store)@, o) ==> final(store)@ == old(store)@)
                &&& (contains_path(old(store)@, o) && n != o && contains_path(old(store)@, n)
                    ==> final(store)@ == old(store)@)
                &&& (contains_path(old(store)@, o) && (n == o || !contains_path(old(store)@, n))
                    ==> {
                    let i = crate::store::index_of_path(old(store)@, o);
                    &&& final(store)@.len() == old(store)@.len()
                    &&& forall|j: int|
                        0 <= j < old(store)@.len() && j != i ==> final(store)@[j] == old(
                            store,
                        )@[j]
                    &&& final(store)@[i].path@ == n
                    &&& final(store)@[i].name@ == spec_base_name(n)
                    &&& final(store)@[i].file_type == old(store)@[i].file_type
                    &&& final(store)@[i].doc_type == old(store)@[i].doc_type
                    &&& final(store)@[i].size == old(store)@[i].size
                    &&& final(store)@[i].indexed_at == old(store)@[i].indexed_at
                    &&& final(store)@[i].drive == old(store)@[i].drive
                })
            },
            WatchEvent::Other => {
                &&& notes@.len() == 0
                &&& final(store)@ == old(store)@
            },
        },
{
    let mut notes: Vec<ChangeNote> = Vec::new();
    match event {
        WatchEvent::Remove { paths } => {
            let mut i: usize = 0;
            while i < paths.len()
                invariant
                    i <= paths@.len(),
                    store.wf(),
                    notes@.len() == i,
                    forall|j: int|
                        0 <= j < i ==> (#[trigger] notes@[j]).kind@ == "delete"@ && notes@[j].path@
                            == spec_normalize(paths@[j]@) && notes@[j].ts == now,
                    forall|j: int|
                        0 <= j < i ==> !contains_path(
                            store@,
                            spec_normalize((#[trigger] paths@[j])@),
                        ),
                    forall|q: Seq<char>|
                        !some_removed(paths@, q) ==> (#[trigger] contains_path(store@, q)
                            <==> contains_path(old(store)@, q)),
                    forall|q: Seq<char>|
                        !some_removed(paths@, q) && contains_path(old(store)@, q) ==> #[trigger]
                        entry_for(store@, q) == entry_for(old(store)@, q),
                decreases paths@.len() - i,
            {
                let ghost s_pre = store@;
                proof {
                    lemma_delete_effect(s_pre, spec_normalize(paths@[i as int]@));
                }
                let note = watch_remove(store, &paths[i], now);
                notes.push(note);
                proof {
                    assert(some_removed(paths@, spec_normalize(paths@[i as int]@)));
                    assert forall|j: int| 0 <= j < i + 1 implies !contains_path(
                        store@,
                        spec_normalize((#[trigger] paths@[j])@),
                    ) by {
                        if j < i {
                            assert(!contains_path(s_pre, spec_normalize(paths@[j]@)));
                        }
                    };
                };
                i = i + 1;
            }
        },
        WatchEvent::Create { items } => {
            let mut i: usize = 0;
            while i < items.len()
                invariant
                    i <= items@.len(),
                    store.wf(),
                    notes@.len() == i,
                    forall|j: int|
                        0 <= j < i ==> (#[trigger] notes@[j]).kind@ == "create"@ && notes@[j].path@
                            == obs_norm(items@[j]) && notes@[j].ts == now,
                    forall|j: int|
                        0 <= j < i ==> contains_path(store@, obs_norm(#[trigger] items@[j])),
                    forall|j: int|
                        0 <= j < i && (forall|j2: int|
                            j < j2 < i ==> obs_norm(#[trigger] items@[j2]) != obs_norm(items@[j]))
                            ==> created_from(
                            entry_for(store@, obs_norm(#[trigger] items@[j])),
                            items@[j],
                            now,
                        ),
                    forall|q: Seq<char>|
                        !some_obs_norm(items@, q) ==> (#[trigger] contains_path(store@, q)
                            <==> contains_path(old(store)@, q)),
                    forall|q: Seq<char>|
                        !some_obs_norm(items@, q) && contains_path(old(store)@, q) ==> #[trigger]
                        entry_for(store@, q) == entry_for(old(store)@, q),
                decreases items@.len() - i,
            {
                let ghost s_pre = store@;
                let note = watch_create(store, &items[i], now);
                notes.push(note);
                proof {
                    assert(some_obs_norm(items@, obs_norm(items@[i as int])));
                    assert forall|j: int| 0 <= j < i + 1 implies contains_path(
                        store@,
                        obs_norm(#[trigger] items@[j]),
                    ) by {
                        if j < i {
                            assert(contains_path(s_pre, obs_norm(items@[j])));
                        }
                    };
                    assert forall|j: int|
                        0 <= j < i + 1 && (forall|j2: int|
                            j < j2 < i + 1 ==> obs_norm(#[trigger] items@[j2]) != obs_norm(
                                items@[j],
                            )) implies created_from(
                        entry_for(store@, obs_norm(#[trigger] items@[j])),
                        items@[j],
                        now,
                    ) by {
                        if j < i {
                            assert(obs_norm(items@[i as int]) != obs_norm(items@[j]));
                            assert(created_from(entry_for(s_pre, obs_norm(items@[j])), items@[j], now));
                            assert(entry_for(store@, obs_norm(items@[j])) == entry_for(
                                s_pre,
                                obs_norm(items@[j]),
                            ));
                        }
                    };
                };
                i = i + 1;
            }
            proof {
                assert forall|j: int|
                    0 <= j < items@.len() && last_obs_for_path(items@, j) implies created_from(
                    entry_for(store@, obs_norm(#[trigger] items@[j])),
                    items@[j],
                    now,
                ) by {};
            }
        },
        WatchEvent::RenameBoth { old_path, new_path } => {
            let (note, _outcome) = watch_rename(store, old_path, new_path, now);
            notes.push(note);
        },
        WatchEvent::Other => {},
    }
    notes
}

} // verus!
