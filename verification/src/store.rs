//! The index store: a structured table of file metadata keyed by canonical
//! path, together with a denormalized full-text shadow index over `name` and
//! `path`.
//!
//! Invariants (see [`IndexStore::wf`]): exactly one row per canonical path —
//! re-observing a path is an upsert, never a duplicate row — and the shadow
//! index is a strict 1:1 row-id-keyed projection of the structured rows:
//! every structural mutation pairs its write with the matching shadow write.

use vstd::prelude::*;
use crate::paths::spec_base_name;

verus! {

#[derive(Clone, Copy, PartialEq, Eq, Structural, Debug)]
pub enum FileType {
    File,
    Dir,
}

/// One row of the structured index.
pub struct FileIndexEntry {
    /// Canonical, platform-normalized path; the unique key.
    pub path: String,
    /// Base name, stored as an explicit column.
    pub name: String,
    pub file_type: FileType,
    /// Coarse category label, see [`crate::doc_type`].
    pub doc_type: String,
    /// Byte count; absent for directories.
    pub size: Option<i64>,
    /// Timestamp of the last successful observation.
    pub indexed_at: i64,
    /// Normalized volume/mount identifier.
    pub drive: String,
}

impl FileIndexEntry {
    /// A structural copy of the row.
    pub fn duplicate(&self) -> (r: FileIndexEntry)
        ensures
            r == *self,
    {
        FileIndexEntry {
            path: self.path.clone(),
            name: self.name.clone(),
            file_type: self.file_type,
            doc_type: self.doc_type.clone(),
            size: self.size,
            indexed_at: self.indexed_at,
            drive: self.drive.clone(),
        }
    }
}

/// One row of the full-text shadow index: the projection of `name` and
/// `path`, keyed by the structured row's id.
pub struct ShadowRow {
    pub id: u64,
    pub name: String,
    pub path: String,
}

struct IndexRow {
    id: u64,
    entry: FileIndexEntry,
}

/// The persistent structured index plus its shadow.
pub struct IndexStore {
    rows: Vec<IndexRow>,
    shadow: Vec<ShadowRow>,
    next_id: u64,
}

/// Some row of `s` holds path `p`.
pub open spec fn contains_path(s: Seq<FileIndexEntry>, p: Seq<char>) -> bool {
    exists|i: int| 0 <= i < s.len() && s[i].path@ == p
}

/// The index of the row holding path `p` (meaningful when `contains_path`).
pub open spec fn index_of_path(s: Seq<FileIndexEntry>, p: Seq<char>) -> int {
    choose|i: int| 0 <= i < s.len() && s[i].path@ == p
}

/// The row holding path `p` (meaningful when `contains_path`).
pub open spec fn entry_for(s: Seq<FileIndexEntry>, p: Seq<char>) -> FileIndexEntry {
    s[index_of_path(s, p)]
}

/// No two rows share a path.
pub open spec fn paths_unique(s: Seq<FileIndexEntry>) -> bool {
    forall|i: int, j: int| 0 <= i < j < s.len() ==> s[i].path@ != s[j].path@
}

/// How many rows hold path `p`.
pub open spec fn count_path(s: Seq<FileIndexEntry>, p: Seq<char>) -> nat
    decreases s.len(),
{
    if s.len() == 0 {
        0
    } else {
        count_path(s.drop_last(), p) + if s.last().path@ == p {
            1nat
        } else {
            0nat
        }
    }
}

/// The effect of an upsert on the table: replace the row that holds the same
/// path, or append a new row.
pub open spec fn spec_upsert(s: Seq<FileIndexEntry>, e: FileIndexEntry) -> Seq<FileIndexEntry> {
    if contains_path(s, e.path@) {
        s.update(index_of_path(s, e.path@), e)
    } else {
        s.push(e)
    }
}

/// The effect of a delete on the table: remove the row holding the path, if
/// any.
pub open spec fn spec_delete(s: Seq<FileIndexEntry>, p: Seq<char>) -> Seq<FileIndexEntry> {
    if contains_path(s, p) {
        s.remove(index_of_path(s, p))
    } else {
        s
    }
}

/// In a duplicate-free table the row index of a path is unique.
pub proof fn lemma_path_index(s: Seq<FileIndexEntry>, p: Seq<char>, i: int)
    requires
        paths_unique(s),
        0 <= i < s.len(),
        s[i].path@ == p,
    ensures
        index_of_path(s, p) == i,
        contains_path(s, p),
        entry_for(s, p) == s[i],
{
    assert(contains_path(s, p));
    let j = index_of_path(s, p);
    if j < i {
        assert(s[j].path@ != s[i].path@);
    } else if j > i {
        assert(s[i].path@ != s[j].path@);
    }
}

/// In a duplicate-free table a path occurs on exactly one row when present,
/// on none otherwise.
pub proof fn lemma_count_path_unique(s: Seq<FileIndexEntry>, p: Seq<char>)
    requires
        paths_unique(s),
    ensures
        count_path(s, p) == if contains_path(s, p) {
            1nat
        } else {
            0nat
        },
    decreases s.len(),
{
    if s.len() == 0 {
        assert(!contains_path(s, p));
    } else {
        let head = s.drop_last();
        assert(paths_unique(head)) by {
            assert(forall|i: int, j: int|
                0 <= i < j < head.len() ==> head[i] == s[i] && head[j] == s[j]);
        };
        lemma_count_path_unique(head, p);
        if s.last().path@ == p {
            assert(!contains_path(head, p)) by {
                if contains_path(head, p) {
                    let k = index_of_path(head, p);
                    assert(s[k].path@ == p);
                    assert(s[k].path@ != s[s.len() - 1].path@);
                }
            };
            assert(contains_path(s, p)) by {
                assert(s[s.len() - 1].path@ == p);
            };
        } else {
            if contains_path(head, p) {
                let k = index_of_path(head, p);
                assert(s[k].path@ == p);
                assert(contains_path(s, p));
            } else {
                assert(!contains_path(s, p)) by {
                    if contains_path(s, p) {
                        let k = index_of_path(s, p);
                        assert(k < s.len() - 1 ==> head[k].path@ == p);
                    }
                };
            }
        }
    }
}

/// An upsert keeps the table duplicate-free, makes the new row the one row
/// for its path, and leaves every other path's row untouched.
pub proof fn lemma_upsert_effect(s: Seq<FileIndexEntry>, e: FileIndexEntry)
    requires
        paths_unique(s),
    ensures
        paths_unique(spec_upsert(s, e)),
        contains_path(spec_upsert(s, e), e.path@),
        entry_for(spec_upsert(s, e), e.path@) == e,
        count_path(spec_upsert(s, e), e.path@) == 1,
        spec_upsert(s, e).len() == if contains_path(s, e.path@) {
            s.len()
        } else {
            s.len() + 1
        },
        forall|q: Seq<char>|
            q != e.path@ ==> (#[trigger] contains_path(spec_upsert(s, e), q) <==> contains_path(
                s,
                q,
            )),
        forall|q: Seq<char>|
            q != e.path@ && contains_path(s, q) ==> #[trigger] entry_for(spec_upsert(s, e), q)
                == entry_for(s, q),
{
    let s2 = spec_upsert(s, e);
    if contains_path(s, e.path@) {
        let i = index_of_path(s, e.path@);
        assert(0 <= i < s.len() && s[i].path@ == e.path@);
        assert(paths_unique(s2)) by {
            assert(forall|k: int, l: int|
                0 <= k < l < s2.len() ==> s2[k].path@ != s2[l].path@) by {
                assert forall|k: int, l: int| 0 <= k < l < s2.len() implies s2[k].path@
                    != s2[l].path@ by {
                    if k != i && l != i {
                        assert(s2[k] == s[k] && s2[l] == s[l]);
                    } else if k == i {
                        assert(s2[k].path@ == s[i].path@ && s2[l] == s[l]);
                    } else {
                        assert(s2[l].path@ == s[i].path@ && s2[k] == s[k]);
                    }
                };
            };
        };
        lemma_path_index(s2, e.path@, i);
        lemma_count_path_unique(s2, e.path@);
        assert forall|q: Seq<char>| q != e.path@ implies (#[trigger] contains_path(s2, q)
            <==> contains_path(s, q)) by {
            if contains_path(s, q) {
                let k = index_of_path(s, q);
                assert(k != i);
                assert(s2[k].path@ == q);
            }
            if contains_path(s2, q) {
                let k = index_of_path(s2, q);
                assert(k != i);
                assert(s[k].path@ == q);
            }
        };
        assert forall|q: Seq<char>| q != e.path@ && contains_path(s, q) implies #[trigger]
            entry_for(s2, q) == entry_for(s, q) by {
            let k = index_of_path(s, q);
            assert(0 <= k < s.len() && s[k].path@ == q);
            assert(k != i);
            assert(s2[k] == s[k]);
            lemma_path_index(s2, q, k);
        };
    } else {
        assert(s2 == s.push(e));
        assert(paths_unique(s2)) by {
            assert forall|k: int, l: int| 0 <= k < l < s2.len() implies s2[k].path@
                != s2[l].path@ by {
                if l == s.len() {
                    assert(s2[k] == s[k]);
                    if s[k].path@ == e.path@ {
                        assert(contains_path(s, e.path@));
                    }
                } else {
                    assert(s2[k] == s[k] && s2[l] == s[l]);
                }
            };
        };
        lemma_path_index(s2, e.path@, s.len() as int);
        lemma_count_path_unique(s2, e.path@);
        assert forall|q: Seq<char>| q != e.path@ implies (#[trigger] contains_path(s2, q)
            <==> contains_path(s, q)) by {
            if contains_path(s, q) {
                let k = index_of_path(s, q);
                assert(s2[k].path@ == q);
            }
            if contains_path(s2, q) {
                let k = index_of_path(s2, q);
                assert(k < s.len());
                assert(s[k].path@ == q);
            }
        };
        assert forall|q: Seq<char>| q != e.path@ && contains_path(s, q) implies #[trigger]
            entry_for(s2, q) == entry_for(s, q) by {
            let k = index_of_path(s, q);
            assert(0 <= k < s.len() && s[k].path@ == q);
            assert(s2[k] == s[k]);
            lemma_path_index(s2, q, k);
        };
    }
}

/// A delete keeps the table duplicate-free, removes the path entirely, and
/// leaves every other path's row untouched.
pub proof fn lemma_delete_effect(s: Seq<FileIndexEntry>, p: Seq<char>)
    requires
        paths_unique(s),
    ensures
        paths_unique(spec_delete(s, p)),
        !contains_path(spec_delete(s, p), p),
        spec_delete(s, p).len() == if contains_path(s, p) {
            s.len() - 1
        } else {
            s.len() as int
        },
        forall|q: Seq<char>|
            q != p ==> (#[trigger] contains_path(spec_delete(s, p), q) <==> contains_path(s, q)),
        forall|q: Seq<char>|
            q != p && contains_path(s, q) ==> #[trigger] entry_for(spec_delete(s, p), q)
                == entry_for(s, q),
{
    if contains_path(s, p) {
        let i = index_of_path(s, p);
        assert(0 <= i < s.len() && s[i].path@ == p);
        let s2 = s.remove(i);
        assert(spec_delete(s, p) == s2);
        assert(forall|k: int|
            0 <= k < s2.len() ==> s2[k] == (if k < i {
                s[k]
            } else {
                s[k + 1]
            }));
        assert(paths_unique(s2)) by {
            assert forall|k: int, l: int| 0 <= k < l < s2.len() implies s2[k].path@
                != s2[l].path@ by {
                let ko: int = if k < i {
                    k
                } else {
                    k + 1
                };
                let lo: int = if l < i {
                    l
                } else {
                    l + 1
                };
                assert(s2[k] == s[ko] && s2[l] == s[lo]);
                assert(ko < lo);
            };
        };
        assert(!contains_path(s2, p)) by {
            if contains_path(s2, p) {
                let k = index_of_path(s2, p);
                let ko: int = if k < i {
                    k
                } else {
                    k + 1
                };
                assert(s[ko].path@ == p);
                assert(ko != i ==> s[ko].path@ != s[i].path@);
            }
        };
        assert forall|q: Seq<char>| q != p implies (#[trigger] contains_path(s2, q)
            <==> contains_path(s, q)) by {
            if contains_path(s, q) {
                let k = index_of_path(s, q);
                assert(k != i);
                if k < i {
                    assert(s2[k].path@ == q);
                } else {
                    assert(s2[k - 1].path@ == q);
                }
            }
            if contains_path(s2, q) {
                let k = index_of_path(s2, q);
                let ko: int = if k < i {
                    k
                } else {
                    k + 1
                };
                assert(s[ko].path@ == q);
            }
        };
        assert forall|q: Seq<char>| q != p && contains_path(s, q) implies #[trigger] entry_for(
            s2,
            q,
        ) == entry_for(s, q) by {
            let k = index_of_path(s, q);
            assert(0 <= k < s.len() && s[k].path@ == q);
            assert(k != i);
            if k < i {
                assert(s2[k] == s[k]);
                lemma_path_index(s2, q, k);
            } else {
                assert(s2[k - 1] == s[k]);
                lemma_path_index(s2, q, k - 1);
            }
        };
    }
}

/// Law: indexing the same path twice — with the same or changed metadata —
/// yields exactly one row for that path, holding the metadata of the later
/// observation.
pub proof fn lemma_index_twice_single_row(
    s: Seq<FileIndexEntry>,
    e1: FileIndexEntry,
    e2: FileIndexEntry,
)
    requires
        paths_unique(s),
        e1.path@ == e2.path@,
    ensures
        count_path(spec_upsert(spec_upsert(s, e1), e2), e2.path@) == 1,
        entry_for(spec_upsert(spec_upsert(s, e1), e2), e2.path@) == e2,
        spec_upsert(spec_upsert(s, e1), e2).len() == spec_upsert(s, e1).len(),
{
    lemma_upsert_effect(s, e1);
    let s1 = spec_upsert(s, e1);
    lemma_upsert_effect(s1, e2);
    assert(contains_path(s1, e2.path@));
}

pub enum StoreError {
    /// A rename's destination path is already present: the unique-path
    /// constraint rejects the update.
    PathCollision,
}

impl StoreError {
    /// A human-readable description of the error.
    pub fn message(&self) -> (r: String)
        ensures
            r@ == "destination path already indexed"@,
    {
        "destination path already indexed".to_owned()
    }
}

impl IndexStore {
    /// The structured table, as the sequence of its rows.
    pub closed spec fn view(&self) -> Seq<FileIndexEntry> {
        self.rows@.map_values(|r: IndexRow| r.entry)
    }

    /// The shadow index, as the sequence of its rows.
    pub closed spec fn shadow_rows(&self) -> Seq<ShadowRow> {
        self.shadow@
    }

    /// The id column of the structured table.
    pub closed spec fn row_ids(&self) -> Seq<u64> {
        self.rows@.map_values(|r: IndexRow| r.id)
    }

    /// Well-formedness: unique paths, and the shadow index a strict 1:1
    /// projection of the structured rows, keyed by row id.
    pub open spec fn wf(&self) -> bool {
        &&& paths_unique(self.view())
        &&& self.shadow_rows().len() == self.view().len()
        &&& forall|i: int|
            0 <= i < self.view().len() ==> {
                &&& (#[trigger] self.shadow_rows()[i]).id == self.row_ids()[i]
                &&& self.shadow_rows()[i].name@ == self.view()[i].name@
                &&& self.shadow_rows()[i].path@ == self.view()[i].path@
            }
    }

    /// The shadow index mirrors the structured table row by row.
    pub proof fn lemma_shadow_congruent(&self)
        requires
            self.wf(),
        ensures
            self.shadow_rows().len() == self.view().len(),
            forall|i: int|
                0 <= i < self.view().len() ==> {
                    &&& (#[trigger] self.shadow_rows()[i]).name@ == self.view()[i].name@
                    &&& self.shadow_rows()[i].path@ == self.view()[i].path@
                },
    {
    }

    /// Law: a path absent from the structured table has no shadow row either
    /// — deletes propagate to the shadow index.
    pub proof fn lemma_no_row_no_shadow(&self, p: Seq<char>)
        requires
            self.wf(),
            !contains_path(self.view(), p),
        ensures
            forall|i: int| 0 <= i < self.shadow_rows().len() ==> (#[trigger] self.shadow_rows()[i]).path@ != p,
    {
        assert forall|i: int| 0 <= i < self.shadow_rows().len() implies (#[trigger] self
            .shadow_rows()[i]).path@ != p by {
            if self.shadow_rows()[i].path@ == p {
                assert(self.view()[i].path@ == p);
            }
        };
    }

    /// An empty store.
    pub fn new() -> (s: IndexStore)
        ensures
            s.wf(),
            s@ =~= Seq::<FileIndexEntry>::empty(),
            s.shadow_rows() =~= Seq::<ShadowRow>::empty(),
    {
        IndexStore { rows: Vec::new(), shadow: Vec::new(), next_id: 0 }
    }

    /// Number of rows.
    pub fn len(&self) -> (n: usize)
        ensures
            n == self@.len(),
    {
        self.rows.len()
    }

    /// The row at position `i`.
    pub fn entry_at(&self, i: usize) -> (r: &FileIndexEntry)
        requires
            i < self@.len(),
        ensures
            *r == self@[i as int],
    {
        &self.rows[i].entry
    }

    fn find(&self, path: &String) -> (r: Option<usize>)
        ensures
            match r {
                Some(i) => i < self@.len() && self@[i as int].path@ == path@,
                None => !contains_path(self@, path@),
            },
    {
        let mut i: usize = 0;
        while i < self.rows.len()
            invariant
                i <= self@.len(),
                self@.len() == self.rows@.len(),
                forall|j: int| 0 <= j < i ==> self@[j].path@ != path@,
            decreases self@.len() - i,
        {
            if self.rows[i].entry.path == *path {
                return Some(i);
            }
            i = i + 1;
        }
        None
    }

    /// True when the store holds a row for the path.
    pub fn contains(&self, path: &String) -> (r: bool)
        ensures
            r == contains_path(self@, path@),
    {
        match self.find(path) {
            Some(_) => true,
            None => false,
        }
    }

    /// A copy of the row for the path, if any.
    pub fn lookup(&self, path: &String) -> (r: Option<FileIndexEntry>)
        requires
            self.wf(),
        ensures
            match r {
                Some(e) => contains_path(self@, path@) && e == entry_for(self@, path@),
                None => !contains_path(self@, path@),
            },
    {
        match self.find(path) {
            Some(i) => {
                proof {
                    lemma_path_index(self@, path@, i as int);
                }
                Some(self.rows[i].entry.duplicate())
            },
            None => None,
        }
    }

    /// True when the shadow index holds a row for the path.
    pub fn shadow_contains(&self, path: &String) -> (r: bool)
        ensures
            r == exists|i: int|
                0 <= i < self.shadow_rows().len() && (#[trigger] self.shadow_rows()[i]).path@
                    == path@,
    {
        let mut i: usize = 0;
        while i < self.shadow.len()
            invariant
                i <= self.shadow_rows().len(),
                self.shadow_rows().len() == self.shadow@.len(),
                forall|j: int| 0 <= j < i ==> (#[trigger] self.shadow_rows()[j]).path@ != path@,
            decreases self.shadow@.len() - i,
        {
            if self.shadow[i].path == *path {
                return true;
            }
            i = i + 1;
        }
        false
    }

    /// A copy of every stored path, in row order; the reconciliation sweep
    /// enumerates these to probe the filesystem.
    pub fn paths(&self) -> (r: Vec<String>)
        ensures
            r@.len() == self@.len(),
            forall|i: int| 0 <= i < r@.len() ==> (#[trigger] r@[i])@ == self@[i].path@,
    {
        let mut r: Vec<String> = Vec::new();
        let mut i: usize = 0;
        while i < self.rows.len()
            invariant
                i <= self@.len(),
                self@.len() == self.rows@.len(),
                r@.len() == i,
                forall|j: int| 0 <= j < i ==> (#[trigger] r@[j])@ == self@[j].path@,
            decreases self@.len() - i,
        {
            r.push(self.rows[i].entry.path.clone());
            i = i + 1;
        }
        r
    }

    /// Insert-or-replace: the one mutation the crawler and the watcher's
    /// create handling issue. An existing row for the same path is replaced
    /// wholesale (the row id survives); otherwise a fresh row is appended.
    /// The paired shadow write keeps the projection congruent.
    pub fn upsert(&mut self, e: FileIndexEntry)
        requires
            old(self).wf(),
        ensures
            final(self).wf(),
            final(self)@ == spec_upsert(old(self)@, e),
    {
        proof {
            lemma_upsert_effect(old(self)@, e);
        }
        match self.find(&e.path) {
            Some(i) => {
                proof {
                    lemma_path_index(self@, e.path@, i as int);
                }
                let id = self.rows[i].id;
                let sh = ShadowRow { id, name: e.name.clone(), path: e.path.clone() };
                self.rows[i] = IndexRow { id, entry: e };
                self.shadow[i] = sh;
                proof {
                    assert(self@ =~= old(self)@.update(i as int, e));
                }
            },
            None => {
                let id = self.next_id;
                if self.next_id < u64::MAX {
                    self.next_id = self.next_id + 1;
                }
                let sh = ShadowRow { id, name: e.name.clone(), path: e.path.clone() };
                self.rows.push(IndexRow { id, entry: e });
                self.shadow.push(sh);
                proof {
                    assert(self@ =~= old(self)@.push(e));
                }
            },
        }
    }

    /// Deletes the row for the path (and its shadow row); returns whether a
    /// row existed.
    pub fn delete(&mut self, path: &String) -> (removed: bool)
        requires
            old(self).wf(),
        ensures
            final(self).wf(),
            final(self)@ == spec_delete(old(self)@, path@),
            removed == contains_path(old(self)@, path@),
    {
        proof {
            lemma_delete_effect(old(self)@, path@);
        }
        match self.find(path) {
            Some(i) => {
                proof {
                    lemma_path_index(self@, path@, i as int);
                }
                self.rows.remove(i);
                self.shadow.remove(i);
                proof {
                    assert(self@ =~= old(self)@.remove(i as int));
                }
                true
            },
            None => false,
        }
    }

    /// Renames a row in place: the path and the re-derived base name change,
    /// while document type, size, timestamp and drive — tied to content and
    /// location, not identity — survive. A missing source is a no-op; a
    /// destination already indexed under a different path is rejected by the
    /// unique-path constraint.
    pub fn rename(&mut self, old_path: &String, new_path: &String) -> (r: Result<
        bool,
        StoreError,
    >)
        requires
            old(self).wf(),
        ensures
            final(self).wf(),
            !contains_path(old(self)@, old_path@) ==> r == Ok::<bool, StoreError>(false)
                && final(self)@ == old(self)@,
            contains_path(old(self)@, old_path@) && new_path@ != old_path@ && contains_path(
                old(self)@,
                new_path@,
            ) ==> r == Err::<bool, StoreError>(StoreError::PathCollision) && final(self)@ == old(
                self,
            )@,
            contains_path(old(self)@, old_path@) && (new_path@ == old_path@ || !contains_path(
                old(self)@,
                new_path@,
            )) ==> {
                let i = index_of_path(old(self)@, old_path@);
                &&& r == Ok::<bool, StoreError>(true)
                &&& final(self)@.len() == old(self)@.len()
                &&& forall|j: int|
                    0 <= j < old(self)@.len() && j != i ==> final(self)@[j] == old(self)@[j]
                &&& final(self)@[i].path@ == new_path@
                &&& final(self)@[i].name@ == spec_base_name(new_path@)
                &&& final(self)@[i].file_type == old(self)@[i].file_type
                &&& final(self)@[i].doc_type == old(self)@[i].doc_type
                &&& final(self)@[i].size == old(self)@[i].size
                &&& final(self)@[i].indexed_at == old(self)@[i].indexed_at
                &&& final(self)@[i].drive == old(self)@[i].drive
            },
    {
        let i = match self.find(old_path) {
            Some(i) => i,
            None => {
                return Ok(false);
            },
        };
        proof {
            lemma_path_index(self@, old_path@, i as int);
        }
        if !(*new_path == *old_path) {
            match self.find(new_path) {
                Some(_) => {
                    return Err(StoreError::PathCollision);
                },
                None => {},
            }
        }
        let id = self.rows[i].id;
        let old_entry = self.rows[i].entry.duplicate();
        let new_name = crate::paths::base_name(new_path.as_str());
        let renamed = FileIndexEntry {
            path: new_path.clone(),
            name: new_name.clone(),
            file_type: old_entry.file_type,
            doc_type: old_entry.doc_type,
            size: old_entry.size,
            indexed_at: old_entry.indexed_at,
            drive: old_entry.drive,
        };
        let sh = ShadowRow { id, name: new_name, path: new_path.clone() };
        self.rows[i] = IndexRow { id, entry: renamed };
        self.shadow[i] = sh;
        proof {
            let s2 = self@;
            let s1 = old(self)@;
            assert(forall|j: int| 0 <= j < s1.len() && j != i as int ==> s2[j] == s1[j]);
            assert(paths_unique(s2)) by {
                assert forall|k: int, l: int| 0 <= k < l < s2.len() implies s2[k].path@
                    != s2[l].path@ by {
                    if k != i as int && l != i as int {
                        assert(s2[k] == s1[k] && s2[l] == s1[l]);
                    } else if k == i as int {
                        assert(s2[l] == s1[l]);
                        if s2[k].path@ == s2[l].path@ {
                            assert(s1[l].path@ == new_path@);
                            lemma_path_index(s1, new_path@, l);
                            if new_path@ == old_path@ {
                                lemma_path_index(s1, new_path@, i as int);
                            }
                        }
                    } else {
                        assert(s2[k] == s1[k]);
                        if s2[k].path@ == s2[l].path@ {
                            assert(s1[k].path@ == new_path@);
                            lemma_path_index(s1, new_path@, k);
                            if new_path@ == old_path@ {
                                lemma_path_index(s1, new_path@, i as int);
                            }
                        }
                    }
                };
            };
        }
        Ok(true)
    }
}

} // verus!
