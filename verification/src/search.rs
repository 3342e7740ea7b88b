//! The search engine: prefix full-text queries and tag-filtered queries.
//!
//! A prefix search with an empty or whitespace-only query yields an empty
//! result, not an error; otherwise the trimmed query is a case-insensitive
//! left-prefix match against the indexed `name` and `path` (the columns the
//! full-text shadow index mirrors, row for row — see
//! [`crate::store::IndexStore::lemma_shadow_congruent`]), ordered most
//! recently indexed first. A tag search returns the rows tagged with the
//! exact tag string, newest tag first, joined against the index; a tag whose
//! path has no index row still surfaces with a best-effort name derived from
//! the raw path. Both searches page their results with a limit and offset:
//! the page is the `[offset, offset + limit)` slice, in order, of one
//! duplicate-free ordered enumeration of all hits.

use vstd::prelude::*;
use crate::chars::{
    all_ws, eq_chars, lower_seq, spec_trim, starts_with_chars, starts_with_seq, to_chars,
    to_lower_chars, trim_chars,
};
use crate::paths::{base_name, spec_base_name};
use crate::store::{contains_path, entry_for, FileIndexEntry, FileType, IndexStore};
use crate::tags::{sort_tags_newest_first, tag_paths_unique, FileTag, TagStore};

verus! {

/// One search result row.
pub struct FileEntry {
    pub name: String,
    pub is_dir: bool,
    pub size: Option<i64>,
    /// The observation timestamp of the index row, when one backs this
    /// result.
    pub modified: Option<i64>,
    pub path: String,
}

impl FileEntry {
    /// A structural copy of the row.
    pub fn duplicate(&self) -> (r: FileEntry)
        ensures
            r == *self,
    {
        FileEntry {
            name: self.name.clone(),
            is_dir: self.is_dir,
            size: self.size,
            modified: self.modified,
            path: self.path.clone(),
        }
    }
}

/// The result row `fe` presents index row `e`.
pub open spec fn presents(fe: FileEntry, e: FileIndexEntry) -> bool {
    &&& fe.name@ == e.name@
    &&& fe.is_dir == (e.file_type is Dir)
    &&& fe.size == e.size
    &&& fe.modified == Option::<i64>::Some(e.indexed_at)
    &&& fe.path@ == e.path@
}

/// The row matches the trimmed query: its name or its path starts with the
/// query, compared case-insensitively.
pub open spec fn entry_matches(e: FileIndexEntry, t: Seq<char>) -> bool {
    ||| starts_with_seq(lower_seq(e.name@), lower_seq(t))
    ||| starts_with_seq(lower_seq(e.path@), lower_seq(t))
}

/// How many rows of the table match the trimmed query.
pub open spec fn count_matches(s: Seq<FileIndexEntry>, t: Seq<char>) -> nat
    decreases s.len(),
{
    if s.len() == 0 {
        0
    } else {
        count_matches(s.drop_last(), t) + if entry_matches(s.last(), t) {
            1nat
        } else {
            0nat
        }
    }
}

/// The page of a result set: what is left of `total` hits after skipping
/// `offset` and keeping at most `limit`.
pub open spec fn page_len(total: nat, limit: usize, offset: usize) -> nat {
    let rest: nat = if total > offset {
        (total - offset) as nat
    } else {
        0
    };
    if rest > limit {
        limit as nat
    } else {
        rest
    }
}

/// The ordering timestamp of a result row (`i64::MIN` for a row with no
/// backing index row, which sorts last).
pub open spec fn spec_result_time(fe: FileEntry) -> i64 {
    match fe.modified {
        Some(ts) => ts,
        None => i64::MIN,
    }
}

/// `e` is one of the rows of `s`, and it matches the trimmed query.
pub open spec fn match_in_store(s: Seq<FileIndexEntry>, t: Seq<char>, e: FileIndexEntry) -> bool {
    s.contains(e) && entry_matches(e, t)
}

/// `e` stands (matching the query) somewhere in the first `upto` rows of `s`.
spec fn match_from_prefix(s: Seq<FileIndexEntry>, t: Seq<char>, upto: int, e: FileIndexEntry) -> bool {
    exists|k: int| 0 <= k < upto && #[trigger] s[k] == e && entry_matches(s[k], t)
}

/// `hits` enumerates the query's matches: every element is a matching row,
/// every matching row appears, no two elements share a path, and the
/// elements come most recently indexed first.
pub open spec fn is_match_enumeration(
    s: Seq<FileIndexEntry>,
    t: Seq<char>,
    hits: Seq<FileIndexEntry>,
) -> bool {
    &&& hits.len() == count_matches(s, t)
    &&& forall|i: int| 0 <= i < hits.len() ==> match_in_store(s, t, #[trigger] hits[i])
    &&& forall|k: int|
        0 <= k < s.len() && entry_matches(#[trigger] s[k], t) ==> hits.contains(s[k])
    &&& forall|i: int, j: int|
        0 <= i < j < hits.len() ==> (#[trigger] hits[i]).path@ != (#[trigger] hits[j]).path@
    &&& forall|i: int, j: int|
        0 <= i < j < hits.len() ==> (#[trigger] hits[i]).indexed_at
            >= (#[trigger] hits[j]).indexed_at
}

/// `r` is the `[offset, offset + limit)` slice of `hits`, presented in
/// order.
pub open spec fn presents_page(
    hits: Seq<FileIndexEntry>,
    limit: usize,
    offset: usize,
    r: Seq<FileEntry>,
) -> bool {
    &&& r.len() == page_len(hits.len() as nat, limit, offset)
    &&& forall|a: int| 0 <= a < r.len() ==> presents(#[trigger] r[a], hits[offset + a])
}

/// The result row presents some matching row of the table.
pub open spec fn result_from_match(s: Seq<FileIndexEntry>, t: Seq<char>, fe: FileEntry) -> bool {
    exists|e: FileIndexEntry| #[trigger] match_in_store(s, t, e) && presents(fe, e)
}

/// Some result row presents table row `e`.
pub open spec fn presented_in(r: Seq<FileEntry>, e: FileIndexEntry) -> bool {
    exists|i: int| 0 <= i < r.len() && presents(#[trigger] r[i], e)
}

fn matches_query(e: &FileIndexEntry, t: &Vec<char>) -> (r: bool)
    ensures
        r == entry_matches(*e, t@),
{
    let name = to_lower_chars(&to_chars(e.name.as_str()));
    let path = to_lower_chars(&to_chars(e.path.as_str()));
    let tl = to_lower_chars(t);
    starts_with_chars(&name, &tl) || starts_with_chars(&path, &tl)
}

fn collect_matches(store: &IndexStore, t: &Vec<char>) -> (hits: Vec<FileIndexEntry>)
    requires
        store.wf(),
    ensures
        hits@.len() == count_matches(store@, t@),
        forall|i: int| 0 <= i < hits@.len() ==> match_in_store(store@, t@, #[trigger] hits@[i]),
        forall|k: int|
            0 <= k < store@.len() && entry_matches(#[trigger] store@[k], t@) ==> hits@.contains(
                store@[k],
            ),
        forall|i: int, j: int|
            0 <= i < j < hits@.len() ==> (#[trigger] hits@[i]).path@ != (#[trigger] hits@[j]).path@,
{
    let n = store.len();
    let mut hits: Vec<FileIndexEntry> = Vec::new();
    let mut j: usize = 0;
    while j < n
        invariant
            store.wf(),
            n == store@.len(),
            j <= n,
            hits@.len() == count_matches(store@.subrange(0, j as int), t@),
            forall|i: int|
                0 <= i < hits@.len() ==> match_from_prefix(
                    store@,
                    t@,
                    j as int,
                    #[trigger] hits@[i],
                ),
            forall|k: int|
                0 <= k < j && entry_matches(#[trigger] store@[k], t@) ==> hits@.contains(
                    store@[k],
                ),
            forall|i: int, j2: int|
                0 <= i < j2 < hits@.len() ==> (#[trigger] hits@[i]).path@ != (
                #[trigger] hits@[j2]).path@,
        decreases n - j,
    {
        let e = store.entry_at(j);
        let ghost hits_pre = hits@;
        proof {
            assert(store@.subrange(0, j + 1 as int).drop_last() =~= store@.subrange(0, j as int));
            assert(store@.subrange(0, j + 1 as int).last() == store@[j as int]);
        }
        if matches_query(e, t) {
            hits.push(e.duplicate());
            proof {
                assert(hits@[hits_pre.len() as int] == store@[j as int]);
                assert(forall|i: int| 0 <= i < hits_pre.len() ==> hits@[i] == hits_pre[i]);
                assert(store@.contains(store@[j as int]));
                assert forall|i: int, j2: int|
                    0 <= i < j2 < hits@.len() implies (#[trigger] hits@[i]).path@ != (
                #[trigger] hits@[j2]).path@ by {
                    if j2 == hits_pre.len() {
                        assert(match_from_prefix(store@, t@, j as int, hits_pre[i]));
                        let k = choose|k: int|
                            0 <= k < j && #[trigger] store@[k] == hits_pre[i] && entry_matches(
                                store@[k],
                                t@,
                            );
                        assert(store@[k].path@ != store@[j as int].path@);
                    }
                };
            }
        }
        proof {
            assert forall|k: int|
                0 <= k < j + 1 && entry_matches(#[trigger] store@[k], t@) implies hits@.contains(
                store@[k],
            ) by {
                if k < j {
                    let w = choose|i: int| 0 <= i < hits_pre.len() && hits_pre[i] == store@[k];
                    assert(hits@[w] == store@[k]);
                }
            };
            assert forall|i: int| 0 <= i < hits@.len() implies match_from_prefix(
                store@,
                t@,
                j + 1,
                #[trigger] hits@[i],
            ) by {
                if i < hits_pre.len() {
                    assert(match_from_prefix(store@, t@, j as int, hits_pre[i]));
                    let k = choose|k: int|
                        0 <= k < j && #[trigger] store@[k] == hits_pre[i] && entry_matches(
                            store@[k],
                            t@,
                        );
                    assert(hits@[i] == hits_pre[i]);
                    assert(store@[k] == hits@[i]);
                } else {
                    assert(hits@[i] == store@[j as int]);
                }
            };
        }
        j = j + 1;
    }
    proof {
        assert(store@.subrange(0, n as int) =~= store@);
        assert forall|i: int| 0 <= i < hits@.len() implies match_in_store(
            store@,
            t@,
            #[trigger] hits@[i],
        ) by {
            assert(match_from_prefix(store@, t@, n as int, hits@[i]));
            let k = choose|k: int|
                0 <= k < n && #[trigger] store@[k] == hits@[i] && entry_matches(store@[k], t@);
            assert(store@.contains(store@[k]));
        };
    }
    hits
}

/// Sorts index rows most-recently-indexed first. The input's rows must
/// carry pairwise distinct paths; the result is a rearrangement carrying the
/// same property.
#[verifier::rlimit(100)]
fn sort_entries_recent_first(v: Vec<FileIndexEntry>) -> (r: Vec<FileIndexEntry>)
    requires
        forall|i: int, j: int|
            0 <= i < j < v@.len() ==> (#[trigger] v@[i]).path@ != (#[trigger] v@[j]).path@,
    ensures
        r@.len() == v@.len(),
        forall|i: int, j: int|
            0 <= i < j < r@.len() ==> (#[trigger] r@[i]).indexed_at >= (#[trigger] r@[j]).indexed_at,
        forall|i: int| 0 <= i < r@.len() ==> v@.contains(#[trigger] r@[i]),
        forall|j: int| 0 <= j < v@.len() ==> r@.contains(#[trigger] v@[j]),
        forall|i: int, j: int|
            0 <= i < j < r@.len() ==> (#[trigger] r@[i]).path@ != (#[trigger] r@[j]).path@,
{
    let ghost v0 = v@;
    let mut work = v;
    let mut out: Vec<FileIndexEntry> = Vec::new();
    proof {
        assert forall|k: int| 0 <= k < work@.len() implies v0.contains(#[trigger] work@[k]) by {
            assert(v0[k] == work@[k]);
        };
        assert forall|j: int| 0 <= j < v0.len() implies out@.contains(#[trigger] v0[j])
            || work@.contains(v0[j]) by {
            assert(work@[j] == v0[j]);
        };
    }
    while work.len() > 0
        invariant
            out@.len() + work@.len() == v0.len(),
            forall|i: int, j: int|
                0 <= i < j < work@.len() ==> (#[trigger] work@[i]).path@ != (
                #[trigger] work@[j]).path@,
            forall|i: int, j: int|
                0 <= i < j < out@.len() ==> (#[trigger] out@[i]).path@ != (#[trigger] out@[j]).path@,
            forall|i: int, k: int|
                0 <= i < out@.len() && 0 <= k < work@.len() ==> (#[trigger] out@[i]).path@ != (
                #[trigger] work@[k]).path@,
            forall|i: int, j: int|
                0 <= i < j < out@.len() ==> (#[trigger] out@[i]).indexed_at
                    >= (#[trigger] out@[j]).indexed_at,
            forall|i: int, k: int|
                0 <= i < out@.len() && 0 <= k < work@.len() ==> (#[trigger] out@[i]).indexed_at
                    >= (#[trigger] work@[k]).indexed_at,
            forall|i: int| 0 <= i < out@.len() ==> v0.contains(#[trigger] out@[i]),
            forall|k: int| 0 <= k < work@.len() ==> v0.contains(#[trigger] work@[k]),
            forall|j: int|
                0 <= j < v0.len() ==> out@.contains(#[trigger] v0[j]) || work@.contains(v0[j]),
        decreases work@.len(),
    {
        let mut best: usize = 0;
        let mut m: usize = 1;
        while m < work.len()
            invariant
                work@.len() > 0,
                best < work@.len(),
                m <= work@.len(),
                forall|k: int|
                    0 <= k < m ==> work@[best as int].indexed_at
                        >= (#[trigger] work@[k]).indexed_at,
            decreases work@.len() - m,
        {
            if work[m].indexed_at > work[best].indexed_at {
                best = m;
            }
            m = m + 1;
        }
        let ghost work_pre = work@;
        let ghost out_pre = out@;
        let picked = work.remove(best);
        out.push(picked);
        proof {
            assert(picked == work_pre[best as int]);
            assert(forall|k: int|
                0 <= k < work@.len() ==> work@[k] == (if k < best as int {
                    work_pre[k]
                } else {
                    work_pre[k + 1]
                }));
            assert(forall|i: int| 0 <= i < out_pre.len() ==> out@[i] == out_pre[i]);
            assert(out@[out_pre.len() as int] == picked);
            assert forall|k: int| 0 <= k < work@.len() implies v0.contains(
                #[trigger] work@[k],
            ) by {
                let ko: int = if k < best as int {
                    k
                } else {
                    k + 1
                };
                assert(work@[k] == work_pre[ko]);
                assert(v0.contains(work_pre[ko]));
            };
            assert forall|j: int| 0 <= j < v0.len() implies out@.contains(#[trigger] v0[j])
                || work@.contains(v0[j]) by {
                if out_pre.contains(v0[j]) {
                    let w = choose|i: int| 0 <= i < out_pre.len() && out_pre[i] == v0[j];
                    assert(out@[w] == v0[j]);
                } else {
                    let w = choose|k: int| 0 <= k < work_pre.len() && work_pre[k] == v0[j];
                    if w == best as int {
                        assert(out@[out_pre.len() as int] == v0[j]);
                    } else {
                        let wn: int = if w < best as int {
                            w
                        } else {
                            w - 1
                        };
                        assert(work@[wn] == v0[j]);
                    }
                }
            };
        }
    }
    out
}

fn page_results(sorted: &Vec<FileIndexEntry>, limit: usize, offset: usize) -> (r: Vec<FileEntry>)
    ensures
        presents_page(sorted@, limit, offset, r@),
{
    let mut r: Vec<FileEntry> = Vec::new();
    let mut i: usize = offset;
    while i < sorted.len() && r.len() < limit
        invariant
            offset <= i,
            i <= sorted@.len() || i == offset,
            r@.len() == (if i > offset {
                i - offset
            } else {
                0
            }),
            r@.len() <= limit,
            i > offset ==> i <= sorted@.len(),
            forall|a: int| 0 <= a < r@.len() ==> presents(#[trigger] r@[a], sorted@[offset + a]),
        decreases sorted@.len() + limit - i,
    {
        let e = &sorted[i];
        r.push(
            FileEntry {
                name: e.name.clone(),
                is_dir: match e.file_type {
                    FileType::Dir => true,
                    FileType::File => false,
                },
                size: e.size,
                modified: Some(e.indexed_at),
                path: e.path.clone(),
            },
        );
        i = i + 1;
    }
    r
}

/// A left-prefix full-text search over the indexed names and paths: an
/// empty or whitespace-only query yields an empty result without error;
/// otherwise there is one duplicate-free enumeration of all matches of the
/// trimmed query, ordered most recently indexed first, of which the result
/// presents exactly the `[offset, offset + limit)` slice, in order.
#[verifier::rlimit(100)]
pub fn search_prefix(store: &IndexStore, q: &str, limit: usize, offset: usize) -> (r: Vec<
    FileEntry,
>)
    requires
        store.wf(),
    ensures
        all_ws(q@) ==> r@.len() == 0,
        !all_ws(q@) ==> {
            let t = spec_trim(q@);
            &&& exists|hits: Seq<FileIndexEntry>|
                #[trigger] is_match_enumeration(store@, t, hits) && presents_page(
                    hits,
                    limit,
                    offset,
                    r@,
                )
            &&& r@.len() == page_len(count_matches(store@, t), limit, offset)
            &&& forall|i: int| 0 <= i < r@.len() ==> result_from_match(store@, t, #[trigger] r@[i])
            &&& forall|i: int, j: int|
                0 <= i < j < r@.len() ==> spec_result_time(#[trigger] r@[i]) >= spec_result_time(
                    #[trigger] r@[j],
                )
            &&& (offset == 0 && count_matches(store@, t) <= limit ==> forall|j: int|
                0 <= j < store@.len() && entry_matches(#[trigger] store@[j], t) ==> presented_in(
                    r@,
                    store@[j],
                ))
        },
{
    let qv = to_chars(q);
    let t = trim_chars(&qv);
    if t.len() == 0 {
        return Vec::new();
    }
    let hits = collect_matches(store, &t);
    let ghost total = count_matches(store@, t@);
    let ghost hits0 = hits@;
    let sorted = sort_entries_recent_first(hits);
    proof {
        assert forall|a: int| 0 <= a < sorted@.len() implies match_in_store(
            store@,
            t@,
            #[trigger] sorted@[a],
        ) by {
            assert(hits0.contains(sorted@[a]));
            let w = choose|j2: int| 0 <= j2 < hits0.len() && hits0[j2] == sorted@[a];
            assert(match_in_store(store@, t@, hits0[w]));
        };
        assert forall|k: int|
            0 <= k < store@.len() && entry_matches(#[trigger] store@[k], t@) implies
            sorted@.contains(store@[k]) by {
            assert(hits0.contains(store@[k]));
            let w = choose|i2: int| 0 <= i2 < hits0.len() && hits0[i2] == store@[k];
            assert(sorted@.contains(hits0[w]));
        };
        assert(is_match_enumeration(store@, t@, sorted@));
    }
    let r = page_results(&sorted, limit, offset);
    proof {
        assert(presents_page(sorted@, limit, offset, r@));
        assert forall|a: int| 0 <= a < r@.len() implies result_from_match(
            store@,
            t@,
            #[trigger] r@[a],
        ) by {
            assert(presents(r@[a], sorted@[offset + a]));
            assert(match_in_store(store@, t@, sorted@[offset + a]));
        };
        assert forall|a: int, b: int| 0 <= a < b < r@.len() implies spec_result_time(
            #[trigger] r@[a],
        ) >= spec_result_time(#[trigger] r@[b]) by {
            assert(presents(r@[a], sorted@[offset + a]));
            assert(presents(r@[b], sorted@[offset + b]));
        };
        if offset == 0 && total <= limit {
            assert forall|j2: int|
                0 <= j2 < store@.len() && entry_matches(#[trigger] store@[j2], t@) implies
                presented_in(r@, store@[j2]) by {
                assert(sorted@.contains(store@[j2]));
                let w = choose|a: int| 0 <= a < sorted@.len() && sorted@[a] == store@[j2];
                assert(presents(r@[w], sorted@[0 + w]));
            };
        }
    }
    r
}

/// The result row `fe` presents tag row `trow`, joined against table `s`: a
/// tagged path with an index row shows that row's data; one without still
/// surfaces, with a best-effort name derived from the raw path.
pub open spec fn presents_tag(fe: FileEntry, trow: FileTag, s: Seq<FileIndexEntry>) -> bool {
    if contains_path(s, trow.path@) {
        presents(fe, entry_for(s, trow.path@))
    } else {
        &&& fe.name@ == spec_base_name(trow.path@)
        &&& fe.is_dir == false
        &&& fe.size == Option::<i64>::None
        &&& fe.modified == Option::<i64>::None
        &&& fe.path@ == trow.path@
    }
}

/// `trow` is one of the rows of `ts`, and it carries exactly the tag.
pub open spec fn tagged_in(ts: Seq<FileTag>, tag: Seq<char>, trow: FileTag) -> bool {
    ts.contains(trow) && trow.tag@ == tag
}

/// `trow` stands (carrying the tag) somewhere in the first `upto` rows.
spec fn tagged_from_prefix(ts: Seq<FileTag>, tag: Seq<char>, upto: int, trow: FileTag) -> bool {
    exists|k: int| 0 <= k < upto && #[trigger] ts[k] == trow && ts[k].tag@ == tag
}

/// `hits` enumerates the tag's rows: every element carries the tag, every
/// row carrying the tag appears, no two elements share a path, and the
/// elements come newest tag first.
pub open spec fn is_tag_enumeration(ts: Seq<FileTag>, tag: Seq<char>, hits: Seq<FileTag>) -> bool {
    &&& hits.len() == count_tagged(ts, tag)
    &&& forall|i: int| 0 <= i < hits.len() ==> tagged_in(ts, tag, #[trigger] hits[i])
    &&& forall|k: int| 0 <= k < ts.len() && (#[trigger] ts[k]).tag@ == tag ==> hits.contains(ts[k])
    &&& forall|i: int, j: int|
        0 <= i < j < hits.len() ==> (#[trigger] hits[i]).path@ != (#[trigger] hits[j]).path@
    &&& forall|i: int, j: int|
        0 <= i < j < hits.len() ==> (#[trigger] hits[i]).created_at
            >= (#[trigger] hits[j]).created_at
}

/// `r` is the `[offset, offset + limit)` slice of `hits`, each row joined
/// against table `s` and presented in order.
pub open spec fn presents_tag_page(
    hits: Seq<FileTag>,
    s: Seq<FileIndexEntry>,
    limit: usize,
    offset: usize,
    r: Seq<FileEntry>,
) -> bool {
    &&& r.len() == page_len(hits.len() as nat, limit, offset)
    &&& forall|a: int| 0 <= a < r.len() ==> presents_tag(#[trigger] r[a], hits[offset + a], s)
}

/// The result row presents some row tagged with the tag.
pub open spec fn result_from_tag(
    ts: Seq<FileTag>,
    tag: Seq<char>,
    s: Seq<FileIndexEntry>,
    fe: FileEntry,
) -> bool {
    exists|trow: FileTag| #[trigger] tagged_in(ts, tag, trow) && presents_tag(fe, trow, s)
}

/// Some result row presents tag row `trow`.
pub open spec fn tag_presented_in(
    r: Seq<FileEntry>,
    trow: FileTag,
    s: Seq<FileIndexEntry>,
) -> bool {
    exists|i: int| 0 <= i < r.len() && presents_tag(#[trigger] r[i], trow, s)
}

/// How many tag rows carry exactly the tag.
pub open spec fn count_tagged(ts: Seq<FileTag>, tag: Seq<char>) -> nat
    decreases ts.len(),
{
    if ts.len() == 0 {
        0
    } else {
        count_tagged(ts.drop_last(), tag) + if ts.last().tag@ == tag {
            1nat
        } else {
            0nat
        }
    }
}

fn collect_tagged(tags: &TagStore, tagv: &Vec<char>) -> (hits: Vec<FileTag>)
    requires
        tag_paths_unique(tags@),
    ensures
        hits@.len() == count_tagged(tags@, tagv@),
        forall|i: int| 0 <= i < hits@.len() ==> tagged_in(tags@, tagv@, #[trigger] hits@[i]),
        forall|k: int|
            0 <= k < tags@.len() && (#[trigger] tags@[k]).tag@ == tagv@ ==> hits@.contains(
                tags@[k],
            ),
        forall|i: int, j: int|
            0 <= i < j < hits@.len() ==> (#[trigger] hits@[i]).path@ != (#[trigger] hits@[j]).path@,
{
    let n = tags.len();
    let mut hits: Vec<FileTag> = Vec::new();
    let mut j: usize = 0;
    while j < n
        invariant
            tag_paths_unique(tags@),
            n == tags@.len(),
            j <= n,
            hits@.len() == count_tagged(tags@.subrange(0, j as int), tagv@),
            forall|i: int|
                0 <= i < hits@.len() ==> tagged_from_prefix(
                    tags@,
                    tagv@,
                    j as int,
                    #[trigger] hits@[i],
                ),
            forall|k: int|
                0 <= k < j && (#[trigger] tags@[k]).tag@ == tagv@ ==> hits@.contains(tags@[k]),
            forall|i: int, j2: int|
                0 <= i < j2 < hits@.len() ==> (#[trigger] hits@[i]).path@ != (
                #[trigger] hits@[j2]).path@,
        decreases n - j,
    {
        let row = tags.row_at(j);
        let ghost hits_pre = hits@;
        proof {
            assert(tags@.subrange(0, j + 1 as int).drop_last() =~= tags@.subrange(0, j as int));
            assert(tags@.subrange(0, j + 1 as int).last() == tags@[j as int]);
        }
        let rowtag = to_chars(row.tag.as_str());
        if eq_chars(&rowtag, tagv) {
            hits.push(row.duplicate());
            proof {
                assert(hits@[hits_pre.len() as int] == tags@[j as int]);
                assert(forall|i: int| 0 <= i < hits_pre.len() ==> hits@[i] == hits_pre[i]);
                assert(tags@.contains(tags@[j as int]));
                assert forall|i: int, j2: int|
                    0 <= i < j2 < hits@.len() implies (#[trigger] hits@[i]).path@ != (
                #[trigger] hits@[j2]).path@ by {
                    if j2 == hits_pre.len() {
                        assert(tagged_from_prefix(tags@, tagv@, j as int, hits_pre[i]));
                        let k = choose|k: int|
                            0 <= k < j && #[trigger] tags@[k] == hits_pre[i] && tags@[k].tag@
                                == tagv@;
                        assert(tags@[k].path@ != tags@[j as int].path@);
                    }
                };
            }
        }
        proof {
            assert forall|k: int|
                0 <= k < j + 1 && (#[trigger] tags@[k]).tag@ == tagv@ implies hits@.contains(
                tags@[k],
            ) by {
                if k < j {
                    let w = choose|i: int| 0 <= i < hits_pre.len() && hits_pre[i] == tags@[k];
                    assert(hits@[w] == tags@[k]);
                }
            };
            assert forall|i: int| 0 <= i < hits@.len() implies tagged_from_prefix(
                tags@,
                tagv@,
                j + 1,
                #[trigger] hits@[i],
            ) by {
                if i < hits_pre.len() {
                    assert(tagged_from_prefix(tags@, tagv@, j as int, hits_pre[i]));
                    let k = choose|k: int|
                        0 <= k < j && #[trigger] tags@[k] == hits_pre[i] && tags@[k].tag@ == tagv@;
                    assert(hits@[i] == hits_pre[i]);
                    assert(tags@[k] == hits@[i]);
                } else {
                    assert(hits@[i] == tags@[j as int]);
                }
            };
        }
        j = j + 1;
    }
    proof {
        assert(tags@.subrange(0, n as int) =~= tags@);
        assert forall|i: int| 0 <= i < hits@.len() implies tagged_in(
            tags@,
            tagv@,
            #[trigger] hits@[i],
        ) by {
            assert(tagged_from_prefix(tags@, tagv@, n as int, hits@[i]));
            let k = choose|k: int|
                0 <= k < n && #[trigger] tags@[k] == hits@[i] && tags@[k].tag@ == tagv@;
            assert(tags@.contains(tags@[k]));
        };
    }
    hits
}

fn page_tag_results(store: &IndexStore, sorted: &Vec<FileTag>, limit: usize, offset: usize) -> (r:
    Vec<FileEntry>)
    requires
        store.wf(),
    ensures
        presents_tag_page(sorted@, store@, limit, offset, r@),
{
    let mut r: Vec<FileEntry> = Vec::new();
    let mut i: usize = offset;
    while i < sorted.len() && r.len() < limit
        invariant
            store.wf(),
            offset <= i,
            i <= sorted@.len() || i == offset,
            r@.len() == (if i > offset {
                i - offset
            } else {
                0
            }),
            r@.len() <= limit,
            i > offset ==> i <= sorted@.len(),
            forall|a: int|
                0 <= a < r@.len() ==> presents_tag(#[trigger] r@[a], sorted@[offset + a], store@),
        decreases sorted@.len() + limit - i,
    {
        let trow = &sorted[i];
        let fe = match store.lookup(&trow.path) {
            Some(e) => FileEntry {
                name: e.name.clone(),
                is_dir: match e.file_type {
                    FileType::Dir => true,
                    FileType::File => false,
                },
                size: e.size,
                modified: Some(e.indexed_at),
                path: e.path.clone(),
            },
            None => FileEntry {
                name: base_name(trow.path.as_str()),
                is_dir: false,
                size: None,
                modified: None,
                path: trow.path.clone(),
            },
        };
        r.push(fe);
        i = i + 1;
    }
    r
}

/// A tag-filtered search: there is one duplicate-free enumeration of the
/// rows tagged with exactly `tag`, ordered newest tag first, of which the
/// result presents the `[offset, offset + limit)` slice, in order, each row
/// joined against the index so that a tagged path without an index row still
/// surfaces.
#[verifier::rlimit(100)]
pub fn search_files_by_tag(
    store: &IndexStore,
    tags: &TagStore,
    tag: &str,
    limit: usize,
    offset: usize,
) -> (r: Vec<FileEntry>)
    requires
        store.wf(),
        tags.wf(),
    ensures
        exists|hits: Seq<FileTag>|
            #[trigger] is_tag_enumeration(tags@, tag@, hits) && presents_tag_page(
                hits,
                store@,
                limit,
                offset,
                r@,
            ),
        r@.len() == page_len(count_tagged(tags@, tag@), limit, offset),
        forall|i: int|
            0 <= i < r@.len() ==> result_from_tag(tags@, tag@, store@, #[trigger] r@[i]),
        offset == 0 && count_tagged(tags@, tag@) <= limit ==> forall|j: int|
            0 <= j < tags@.len() && (#[trigger] tags@[j]).tag@ == tag@ ==> tag_presented_in(
                r@,
                tags@[j],
                store@,
            ),
{
    let tagv = to_chars(tag);
    let hits = collect_tagged(tags, &tagv);
    let ghost total = count_tagged(tags@, tag@);
    let ghost hits0 = hits@;
    let sorted = sort_tags_newest_first(hits);
    proof {
        assert forall|a: int| 0 <= a < sorted@.len() implies tagged_in(
            tags@,
            tag@,
            #[trigger] sorted@[a],
        ) by {
            assert(hits0.contains(sorted@[a]));
            let w = choose|j2: int| 0 <= j2 < hits0.len() && hits0[j2] == sorted@[a];
            assert(tagged_in(tags@, tag@, hits0[w]));
        };
        assert forall|k: int|
            0 <= k < tags@.len() && (#[trigger] tags@[k]).tag@ == tag@ implies sorted@.contains(
            tags@[k],
        ) by {
            assert(hits0.contains(tags@[k]));
            let w = choose|i2: int| 0 <= i2 < hits0.len() && hits0[i2] == tags@[k];
            assert(sorted@.contains(hits0[w]));
        };
        assert(is_tag_enumeration(tags@, tag@, sorted@));
    }
    let r = page_tag_results(store, &sorted, limit, offset);
    proof {
        assert(presents_tag_page(sorted@, store@, limit, offset, r@));
        assert forall|a: int| 0 <= a < r@.len() implies result_from_tag(
            tags@,
            tag@,
            store@,
            #[trigger] r@[a],
        ) by {
            assert(presents_tag(r@[a], sorted@[offset + a], store@));
            assert(tagged_in(tags@, tag@, sorted@[offset + a]));
        };
        if offset == 0 && total <= limit {
            assert forall|j2: int|
                0 <= j2 < tags@.len() && (#[trigger] tags@[j2]).tag@ == tag@ implies
                tag_presented_in(r@, tags@[j2], store@) by {
                assert(sorted@.contains(tags@[j2]));
                let w = choose|a: int| 0 <= a < sorted@.len() && sorted@[a] == tags@[j2];
                assert(presents_tag(r@[w], sorted@[0 + w], store@));
            };
        }
    }
    r
}

} // verus!
