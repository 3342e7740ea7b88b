//! The crawler: an iterative depth-first walk over directory listings.
//!
//! The walk keeps an explicit stack of directory paths seeded with the
//! requested roots. Each round pops one directory and looks its listing up
//! in the snapshot of listings it was handed; a directory without a listing
//! (an unreadable one) is skipped — non-fatal, the crawl continues. Every
//! listed entry is normalized, classified and upserted; a subdirectory is
//! pushed for further traversal unless the exclusion filter prunes it.
//! Progress is reported into the job registry and is visible to concurrent
//! polling; the job finishes when the stack empties.
//!
//! The walking and the index writes are pure computation here; the caller
//! gathers the listings (that is where directory reads, stat calls and their
//! per-entry failures live, all non-fatal) and hands them over as plain
//! values, keyed by the normalized canonical directory path.

use vstd::prelude::*;
use crate::doc_type::{doc_type_for_path, spec_doc_type};
use crate::exclusion::{is_excluded_path, spec_is_excluded};
use crate::jobs::{contains_job, state_of, run_processed, IndexJobState, JobRegistry};
use crate::paths::{normalize, normalize_drive_for_storage, spec_drive, spec_normalize};
use crate::store::{
    contains_path, entry_for, lemma_upsert_effect, FileIndexEntry, FileType, IndexStore,
};

verus! {

/// Metadata of one directory entry, as the filesystem reported it: the
/// canonical (best-effort) child path, the listed name, whether it is a
/// directory, and its byte size (meaningless for directories).
pub struct EntryMeta {
    pub path: String,
    pub name: String,
    pub is_dir: bool,
    pub size: u64,
}

/// One readable directory and its entries. The directory is keyed by the
/// same normalized canonical spelling that entry paths carry.
pub struct DirListing {
    pub path: String,
    pub entries: Vec<EntryMeta>,
}

/// A set of directory listings for one crawl: at most one listing per
/// directory path. A directory the crawl visits that has no listing here is
/// treated as unreadable and skipped.
pub struct FsSnapshot {
    pub dirs: Vec<DirListing>,
}

/// No two listings share a directory path.
pub open spec fn listing_keys_unique(dirs: Seq<DirListing>) -> bool {
    forall|i: int, j: int| 0 <= i < j < dirs.len() ==> dirs[i].path@ != dirs[j].path@
}

/// `l` is one of the listings of `dirs`.
pub open spec fn listed_in(dirs: Seq<DirListing>, l: DirListing) -> bool {
    exists|d: int| 0 <= d < dirs.len() && #[trigger] dirs[d] == l
}

/// Some slot of `st` holds a string spelled `p`.
pub open spec fn on_stack(st: Seq<String>, p: Seq<char>) -> bool {
    exists|si: int| 0 <= si < st.len() && (#[trigger] st[si])@ == p
}

/// The index row `e` is what indexing entry `m` at time `now` produces.
pub open spec fn entry_built_from(e: FileIndexEntry, m: EntryMeta, now: i64) -> bool {
    &&& e.path@ == spec_normalize(m.path@)
    &&& e.name@ == m.name@
    &&& e.file_type == (if m.is_dir {
        FileType::Dir
    } else {
        FileType::File
    })
    &&& e.doc_type@ == spec_doc_type(spec_normalize(m.path@), m.is_dir)
    &&& e.size == (if m.is_dir {
        Option::<i64>::None
    } else {
        Option::<i64>::Some(m.size as i64)
    })
    &&& e.indexed_at == now
    &&& e.drive@ == spec_drive(spec_normalize(m.path@))
}

/// `p` is the normalized spelling of one of the crawl's roots.
pub open spec fn is_root_path(roots: Seq<String>, p: Seq<char>) -> bool {
    exists|i: int| 0 <= i < roots.len() && spec_normalize((#[trigger] roots[i])@) == p
}

/// A directory the crawl may visit: a root, or any directory the exclusion
/// filter does not prune.
pub open spec fn dir_ok(roots: Seq<String>, p: Seq<char>) -> bool {
    is_root_path(roots, p) || !spec_is_excluded(p)
}

/// Path `p` has a witness in the snapshot: an entry listed under a visitable
/// directory whose normalized path is `p` and whose indexing at `now`
/// produced exactly the row the table holds.
pub open spec fn provenance_witness(
    s1: Seq<FileIndexEntry>,
    dirs: Seq<DirListing>,
    roots: Seq<String>,
    now: i64,
    p: Seq<char>,
) -> bool {
    exists|d: int, k: int|
        {
            &&& 0 <= d < dirs.len()
            &&& 0 <= k < dirs[d].entries@.len()
            &&& dir_ok(roots, dirs[d].path@)
            &&& spec_normalize((#[trigger] dirs[d].entries@[k]).path@) == p
            &&& entry_built_from(entry_for(s1, p), dirs[d].entries@[k], now)
        }
}

/// Provenance of everything a crawl adds: every path present afterwards was
/// either present before, or is the normalized path of an entry listed under
/// a directory the crawl was allowed to visit — and its row holds exactly
/// what indexing that entry at `now` produces.
pub open spec fn crawl_provenance(
    s0: Seq<FileIndexEntry>,
    s1: Seq<FileIndexEntry>,
    dirs: Seq<DirListing>,
    roots: Seq<String>,
    now: i64,
) -> bool {
    forall|p: Seq<char>|
        #[trigger] contains_path(s1, p) ==> contains_path(s0, p) || provenance_witness(
            s1,
            dirs,
            roots,
            now,
            p,
        )
}

/// Every entry of listing `d` is present (under its normalized path) in the
/// table.
pub open spec fn listing_indexed(s1: Seq<FileIndexEntry>, dirs: Seq<DirListing>, d: int) -> bool {
    forall|k: int|
        0 <= k < dirs[d].entries@.len() ==> contains_path(
            s1,
            spec_normalize((#[trigger] dirs[d].entries@[k]).path@),
        )
}

/// Coverage of the roots: after the crawl, every entry listed directly under
/// a root is present in the index.
pub open spec fn root_listings_indexed(
    s1: Seq<FileIndexEntry>,
    dirs: Seq<DirListing>,
    roots: Seq<String>,
) -> bool {
    forall|d: int|
        0 <= d < dirs.len() && is_root_path(roots, (#[trigger] dirs[d]).path@)
            ==> listing_indexed(s1, dirs, d)
}

/// The total entry count of the listings at positions `visited` of `dirs`.
pub open spec fn entries_total(dirs: Seq<DirListing>, visited: Seq<int>) -> nat
    decreases visited.len(),
{
    if visited.len() == 0 {
        0
    } else {
        entries_total(dirs, visited.drop_last()) + if 0 <= visited.last() < dirs.len() {
            dirs[visited.last()].entries@.len()
        } else {
            0
        }
    }
}

/// A count clipped to the usize range.
pub open spec fn clip_usize(n: nat) -> usize {
    if n > usize::MAX {
        usize::MAX
    } else {
        n as usize
    }
}

/// `visited` records which listings one crawl consumed: positions of
/// pairwise distinct, visitable directories, covering every root listing
/// (a root's listing is always consumed when the snapshot has one).
pub open spec fn is_visit_record(
    dirs: Seq<DirListing>,
    roots: Seq<String>,
    visited: Seq<int>,
) -> bool {
    &&& forall|i: int| 0 <= i < visited.len() ==> 0 <= #[trigger] visited[i] < dirs.len()
    &&& forall|i: int, j: int|
        0 <= i < j < visited.len() ==> #[trigger] visited[i] != #[trigger] visited[j]
    &&& forall|i: int| 0 <= i < visited.len() ==> dir_ok(roots, dirs[#[trigger] visited[i]].path@)
    &&& forall|d: int|
        0 <= d < dirs.len() && is_root_path(roots, (#[trigger] dirs[d]).path@)
            ==> visited.contains(d)
}

/// Law: a path whose every occurrence in the snapshot lies under an
/// excluded, non-root directory is absent after a crawl that started
/// without it — exclusion prunes whole subtrees from the index.
pub proof fn lemma_excluded_subtree_absent(
    s0: Seq<FileIndexEntry>,
    s1: Seq<FileIndexEntry>,
    dirs: Seq<DirListing>,
    roots: Seq<String>,
    now: i64,
    p: Seq<char>,
)
    requires
        crawl_provenance(s0, s1, dirs, roots, now),
        !contains_path(s0, p),
        forall|d: int, k: int|
            0 <= d < dirs.len() && 0 <= k < dirs[d].entries@.len() && spec_normalize(
                (#[trigger] dirs[d].entries@[k]).path@,
            ) == p ==> !dir_ok(roots, dirs[d].path@),
    ensures
        !contains_path(s1, p),
{
    if contains_path(s1, p) {
        assert(provenance_witness(s1, dirs, roots, now, p));
        let (d, k) = choose|d: int, k: int|
            {
                &&& 0 <= d < dirs.len()
                &&& 0 <= k < dirs[d].entries@.len()
                &&& dir_ok(roots, dirs[d].path@)
                &&& spec_normalize((#[trigger] dirs[d].entries@[k]).path@) == p
                &&& entry_built_from(entry_for(s1, p), dirs[d].entries@[k], now)
            };
        assert(!dir_ok(roots, dirs[d].path@));
    }
}

/// Builds the index row for one observed entry: the path is normalized, the
/// base data classified, and the drive derived, all from plain values.
pub fn build_index_entry(path: &String, name: &String, is_dir: bool, size: u64, now: i64) -> (e:
    FileIndexEntry)
    ensures
        e.path@ == spec_normalize(path@),
        e.name@ == name@,
        e.file_type == (if is_dir {
            FileType::Dir
        } else {
            FileType::File
        }),
        e.doc_type@ == spec_doc_type(spec_normalize(path@), is_dir),
        e.size == (if is_dir {
            Option::<i64>::None
        } else {
            Option::<i64>::Some(size as i64)
        }),
        e.indexed_at == now,
        e.drive@ == spec_drive(spec_normalize(path@)),
{
    let norm = normalize(path);
    let doc_type = doc_type_for_path(norm.as_str(), is_dir);
    let drive = normalize_drive_for_storage(norm.as_str());
    FileIndexEntry {
        path: norm,
        name: name.clone(),
        file_type: if is_dir {
            FileType::Dir
        } else {
            FileType::File
        },
        doc_type,
        size: if is_dir {
            None
        } else {
            Some(#[verifier::truncate] (size as i64))
        },
        indexed_at: now,
        drive,
    }
}

/// The crawl descends into a directory entry exactly when the exclusion
/// filter does not prune it.
pub fn should_descend(path: &str, is_dir: bool) -> (r: bool)
    ensures
        r == (is_dir && !spec_is_excluded(path@)),
{
    is_dir && !is_excluded_path(path)
}

fn find_listing(pending: &Vec<DirListing>, path: &String) -> (r: Option<usize>)
    ensures
        match r {
            Some(i) => i < pending@.len() && pending@[i as int].path@ == path@,
            None => forall|j: int|
                0 <= j < pending@.len() ==> (#[trigger] pending@[j]).path@ != path@,
        },
{
    let mut i: usize = 0;
    while i < pending.len()
        invariant
            i <= pending@.len(),
            forall|j: int| 0 <= j < i ==> (#[trigger] pending@[j]).path@ != path@,
        decreases pending@.len() - i,
    {
        if pending[i].path == *path {
            return Some(i);
        }
        i = i + 1;
    }
    None
}

/// Runs one crawl job to completion over a snapshot of listings: depth-first
/// from the roots, skipping unreadable directories, upserting every listed
/// entry, pruning excluded subtrees, reporting progress into the registry,
/// and finishing the job when the stack empties. Returns the processed
/// count: the total entry count of the consumed listings (clipped at
/// `usize::MAX`), one count per entry upserted.
#[verifier::rlimit(100)]
pub fn crawl(
    reg: &mut JobRegistry,
    id: u64,
    snapshot: FsSnapshot,
    roots: &Vec<String>,
    store: &mut IndexStore,
    now: i64,
) -> (processed: usize)
    requires
        old(store).wf(),
        old(reg).wf(),
        contains_job(old(reg)@, id),
        state_of(old(reg)@, id) is Running,
        run_processed(state_of(old(reg)@, id)) == 0,
        listing_keys_unique(snapshot.dirs@),
    ensures
        final(store).wf(),
        final(reg).wf(),
        final(reg).allocations() == old(reg).allocations(),
        contains_job(final(reg)@, id),
        state_of(final(reg)@, id) == (IndexJobState::Finished { processed }),
        crawl_provenance(old(store)@, final(store)@, snapshot.dirs@, roots@, now),
        root_listings_indexed(final(store)@, snapshot.dirs@, roots@),
        exists|visited: Seq<int>|
            #[trigger] is_visit_record(snapshot.dirs@, roots@, visited) && processed == clip_usize(
                entries_total(snapshot.dirs@, visited),
            ),
        forall|q: u64|
            q != id ==> (#[trigger] contains_job(final(reg)@, q) <==> contains_job(old(reg)@, q)),
        forall|q: u64|
            q != id && contains_job(old(reg)@, q) ==> #[trigger] state_of(final(reg)@, q)
                == state_of(old(reg)@, q),
{
    let ghost dirs0 = snapshot.dirs@;
    let ghost s_init = store@;
    let ghost reg0 = reg@;
    let ghost mut visited: Seq<int> = Seq::empty();
    let mut pending = snapshot.dirs;
    let mut stack: Vec<String> = Vec::new();
    let mut i: usize = 0;
    while i < roots.len()
        invariant
            pending@ == dirs0,
            i <= roots@.len(),
            forall|si: int|
                0 <= si < stack@.len() ==> is_root_path(roots@, (#[trigger] stack@[si])@),
            forall|ri: int|
                0 <= ri < i ==> on_stack(stack@, spec_normalize((#[trigger] roots@[ri])@)),
        decreases roots@.len() - i,
    {
        let ghost stack_pre = stack@;
        let r = normalize(&roots[i]);
        stack.push(r);
        proof {
            assert(forall|si: int| 0 <= si < stack_pre.len() ==> stack@[si] == stack_pre[si]);
            assert(stack@[stack_pre.len() as int]@ == spec_normalize(roots@[i as int]@));
            assert forall|ri: int| 0 <= ri < i + 1 implies on_stack(
                stack@,
                spec_normalize((#[trigger] roots@[ri])@),
            ) by {
                if ri < i {
                    let w = choose|si: int|
                        0 <= si < stack_pre.len() && (#[trigger] stack_pre[si])@ == spec_normalize(
                            roots@[ri]@,
                        );
                    assert(0 <= w < stack@.len() && stack@[w]@ == spec_normalize(roots@[ri]@));
                }
            };
        }
        i = i + 1;
    }
    proof {
        assert forall|pi: int| 0 <= pi < pending@.len() implies listed_in(
            dirs0,
            #[trigger] pending@[pi],
        ) by {
            assert(0 <= pi < dirs0.len() && dirs0[pi] == pending@[pi]);
        };
        assert forall|d: int|
            0 <= d < dirs0.len() && is_root_path(roots@, (#[trigger] dirs0[d]).path@) implies (
        listed_in(pending@, dirs0[d]) && on_stack(stack@, dirs0[d].path@)) by {
            assert(pending@[d] == dirs0[d]);
            let ri = choose|ri: int|
                0 <= ri < roots@.len() && spec_normalize((#[trigger] roots@[ri])@)
                    == dirs0[d].path@;
            assert(on_stack(stack@, spec_normalize(roots@[ri]@)));
        };
    }
    let mut processed: usize = 0;
    while stack.len() > 0
        invariant
            store.wf(),
            reg.wf(),
            reg.allocations() == old(reg).allocations(),
            contains_job(reg@, id),
            state_of(reg@, id) is Running,
            run_processed(state_of(reg@, id)) <= processed,
            forall|q: u64|
                q != id ==> (#[trigger] contains_job(reg@, q) <==> contains_job(reg0, q)),
            forall|q: u64|
                q != id && contains_job(reg0, q) ==> #[trigger] state_of(reg@, q) == state_of(
                    reg0,
                    q,
                ),
            listing_keys_unique(dirs0),
            // every stack element is a visitable directory
            forall|si: int| 0 <= si < stack@.len() ==> dir_ok(roots@, (#[trigger] stack@[si])@),
            // every pending listing is one of the snapshot's listings
            forall|pi: int| 0 <= pi < pending@.len() ==> listed_in(dirs0, #[trigger] pending@[pi]),
            // pending listings keep distinct keys
            forall|pi: int, pj: int|
                0 <= pi < pj < pending@.len() ==> (#[trigger] pending@[pi]).path@
                    != (#[trigger] pending@[pj]).path@,
            // provenance of everything indexed so far
            crawl_provenance(s_init, store@, dirs0, roots@, now),
            // the consumed listings: positions of distinct visitable
            // directories, no longer pending, each fully indexed
            forall|vi: int| 0 <= vi < visited.len() ==> 0 <= #[trigger] visited[vi] < dirs0.len(),
            forall|vi: int, vj: int|
                0 <= vi < vj < visited.len() ==> #[trigger] visited[vi] != #[trigger] visited[vj],
            forall|vi: int|
                0 <= vi < visited.len() ==> dir_ok(roots@, dirs0[#[trigger] visited[vi]].path@),
            forall|vi: int, pi: int|
                0 <= vi < visited.len() && 0 <= pi < pending@.len() ==> (
                #[trigger] pending@[pi]).path@ != dirs0[#[trigger] visited[vi]].path@,
            forall|vi: int|
                0 <= vi < visited.len() ==> listing_indexed(store@, dirs0, #[trigger] visited[vi]),
            // the processed counter counts the consumed listings' entries
            processed == clip_usize(entries_total(dirs0, visited)),
            // each root listing is either still scheduled or already consumed
            forall|d: int|
                0 <= d < dirs0.len() && is_root_path(roots@, (#[trigger] dirs0[d]).path@) ==> {
                    ||| (listed_in(pending@, dirs0[d]) && on_stack(stack@, dirs0[d].path@))
                    ||| visited.contains(d)
                },
        decreases pending@.len(), stack@.len(),
    {
        let ghost stack_pre = stack@;
        let dir = match stack.pop() {
            Some(d) => d,
            None => {
                proof {
                    assert(false);
                }
                return 0;
            },
        };
        proof {
            assert(dir == stack_pre[stack_pre.len() - 1]);
            assert(dir_ok(roots@, dir@));
            assert(forall|si: int| 0 <= si < stack@.len() ==> stack@[si] == stack_pre[si]);
        }
        reg.update_running(id, processed, Some(dir.clone()));
        let pi = match find_listing(&pending, &dir) {
            Some(pi) => pi,
            None => {
                proof {
                    // the popped path has no pending listing, so a root
                    // listing with this path was already consumed; any
                    // other root listing's stack slot is not the popped one
                    assert forall|d: int|
                        0 <= d < dirs0.len() && is_root_path(
                            roots@,
                            (#[trigger] dirs0[d]).path@,
                        ) implies {
                        ||| (listed_in(pending@, dirs0[d]) && on_stack(stack@, dirs0[d].path@))
                        ||| visited.contains(d)
                    } by {
                        if listed_in(pending@, dirs0[d]) && on_stack(stack_pre, dirs0[d].path@) {
                            let w = choose|pi: int|
                                0 <= pi < pending@.len() && #[trigger] pending@[pi] == dirs0[d];
                            assert(pending@[w].path@ != dir@);
                            let wsi = choose|si: int|
                                0 <= si < stack_pre.len() && (#[trigger] stack_pre[si])@
                                    == dirs0[d].path@;
                            assert(wsi != stack_pre.len() - 1) by {
                                if wsi == stack_pre.len() - 1 {
                                    assert(stack_pre[wsi] == dir);
                                }
                            };
                            assert(0 <= wsi < stack@.len() && stack@[wsi]@ == dirs0[d].path@);
                        }
                    };
                }
                continue;
            },
        };
        let ghost pending_pre = pending@;
        let listing = pending.remove(pi);
        let ghost dhat = choose|d: int| 0 <= d < dirs0.len() && #[trigger] dirs0[d] == listing;
        proof {
            assert(listed_in(dirs0, pending_pre[pi as int]));
            assert(listing == dirs0[dhat]);
            assert(dir_ok(roots@, dirs0[dhat].path@));
            assert(forall|k: int|
                0 <= k < pending@.len() ==> pending@[k] == (if k < pi as int {
                    pending_pre[k]
                } else {
                    pending_pre[k + 1]
                }));
            assert forall|pi_: int| 0 <= pi_ < pending@.len() implies listed_in(
                dirs0,
                #[trigger] pending@[pi_],
            ) by {
                let ko: int = if pi_ < pi as int {
                    pi_
                } else {
                    pi_ + 1
                };
                assert(pending@[pi_] == pending_pre[ko]);
                assert(listed_in(dirs0, pending_pre[ko]));
            };
            assert forall|pi_: int, pj: int| 0 <= pi_ < pj < pending@.len() implies (#[trigger]
            pending@[pi_]).path@ != (#[trigger] pending@[pj]).path@ by {
                let ko: int = if pi_ < pi as int {
                    pi_
                } else {
                    pi_ + 1
                };
                let lo: int = if pj < pi as int {
                    pj
                } else {
                    pj + 1
                };
                assert(pending@[pi_] == pending_pre[ko] && pending@[pj] == pending_pre[lo]);
            };
            // the listing being consumed was never consumed before, and no
            // pending listing shares its key
            assert forall|vi: int| 0 <= vi < visited.len() implies #[trigger] visited[vi]
                != dhat by {
                if visited[vi] == dhat {
                    assert(pending_pre[pi as int].path@ != dirs0[visited[vi]].path@);
                }
            };
            assert forall|pi_: int| 0 <= pi_ < pending@.len() implies (
            #[trigger] pending@[pi_]).path@ != dirs0[dhat as int].path@ by {
                let ko: int = if pi_ < pi as int {
                    pi_
                } else {
                    pi_ + 1
                };
                assert(pending@[pi_] == pending_pre[ko]);
                assert(pending_pre[ko].path@ != pending_pre[pi as int].path@);
            };
            assert forall|vi: int, pi_: int|
                0 <= vi < visited.len() && 0 <= pi_ < pending@.len() implies (
            #[trigger] pending@[pi_]).path@ != dirs0[#[trigger] visited[vi]].path@ by {
                let ko: int = if pi_ < pi as int {
                    pi_
                } else {
                    pi_ + 1
                };
                assert(pending@[pi_] == pending_pre[ko]);
                assert(pending_pre[ko].path@ != dirs0[visited[vi]].path@);
            };
            // every root listing other than this one stays scheduled or
            // consumed: its pending slot shifts, its stack slot is not
            // the popped one
            assert forall|d: int|
                0 <= d < dirs0.len() && d != dhat && is_root_path(
                    roots@,
                    (#[trigger] dirs0[d]).path@,
                ) implies {
                ||| (listed_in(pending@, dirs0[d]) && on_stack(stack@, dirs0[d].path@))
                ||| visited.contains(d)
            } by {
                if listed_in(pending_pre, dirs0[d]) && on_stack(stack_pre, dirs0[d].path@) {
                    assert(dirs0[d].path@ != dirs0[dhat].path@);
                    let wpi = choose|pi_: int|
                        0 <= pi_ < pending_pre.len() && #[trigger] pending_pre[pi_] == dirs0[d];
                    assert(wpi != pi as int) by {
                        if wpi == pi as int {
                            assert(dirs0[d] == dirs0[dhat]);
                        }
                    };
                    let wni: int = if wpi < pi as int {
                        wpi
                    } else {
                        wpi - 1
                    };
                    assert(0 <= wni < pending@.len() && pending@[wni] == dirs0[d]);
                    let wsi = choose|si: int|
                        0 <= si < stack_pre.len() && (#[trigger] stack_pre[si])@ == dirs0[d].path@;
                    assert(wsi != stack_pre.len() - 1) by {
                        if wsi == stack_pre.len() - 1 {
                            assert(stack_pre[wsi] == dir);
                            assert(dir@ == dirs0[dhat].path@);
                        }
                    };
                    assert(0 <= wsi < stack@.len() && stack@[wsi]@ == dirs0[d].path@);
                }
            };
        }
        let n = listing.entries.len();
        let mut k: usize = 0;
        while k < n
            invariant
                n == listing.entries@.len(),
                k <= n,
                store.wf(),
                reg.wf(),
                reg.allocations() == old(reg).allocations(),
                contains_job(reg@, id),
                state_of(reg@, id) is Running,
                run_processed(state_of(reg@, id)) <= processed,
                forall|q: u64|
                    q != id ==> (#[trigger] contains_job(reg@, q) <==> contains_job(reg0, q)),
                forall|q: u64|
                    q != id && contains_job(reg0, q) ==> #[trigger] state_of(reg@, q) == state_of(
                        reg0,
                        q,
                    ),
                listing_keys_unique(dirs0),
                0 <= dhat < dirs0.len(),
                listing == dirs0[dhat as int],
                dir_ok(roots@, dirs0[dhat as int].path@),
                forall|si: int| 0 <= si < stack@.len() ==> dir_ok(roots@, (#[trigger] stack@[si])@),
                forall|pi_: int|
                    0 <= pi_ < pending@.len() ==> listed_in(dirs0, #[trigger] pending@[pi_]),
                forall|pi_: int, pj: int|
                    0 <= pi_ < pj < pending@.len() ==> (#[trigger] pending@[pi_]).path@
                        != (#[trigger] pending@[pj]).path@,
                crawl_provenance(s_init, store@, dirs0, roots@, now),
                // the consumed listings so far, this one not yet among them
                forall|vi: int|
                    0 <= vi < visited.len() ==> 0 <= #[trigger] visited[vi] < dirs0.len(),
                forall|vi: int, vj: int|
                    0 <= vi < vj < visited.len() ==> #[trigger] visited[vi] != #[trigger] visited[vj],
                forall|vi: int|
                    0 <= vi < visited.len() ==> dir_ok(roots@, dirs0[#[trigger] visited[vi]].path@),
                forall|vi: int| 0 <= vi < visited.len() ==> #[trigger] visited[vi] != dhat,
                forall|vi: int, pi_: int|
                    0 <= vi < visited.len() && 0 <= pi_ < pending@.len() ==> (
                    #[trigger] pending@[pi_]).path@ != dirs0[#[trigger] visited[vi]].path@,
                forall|pi_: int|
                    0 <= pi_ < pending@.len() ==> (#[trigger] pending@[pi_]).path@
                        != dirs0[dhat as int].path@,
                forall|vi: int|
                    0 <= vi < visited.len() ==> listing_indexed(
                        store@,
                        dirs0,
                        #[trigger] visited[vi],
                    ),
                // the counter: all consumed entries plus this listing's prefix
                processed == clip_usize((entries_total(dirs0, visited) + k) as nat),
                // entries handled so far in this directory are indexed
                forall|k2: int|
                    0 <= k2 < k ==> contains_path(
                        store@,
                        spec_normalize((#[trigger] listing.entries@[k2]).path@),
                    ),
                // every root listing other than the one being processed is
                // still scheduled or already consumed
                forall|d: int|
                    0 <= d < dirs0.len() && d != dhat && is_root_path(
                        roots@,
                        (#[trigger] dirs0[d]).path@,
                    ) ==> {
                        ||| (listed_in(pending@, dirs0[d]) && on_stack(stack@, dirs0[d].path@))
                        ||| visited.contains(d)
                    },
            decreases n - k,
        {
            let m_path = listing.entries[k].path.clone();
            let m_name = listing.entries[k].name.clone();
            let m_is_dir = listing.entries[k].is_dir;
            let m_size = listing.entries[k].size;
            let e = build_index_entry(&m_path, &m_name, m_is_dir, m_size, now);
            let ghost eg = e;
            let epath = e.path.clone();
            let ghost s_pre = store@;
            proof {
                lemma_upsert_effect(s_pre, eg);
            }
            store.upsert(e);
            proof {
                let m = listing.entries@[k as int];
                assert(entry_built_from(eg, m, now));
                assert(entry_for(store@, eg.path@) == eg);
                // presence is monotone across the upsert
                assert forall|p: Seq<char>|
                    contains_path(s_pre, p) implies #[trigger] contains_path(store@, p) by {};
                // provenance is preserved: the fresh row has a witness in
                // this listing, every other row keeps its old witness
                assert forall|p: Seq<char>| #[trigger]
                    contains_path(store@, p) implies contains_path(s_init, p)
                    || provenance_witness(store@, dirs0, roots@, now, p) by {
                    if p == eg.path@ {
                        assert(0 <= k < dirs0[dhat as int].entries@.len());
                        assert(spec_normalize(dirs0[dhat as int].entries@[k as int].path@) == p);
                        assert(entry_built_from(
                            entry_for(store@, p),
                            dirs0[dhat as int].entries@[k as int],
                            now,
                        ));
                        assert(provenance_witness(store@, dirs0, roots@, now, p));
                    } else {
                        assert(contains_path(s_pre, p));
                        if !contains_path(s_init, p) {
                            assert(provenance_witness(s_pre, dirs0, roots@, now, p));
                            let (d, k2) = choose|d: int, k2: int|
                                {
                                    &&& 0 <= d < dirs0.len()
                                    &&& 0 <= k2 < dirs0[d].entries@.len()
                                    &&& dir_ok(roots@, dirs0[d].path@)
                                    &&& spec_normalize((#[trigger] dirs0[d].entries@[k2]).path@)
                                        == p
                                    &&& entry_built_from(
                                        entry_for(s_pre, p),
                                        dirs0[d].entries@[k2],
                                        now,
                                    )
                                };
                            assert(entry_for(store@, p) == entry_for(s_pre, p));
                            assert(provenance_witness(store@, dirs0, roots@, now, p));
                        }
                    }
                };
            }
            if processed < usize::MAX {
                processed = processed + 1;
            }
            proof {
                let t: nat = (entries_total(dirs0, visited) + k) as nat;
                assert(processed == clip_usize((t + 1) as nat)) by {
                    if t > usize::MAX {
                    } else if t == usize::MAX {
                    }
                };
            }
            let ghost stack_mid = stack@;
            if should_descend(epath.as_str(), m_is_dir) {
                stack.push(epath);
                proof {
                    assert(forall|si: int|
                        0 <= si < stack_mid.len() ==> stack@[si] == stack_mid[si]);
                    assert(dir_ok(roots@, stack@[stack_mid.len() as int]@));
                }
            }
            proof {
                // re-establish the schedule invariant: pending and visited
                // are untouched, surviving stack slots keep their values
                assert forall|d: int|
                    0 <= d < dirs0.len() && d != dhat && is_root_path(
                        roots@,
                        (#[trigger] dirs0[d]).path@,
                    ) implies {
                    ||| (listed_in(pending@, dirs0[d]) && on_stack(stack@, dirs0[d].path@))
                    ||| visited.contains(d)
                } by {
                    if on_stack(stack_mid, dirs0[d].path@) && listed_in(pending@, dirs0[d]) {
                        let wsi = choose|si: int|
                            0 <= si < stack_mid.len() && (#[trigger] stack_mid[si])@
                                == dirs0[d].path@;
                        assert(0 <= wsi < stack@.len() && stack@[wsi]@ == dirs0[d].path@);
                    }
                };
                // consumed listings stay indexed: presence is monotone
                // across the upsert
                assert forall|vi: int| 0 <= vi < visited.len() implies listing_indexed(
                    store@,
                    dirs0,
                    #[trigger] visited[vi],
                ) by {
                    assert(listing_indexed(s_pre, dirs0, visited[vi]));
                    assert forall|k2: int|
                        0 <= k2 < dirs0[visited[vi]].entries@.len() implies contains_path(
                        store@,
                        spec_normalize((#[trigger] dirs0[visited[vi]].entries@[k2]).path@),
                    ) by {
                        assert(contains_path(
                            s_pre,
                            spec_normalize(dirs0[visited[vi]].entries@[k2].path@),
                        ));
                    };
                };
                // entries handled so far, including this one, are indexed
                assert forall|k2: int| 0 <= k2 < k + 1 implies contains_path(
                    store@,
                    spec_normalize((#[trigger] listing.entries@[k2]).path@),
                ) by {
                    if k2 < k {
                        assert(contains_path(s_pre, spec_normalize(listing.entries@[k2].path@)));
                    } else {
                        assert(contains_path(store@, eg.path@));
                    }
                };
            }
            k = k + 1;
        }
        proof {
            // the listing is now consumed: it joins the visit record, its
            // entries are fully indexed, and the counter accounts for them
            assert(listing_indexed(store@, dirs0, dhat));
            let ghost visited_pre = visited;
            visited = visited.push(dhat);
            assert(forall|vi: int| 0 <= vi < visited_pre.len() ==> visited[vi] == visited_pre[vi]);
            assert(visited[visited_pre.len() as int] == dhat);
            assert(visited.drop_last() =~= visited_pre);
            assert(entries_total(dirs0, visited) == entries_total(dirs0, visited_pre) + n);
            assert forall|d: int|
                0 <= d < dirs0.len() && is_root_path(roots@, (#[trigger] dirs0[d]).path@) implies {
                ||| (listed_in(pending@, dirs0[d]) && on_stack(stack@, dirs0[d].path@))
                ||| visited.contains(d)
            } by {
                if d == dhat {
                    assert(visited[visited_pre.len() as int] == d);
                } else if visited_pre.contains(d) {
                    let w = choose|w: int| 0 <= w < visited_pre.len() && visited_pre[w] == d;
                    assert(visited[w] == d);
                }
            };
        }
    }
    proof {
        // the stack is empty, so no root listing is still scheduled: every
        // root listing was consumed, hence fully indexed
        assert forall|d: int|
            0 <= d < dirs0.len() && is_root_path(roots@, (#[trigger] dirs0[d]).path@) implies
            visited.contains(d) by {
            if on_stack(stack@, dirs0[d].path@) {
                let si = choose|si: int|
                    0 <= si < stack@.len() && (#[trigger] stack@[si])@ == dirs0[d].path@;
                assert(false);
            }
        };
        assert(is_visit_record(dirs0, roots@, visited));
        assert forall|d: int|
            0 <= d < dirs0.len() && is_root_path(roots@, (#[trigger] dirs0[d]).path@) implies
            listing_indexed(store@, dirs0, d) by {
            let w = choose|w: int| 0 <= w < visited.len() && visited[w] == d;
            assert(listing_indexed(store@, dirs0, visited[w]));
        };
    }
    reg.finish(id, processed);
    processed
}

/// Records the outcome of one per-entry store write for a crawl whose
/// storage engine can fail (write errors are surfaced unmodified and are the
/// one fatal error class): a successful upsert advances the job's counter
/// and records the path; the first failure marks the job failed with the
/// error's message, and the crawl stops — no partial-success salvage.
/// Returns whether the crawl should continue.
pub fn record_entry_outcome(
    reg: &mut JobRegistry,
    id: u64,
    path: String,
    outcome: Result<(), String>,
) -> (cont: bool)
    requires
        old(reg).wf(),
        contains_job(old(reg)@, id),
        state_of(old(reg)@, id) is Running,
        run_processed(state_of(old(reg)@, id)) < usize::MAX,
    ensures
        final(reg).wf(),
        final(reg).allocations() == old(reg).allocations(),
        contains_job(final(reg)@, id),
        crate::jobs::job_step_allowed(state_of(old(reg)@, id), state_of(final(reg)@, id)),
        match outcome {
            Ok(_) => cont && state_of(final(reg)@, id) == (IndexJobState::Running {
                processed: (run_processed(state_of(old(reg)@, id)) + 1) as usize,
                last_path: Some(path),
            }),
            Err(m) => !cont && state_of(final(reg)@, id) == (IndexJobState::Failed { message: m }),
        },
        forall|q: u64|
            q != id ==> (#[trigger] contains_job(final(reg)@, q) <==> contains_job(old(reg)@, q)),
        forall|q: u64|
            q != id && contains_job(old(reg)@, q) ==> #[trigger] state_of(final(reg)@, q)
                == state_of(old(reg)@, q),
{
    match outcome {
        Ok(_) => {
            let processed = match reg.status(id) {
                Some(IndexJobState::Running { processed, .. }) => processed,
                _ => {
                    proof {
                        assert(false);
                    }
                    0
                },
            };
            reg.update_running(id, processed + 1, Some(path));
            true
        },
        Err(m) => {
            reg.fail(id, m);
            false
        },
    }
}

} // verus!
