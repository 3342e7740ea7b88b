//! Drive listings and directory-browse items: the plain-value shapes that
//! the caller's disk enumeration and directory reads are turned into before
//! they are shown or fed into a crawl.

use vstd::prelude::*;
use crate::chars::{lemma_lex_total, lemma_lex_trans, lex_le, lex_le_chars, lower_seq, to_chars, to_lower_chars};
use crate::search::FileEntry;

verus! {

/// One mounted volume as shown to the caller.
pub struct DriveInfo {
    pub id: String,
    pub label: String,
    pub mount_point: String,
    pub total_bytes: u64,
    pub available_bytes: u64,
    pub file_system: String,
    pub last_scan_epoch: Option<i64>,
}

/// One browsed item, as a first-level scan reports it.
pub struct FsItem {
    pub name: String,
    pub is_dir: bool,
    pub size: Option<u64>,
    /// A human-readable modification time, when one could be derived.
    pub modified: Option<String>,
    pub path: String,
}

/// What the caller's disk enumeration observed about one mounted volume.
pub struct DiskObs {
    pub mount_point: String,
    pub file_system: String,
    pub total_bytes: u64,
    pub available_bytes: u64,
}

/// The drive row built from one disk observation at scan time `now`.
pub open spec fn drive_of_disk(d: DriveInfo, obs: DiskObs, now: Option<i64>) -> bool {
    &&& d.id@ == obs.mount_point@
    &&& d.label@ == obs.mount_point@
    &&& d.mount_point@ == obs.mount_point@
    &&& d.total_bytes == obs.total_bytes
    &&& d.available_bytes == obs.available_bytes
    &&& d.file_system@ == obs.file_system@
    &&& d.last_scan_epoch == now
}

/// Builds the drive list the caller shows: one row per observed disk, in
/// order, and — when the home directory is not already one of the mount
/// points — an extra home row with empty space figures.
pub fn build_drive_list(disks: &Vec<DiskObs>, home: Option<&String>, now: Option<i64>) -> (r: Vec<
    DriveInfo,
>)
    ensures
        forall|i: int|
            0 <= i < disks@.len() ==> drive_of_disk(#[trigger] r@[i], disks@[i], now),
        match home {
            Some(h) => {
                if exists|i: int|
                    0 <= i < disks@.len() && ((#[trigger] disks@[i]).mount_point)@ == h@ {
                    r@.len() == disks@.len()
                } else {
                    &&& r@.len() == disks@.len() + 1
                    &&& r@.last().mount_point@ == h@
                    &&& r@.last().label@ == "Home: "@ + h@
                    &&& r@.last().id@ == "home:"@ + h@
                    &&& r@.last().total_bytes == 0
                    &&& r@.last().available_bytes == 0
                    &&& r@.last().last_scan_epoch is None
                }
            },
            None => r@.len() == disks@.len(),
        },
{
    let mut r: Vec<DriveInfo> = Vec::new();
    let mut i: usize = 0;
    while i < disks.len()
        invariant
            i <= disks@.len(),
            r@.len() == i,
            forall|j: int|
                0 <= j < i ==> drive_of_disk(#[trigger] r@[j], disks@[j], now),
            forall|j: int|
                0 <= j < i ==> ((#[trigger] r@[j]).mount_point)@ == (disks@[j].mount_point)@,
        decreases disks@.len() - i,
    {
        let obs = &disks[i];
        r.push(
            DriveInfo {
                id: obs.mount_point.clone(),
                label: obs.mount_point.clone(),
                mount_point: obs.mount_point.clone(),
                total_bytes: obs.total_bytes,
                available_bytes: obs.available_bytes,
                file_system: obs.file_system.clone(),
                last_scan_epoch: now,
            },
        );
        i = i + 1;
    }
    if let Some(h) = home {
        let mut seen = false;
        let mut k: usize = 0;
        while k < disks.len()
            invariant
                k <= disks@.len(),
                seen == exists|j: int|
                    0 <= j < k && ((#[trigger] disks@[j]).mount_point)@ == h@,
            decreases disks@.len() - k,
        {
            if disks[k].mount_point == *h {
                proof {
                    assert((disks@[k as int].mount_point)@ == h@);
                }
                seen = true;
            }
            k = k + 1;
        }
        if !seen {
            let mut id = "home:".to_owned();
            id.append(h.as_str());
            let mut label = "Home: ".to_owned();
            label.append(h.as_str());
            let ghost r_pre = r@;
            r.push(
                DriveInfo {
                    id,
                    label,
                    mount_point: h.clone(),
                    total_bytes: 0,
                    available_bytes: 0,
                    file_system: "".to_owned(),
                    last_scan_epoch: None,
                },
            );
            proof {
                assert(forall|j: int| 0 <= j < r_pre.len() ==> r@[j] == r_pre[j]);
            }
        }
    }
    r
}

impl FsItem {
    /// A structural copy of the item.
    pub fn duplicate(&self) -> (r: FsItem)
        ensures
            r == *self,
    {
        FsItem {
            name: self.name.clone(),
            is_dir: self.is_dir,
            size: self.size,
            modified: match &self.modified {
                Some(m) => Some(m.clone()),
                None => None,
            },
            path: self.path.clone(),
        }
    }
}

/// The browse listing order: directories before files, and within each kind
/// case-insensitive name order.
pub open spec fn browse_le(a: FileEntry, b: FileEntry) -> bool {
    if a.is_dir != b.is_dir {
        a.is_dir
    } else {
        lex_le(lower_seq(a.name@), lower_seq(b.name@))
    }
}

proof fn lemma_browse_le_total(a: FileEntry, b: FileEntry)
    ensures
        browse_le(a, b) || browse_le(b, a),
{
    if a.is_dir == b.is_dir {
        lemma_lex_total(lower_seq(a.name@), lower_seq(b.name@));
    }
}

proof fn lemma_browse_le_trans(a: FileEntry, b: FileEntry, c: FileEntry)
    requires
        browse_le(a, b),
        browse_le(b, c),
    ensures
        browse_le(a, c),
{
    if a.is_dir == b.is_dir && b.is_dir == c.is_dir {
        lemma_lex_trans(lower_seq(a.name@), lower_seq(b.name@), lower_seq(c.name@));
    }
}

fn browse_le_exec(a: &FileEntry, b: &FileEntry) -> (r: bool)
    ensures
        r == browse_le(*a, *b),
{
    if a.is_dir != b.is_dir {
        a.is_dir
    } else {
        let an = to_lower_chars(&to_chars(a.name.as_str()));
        let bn = to_lower_chars(&to_chars(b.name.as_str()));
        lex_le_chars(&an, &bn)
    }
}

/// Sorts a browse listing: directories first, then case-insensitive name
/// order. The result is a rearrangement of the input.
#[verifier::rlimit(100)]
pub fn sort_file_entries(v: Vec<FileEntry>) -> (r: Vec<FileEntry>)
    ensures
        r@.len() == v@.len(),
        forall|i: int, j: int|
            0 <= i < j < r@.len() ==> browse_le(#[trigger] r@[i], #[trigger] r@[j]),
        forall|i: int| 0 <= i < r@.len() ==> v@.contains(#[trigger] r@[i]),
        forall|j: int| 0 <= j < v@.len() ==> r@.contains(#[trigger] v@[j]),
{
    let ghost v0 = v@;
    let mut work = v;
    let mut out: Vec<FileEntry> = Vec::new();
    proof {
        assert forall|k: int| 0 <= k < work@.len() implies v0.contains(#[trigger] work@[k]) by {
            assert(v0[k] == work@[k]);
        };
        assert forall|j: int| 0 <= j < v0.len() implies out@.contains(#[trigger] v0[j])
            || work@.contains(v0[j]) by {
            assert(work@[j] == v0[j]);
        };
    }
    while work.len() > 0
        invariant
            out@.len() + work@.len() == v0.len(),
            forall|i: int, j: int|
                0 <= i < j < out@.len() ==> browse_le(#[trigger] out@[i], #[trigger] out@[j]),
            forall|i: int, k: int|
                0 <= i < out@.len() && 0 <= k < work@.len() ==> browse_le(
                    #[trigger] out@[i],
                    #[trigger] work@[k],
                ),
            forall|i: int| 0 <= i < out@.len() ==> v0.contains(#[trigger] out@[i]),
            forall|k: int| 0 <= k < work@.len() ==> v0.contains(#[trigger] work@[k]),
            forall|j: int|
                0 <= j < v0.len() ==> out@.contains(#[trigger] v0[j]) || work@.contains(v0[j]),
        decreases work@.len(),
    {
        let mut best: usize = 0;
        let mut m: usize = 1;
        proof {
            lemma_browse_le_total(work@[0], work@[0]);
        }
        while m < work.len()
            invariant
                work@.len() > 0,
                best < work@.len(),
                m <= work@.len(),
                forall|k: int|
                    0 <= k < m ==> browse_le(work@[best as int], #[trigger] work@[k]),
            decreases work@.len() - m,
        {
            if !browse_le_exec(&work[best], &work[m]) {
                proof {
                    lemma_browse_le_total(work@[best as int], work@[m as int]);
                    assert forall|k: int| 0 <= k < m + 1 implies browse_le(
                        work@[m as int],
                        #[trigger] work@[k],
                    ) by {
                        if k < m {
                            lemma_browse_le_trans(work@[m as int], work@[best as int], work@[k]);
                        } else {
                            lemma_browse_le_total(work@[m as int], work@[m as int]);
                        }
                    };
                }
                best = m;
            } else {
                proof {
                    lemma_browse_le_total(work@[m as int], work@[m as int]);
                    assert forall|k: int| 0 <= k < m + 1 implies browse_le(
                        work@[best as int],
                        #[trigger] work@[k],
                    ) by {};
                }
            }
            m = m + 1;
        }
        let ghost work_pre = work@;
        let ghost out_pre = out@;
        let picked = work.remove(best);
        out.push(picked);
        proof {
            assert(picked == work_pre[best as int]);
            assert(forall|k: int|
                0 <= k < work@.len() ==> work@[k] == (if k < best as int {
                    work_pre[k]
                } else {
                    work_pre[k + 1]
                }));
            assert(forall|i: int| 0 <= i < out_pre.len() ==> out@[i] == out_pre[i]);
            assert(out@[out_pre.len() as int] == picked);
            assert forall|k: int| 0 <= k < work@.len() implies v0.contains(
                #[trigger] work@[k],
            ) by {
                let ko: int = if k < best as int {
                    k
                } else {
                    k + 1
                };
                assert(work@[k] == work_pre[ko]);
                assert(v0.contains(work_pre[ko]));
            };
            assert forall|j: int| 0 <= j < v0.len() implies out@.contains(#[trigger] v0[j])
                || work@.contains(v0[j]) by {
                if out_pre.contains(v0[j]) {
                    let w = choose|i: int| 0 <= i < out_pre.len() && out_pre[i] == v0[j];
                    assert(out@[w] == v0[j]);
                } else {
                    let w = choose|k: int| 0 <= k < work_pre.len() && work_pre[k] == v0[j];
                    if w == best as int {
                        assert(out@[out_pre.len() as int] == v0[j]);
                    } else {
                        let wn: int = if w < best as int {
                            w
                        } else {
                            w - 1
                        };
                        assert(work@[wn] == v0[j]);
                    }
                }
            };
        }
    }
    out
}

/// The recent-items order: most recently modified first, items with a known
/// modification time before those without.
pub open spec fn recent_le(a: FsItem, b: FsItem) -> bool {
    match (a.modified, b.modified) {
        (Some(ma), Some(mb)) => lex_le(mb@, ma@),
        (Some(_), None) => true,
        (None, Some(_)) => false,
        (None, None) => true,
    }
}

proof fn lemma_recent_le_total(a: FsItem, b: FsItem)
    ensures
        recent_le(a, b) || recent_le(b, a),
{
    match (a.modified, b.modified) {
        (Some(ma), Some(mb)) => lemma_lex_total(mb@, ma@),
        _ => {},
    }
}

proof fn lemma_recent_le_trans(a: FsItem, b: FsItem, c: FsItem)
    requires
        recent_le(a, b),
        recent_le(b, c),
    ensures
        recent_le(a, c),
{
    match (a.modified, b.modified, c.modified) {
        (Some(ma), Some(mb), Some(mc)) => lemma_lex_trans(mc@, mb@, ma@),
        _ => {},
    }
}

fn recent_le_exec(a: &FsItem, b: &FsItem) -> (r: bool)
    ensures
        r == recent_le(*a, *b),
{
    match (&a.modified, &b.modified) {
        (Some(ma), Some(mb)) => {
            let mav = to_chars(ma.as_str());
            let mbv = to_chars(mb.as_str());
            lex_le_chars(&mbv, &mav)
        },
        (Some(_), None) => true,
        (None, Some(_)) => false,
        (None, None) => true,
    }
}

/// Orders a first-level scan for the recent-items view — most recently
/// modified first — and keeps at most `limit` items.
#[verifier::rlimit(100)]
pub fn order_recent_items(items: Vec<FsItem>, limit: usize) -> (r: Vec<FsItem>)
    ensures
        r@.len() == (if items@.len() > limit {
            limit as int
        } else {
            items@.len() as int
        }),
        forall|i: int, j: int|
            0 <= i < j < r@.len() ==> recent_le(#[trigger] r@[i], #[trigger] r@[j]),
        forall|i: int| 0 <= i < r@.len() ==> items@.contains(#[trigger] r@[i]),
{
    let ghost v0 = items@;
    let mut work = items;
    let mut out: Vec<FsItem> = Vec::new();
    proof {
        assert forall|k: int| 0 <= k < work@.len() implies v0.contains(#[trigger] work@[k]) by {
            assert(v0[k] == work@[k]);
        };
    }
    while work.len() > 0
        invariant
            out@.len() + work@.len() == v0.len(),
            forall|i: int, j: int|
                0 <= i < j < out@.len() ==> recent_le(#[trigger] out@[i], #[trigger] out@[j]),
            forall|i: int, k: int|
                0 <= i < out@.len() && 0 <= k < work@.len() ==> recent_le(
                    #[trigger] out@[i],
                    #[trigger] work@[k],
                ),
            forall|i: int| 0 <= i < out@.len() ==> v0.contains(#[trigger] out@[i]),
            forall|k: int| 0 <= k < work@.len() ==> v0.contains(#[trigger] work@[k]),
        decreases work@.len(),
    {
        let mut best: usize = 0;
        let mut m: usize = 1;
        proof {
            lemma_recent_le_total(work@[0], work@[0]);
        }
        while m < work.len()
            invariant
                work@.len() > 0,
                best < work@.len(),
                m <= work@.len(),
                forall|k: int|
                    0 <= k < m ==> recent_le(work@[best as int], #[trigger] work@[k]),
            decreases work@.len() - m,
        {
            if !recent_le_exec(&work[best], &work[m]) {
                proof {
                    lemma_recent_le_total(work@[best as int], work@[m as int]);
                    assert forall|k: int| 0 <= k < m + 1 implies recent_le(
                        work@[m as int],
                        #[trigger] work@[k],
                    ) by {
                        if k < m {
                            lemma_recent_le_trans(work@[m as int], work@[best as int], work@[k]);
                        } else {
                            lemma_recent_le_total(work@[m as int], work@[m as int]);
                        }
                    };
                }
                best = m;
            } else {
                proof {
                    lemma_recent_le_total(work@[m as int], work@[m as int]);
                    assert forall|k: int| 0 <= k < m + 1 implies recent_le(
                        work@[best as int],
                        #[trigger] work@[k],
                    ) by {};
                }
            }
            m = m + 1;
        }
        let ghost work_pre = work@;
        let ghost out_pre = out@;
        let picked = work.remove(best);
        out.push(picked);
        proof {
            assert(picked == work_pre[best as int]);
            assert(forall|k: int|
                0 <= k < work@.len() ==> work@[k] == (if k < best as int {
                    work_pre[k]
                } else {
                    work_pre[k + 1]
                }));
            assert(forall|i: int| 0 <= i < out_pre.len() ==> out@[i] == out_pre[i]);
            assert(out@[out_pre.len() as int] == picked);
            assert forall|k: int| 0 <= k < work@.len() implies v0.contains(
                #[trigger] work@[k],
            ) by {
                let ko: int = if k < best as int {
                    k
                } else {
                    k + 1
                };
                assert(work@[k] == work_pre[ko]);
                assert(v0.contains(work_pre[ko]));
            };
        }
    }
    let ghost full = out@;
    if out.len() > limit {
        out.truncate(limit);
        proof {
            assert(out@ =~= full.subrange(0, limit as int));
        }
    }
    out
}

} // verus!
