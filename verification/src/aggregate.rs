//! Aggregate views of the index: row counts per drive, per drive and file
//! type, and per report category, each sorted by descending count. These
//! serve the dashboards that poll the index independently of crawl and watch
//! activity.

use vstd::prelude::*;
use crate::doc_type::{category_of, spec_category};
use crate::store::{FileIndexEntry, FileType, IndexStore};

verus! {

/// How many rows carry drive `d`.
pub open spec fn count_drive(s: Seq<FileIndexEntry>, d: Seq<char>) -> nat
    decreases s.len(),
{
    if s.len() == 0 {
        0
    } else {
        count_drive(s.drop_last(), d) + if s.last().drive@ == d {
            1nat
        } else {
            0nat
        }
    }
}

/// The stored spelling of a file type.
pub open spec fn spec_ft_str(ft: FileType) -> Seq<char> {
    if ft is Dir {
        "dir"@
    } else {
        "file"@
    }
}

/// How many rows carry drive `d` and file type spelling `fts`.
pub open spec fn count_drive_type(s: Seq<FileIndexEntry>, d: Seq<char>, fts: Seq<char>) -> nat
    decreases s.len(),
{
    if s.len() == 0 {
        0
    } else {
        count_drive_type(s.drop_last(), d, fts) + if s.last().drive@ == d && spec_ft_str(
            s.last().file_type,
        ) == fts {
            1nat
        } else {
            0nat
        }
    }
}

/// How many rows fall into report category `c`.
pub open spec fn count_category(s: Seq<FileIndexEntry>, c: Seq<char>) -> nat
    decreases s.len(),
{
    if s.len() == 0 {
        0
    } else {
        count_category(s.drop_last(), c) + if spec_category(s.last().doc_type@) == c {
            1nat
        } else {
            0nat
        }
    }
}

/// Some output row names drive `d`.
pub open spec fn drive_listed(r: Seq<(String, usize)>, d: Seq<char>) -> bool {
    exists|i: int| 0 <= i < r.len() && ((#[trigger] r[i]).0)@ == d
}

/// Some output row names the pair of drive `d` and file type `fts`.
pub open spec fn drive_type_listed(r: Seq<(String, String, usize)>, d: Seq<char>, fts: Seq<char>) -> bool {
    exists|i: int| 0 <= i < r.len() && ((#[trigger] r[i]).0)@ == d && (r[i].1)@ == fts
}

/// Some output row names category `c`.
pub open spec fn category_listed(r: Seq<(String, usize)>, c: Seq<char>) -> bool {
    exists|i: int| 0 <= i < r.len() && ((#[trigger] r[i]).0)@ == c
}

/// A count at most the number of rows counted over.
proof fn lemma_count_drive_le(s: Seq<FileIndexEntry>, d: Seq<char>)
    ensures
        count_drive(s, d) <= s.len(),
    decreases s.len(),
{
    if s.len() > 0 {
        lemma_count_drive_le(s.drop_last(), d);
    }
}

proof fn lemma_count_drive_type_le(s: Seq<FileIndexEntry>, d: Seq<char>, fts: Seq<char>)
    ensures
        count_drive_type(s, d, fts) <= s.len(),
    decreases s.len(),
{
    if s.len() > 0 {
        lemma_count_drive_type_le(s.drop_last(), d, fts);
    }
}

proof fn lemma_count_category_le(s: Seq<FileIndexEntry>, c: Seq<char>)
    ensures
        count_category(s, c) <= s.len(),
    decreases s.len(),
{
    if s.len() > 0 {
        lemma_count_category_le(s.drop_last(), c);
    }
}

#[verifier::rlimit(100)]
fn sort_pairs_by_count(v: Vec<(String, usize)>) -> (r: Vec<(String, usize)>)
    requires
        forall|i: int, j: int| 0 <= i < j < v@.len() ==> ((#[trigger] v@[i]).0)@ != ((
        #[trigger] v@[j]).0)@,
    ensures
        r@.len() == v@.len(),
        forall|i: int, j: int| 0 <= i < j < r@.len() ==> (#[trigger] r@[i]).1 >= (#[trigger] r@[j]).1,
        forall|i: int| 0 <= i < r@.len() ==> v@.contains(#[trigger] r@[i]),
        forall|j: int| 0 <= j < v@.len() ==> r@.contains(#[trigger] v@[j]),
        forall|i: int, j: int| 0 <= i < j < r@.len() ==> ((#[trigger] r@[i]).0)@ != ((
        #[trigger] r@[j]).0)@,
{
    let ghost v0 = v@;
    let mut work = v;
    let mut out: Vec<(String, usize)> = Vec::new();
    proof {
        assert forall|k: int| 0 <= k < work@.len() implies v0.contains(#[trigger] work@[k]) by {
            assert(v0[k] == work@[k]);
        };
        assert forall|j: int| 0 <= j < v0.len() implies out@.contains(#[trigger] v0[j])
            || work@.contains(v0[j]) by {
            assert(work@[j] == v0[j]);
        };
    }
    while work.len() > 0
        invariant
            out@.len() + work@.len() == v0.len(),
            forall|i: int, j: int| 0 <= i < j < work@.len() ==> ((#[trigger] work@[i]).0)@ != ((
            #[trigger] work@[j]).0)@,
            forall|i: int, j: int| 0 <= i < j < out@.len() ==> ((#[trigger] out@[i]).0)@ != ((
            #[trigger] out@[j]).0)@,
            forall|i: int, k: int|
                0 <= i < out@.len() && 0 <= k < work@.len() ==> ((#[trigger] out@[i]).0)@ != ((
                #[trigger] work@[k]).0)@,
            forall|i: int, j: int| 0 <= i < j < out@.len() ==> (#[trigger] out@[i]).1
                >= (#[trigger] out@[j]).1,
            forall|i: int, k: int|
                0 <= i < out@.len() && 0 <= k < work@.len() ==> (#[trigger] out@[i]).1
                    >= (#[trigger] work@[k]).1,
            forall|i: int| 0 <= i < out@.len() ==> v0.contains(#[trigger] out@[i]),
            forall|k: int| 0 <= k < work@.len() ==> v0.contains(#[trigger] work@[k]),
            forall|j: int|
                0 <= j < v0.len() ==> out@.contains(#[trigger] v0[j]) || work@.contains(v0[j]),
        decreases work@.len(),
    {
        let mut best: usize = 0;
        let mut m: usize = 1;
        while m < work.len()
            invariant
                work@.len() > 0,
                best < work@.len(),
                m <= work@.len(),
                forall|k: int| 0 <= k < m ==> work@[best as int].1 >= (#[trigger] work@[k]).1,
            decreases work@.len() - m,
        {
            if work[m].1 > work[best].1 {
                best = m;
            }
            m = m + 1;
        }
        let ghost work_pre = work@;
        let ghost out_pre = out@;
        let picked = work.remove(best);
        out.push(picked);
        proof {
            assert(picked == work_pre[best as int]);
            assert(forall|k: int|
                0 <= k < work@.len() ==> work@[k] == (if k < best as int {
                    work_pre[k]
                } else {
                    work_pre[k + 1]
                }));
            assert(forall|i: int| 0 <= i < out_pre.len() ==> out@[i] == out_pre[i]);
            assert(out@[out_pre.len() as int] == picked);
            assert forall|k: int| 0 <= k < work@.len() implies v0.contains(
                #[trigger] work@[k],
            ) by {
                let ko: int = if k < best as int {
                    k
                } else {
                    k + 1
                };
                assert(work@[k] == work_pre[ko]);
                assert(v0.contains(work_pre[ko]));
            };
            assert forall|j: int| 0 <= j < v0.len() implies out@.contains(#[trigger] v0[j])
                || work@.contains(v0[j]) by {
                if out_pre.contains(v0[j]) {
                    let w = choose|i: int| 0 <= i < out_pre.len() && out_pre[i] == v0[j];
                    assert(out@[w] == v0[j]);
                } else {
                    let w = choose|k: int| 0 <= k < work_pre.len() && work_pre[k] == v0[j];
                    if w == best as int {
                        assert(out@[out_pre.len() as int] == v0[j]);
                    } else {
                        let wn: int = if w < best as int {
                            w
                        } else {
                            w - 1
                        };
                        assert(work@[wn] == v0[j]);
                    }
                }
            };
        }
    }
    out
}

/// Row counts per drive, largest group first, at most `limit` groups (1000
/// when none is given). Every group's count is exact and positive, every
/// drive is listed unless the limit cut the list short.
#[verifier::rlimit(100)]
pub fn get_files_per_drive(store: &IndexStore, limit: Option<usize>) -> (r: Vec<(String, usize)>)
    requires
        store.wf(),
    ensures
        forall|i: int|
            0 <= i < r@.len() ==> (#[trigger] r@[i]).1 == count_drive(store@, (r@[i].0)@)
                && r@[i].1 > 0,
        forall|i: int, j: int| 0 <= i < j < r@.len() ==> ((#[trigger] r@[i]).0)@ != ((
        #[trigger] r@[j]).0)@,
        forall|i: int, j: int| 0 <= i < j < r@.len() ==> (#[trigger] r@[i]).1 >= (#[trigger] r@[j]).1,
        r@.len() <= (match limit {
            Some(l) => l,
            None => 1000,
        }),
        forall|k: int|
            0 <= k < store@.len() ==> drive_listed(r@, (#[trigger] store@[k]).drive@) || r@.len()
                == (match limit {
                Some(l) => l,
                None => 1000,
            }),
{
    let lim = match limit {
        Some(l) => l,
        None => 1000,
    };
    let n = store.len();
    let mut acc: Vec<(String, usize)> = Vec::new();
    let mut j: usize = 0;
    while j < n
        invariant
            store.wf(),
            n == store@.len(),
            j <= n,
            acc@.len() <= j,
            forall|g: int|
                0 <= g < acc@.len() ==> (#[trigger] acc@[g]).1 == count_drive(
                    store@.subrange(0, j as int),
                    (acc@[g].0)@,
                ) && acc@[g].1 > 0,
            forall|g: int, h: int| 0 <= g < h < acc@.len() ==> ((#[trigger] acc@[g]).0)@ != ((
            #[trigger] acc@[h]).0)@,
            forall|k: int| 0 <= k < j ==> drive_listed(acc@, (#[trigger] store@[k]).drive@),
        decreases n - j,
    {
        let d = store.entry_at(j).drive.clone();
        let ghost acc_pre = acc@;
        proof {
            assert(store@.subrange(0, j + 1 as int).drop_last() =~= store@.subrange(0, j as int));
            assert(store@.subrange(0, j + 1 as int).last() == store@[j as int]);
            lemma_count_drive_le(store@.subrange(0, j as int), d@);
        }
        let slot = find_key(&acc, &d);
        if let Some(g) = slot {
            let key = acc[g].0.clone();
            let cnt = acc[g].1;
            proof {
                assert(cnt == count_drive(store@.subrange(0, j as int), d@));
                assert(cnt < usize::MAX) by {
                    assert(cnt <= j && j < usize::MAX);
                };
            }
            acc[g] = (key, cnt + 1);
            proof {
                assert forall|g2: int| 0 <= g2 < acc@.len() implies (#[trigger] acc@[g2]).1
                    == count_drive(store@.subrange(0, j + 1 as int), (acc@[g2].0)@) && acc@[g2].1
                    > 0 by {
                    if g2 != g as int {
                        assert(acc@[g2] == acc_pre[g2]);
                        assert((acc_pre[g2].0)@ != d@);
                    }
                };
                assert forall|k: int| 0 <= k < j + 1 implies drive_listed(
                    acc@,
                    (#[trigger] store@[k]).drive@,
                ) by {
                    if k < j {
                        let w = choose|i: int|
                            0 <= i < acc_pre.len() && ((#[trigger] acc_pre[i]).0)@
                                == store@[k].drive@;
                        assert(((acc@[w]).0)@ == store@[k].drive@);
                    } else {
                        assert(((acc@[g as int]).0)@ == store@[k].drive@);
                    }
                };
            }
        } else {
            acc.push((d, 1));
            proof {
                assert(forall|h: int| 0 <= h < acc_pre.len() ==> acc@[h] == acc_pre[h]);
                assert forall|g2: int| 0 <= g2 < acc@.len() implies (#[trigger] acc@[g2]).1
                    == count_drive(store@.subrange(0, j + 1 as int), (acc@[g2].0)@) && acc@[g2].1
                    > 0 by {
                    if g2 < acc_pre.len() {
                        assert((acc_pre[g2].0)@ != store@[j as int].drive@);
                    } else {
                        assert(count_drive(store@.subrange(0, j as int), store@[j as int].drive@)
                            == 0) by {
                            if count_drive(store@.subrange(0, j as int), store@[j as int].drive@)
                                > 0 {
                                lemma_count_positive_means_listed(
                                    store@.subrange(0, j as int),
                                    store@[j as int].drive@,
                                );
                                assert(false);
                            }
                        };
                    }
                };
                assert forall|k: int| 0 <= k < j + 1 implies drive_listed(
                    acc@,
                    (#[trigger] store@[k]).drive@,
                ) by {
                    if k < j {
                        let w = choose|i: int|
                            0 <= i < acc_pre.len() && ((#[trigger] acc_pre[i]).0)@
                                == store@[k].drive@;
                        assert(((acc@[w]).0)@ == store@[k].drive@);
                    } else {
                        assert(((acc@[acc_pre.len() as int]).0)@ == store@[k].drive@);
                    }
                };
            }
        }
        j = j + 1;
    }
    proof {
        assert(store@.subrange(0, n as int) =~= store@);
    }
    let ghost acc0 = acc@;
    let mut sorted = sort_pairs_by_count(acc);
    proof {
        assert forall|i: int| 0 <= i < sorted@.len() implies (#[trigger] sorted@[i]).1
            == count_drive(store@, (sorted@[i].0)@) && sorted@[i].1 > 0 by {
            assert(acc0.contains(sorted@[i]));
            let w = choose|g: int| 0 <= g < acc0.len() && acc0[g] == sorted@[i];
        };
    }
    let ghost sorted0 = sorted@;
    if sorted.len() > lim {
        sorted.truncate(lim);
        proof {
            assert(sorted@ =~= sorted0.subrange(0, lim as int));
        }
    } else {
        proof {
            assert forall|k: int| 0 <= k < store@.len() implies drive_listed(
                sorted@,
                (#[trigger] store@[k]).drive@,
            ) by {
                let w = choose|i: int|
                    0 <= i < acc0.len() && ((#[trigger] acc0[i]).0)@ == store@[k].drive@;
                assert(sorted@.contains(acc0[w]));
                let w2 = choose|i: int| 0 <= i < sorted@.len() && sorted@[i] == acc0[w];
                assert(((sorted@[w2]).0)@ == store@[k].drive@);
            };
        }
    }
    sorted
}

fn find_key(acc: &Vec<(String, usize)>, d: &String) -> (r: Option<usize>)
    ensures
        match r {
            Some(g) => g < acc@.len() && ((acc@[g as int]).0)@ == d@,
            None => forall|h: int| 0 <= h < acc@.len() ==> ((#[trigger] acc@[h]).0)@ != d@,
        },
{
    let mut g: usize = 0;
    while g < acc.len()
        invariant
            g <= acc@.len(),
            forall|h: int| 0 <= h < g ==> ((#[trigger] acc@[h]).0)@ != d@,
        decreases acc@.len() - g,
    {
        if acc[g].0 == *d {
            return Some(g);
        }
        g = g + 1;
    }
    None
}

/// A drive with a positive count has a row carrying it.
proof fn lemma_count_positive_means_listed(s: Seq<FileIndexEntry>, d: Seq<char>)
    requires
        count_drive(s, d) > 0,
    ensures
        exists|k: int| 0 <= k < s.len() && (#[trigger] s[k]).drive@ == d,
    decreases s.len(),
{
    if s.len() > 0 {
        if s.last().drive@ == d {
            assert(s[s.len() - 1].drive@ == d);
        } else {
            lemma_count_positive_means_listed(s.drop_last(), d);
            let k = choose|k: int|
                0 <= k < s.drop_last().len() && (#[trigger] s.drop_last()[k]).drive@ == d;
            assert(s[k].drive@ == d);
        }
    }
}

#[verifier::rlimit(100)]
fn sort_triples_by_count(v: Vec<(String, String, usize)>) -> (r: Vec<(String, String, usize)>)
    requires
        forall|i: int, j: int|
            0 <= i < j < v@.len() ==> ((#[trigger] v@[i]).0)@ != ((#[trigger] v@[j]).0)@ || (
            v@[i].1)@ != (v@[j].1)@,
    ensures
        r@.len() == v@.len(),
        forall|i: int, j: int| 0 <= i < j < r@.len() ==> (#[trigger] r@[i]).2 >= (#[trigger] r@[j]).2,
        forall|i: int| 0 <= i < r@.len() ==> v@.contains(#[trigger] r@[i]),
        forall|j: int| 0 <= j < v@.len() ==> r@.contains(#[trigger] v@[j]),
        forall|i: int, j: int|
            0 <= i < j < r@.len() ==> ((#[trigger] r@[i]).0)@ != ((#[trigger] r@[j]).0)@ || (
            r@[i].1)@ != (r@[j].1)@,
{
    let ghost v0 = v@;
    let mut work = v;
    let mut out: Vec<(String, String, usize)> = Vec::new();
    proof {
        assert forall|k: int| 0 <= k < work@.len() implies v0.contains(#[trigger] work@[k]) by {
            assert(v0[k] == work@[k]);
        };
        assert forall|j: int| 0 <= j < v0.len() implies out@.contains(#[trigger] v0[j])
            || work@.contains(v0[j]) by {
            assert(work@[j] == v0[j]);
        };
    }
    while work.len() > 0
        invariant
            out@.len() + work@.len() == v0.len(),
            forall|i: int, j: int|
                0 <= i < j < work@.len() ==> ((#[trigger] work@[i]).0)@ != ((
                #[trigger] work@[j]).0)@ || (work@[i].1)@ != (work@[j].1)@,
            forall|i: int, j: int|
                0 <= i < j < out@.len() ==> ((#[trigger] out@[i]).0)@ != ((#[trigger] out@[j]).0)@
                    || (out@[i].1)@ != (out@[j].1)@,
            forall|i: int, k: int|
                0 <= i < out@.len() && 0 <= k < work@.len() ==> ((#[trigger] out@[i]).0)@ != ((
                #[trigger] work@[k]).0)@ || (out@[i].1)@ != (work@[k].1)@,
            forall|i: int, j: int| 0 <= i < j < out@.len() ==> (#[trigger] out@[i]).2
                >= (#[trigger] out@[j]).2,
            forall|i: int, k: int|
                0 <= i < out@.len() && 0 <= k < work@.len() ==> (#[trigger] out@[i]).2
                    >= (#[trigger] work@[k]).2,
            forall|i: int| 0 <= i < out@.len() ==> v0.contains(#[trigger] out@[i]),
            forall|k: int| 0 <= k < work@.len() ==> v0.contains(#[trigger] work@[k]),
            forall|j: int|
                0 <= j < v0.len() ==> out@.contains(#[trigger] v0[j]) || work@.contains(v0[j]),
        decreases work@.len(),
    {
        let mut best: usize = 0;
        let mut m: usize = 1;
        while m < work.len()
            invariant
                work@.len() > 0,
                best < work@.len(),
                m <= work@.len(),
                forall|k: int| 0 <= k < m ==> work@[best as int].2 >= (#[trigger] work@[k]).2,
            decreases work@.len() - m,
        {
            if work[m].2 > work[best].2 {
                best = m;
            }
            m = m + 1;
        }
        let ghost work_pre = work@;
        let ghost out_pre = out@;
        let picked = work.remove(best);
        out.push(picked);
        proof {
            assert(picked == work_pre[best as int]);
            assert(forall|k: int|
                0 <= k < work@.len() ==> work@[k] == (if k < best as int {
                    work_pre[k]
                } else {
                    work_pre[k + 1]
                }));
            assert(forall|i: int| 0 <= i < out_pre.len() ==> out@[i] == out_pre[i]);
            assert(out@[out_pre.len() as int] == picked);
            assert forall|k: int| 0 <= k < work@.len() implies v0.contains(
                #[trigger] work@[k],
            ) by {
                let ko: int = if k < best as int {
                    k
                } else {
                    k + 1
                };
                assert(work@[k] == work_pre[ko]);
                assert(v0.contains(work_pre[ko]));
            };
            assert forall|j: int| 0 <= j < v0.len() implies out@.contains(#[trigger] v0[j])
                || work@.contains(v0[j]) by {
                if out_pre.contains(v0[j]) {
                    let w = choose|i: int| 0 <= i < out_pre.len() && out_pre[i] == v0[j];
                    assert(out@[w] == v0[j]);
                } else {
                    let w = choose|k: int| 0 <= k < work_pre.len() && work_pre[k] == v0[j];
                    if w == best as int {
                        assert(out@[out_pre.len() as int] == v0[j]);
                    } else {
                        let wn: int = if w < best as int {
                            w
                        } else {
                            w - 1
                        };
                        assert(work@[wn] == v0[j]);
                    }
                }
            };
        }
    }
    out
}

fn find_key2(acc: &Vec<(String, String, usize)>, d: &String, ft: &String) -> (r: Option<usize>)
    ensures
        match r {
            Some(g) => g < acc@.len() && ((acc@[g as int]).0)@ == d@ && ((acc@[g as int]).1)@
                == ft@,
            None => forall|h: int|
                0 <= h < acc@.len() ==> ((#[trigger] acc@[h]).0)@ != d@ || ((acc@[h]).1)@ != ft@,
        },
{
    let mut g: usize = 0;
    while g < acc.len()
        invariant
            g <= acc@.len(),
            forall|h: int| 0 <= h < g ==> ((#[trigger] acc@[h]).0)@ != d@ || ((acc@[h]).1)@ != ft@,
        decreases acc@.len() - g,
    {
        if acc[g].0 == *d && acc[g].1 == *ft {
            return Some(g);
        }
        g = g + 1;
    }
    None
}

/// A (drive, file type) pair with a positive count has a row carrying it.
proof fn lemma_count_drive_type_positive(s: Seq<FileIndexEntry>, d: Seq<char>, fts: Seq<char>)
    requires
        count_drive_type(s, d, fts) > 0,
    ensures
        exists|k: int|
            0 <= k < s.len() && (#[trigger] s[k]).drive@ == d && spec_ft_str(s[k].file_type)
                == fts,
    decreases s.len(),
{
    if s.len() > 0 {
        if s.last().drive@ == d && spec_ft_str(s.last().file_type) == fts {
            assert(s[s.len() - 1].drive@ == d && spec_ft_str(s[s.len() - 1].file_type) == fts);
        } else {
            lemma_count_drive_type_positive(s.drop_last(), d, fts);
            let k = choose|k: int|
                0 <= k < s.drop_last().len() && (#[trigger] s.drop_last()[k]).drive@ == d
                    && spec_ft_str(s.drop_last()[k].file_type) == fts;
            assert(s[k].drive@ == d && spec_ft_str(s[k].file_type) == fts);
        }
    }
}

fn ft_str(ft: FileType) -> (r: String)
    ensures
        r@ == spec_ft_str(ft),
{
    match ft {
        FileType::Dir => "dir".to_owned(),
        FileType::File => "file".to_owned(),
    }
}

/// Row counts per (drive, file type) group, largest group first, at most
/// `limit` groups (1000 when none is given).
#[verifier::rlimit(100)]
pub fn get_indexing_by_drive_and_type(store: &IndexStore, limit: Option<usize>) -> (r: Vec<
    (String, String, usize),
>)
    requires
        store.wf(),
    ensures
        forall|i: int|
            0 <= i < r@.len() ==> (#[trigger] r@[i]).2 == count_drive_type(
                store@,
                (r@[i].0)@,
                (r@[i].1)@,
            ) && r@[i].2 > 0,
        forall|i: int, j: int|
            0 <= i < j < r@.len() ==> ((#[trigger] r@[i]).0)@ != ((#[trigger] r@[j]).0)@ || (
            r@[i].1)@ != (r@[j].1)@,
        forall|i: int, j: int| 0 <= i < j < r@.len() ==> (#[trigger] r@[i]).2 >= (#[trigger] r@[j]).2,
        r@.len() <= (match limit {
            Some(l) => l,
            None => 1000,
        }),
        forall|k: int|
            0 <= k < store@.len() ==> drive_type_listed(
                r@,
                (#[trigger] store@[k]).drive@,
                spec_ft_str(store@[k].file_type),
            ) || r@.len() == (match limit {
                Some(l) => l,
                None => 1000,
            }),
{
    let lim = match limit {
        Some(l) => l,
        None => 1000,
    };
    let n = store.len();
    let mut acc: Vec<(String, String, usize)> = Vec::new();
    let mut j: usize = 0;
    while j < n
        invariant
            store.wf(),
            n == store@.len(),
            j <= n,
            acc@.len() <= j,
            forall|g: int|
                0 <= g < acc@.len() ==> (#[trigger] acc@[g]).2 == count_drive_type(
                    store@.subrange(0, j as int),
                    (acc@[g].0)@,
                    (acc@[g].1)@,
                ) && acc@[g].2 > 0,
            forall|g: int, h: int|
                0 <= g < h < acc@.len() ==> ((#[trigger] acc@[g]).0)@ != ((#[trigger] acc@[h]).0)@
                    || (acc@[g].1)@ != (acc@[h].1)@,
            forall|k: int|
                0 <= k < j ==> drive_type_listed(
                    acc@,
                    (#[trigger] store@[k]).drive@,
                    spec_ft_str(store@[k].file_type),
                ),
        decreases n - j,
    {
        let d = store.entry_at(j).drive.clone();
        let ft = ft_str(store.entry_at(j).file_type);
        let ghost acc_pre = acc@;
        proof {
            assert(store@.subrange(0, j + 1 as int).drop_last() =~= store@.subrange(0, j as int));
            assert(store@.subrange(0, j + 1 as int).last() == store@[j as int]);
            lemma_count_drive_type_le(store@.subrange(0, j as int), d@, ft@);
        }
        let slot = find_key2(&acc, &d, &ft);
        if let Some(g) = slot {
            let key = acc[g].0.clone();
            let key2 = acc[g].1.clone();
            let cnt = acc[g].2;
            proof {
                assert(cnt == count_drive_type(store@.subrange(0, j as int), d@, ft@));
                assert(cnt < usize::MAX) by {
                    assert(cnt <= j && j < usize::MAX);
                };
            }
            acc[g] = (key, key2, cnt + 1);
            proof {
                assert forall|g2: int| 0 <= g2 < acc@.len() implies (#[trigger] acc@[g2]).2
                    == count_drive_type(store@.subrange(0, j + 1 as int), (acc@[g2].0)@, (
                acc@[g2].1)@) && acc@[g2].2 > 0 by {
                    if g2 != g as int {
                        assert(acc@[g2] == acc_pre[g2]);
                        assert((acc_pre[g2].0)@ != d@ || (acc_pre[g2].1)@ != ft@);
                    }
                };
                assert forall|k: int| 0 <= k < j + 1 implies drive_type_listed(
                    acc@,
                    (#[trigger] store@[k]).drive@,
                    spec_ft_str(store@[k].file_type),
                ) by {
                    if k < j {
                        let w = choose|i: int|
                            0 <= i < acc_pre.len() && ((#[trigger] acc_pre[i]).0)@
                                == store@[k].drive@ && ((acc_pre[i]).1)@ == spec_ft_str(
                                store@[k].file_type,
                            );
                        assert(((acc@[w]).0)@ == store@[k].drive@ && ((acc@[w]).1)@ == spec_ft_str(
                            store@[k].file_type,
                        ));
                    } else {
                        assert(((acc@[g as int]).0)@ == store@[k].drive@ && ((acc@[g as int]).1)@
                            == spec_ft_str(store@[k].file_type));
                    }
                };
            }
        } else {
            acc.push((d, ft, 1));
            proof {
                assert(forall|h: int| 0 <= h < acc_pre.len() ==> acc@[h] == acc_pre[h]);
                assert forall|g2: int| 0 <= g2 < acc@.len() implies (#[trigger] acc@[g2]).2
                    == count_drive_type(store@.subrange(0, j + 1 as int), (acc@[g2].0)@, (
                acc@[g2].1)@) && acc@[g2].2 > 0 by {
                    if g2 < acc_pre.len() {
                        assert((acc_pre[g2].0)@ != store@[j as int].drive@ || (acc_pre[g2].1)@
                            != spec_ft_str(store@[j as int].file_type));
                    } else {
                        assert(count_drive_type(
                            store@.subrange(0, j as int),
                            store@[j as int].drive@,
                            spec_ft_str(store@[j as int].file_type),
                        ) == 0) by {
                            if count_drive_type(
                                store@.subrange(0, j as int),
                                store@[j as int].drive@,
                                spec_ft_str(store@[j as int].file_type),
                            ) > 0 {
                                lemma_count_drive_type_positive(
                                    store@.subrange(0, j as int),
                                    store@[j as int].drive@,
                                    spec_ft_str(store@[j as int].file_type),
                                );
                                assert(false);
                            }
                        };
                    }
                };
                assert forall|k: int| 0 <= k < j + 1 implies drive_type_listed(
                    acc@,
                    (#[trigger] store@[k]).drive@,
                    spec_ft_str(store@[k].file_type),
                ) by {
                    if k < j {
                        let w = choose|i: int|
                            0 <= i < acc_pre.len() && ((#[trigger] acc_pre[i]).0)@
                                == store@[k].drive@ && ((acc_pre[i]).1)@ == spec_ft_str(
                                store@[k].file_type,
                            );
                        assert(((acc@[w]).0)@ == store@[k].drive@ && ((acc@[w]).1)@ == spec_ft_str(
                            store@[k].file_type,
                        ));
                    } else {
                        assert(((acc@[acc_pre.len() as int]).0)@ == store@[k].drive@ && ((
                        acc@[acc_pre.len() as int]).1)@ == spec_ft_str(store@[k].file_type));
                    }
                };
            }
        }
        j = j + 1;
    }
    proof {
        assert(store@.subrange(0, n as int) =~= store@);
    }
    let ghost acc0 = acc@;
    let mut sorted = sort_triples_by_count(acc);
    proof {
        assert forall|i: int| 0 <= i < sorted@.len() implies (#[trigger] sorted@[i]).2
            == count_drive_type(store@, (sorted@[i].0)@, (sorted@[i].1)@) && sorted@[i].2 > 0 by {
            assert(acc0.contains(sorted@[i]));
            let w = choose|g: int| 0 <= g < acc0.len() && acc0[g] == sorted@[i];
        };
    }
    let ghost sorted0 = sorted@;
    if sorted.len() > lim {
        sorted.truncate(lim);
        proof {
            assert(sorted@ =~= sorted0.subrange(0, lim as int));
        }
    } else {
        proof {
            assert forall|k: int| 0 <= k < store@.len() implies drive_type_listed(
                sorted@,
                (#[trigger] store@[k]).drive@,
                spec_ft_str(store@[k].file_type),
            ) by {
                let w = choose|i: int|
                    0 <= i < acc0.len() && ((#[trigger] acc0[i]).0)@ == store@[k].drive@ && ((
                    acc0[i]).1)@ == spec_ft_str(store@[k].file_type);
                assert(sorted@.contains(acc0[w]));
                let w2 = choose|i: int| 0 <= i < sorted@.len() && sorted@[i] == acc0[w];
                assert(((sorted@[w2]).0)@ == store@[k].drive@ && ((sorted@[w2]).1)@ == spec_ft_str(
                    store@[k].file_type,
                ));
            };
        }
    }
    sorted
}

/// A category with a positive count has a row falling into it.
proof fn lemma_count_category_positive(s: Seq<FileIndexEntry>, c: Seq<char>)
    requires
        count_category(s, c) > 0,
    ensures
        exists|k: int| 0 <= k < s.len() && spec_category((#[trigger] s[k]).doc_type@) == c,
    decreases s.len(),
{
    if s.len() > 0 {
        if spec_category(s.last().doc_type@) == c {
            assert(spec_category(s[s.len() - 1].doc_type@) == c);
        } else {
            lemma_count_category_positive(s.drop_last(), c);
            let k = choose|k: int|
                0 <= k < s.drop_last().len() && spec_category(
                    (#[trigger] s.drop_last()[k]).doc_type@,
                ) == c;
            assert(spec_category(s[k].doc_type@) == c);
        }
    }
}

/// Row counts per report category over the whole index, largest category
/// first. Every category present in the index is listed with its exact
/// count.
#[verifier::rlimit(100)]
pub fn get_indexing_by_category_global(store: &IndexStore) -> (r: Vec<(String, usize)>)
    requires
        store.wf(),
    ensures
        forall|i: int|
            0 <= i < r@.len() ==> (#[trigger] r@[i]).1 == count_category(store@, (r@[i].0)@)
                && r@[i].1 > 0,
        forall|i: int, j: int| 0 <= i < j < r@.len() ==> ((#[trigger] r@[i]).0)@ != ((
        #[trigger] r@[j]).0)@,
        forall|i: int, j: int| 0 <= i < j < r@.len() ==> (#[trigger] r@[i]).1 >= (#[trigger] r@[j]).1,
        forall|k: int|
            0 <= k < store@.len() ==> category_listed(
                r@,
                spec_category((#[trigger] store@[k]).doc_type@),
            ),
{
    let n = store.len();
    let mut acc: Vec<(String, usize)> = Vec::new();
    let mut j: usize = 0;
    while j < n
        invariant
            store.wf(),
            n == store@.len(),
            j <= n,
            acc@.len() <= j,
            forall|g: int|
                0 <= g < acc@.len() ==> (#[trigger] acc@[g]).1 == count_category(
                    store@.subrange(0, j as int),
                    (acc@[g].0)@,
                ) && acc@[g].1 > 0,
            forall|g: int, h: int| 0 <= g < h < acc@.len() ==> ((#[trigger] acc@[g]).0)@ != ((
            #[trigger] acc@[h]).0)@,
            forall|k: int|
                0 <= k < j ==> category_listed(
                    acc@,
                    spec_category((#[trigger] store@[k]).doc_type@),
                ),
        decreases n - j,
    {
        let c = category_of(store.entry_at(j).doc_type.as_str());
        let ghost acc_pre = acc@;
        proof {
            assert(store@.subrange(0, j + 1 as int).drop_last() =~= store@.subrange(0, j as int));
            assert(store@.subrange(0, j + 1 as int).last() == store@[j as int]);
            lemma_count_category_le(store@.subrange(0, j as int), c@);
        }
        let slot = find_key(&acc, &c);
        if let Some(g) = slot {
            let key = acc[g].0.clone();
            let cnt = acc[g].1;
            proof {
                assert(cnt == count_category(store@.subrange(0, j as int), c@));
                assert(cnt < usize::MAX) by {
                    assert(cnt <= j && j < usize::MAX);
                };
            }
            acc[g] = (key, cnt + 1);
            proof {
                assert forall|g2: int| 0 <= g2 < acc@.len() implies (#[trigger] acc@[g2]).1
                    == count_category(store@.subrange(0, j + 1 as int), (acc@[g2].0)@)
                    && acc@[g2].1 > 0 by {
                    if g2 != g as int {
                        assert(acc@[g2] == acc_pre[g2]);
                        assert((acc_pre[g2].0)@ != c@);
                    }
                };
                assert forall|k: int| 0 <= k < j + 1 implies category_listed(
                    acc@,
                    spec_category((#[trigger] store@[k]).doc_type@),
                ) by {
                    if k < j {
                        let w = choose|i: int|
                            0 <= i < acc_pre.len() && ((#[trigger] acc_pre[i]).0)@ == spec_category(
                                store@[k].doc_type@,
                            );
                        assert(((acc@[w]).0)@ == spec_category(store@[k].doc_type@));
                    } else {
                        assert(((acc@[g as int]).0)@ == spec_category(store@[k].doc_type@));
                    }
                };
            }
        } else {
            acc.push((c, 1));
            proof {
                assert(forall|h: int| 0 <= h < acc_pre.len() ==> acc@[h] == acc_pre[h]);
                assert forall|g2: int| 0 <= g2 < acc@.len() implies (#[trigger] acc@[g2]).1
                    == count_category(store@.subrange(0, j + 1 as int), (acc@[g2].0)@)
                    && acc@[g2].1 > 0 by {
                    if g2 < acc_pre.len() {
                        assert((acc_pre[g2].0)@ != spec_category(store@[j as int].doc_type@));
                    } else {
                        assert(count_category(
                            store@.subrange(0, j as int),
                            spec_category(store@[j as int].doc_type@),
                        ) == 0) by {
                            if count_category(
                                store@.subrange(0, j as int),
                                spec_category(store@[j as int].doc_type@),
                            ) > 0 {
                                lemma_count_category_positive(
                                    store@.subrange(0, j as int),
                                    spec_category(store@[j as int].doc_type@),
                                );
                                assert(false);
                            }
                        };
                    }
                };
                assert forall|k: int| 0 <= k < j + 1 implies category_listed(
                    acc@,
                    spec_category((#[trigger] store@[k]).doc_type@),
                ) by {
                    if k < j {
                        let w = choose|i: int|
                            0 <= i < acc_pre.len() && ((#[trigger] acc_pre[i]).0)@ == spec_category(
                                store@[k].doc_type@,
                            );
                        assert(((acc@[w]).0)@ == spec_category(store@[k].doc_type@));
                    } else {
                        assert(((acc@[acc_pre.len() as int]).0)@ == spec_category(
                            store@[k].doc_type@,
                        ));
                    }
                };
            }
        }
        j = j + 1;
    }
    proof {
        assert(store@.subrange(0, n as int) =~= store@);
    }
    let ghost acc0 = acc@;
    let sorted = sort_pairs_by_count(acc);
    proof {
        assert forall|i: int| 0 <= i < sorted@.len() implies (#[trigger] sorted@[i]).1
            == count_category(store@, (sorted@[i].0)@) && sorted@[i].1 > 0 by {
            assert(acc0.contains(sorted@[i]));
            let w = choose|g: int| 0 <= g < acc0.len() && acc0[g] == sorted@[i];
        };
        assert forall|k: int| 0 <= k < store@.len() implies category_listed(
            sorted@,
            spec_category((#[trigger] store@[k]).doc_type@),
        ) by {
            let w = choose|i: int|
                0 <= i < acc0.len() && ((#[trigger] acc0[i]).0)@ == spec_category(
                    store@[k].doc_type@,
                );
            assert(sorted@.contains(acc0[w]));
            let w2 = choose|i: int| 0 <= i < sorted@.len() && sorted@[i] == acc0[w];
            assert(((sorted@[w2]).0)@ == spec_category(store@[k].doc_type@));
        };
    }
    sorted
}

} // verus!
