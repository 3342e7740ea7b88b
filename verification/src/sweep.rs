//! The reconciliation sweep: removes index entries whose backing path no
//! longer exists.
//!
//! The caller enumerates the stored paths (see [`IndexStore::paths`]),
//! probes the filesystem for each, and hands back the ones that are gone;
//! this module deletes their rows (and, through the store's paired writes,
//! their shadow rows). The sweep runs independently of crawling and
//! watching; a path deleted and recreated between the probe and the delete
//! is simply re-indexed on its next observation.

use vstd::prelude::*;
use crate::store::{contains_path, entry_for, lemma_delete_effect, IndexStore};

verus! {

/// `q` is the normalized view of one of the missing paths.
pub open spec fn some_missing(missing: Seq<String>, q: Seq<char>) -> bool {
    exists|i: int| 0 <= i < missing.len() && (#[trigger] missing[i])@ == q
}

/// How many of the missing paths a sweep actually removes: those present in
/// the table, each counted once however often it is listed.
pub open spec fn spec_removed_count(
    s: Seq<crate::store::FileIndexEntry>,
    missing: Seq<String>,
    upto: int,
) -> nat
    decreases upto when 0 <= upto <= missing.len()
{
    if upto <= 0 {
        0
    } else {
        spec_removed_count(s, missing, upto - 1) + if contains_path(s, missing[upto - 1]@) && (
        forall|l: int| 0 <= l < upto - 1 ==> (#[trigger] missing[l])@ != missing[upto - 1]@) {
            1nat
        } else {
            0nat
        }
    }
}

/// Deletes every row whose path is listed as missing; returns how many rows
/// were removed. Rows for paths not listed are untouched.
pub fn remove_missing(store: &mut IndexStore, missing: &Vec<String>) -> (removed: usize)
    requires
        old(store).wf(),
    ensures
        final(store).wf(),
        forall|i: int|
            0 <= i < missing@.len() ==> !contains_path(
                final(store)@,
                (#[trigger] missing@[i])@,
            ),
        forall|q: Seq<char>|
            !some_missing(missing@, q) ==> (#[trigger] contains_path(final(store)@, q)
                <==> contains_path(old(store)@, q)),
        forall|q: Seq<char>|
            !some_missing(missing@, q) && contains_path(old(store)@, q) ==> #[trigger] entry_for(
                final(store)@,
                q,
            ) == entry_for(old(store)@, q),
        removed == spec_removed_count(old(store)@, missing@, missing@.len() as int),
{
    let mut removed: usize = 0;
    let mut i: usize = 0;
    while i < missing.len()
        invariant
            i <= missing@.len(),
            store.wf(),
            removed <= i,
            forall|j: int|
                0 <= j < i ==> !contains_path(store@, (#[trigger] missing@[j])@),
            forall|q: Seq<char>|
                !some_missing(missing@.subrange(0, i as int), q) ==> (#[trigger] contains_path(
                    store@,
                    q,
                ) <==> contains_path(old(store)@, q)),
            forall|q: Seq<char>|
                !some_missing(missing@.subrange(0, i as int), q) && contains_path(old(store)@, q)
                    ==> #[trigger] entry_for(store@, q) == entry_for(old(store)@, q),
            removed == spec_removed_count(old(store)@, missing@, i as int),
        decreases missing@.len() - i,
    {
        let ghost s_pre = store@;
        let ghost pre = missing@.subrange(0, i as int);
        let ghost cur = missing@.subrange(0, i + 1 as int);
        proof {
            lemma_delete_effect(s_pre, missing@[i as int]@);
        }
        let was_present = store.delete(&missing[i]);
        if was_present {
            removed = removed + 1;
        }
        proof {
            let p = missing@[i as int]@;
            assert(some_missing(cur, p)) by {
                assert(cur[i as int]@ == p);
            };
            assert forall|j: int| 0 <= j < i + 1 implies !contains_path(
                store@,
                (#[trigger] missing@[j])@,
            ) by {
                if j < i {
                    assert(!contains_path(s_pre, missing@[j]@));
                }
            };
            assert forall|q: Seq<char>| !some_missing(cur, q) implies (#[trigger] contains_path(
                store@,
                q,
            ) <==> contains_path(old(store)@, q)) by {
                assert(!some_missing(pre, q)) by {
                    if some_missing(pre, q) {
                        let w = choose|w: int| 0 <= w < pre.len() && (#[trigger] pre[w])@ == q;
                        assert(cur[w]@ == q);
                    }
                };
                assert(q != p) by {
                    if q == p {
                        assert(some_missing(cur, q));
                    }
                };
            };
            assert forall|q: Seq<char>|
                !some_missing(cur, q) && contains_path(old(store)@, q) implies #[trigger]
            entry_for(store@, q) == entry_for(old(store)@, q) by {
                assert(!some_missing(pre, q)) by {
                    if some_missing(pre, q) {
                        let w = choose|w: int| 0 <= w < pre.len() && (#[trigger] pre[w])@ == q;
                        assert(cur[w]@ == q);
                    }
                };
                assert(q != p) by {
                    if q == p {
                        assert(some_missing(cur, q));
                    }
                };
            };
            // the removed counter advances exactly on first-listed, present
            // paths
            assert(was_present == contains_path(s_pre, p));
            if some_missing(pre, p) {
                let w = choose|w: int| 0 <= w < pre.len() && (#[trigger] pre[w])@ == p;
                assert(!contains_path(s_pre, missing@[w]@));
                assert(!was_present);
                assert(spec_removed_count(old(store)@, missing@, i + 1 as int)
                    == spec_removed_count(old(store)@, missing@, i as int)) by {
                    assert(missing@[w]@ == p);
                };
            } else {
                assert forall|l: int| 0 <= l < i implies (#[trigger] missing@[l])@ != p by {
                    assert(pre[l] == missing@[l]);
                    if missing@[l]@ == p {
                        assert(pre[l]@ == p);
                        assert(some_missing(pre, p));
                    }
                };
                assert(contains_path(s_pre, p) <==> contains_path(old(store)@, p));
            }
        }
        i = i + 1;
    }
    proof {
        assert(missing@.subrange(0, missing@.len() as int) =~= missing@);
        assert forall|q: Seq<char>| !some_missing(missing@, q) implies !some_missing(
            missing@.subrange(0, missing@.len() as int),
            q,
        ) by {};
    }
    removed
}

} // verus!
