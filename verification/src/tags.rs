//! File tags: an independent association between a canonical path and a tag
//! string, with replace semantics — tagging a path removes any prior tag for
//! that exact path before inserting the new one, so a path carries at most
//! one tag. Rows are keyed by the same canonical-path normalization as the
//! index but live without a foreign-key relationship: a tag may survive with
//! no matching index row.

use vstd::prelude::*;
use crate::paths::spec_slashes;

verus! {

/// One tag association.
pub struct FileTag {
    /// Canonical, normalized path the tag is attached to.
    pub path: String,
    pub tag: String,
    /// The user that created the tag, when known.
    pub created_by: Option<i64>,
    pub created_at: i64,
}

impl FileTag {
    /// A structural copy of the row.
    pub fn duplicate(&self) -> (r: FileTag)
        ensures
            r == *self,
    {
        FileTag {
            path: self.path.clone(),
            tag: self.tag.clone(),
            created_by: self.created_by,
            created_at: self.created_at,
        }
    }
}

/// Some row of `s` is tagged exactly on path `p`.
pub open spec fn contains_tag_path(s: Seq<FileTag>, p: Seq<char>) -> bool {
    exists|i: int| 0 <= i < s.len() && s[i].path@ == p
}

/// The index of the row for path `p` (meaningful when `contains_tag_path`).
pub open spec fn index_of_tag_path(s: Seq<FileTag>, p: Seq<char>) -> int {
    choose|i: int| 0 <= i < s.len() && s[i].path@ == p
}

/// The row for path `p` (meaningful when `contains_tag_path`).
pub open spec fn tag_for(s: Seq<FileTag>, p: Seq<char>) -> FileTag {
    s[index_of_tag_path(s, p)]
}

/// No two rows share an exact path.
pub open spec fn tag_paths_unique(s: Seq<FileTag>) -> bool {
    forall|i: int, j: int| 0 <= i < j < s.len() ==> s[i].path@ != s[j].path@
}

/// How many rows are tagged on exact path `p`.
pub open spec fn count_tag_path(s: Seq<FileTag>, p: Seq<char>) -> nat
    decreases s.len(),
{
    if s.len() == 0 {
        0
    } else {
        count_tag_path(s.drop_last(), p) + if s.last().path@ == p {
            1nat
        } else {
            0nat
        }
    }
}

/// A row matches an untag or listing request when its path equals the
/// requested one up to slash direction and its tag (where one is requested)
/// matches exactly.
pub open spec fn tag_row_matches(row: FileTag, p: Seq<char>) -> bool {
    spec_slashes(row.path@) == spec_slashes(p)
}

/// The rows left after removing every row matching path `p` (slash-tolerant)
/// with tag `t`.
pub open spec fn spec_untag(s: Seq<FileTag>, p: Seq<char>, t: Seq<char>) -> Seq<FileTag>
    decreases s.len(),
{
    if s.len() == 0 {
        Seq::empty()
    } else {
        let rest = spec_untag(s.drop_last(), p, t);
        if tag_row_matches(s.last(), p) && s.last().tag@ == t {
            rest
        } else {
            rest.push(s.last())
        }
    }
}

/// How many rows match path `p` up to slash direction.
pub open spec fn count_matching_rows(s: Seq<FileTag>, p: Seq<char>) -> nat
    decreases s.len(),
{
    if s.len() == 0 {
        0
    } else {
        count_matching_rows(s.drop_last(), p) + if tag_row_matches(s.last(), p) {
            1nat
        } else {
            0nat
        }
    }
}

/// `row` is one of the rows of `s`, and it matches path `p` up to slash
/// direction.
pub open spec fn matching_row_in(s: Seq<FileTag>, p: Seq<char>, row: FileTag) -> bool {
    s.contains(row) && tag_row_matches(row, p)
}

/// `row` stands (matching) somewhere in the first `upto` rows of `s`.
spec fn matching_row_from_prefix(s: Seq<FileTag>, p: Seq<char>, upto: int, row: FileTag) -> bool {
    exists|k: int| 0 <= k < upto && #[trigger] s[k] == row && tag_row_matches(s[k], p)
}

/// In a duplicate-free tag table the row index of a path is unique.
pub proof fn lemma_tag_path_index(s: Seq<FileTag>, p: Seq<char>, i: int)
    requires
        tag_paths_unique(s),
        0 <= i < s.len(),
        s[i].path@ == p,
    ensures
        index_of_tag_path(s, p) == i,
        contains_tag_path(s, p),
        tag_for(s, p) == s[i],
{
    assert(contains_tag_path(s, p));
    let j = index_of_tag_path(s, p);
    if j < i {
        assert(s[j].path@ != s[i].path@);
    } else if j > i {
        assert(s[i].path@ != s[j].path@);
    }
}

/// Law: in a duplicate-free tag table a path carries exactly one tag row
/// when tagged and none otherwise — at most one tag per path, after any
/// sequence of tag operations that preserves well-formedness.
pub proof fn lemma_one_tag_per_path(s: Seq<FileTag>, p: Seq<char>)
    requires
        tag_paths_unique(s),
    ensures
        count_tag_path(s, p) == if contains_tag_path(s, p) {
            1nat
        } else {
            0nat
        },
    decreases s.len(),
{
    if s.len() == 0 {
        assert(!contains_tag_path(s, p));
    } else {
        let head = s.drop_last();
        assert(tag_paths_unique(head)) by {
            assert(forall|i: int, j: int|
                0 <= i < j < head.len() ==> head[i] == s[i] && head[j] == s[j]);
        };
        lemma_one_tag_per_path(head, p);
        if s.last().path@ == p {
            assert(!contains_tag_path(head, p)) by {
                if contains_tag_path(head, p) {
                    let k = index_of_tag_path(head, p);
                    assert(s[k].path@ == p);
                    assert(s[k].path@ != s[s.len() - 1].path@);
                }
            };
            assert(contains_tag_path(s, p)) by {
                assert(s[s.len() - 1].path@ == p);
            };
        } else {
            if contains_tag_path(head, p) {
                let k = index_of_tag_path(head, p);
                assert(s[k].path@ == p);
                assert(contains_tag_path(s, p));
            } else {
                assert(!contains_tag_path(s, p)) by {
                    if contains_tag_path(s, p) {
                        let k = index_of_tag_path(s, p);
                        assert(k < s.len() - 1 ==> head[k].path@ == p);
                    }
                };
            }
        }
    }
}

/// Untagging keeps the table duplicate-free, leaves no matching row behind,
/// and keeps every non-matching row.
pub proof fn lemma_untag_props(s: Seq<FileTag>, p: Seq<char>, t: Seq<char>)
    requires
        tag_paths_unique(s),
    ensures
        tag_paths_unique(spec_untag(s, p, t)),
        forall|i: int|
            0 <= i < spec_untag(s, p, t).len() ==> !(tag_row_matches(
                #[trigger] spec_untag(s, p, t)[i],
                p,
            ) && spec_untag(s, p, t)[i].tag@ == t),
        forall|i: int|
            0 <= i < spec_untag(s, p, t).len() ==> exists|j: int|
                0 <= j < s.len() && s[j] == #[trigger] spec_untag(s, p, t)[i],
        forall|j: int|
            0 <= j < s.len() && !(tag_row_matches(#[trigger] s[j], p) && s[j].tag@ == t)
                ==> spec_untag(s, p, t).contains(s[j]),
    decreases s.len(),
{
    if s.len() == 0 {
    } else {
        let head = s.drop_last();
        assert(tag_paths_unique(head)) by {
            assert(forall|i: int, j: int|
                0 <= i < j < head.len() ==> head[i] == s[i] && head[j] == s[j]);
        };
        lemma_untag_props(head, p, t);
        let r = spec_untag(s, p, t);
        let rh = spec_untag(head, p, t);
        if tag_row_matches(s.last(), p) && s.last().tag@ == t {
            assert(r == rh);
            assert forall|j: int|
                0 <= j < s.len() && !(tag_row_matches(#[trigger] s[j], p) && s[j].tag@ == t) implies r
                .contains(s[j]) by {
                assert(j < s.len() - 1);
                assert(head[j] == s[j]);
            };
        } else {
            assert(r == rh.push(s.last()));
            assert(tag_paths_unique(r)) by {
                assert forall|i: int, j: int| 0 <= i < j < r.len() implies r[i].path@
                    != r[j].path@ by {
                    if j < r.len() - 1 {
                        assert(r[i] == rh[i] && r[j] == rh[j]);
                    } else {
                        assert(r[i] == rh[i]);
                        let w = choose|w: int| 0 <= w < head.len() && head[w] == rh[i];
                        assert(s[w] == rh[i]);
                        assert(s[w].path@ != s[s.len() - 1].path@);
                    }
                };
            };
            assert forall|i: int| 0 <= i < r.len() implies exists|j: int|
                0 <= j < s.len() && s[j] == #[trigger] r[i] by {
                if i < r.len() - 1 {
                    let w = choose|w: int| 0 <= w < head.len() && head[w] == rh[i];
                    assert(s[w] == r[i]);
                } else {
                    assert(s[s.len() - 1] == r[i]);
                }
            };
            assert forall|j: int|
                0 <= j < s.len() && !(tag_row_matches(#[trigger] s[j], p) && s[j].tag@ == t) implies r
                .contains(s[j]) by {
                if j < s.len() - 1 {
                    assert(head[j] == s[j]);
                    assert(rh.contains(s[j]));
                    let w = choose|w: int| 0 <= w < rh.len() && rh[w] == s[j];
                    assert(r[w] == s[j]);
                } else {
                    assert(r[r.len() - 1] == s[j]);
                }
            };
        }
    }
}

/// The tag table.
pub struct TagStore {
    rows: Vec<FileTag>,
}

impl TagStore {
    /// The table, as the sequence of its rows.
    pub closed spec fn view(&self) -> Seq<FileTag> {
        self.rows@
    }

    /// Well-formedness: at most one tag row per exact path.
    pub open spec fn wf(&self) -> bool {
        tag_paths_unique(self@)
    }

    /// An empty tag table.
    pub fn new() -> (s: TagStore)
        ensures
            s.wf(),
            s@ =~= Seq::<FileTag>::empty(),
    {
        TagStore { rows: Vec::new() }
    }

    /// Number of rows.
    pub fn len(&self) -> (n: usize)
        ensures
            n == self@.len(),
    {
        self.rows.len()
    }

    /// The row at position `i`.
    pub fn row_at(&self, i: usize) -> (r: &FileTag)
        requires
            i < self@.len(),
        ensures
            *r == self@[i as int],
    {
        &self.rows[i]
    }

    fn find(&self, path: &String) -> (r: Option<usize>)
        ensures
            match r {
                Some(i) => i < self@.len() && self@[i as int].path@ == path@,
                None => !contains_tag_path(self@, path@),
            },
    {
        let mut i: usize = 0;
        while i < self.rows.len()
            invariant
                i <= self@.len(),
                self@.len() == self.rows@.len(),
                forall|j: int| 0 <= j < i ==> self@[j].path@ != path@,
            decreases self@.len() - i,
        {
            if self.rows[i].path == *path {
                return Some(i);
            }
            i = i + 1;
        }
        None
    }

    /// Tags a path, replacing any prior tag for that exact path: after the
    /// call the path carries exactly the new tag, and no other path's tag is
    /// touched.
    pub fn tag_path(&mut self, path: &String, tag: &String, created_by: Option<i64>, now: i64)
        requires
            old(self).wf(),
        ensures
            final(self).wf(),
            contains_tag_path(final(self)@, path@),
            tag_for(final(self)@, path@).tag@ == tag@,
            tag_for(final(self)@, path@).created_by == created_by,
            tag_for(final(self)@, path@).created_at == now,
            count_tag_path(final(self)@, path@) == 1,
            forall|q: Seq<char>|
                q != path@ ==> (#[trigger] contains_tag_path(final(self)@, q) <==> contains_tag_path(
                    old(self)@,
                    q,
                )),
            forall|q: Seq<char>|
                q != path@ && contains_tag_path(old(self)@, q) ==> #[trigger] tag_for(
                    final(self)@,
                    q,
                ) == tag_for(old(self)@, q),
            final(self)@.len() == if contains_tag_path(old(self)@, path@) {
                old(self)@.len()
            } else {
                old(self)@.len() + 1
            },
    {
        let ghost s0 = self@;
        match self.find(path) {
            Some(i) => {
                proof {
                    lemma_tag_path_index(self@, path@, i as int);
                }
                self.rows.remove(i);
                proof {
                    let s1 = self@;
                    assert(forall|k: int|
                        0 <= k < s1.len() ==> s1[k] == (if k < i as int {
                            s0[k]
                        } else {
                            s0[k + 1]
                        }));
                    assert(tag_paths_unique(s1)) by {
                        assert forall|k: int, l: int| 0 <= k < l < s1.len() implies s1[k].path@
                            != s1[l].path@ by {
                            let ko: int = if k < i as int {
                                k
                            } else {
                                k + 1
                            };
                            let lo: int = if l < i as int {
                                l
                            } else {
                                l + 1
                            };
                            assert(s1[k] == s0[ko] && s1[l] == s0[lo]);
                        };
                    };
                    assert(!contains_tag_path(s1, path@)) by {
                        if contains_tag_path(s1, path@) {
                            let k = index_of_tag_path(s1, path@);
                            let ko: int = if k < i as int {
                                k
                            } else {
                                k + 1
                            };
                            assert(s0[ko].path@ == path@);
                            assert(ko != i as int ==> s0[ko].path@ != s0[i as int].path@);
                        }
                    };
                    assert forall|q: Seq<char>| q != path@ implies (#[trigger] contains_tag_path(
                        s1,
                        q,
                    ) <==> contains_tag_path(s0, q)) by {
                        if contains_tag_path(s0, q) {
                            let k = index_of_tag_path(s0, q);
                            assert(k != i as int);
                            if k < i as int {
                                assert(s1[k].path@ == q);
                            } else {
                                assert(s1[k - 1].path@ == q);
                            }
                        }
                        if contains_tag_path(s1, q) {
                            let k = index_of_tag_path(s1, q);
                            let ko: int = if k < i as int {
                                k
                            } else {
                                k + 1
                            };
                            assert(s0[ko].path@ == q);
                        }
                    };
                    assert forall|q: Seq<char>| q != path@ && contains_tag_path(s0, q) implies
                        tag_for(s1, q) == tag_for(s0, q) by {
                        let k = index_of_tag_path(s0, q);
                        assert(0 <= k < s0.len() && s0[k].path@ == q);
                        assert(k != i as int);
                        if k < i as int {
                            assert(s1[k] == s0[k]);
                            lemma_tag_path_index(s1, q, k);
                        } else {
                            assert(s1[k - 1] == s0[k]);
                            lemma_tag_path_index(s1, q, k - 1);
                        }
                        lemma_tag_path_index(s0, q, k);
                    };
                }
            },
            None => {},
        }
        let ghost s1 = self@;
        let row = FileTag { path: path.clone(), tag: tag.clone(), created_by, created_at: now };
        self.rows.push(row);
        proof {
            let s2 = self@;
            assert(s2 == s1.push(row));
            assert(!contains_tag_path(s1, path@));
            assert(tag_paths_unique(s2)) by {
                assert forall|k: int, l: int| 0 <= k < l < s2.len() implies s2[k].path@
                    != s2[l].path@ by {
                    if l == s1.len() {
                        assert(s2[k] == s1[k]);
                        if s1[k].path@ == path@ {
                            assert(contains_tag_path(s1, path@));
                        }
                    } else {
                        assert(s2[k] == s1[k] && s2[l] == s1[l]);
                    }
                };
            };
            lemma_tag_path_index(s2, path@, s1.len() as int);
            lemma_one_tag_per_path(s2, path@);
            assert forall|q: Seq<char>| q != path@ implies (#[trigger] contains_tag_path(s2, q)
                <==> contains_tag_path(s1, q)) by {
                if contains_tag_path(s1, q) {
                    let k = index_of_tag_path(s1, q);
                    assert(s2[k].path@ == q);
                }
                if contains_tag_path(s2, q) {
                    let k = index_of_tag_path(s2, q);
                    assert(k < s1.len());
                    assert(s1[k].path@ == q);
                }
            };
            assert forall|q: Seq<char>| q != path@ && contains_tag_path(s1, q) implies tag_for(
                s2,
                q,
            ) == tag_for(s1, q) by {
                let k = index_of_tag_path(s1, q);
                assert(0 <= k < s1.len() && s1[k].path@ == q);
                assert(s2[k] == s1[k]);
                lemma_tag_path_index(s2, q, k);
                lemma_tag_path_index(s1, q, k);
            };
        }
    }

    /// Tags a path with the current wall-clock time as the creation instant.
    pub fn tag_path_now(&mut self, path: &String, tag: &String, created_by: Option<i64>)
        requires
            old(self).wf(),
        ensures
            final(self).wf(),
            contains_tag_path(final(self)@, path@),
            tag_for(final(self)@, path@).tag@ == tag@,
            tag_for(final(self)@, path@).created_by == created_by,
            count_tag_path(final(self)@, path@) == 1,
            forall|q: Seq<char>|
                q != path@ ==> (#[trigger] contains_tag_path(final(self)@, q) <==> contains_tag_path(
                    old(self)@,
                    q,
                )),
    {
        let now = crate::time::now_timestamp();
        self.tag_path(path, tag, created_by, now)
    }

    /// Removes every row whose path matches `path` up to slash direction and
    /// whose tag is exactly `tag`; returns how many rows were removed.
    pub fn untag_path(&mut self, path: &String, tag: &String) -> (removed: usize)
        requires
            old(self).wf(),
        ensures
            final(self).wf(),
            final(self)@ == spec_untag(old(self)@, path@, tag@),
            removed == old(self)@.len() - final(self)@.len(),
    {
        proof {
            lemma_untag_props(old(self)@, path@, tag@);
        }
        let n = self.rows.len();
        let mut out: Vec<FileTag> = Vec::new();
        let mut i: usize = 0;
        while i < n
            invariant
                n == self@.len(),
                self@ == old(self)@,
                i <= n,
                out@ =~= spec_untag(self@.subrange(0, i as int), path@, tag@),
                out@.len() <= i,
            decreases n - i,
        {
            let row = self.row_at(i);
            let rp = crate::paths::normalize_path(row.path.as_str());
            let qp = crate::paths::normalize_path(path.as_str());
            let keep = !(rp == qp && row.tag == *tag);
            let copy = row.duplicate();
            proof {
                assert(self@.subrange(0, i + 1 as int).drop_last() =~= self@.subrange(0, i as int));
                assert(self@.subrange(0, i + 1 as int).last() == self@[i as int]);
            }
            if keep {
                out.push(copy);
            }
            i = i + 1;
        }
        proof {
            assert(self@.subrange(0, n as int) =~= self@);
        }
        let kept = out.len();
        self.rows = out;
        proof {
            assert(self@ =~= spec_untag(old(self)@, path@, tag@));
        }
        n - kept
    }

    /// The rows tagged on `path` (compared up to slash direction), newest
    /// tag first: every matching row appears exactly once, nothing else
    /// does, and creation times never increase along the result. A
    /// well-formed table yields at most one row for a path spelled
    /// consistently.
    pub fn tags_for_path(&self, path: &String) -> (r: Vec<FileTag>)
        requires
            self.wf(),
        ensures
            r@.len() == count_matching_rows(self@, path@),
            forall|i: int| 0 <= i < r@.len() ==> matching_row_in(self@, path@, #[trigger] r@[i]),
            forall|k: int|
                0 <= k < self@.len() && tag_row_matches(#[trigger] self@[k], path@)
                    ==> r@.contains(self@[k]),
            forall|i: int, j: int|
                0 <= i < j < r@.len() ==> (#[trigger] r@[i]).path@ != (#[trigger] r@[j]).path@,
            forall|i: int, j: int|
                0 <= i < j < r@.len() ==> (#[trigger] r@[i]).created_at
                    >= (#[trigger] r@[j]).created_at,
    {
        let n = self.rows.len();
        let mut out: Vec<FileTag> = Vec::new();
        let mut i: usize = 0;
        while i < n
            invariant
                self.wf(),
                n == self@.len(),
                i <= n,
                out@.len() == count_matching_rows(self@.subrange(0, i as int), path@),
                forall|i2: int|
                    0 <= i2 < out@.len() ==> matching_row_from_prefix(
                        self@,
                        path@,
                        i as int,
                        #[trigger] out@[i2],
                    ),
                forall|k: int|
                    0 <= k < i && tag_row_matches(#[trigger] self@[k], path@) ==> out@.contains(
                        self@[k],
                    ),
                forall|i2: int, j2: int|
                    0 <= i2 < j2 < out@.len() ==> (#[trigger] out@[i2]).path@ != (
                    #[trigger] out@[j2]).path@,
            decreases n - i,
        {
            let row = self.row_at(i);
            let rp = crate::paths::normalize_path(row.path.as_str());
            let qp = crate::paths::normalize_path(path.as_str());
            let copy = row.duplicate();
            let ghost out_pre = out@;
            proof {
                assert(self@.subrange(0, i + 1 as int).drop_last() =~= self@.subrange(0, i as int));
                assert(self@.subrange(0, i + 1 as int).last() == self@[i as int]);
            }
            if rp == qp {
                out.push(copy);
                proof {
                    assert(out@[out_pre.len() as int] == self@[i as int]);
                    assert(forall|i2: int| 0 <= i2 < out_pre.len() ==> out@[i2] == out_pre[i2]);
                    assert forall|i2: int, j2: int|
                        0 <= i2 < j2 < out@.len() implies (#[trigger] out@[i2]).path@ != (
                    #[trigger] out@[j2]).path@ by {
                        if j2 == out_pre.len() {
                            assert(matching_row_from_prefix(self@, path@, i as int, out_pre[i2]));
                            let k = choose|k: int|
                                0 <= k < i && #[trigger] self@[k] == out_pre[i2]
                                    && tag_row_matches(self@[k], path@);
                            assert(self@[k].path@ != self@[i as int].path@);
                        }
                    };
                }
            }
            proof {
                assert forall|k: int|
                    0 <= k < i + 1 && tag_row_matches(#[trigger] self@[k], path@) implies out@
                    .contains(self@[k]) by {
                    if k < i {
                        let w = choose|w: int| 0 <= w < out_pre.len() && out_pre[w] == self@[k];
                        assert(out@[w] == self@[k]);
                    }
                };
                assert forall|i2: int| 0 <= i2 < out@.len() implies matching_row_from_prefix(
                    self@,
                    path@,
                    i + 1,
                    #[trigger] out@[i2],
                ) by {
                    if i2 < out_pre.len() {
                        assert(matching_row_from_prefix(self@, path@, i as int, out_pre[i2]));
                        let k = choose|k: int|
                            0 <= k < i && #[trigger] self@[k] == out_pre[i2] && tag_row_matches(
                                self@[k],
                                path@,
                            );
                        assert(out@[i2] == out_pre[i2]);
                        assert(self@[k] == out@[i2]);
                    } else {
                        assert(out@[i2] == self@[i as int]);
                    }
                };
            }
            i = i + 1;
        }
        proof {
            assert(self@.subrange(0, n as int) =~= self@);
        }
        let ghost hits0 = out@;
        let r = sort_tags_newest_first(out);
        proof {
            assert forall|i2: int| 0 <= i2 < r@.len() implies matching_row_in(
                self@,
                path@,
                #[trigger] r@[i2],
            ) by {
                assert(hits0.contains(r@[i2]));
                let w = choose|w: int| 0 <= w < hits0.len() && hits0[w] == r@[i2];
                assert(matching_row_from_prefix(self@, path@, n as int, hits0[w]));
                let k = choose|k: int|
                    0 <= k < n && #[trigger] self@[k] == hits0[w] && tag_row_matches(
                        self@[k],
                        path@,
                    );
                assert(self@.contains(self@[k]));
            };
            assert forall|k: int|
                0 <= k < self@.len() && tag_row_matches(#[trigger] self@[k], path@) implies r@
                .contains(self@[k]) by {
                assert(hits0.contains(self@[k]));
                let w = choose|w: int| 0 <= w < hits0.len() && hits0[w] == self@[k];
                assert(r@.contains(hits0[w]));
            };
        }
        r
    }
}

/// Sorts tag rows newest first. The input's rows must carry pairwise
/// distinct paths; the result is a rearrangement carrying the same property.
#[verifier::rlimit(100)]
pub(crate) fn sort_tags_newest_first(v: Vec<FileTag>) -> (r: Vec<FileTag>)
    requires
        forall|i: int, j: int|
            0 <= i < j < v@.len() ==> (#[trigger] v@[i]).path@ != (#[trigger] v@[j]).path@,
    ensures
        r@.len() == v@.len(),
        forall|i: int, j: int|
            0 <= i < j < r@.len() ==> (#[trigger] r@[i]).created_at >= (#[trigger] r@[j]).created_at,
        forall|i: int| 0 <= i < r@.len() ==> v@.contains(#[trigger] r@[i]),
        forall|j: int| 0 <= j < v@.len() ==> r@.contains(#[trigger] v@[j]),
        forall|i: int, j: int|
            0 <= i < j < r@.len() ==> (#[trigger] r@[i]).path@ != (#[trigger] r@[j]).path@,
{
    let ghost v0 = v@;
    let mut work = v;
    let mut out: Vec<FileTag> = Vec::new();
    proof {
        assert forall|k: int| 0 <= k < work@.len() implies v0.contains(#[trigger] work@[k]) by {
            assert(v0[k] == work@[k]);
        };
        assert forall|j: int| 0 <= j < v0.len() implies out@.contains(#[trigger] v0[j])
            || work@.contains(v0[j]) by {
            assert(work@[j] == v0[j]);
        };
    }
    while work.len() > 0
        invariant
            out@.len() + work@.len() == v0.len(),
            forall|i: int, j: int|
                0 <= i < j < work@.len() ==> (#[trigger] work@[i]).path@ != (
                #[trigger] work@[j]).path@,
            forall|i: int, j: int|
                0 <= i < j < out@.len() ==> (#[trigger] out@[i]).path@ != (#[trigger] out@[j]).path@,
            forall|i: int, k: int|
                0 <= i < out@.len() && 0 <= k < work@.len() ==> (#[trigger] out@[i]).path@ != (
                #[trigger] work@[k]).path@,
            forall|i: int, j: int|
                0 <= i < j < out@.len() ==> (#[trigger] out@[i]).created_at
                    >= (#[trigger] out@[j]).created_at,
            forall|i: int, k: int|
                0 <= i < out@.len() && 0 <= k < work@.len() ==> (#[trigger] out@[i]).created_at
                    >= (#[trigger] work@[k]).created_at,
            forall|i: int| 0 <= i < out@.len() ==> v0.contains(#[trigger] out@[i]),
            forall|k: int| 0 <= k < work@.len() ==> v0.contains(#[trigger] work@[k]),
            forall|j: int|
                0 <= j < v0.len() ==> out@.contains(#[trigger] v0[j]) || work@.contains(v0[j]),
        decreases work@.len(),
    {
        let mut best: usize = 0;
        let mut m: usize = 1;
        while m < work.len()
            invariant
                work@.len() > 0,
                best < work@.len(),
                m <= work@.len(),
                forall|k: int|
                    0 <= k < m ==> work@[best as int].created_at
                        >= (#[trigger] work@[k]).created_at,
            decreases work@.len() - m,
        {
            if work[m].created_at > work[best].created_at {
                best = m;
            }
            m = m + 1;
        }
        let ghost work_pre = work@;
        let ghost out_pre = out@;
        let picked = work.remove(best);
        out.push(picked);
        proof {
            assert(picked == work_pre[best as int]);
            assert(forall|k: int|
                0 <= k < work@.len() ==> work@[k] == (if k < best as int {
                    work_pre[k]
                } else {
                    work_pre[k + 1]
                }));
            assert(forall|i: int| 0 <= i < out_pre.len() ==> out@[i] == out_pre[i]);
            assert(out@[out_pre.len() as int] == picked);
            assert forall|k: int| 0 <= k < work@.len() implies v0.contains(
                #[trigger] work@[k],
            ) by {
                let ko: int = if k < best as int {
                    k
                } else {
                    k + 1
                };
                assert(work@[k] == work_pre[ko]);
                assert(v0.contains(work_pre[ko]));
            };
            assert forall|j: int| 0 <= j < v0.len() implies out@.contains(#[trigger] v0[j])
                || work@.contains(v0[j]) by {
                if out_pre.contains(v0[j]) {
                    let w = choose|i: int| 0 <= i < out_pre.len() && out_pre[i] == v0[j];
                    assert(out@[w] == v0[j]);
                } else {
                    let w = choose|k: int| 0 <= k < work_pre.len() && work_pre[k] == v0[j];
                    if w == best as int {
                        assert(out@[out_pre.len() as int] == v0[j]);
                    } else {
                        let wn: int = if w < best as int {
                            w
                        } else {
                            w - 1
                        };
                        assert(work@[wn] == v0[j]);
                    }
                }
            };
        }
    }
    out
}

} // verus!
