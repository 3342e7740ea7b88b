//! Path normalization.
//!
//! Raw paths reach the core decorated in platform-specific ways: Windows
//! long-path prefixes (`\\?\`), long-form UNC shares (`\\?\UNC\server\share`),
//! mixed slash directions, and Unix absolute paths. Storage and comparison
//! must use one canonical spelling, so every path crossing a boundary (crawl,
//! watch, tag, search) is funnelled through this module. Two paths the
//! operating system considers identical normalize to the same stored string
//! regardless of slash direction or prefix decoration.

use vstd::prelude::*;
use crate::chars::{
    char_upper, chars_to_string, concat_chars, is_sep, last_index_of, last_sep_index, lower_seq,
    spec_is_sep, spec_lower_char, spec_upper_char, starts_with_chars, starts_with_seq, sub_chars,
    to_chars, to_lower_chars,
};

verus! {

/// The Windows long-path prefix `\\?\`.
pub open spec fn long_path_prefix() -> Seq<char> {
    seq!['\\', '\\', '?', '\\']
}

/// The long-form UNC marker `unc\` (compared case-insensitively).
pub open spec fn unc_marker() -> Seq<char> {
    seq!['u', 'n', 'c', '\\']
}

/// Two backslashes, the short UNC lead-in.
pub open spec fn double_backslash() -> Seq<char> {
    seq!['\\', '\\']
}

/// Canonical storage spelling of a raw path: a leading long-path prefix is
/// stripped and a leading long-form UNC marker (any letter case) is
/// rewritten to the short `\\server\share` lead-in, repeatedly, until
/// neither applies. The result therefore never begins with either
/// decoration (see [`lemma_normalize_fixpoint`]).
pub open spec fn spec_normalize(s: Seq<char>) -> Seq<char>
    decreases s.len(),
{
    if s.len() >= 4 && starts_with_seq(s, long_path_prefix()) {
        spec_normalize(s.subrange(4, s.len() as int))
    } else if s.len() >= 4 && starts_with_seq(lower_seq(s), unc_marker()) {
        let rest = s.subrange(4, s.len() as int);
        if starts_with_seq(rest, double_backslash()) {
            spec_normalize(rest)
        } else {
            spec_normalize(double_backslash() + rest)
        }
    } else {
        s
    }
}

/// A normalized path begins with neither decoration.
proof fn lemma_normalize_head(s: Seq<char>)
    ensures
        !(spec_normalize(s).len() >= 4 && starts_with_seq(
            spec_normalize(s),
            long_path_prefix(),
        )),
        !(spec_normalize(s).len() >= 4 && starts_with_seq(
            lower_seq(spec_normalize(s)),
            unc_marker(),
        )),
    decreases s.len(),
{
    if s.len() >= 4 && starts_with_seq(s, long_path_prefix()) {
        lemma_normalize_head(s.subrange(4, s.len() as int));
    } else if s.len() >= 4 && starts_with_seq(lower_seq(s), unc_marker()) {
        let rest = s.subrange(4, s.len() as int);
        if starts_with_seq(rest, double_backslash()) {
            lemma_normalize_head(rest);
        } else {
            lemma_normalize_head(double_backslash() + rest);
        }
    }
}

/// Law: path normalization is a fixpoint — normalizing a normalized path
/// changes nothing.
pub proof fn lemma_normalize_fixpoint(s: Seq<char>)
    ensures
        spec_normalize(spec_normalize(s)) == spec_normalize(s),
{
    lemma_normalize_head(s);
}

/// Normalizes a raw path string for storage and comparison: long-path
/// prefixes are dropped and long-form UNC spellings are unified with the
/// short `\\server\share` form, until neither decoration remains.
pub fn normalize(p: &String) -> (r: String)
    ensures
        r@ == spec_normalize(p@),
{
    let lp = to_chars("\\\\?\\");
    let unc = to_chars("unc\\");
    let dbs = to_chars("\\\\");
    proof {
        reveal_strlit("\\\\?\\");
        reveal_strlit("unc\\");
        reveal_strlit("\\\\");
        assert(lp@ =~= long_path_prefix());
        assert(unc@ =~= unc_marker());
        assert(dbs@ =~= double_backslash());
    }
    let mut t = to_chars(p.as_str());
    loop
        invariant
            lp@ == long_path_prefix(),
            unc@ == unc_marker(),
            dbs@ == double_backslash(),
            lp@.len() == 4,
            unc@.len() == 4,
            dbs@.len() == 2,
            spec_normalize(t@) == spec_normalize(p@),
        ensures
            t@ == spec_normalize(p@),
        decreases t@.len(),
    {
        if t.len() >= 4 && starts_with_chars(&t, &lp) {
            t = sub_chars(&t, 4, t.len());
        } else {
            let tl = to_lower_chars(&t);
            if t.len() >= 4 && starts_with_chars(&tl, &unc) {
                let rest = sub_chars(&t, 4, t.len());
                if starts_with_chars(&rest, &dbs) {
                    t = rest;
                } else {
                    t = concat_chars(&dbs, &rest);
                }
            } else {
                proof {
                    assert(spec_normalize(t@) == t@);
                }
                break;
            }
        }
    }
    chars_to_string(&t)
}

/// Slash unification: every backslash becomes a forward slash.
pub open spec fn spec_slashes(s: Seq<char>) -> Seq<char> {
    s.map_values(|c: char| if c == '\\' { '/' } else { c })
}

/// Rewrites every backslash in the path to a forward slash, the tolerant
/// form used when paths from different sources are compared.
pub fn normalize_path(p: &str) -> (r: String)
    ensures
        r@ == spec_slashes(p@),
{
    let v = to_chars(p);
    let mut out: Vec<char> = Vec::new();
    let mut i: usize = 0;
    while i < v.len()
        invariant
            i <= v@.len(),
            out@.len() == i,
            forall|j: int| 0 <= j < i ==> out@[j] == (if v@[j] == '\\' { '/' } else { v@[j] }),
        decreases v@.len() - i,
    {
        if v[i] == '\\' {
            out.push('/');
        } else {
            out.push(v[i]);
        }
        i = i + 1;
    }
    proof {
        assert(out@ =~= spec_slashes(v@));
    }
    chars_to_string(&out)
}

/// Index of the first path separator at or after `from`, or the length of
/// the sequence when no separator follows.
pub open spec fn spec_seg_end(s: Seq<char>, from: int) -> int
    recommends
        0 <= from <= s.len(),
    decreases s.len() - from when 0 <= from <= s.len()
{
    if from >= s.len() {
        s.len() as int
    } else if spec_is_sep(s[from]) {
        from
    } else {
        spec_seg_end(s, from + 1)
    }
}

fn seg_end(v: &Vec<char>, from: usize) -> (r: usize)
    requires
        from <= v@.len(),
    ensures
        r == spec_seg_end(v@, from as int),
        from <= r <= v@.len(),
{
    let mut i: usize = from;
    while i < v.len() && !is_sep(v[i])
        invariant
            from <= i <= v@.len(),
            spec_seg_end(v@, from as int) == spec_seg_end(v@, i as int),
        decreases v@.len() - i,
    {
        i = i + 1;
    }
    proof {
        if i < v@.len() {
            assert(spec_seg_end(v@, i as int) == i);
        }
    }
    i
}

/// The normalized volume or mount identifier under which a path is stored:
/// `X:\` for drive-letter paths (upper-cased), `\\server\share` for UNC
/// paths, the leading separator alone for other absolute paths (`/` on
/// Unix), and any other path passed through in its normalized spelling.
pub open spec fn spec_drive(s: Seq<char>) -> Seq<char> {
    let q = spec_normalize(s);
    if q.len() >= 2 && q[1] == ':' {
        seq![spec_upper_char(q[0]), ':', '\\']
    } else if starts_with_seq(q, double_backslash()) {
        let e1 = spec_seg_end(q, 2);
        if e1 == q.len() {
            q
        } else {
            q.subrange(0, spec_seg_end(q, e1 + 1))
        }
    } else if q.len() > 0 && spec_is_sep(q[0]) {
        seq![q[0]]
    } else {
        q
    }
}

/// What the segment end computes: no separator stands before it, and one
/// stands at it unless the path ends there.
proof fn lemma_seg_end_props(s: Seq<char>, from: int)
    requires
        0 <= from <= s.len(),
    ensures
        from <= spec_seg_end(s, from) <= s.len(),
        spec_seg_end(s, from) < s.len() ==> spec_is_sep(s[spec_seg_end(s, from)]),
        forall|j: int| from <= j < spec_seg_end(s, from) ==> !spec_is_sep(s[j]),
    decreases s.len() - from,
{
    if from < s.len() && !spec_is_sep(s[from]) {
        lemma_seg_end_props(s, from + 1);
    }
}

/// Those properties determine the segment end.
proof fn lemma_seg_end_at(s: Seq<char>, from: int, m: int)
    requires
        0 <= from <= m <= s.len(),
        forall|j: int| from <= j < m ==> !spec_is_sep(s[j]),
        m < s.len() ==> spec_is_sep(s[m]),
    ensures
        spec_seg_end(s, from) == m,
    decreases m - from,
{
    if from < m {
        lemma_seg_end_at(s, from + 1, m);
    }
}

/// Law: drive normalization is idempotent — the drive identifier of a drive
/// identifier is that identifier itself.
pub proof fn lemma_drive_idempotent(s: Seq<char>)
    ensures
        spec_drive(spec_drive(s)) == spec_drive(s),
{
    lemma_normalize_head(s);
    let q = spec_normalize(s);
    let o = spec_drive(s);
    assert(spec_normalize(q) == q);
    if q.len() >= 2 && q[1] == ':' {
        assert(o == seq![spec_upper_char(q[0]), ':', '\\']);
        assert(spec_normalize(o) == o);
        crate::chars::lemma_upper_char_idempotent(q[0]);
        assert(spec_drive(o) =~= o);
    } else if starts_with_seq(q, double_backslash()) {
        assert(q[0] == '\\' && q[1] == '\\');
        lemma_seg_end_props(q, 2);
        let e1 = spec_seg_end(q, 2);
        if e1 == q.len() {
            assert(o == q);
            assert(spec_drive(o) == o);
        } else {
            lemma_seg_end_props(q, e1 + 1);
            let e2 = spec_seg_end(q, e1 + 1);
            assert(o == q.subrange(0, e2));
            assert(o.len() == e2 && e2 >= e1 + 1 && e1 >= 2);
            assert(forall|j: int| 0 <= j < o.len() ==> o[j] == q[j]);
            // o carries neither decoration: a long-path prefix would show in
            // q's own head, and its head is a backslash, not a `u`
            assert(spec_normalize(o) == o) by {
                if o.len() >= 4 && starts_with_seq(o, long_path_prefix()) {
                    assert(starts_with_seq(q, long_path_prefix()));
                }
                if o.len() >= 4 && starts_with_seq(lower_seq(o), unc_marker()) {
                    assert(lower_seq(o)[0] == spec_lower_char('\\'));
                }
            };
            assert(spec_drive(o) =~= o) by {
                assert(o[1] == '\\');
                assert(starts_with_seq(o, double_backslash()));
                lemma_seg_end_at(o, 2, e1);
                lemma_seg_end_at(o, e1 + 1, o.len() as int);
                assert(o.subrange(0, o.len() as int) =~= o);
            };
        }
    } else if q.len() > 0 && spec_is_sep(q[0]) {
        assert(o == seq![q[0]]);
        assert(spec_normalize(o) == o);
        assert(!starts_with_seq(o, double_backslash()));
        assert(spec_drive(o) =~= o);
    } else {
        assert(o == q);
        assert(spec_drive(o) == o);
    }
}

/// Normalizes a path to the volume/mount identifier stored in the index's
/// `drive` column.
pub fn normalize_drive_for_storage(path: &str) -> (r: String)
    ensures
        r@ == spec_drive(path@),
{
    let normalized = normalize(&path.to_owned());
    let q = to_chars(normalized.as_str());
    if q.len() >= 2 && q[1] == ':' {
        let mut d: Vec<char> = Vec::new();
        d.push(char_upper(q[0]));
        d.push(':');
        d.push('\\');
        proof {
            assert(d@ =~= seq![spec_upper_char(q@[0]), ':', '\\']);
        }
        return chars_to_string(&d);
    }
    let dbs = to_chars("\\\\");
    proof {
        reveal_strlit("\\\\");
        assert(dbs@ =~= double_backslash());
    }
    if starts_with_chars(&q, &dbs) {
        let e1 = seg_end(&q, 2);
        if e1 == q.len() {
            return chars_to_string(&q);
        }
        let e2 = seg_end(&q, e1 + 1);
        let comp = sub_chars(&q, 0, e2);
        return chars_to_string(&comp);
    }
    if q.len() > 0 && is_sep(q[0]) {
        let mut d: Vec<char> = Vec::new();
        d.push(q[0]);
        proof {
            assert(d@ =~= seq![q@[0]]);
        }
        return chars_to_string(&d);
    }
    chars_to_string(&q)
}

/// The browse allow-list decision: a drive-letter or UNC path is accepted
/// outright (the Windows-style roots), anything else must lie under one of
/// the allow-listed mounts.
pub fn browse_allowed(normalized_path: &str, mounts: &Vec<String>) -> (r: bool)
    ensures
        r == (spec_has_drive_prefix(normalized_path@) || starts_with_seq(
            normalized_path@,
            double_backslash(),
        ) || spec_path_allowed(normalized_path@, mounts@)),
{
    has_drive_prefix(normalized_path) || is_unc_path(normalized_path) || is_path_allowed(
        normalized_path,
        mounts,
    )
}

/// The base name: everything after the last path separator, or the whole
/// path when it has no separator.
pub open spec fn spec_base_name(s: Seq<char>) -> Seq<char> {
    if exists|j: int| 0 <= j < s.len() && spec_is_sep(s[j]) {
        let i = choose|i: int|
            0 <= i < s.len() && spec_is_sep(s[i]) && forall|j: int|
                i < j < s.len() ==> !spec_is_sep(s[j]);
        s.subrange(i + 1, s.len() as int)
    } else {
        s
    }
}

/// Derives the base name of a path, the `name` column of an index row.
pub fn base_name(path: &str) -> (r: String)
    ensures
        r@ == spec_base_name(path@),
{
    let v = to_chars(path);
    match last_sep_index(&v) {
        Some(i) => {
            proof {
                assert(i < v.len());
            }
            let b = sub_chars(&v, i + 1, v.len());
            proof {
                let w = choose|w: int|
                    0 <= w < v@.len() && spec_is_sep(v@[w]) && forall|j: int|
                        w < j < v@.len() ==> !spec_is_sep(v@[j]);
                assert(w == i as int) by {
                    if w < i as int {
                        assert(spec_is_sep(v@[i as int]));
                    }
                    if w > i as int {
                        assert(spec_is_sep(v@[w]));
                    }
                };
            }
            chars_to_string(&b)
        },
        None => chars_to_string(&v),
    }
}

/// The extension of the base name, lower-cased: the characters after the
/// last dot, unless the dot starts the name (hidden files) or the name has
/// no dot, in which case the extension is empty.
pub open spec fn spec_extension_lower(s: Seq<char>) -> Seq<char> {
    let b = spec_base_name(s);
    if exists|j: int| 0 <= j < b.len() && b[j] == '.' {
        let i = choose|i: int|
            0 <= i < b.len() && b[i] == '.' && forall|j: int| i < j < b.len() ==> b[j] != '.';
        if i == 0 {
            Seq::empty()
        } else {
            lower_seq(b.subrange(i + 1, b.len() as int))
        }
    } else {
        Seq::empty()
    }
}

/// Extracts the lower-cased extension used for document-type classification.
pub fn extension_lower(path: &str) -> (r: Vec<char>)
    ensures
        r@ == spec_extension_lower(path@),
{
    let name = base_name(path);
    let b = to_chars(name.as_str());
    match last_index_of(&b, '.') {
        Some(i) => {
            proof {
                let w = choose|w: int|
                    0 <= w < b@.len() && b@[w] == '.' && forall|j: int|
                        w < j < b@.len() ==> b@[j] != '.';
                assert(w == i as int) by {
                    if w < i as int {
                        assert(b@[i as int] == '.');
                    }
                    if w > i as int {
                        assert(b@[w] == '.');
                    }
                };
            }
            if i == 0 {
                Vec::new()
            } else {
                proof {
                    assert(i < b.len());
                }
                let e = sub_chars(&b, i + 1, b.len());
                to_lower_chars(&e)
            }
        },
        None => Vec::new(),
    }
}

/// The path of the store file inside the application's data directory.
pub fn get_db_path(data_dir: &str) -> (r: String)
    ensures
        r@ == data_dir@ + "/vaultguard/vaultguard.sqlite"@,
{
    let mut r = data_dir.to_owned();
    r.append("/vaultguard/vaultguard.sqlite");
    r
}

/// The comparison form of a mount point: trailing separators dropped,
/// lower-cased.
pub open spec fn spec_mount_norm(s: Seq<char>) -> Seq<char> {
    lower_seq(s.subrange(0, spec_mount_end(s)))
}

/// Length of the mount string once trailing separators are dropped.
pub open spec fn spec_mount_end(s: Seq<char>) -> int
    decreases s.len(),
{
    if s.len() > 0 && spec_is_sep(s[s.len() - 1]) {
        spec_mount_end(s.drop_last())
    } else {
        s.len() as int
    }
}

/// Normalizes one allow-list mount entry for comparison.
pub fn normalize_mount(m: &str) -> (r: String)
    ensures
        r@ == spec_mount_norm(m@),
{
    let v = to_chars(m);
    let mut e: usize = v.len();
    proof {
        assert(v@.subrange(0, v@.len() as int) =~= v@);
    }
    while e > 0 && is_sep(v[e - 1])
        invariant
            e <= v@.len(),
            spec_mount_end(v@) == spec_mount_end(v@.subrange(0, e as int)),
        decreases e,
    {
        proof {
            assert(v@.subrange(0, e as int).drop_last() =~= v@.subrange(0, e - 1));
        }
        e = e - 1;
    }
    proof {
        if e > 0 {
            assert(!spec_is_sep(v@.subrange(0, e as int)[e - 1]));
        }
        assert(spec_mount_end(v@.subrange(0, e as int)) == e as int);
    }
    let head = sub_chars(&v, 0, e);
    let low = to_lower_chars(&head);
    chars_to_string(&low)
}

/// The path (already normalized, compared lower-cased) lies under one of the
/// allow-listed mounts.
pub open spec fn spec_path_allowed(path: Seq<char>, mounts: Seq<String>) -> bool {
    exists|i: int| 0 <= i < mounts.len() && starts_with_seq(lower_seq(path), mounts[i]@)
}

/// Decides whether a normalized path lies under one of the allow-listed
/// mounts (each already in comparison form, see [`normalize_mount`]).
pub fn is_path_allowed(normalized_path: &str, mounts: &Vec<String>) -> (r: bool)
    ensures
        r == spec_path_allowed(normalized_path@, mounts@),
{
    let p = to_chars(normalized_path);
    let pl = to_lower_chars(&p);
    let mut i: usize = 0;
    while i < mounts.len()
        invariant
            i <= mounts@.len(),
            pl@ == lower_seq(normalized_path@),
            forall|j: int| 0 <= j < i ==> !starts_with_seq(lower_seq(normalized_path@), mounts@[j]@),
        decreases mounts@.len() - i,
    {
        let m = to_chars(mounts[i].as_str());
        if starts_with_chars(&pl, &m) {
            return true;
        }
        i = i + 1;
    }
    false
}

/// Index of the first character that is not a path separator, or the length
/// when the path is all separators.
pub open spec fn spec_first_non_sep(s: Seq<char>, from: int) -> int
    recommends
        0 <= from <= s.len(),
    decreases s.len() - from when 0 <= from <= s.len()
{
    if from >= s.len() {
        s.len() as int
    } else if !spec_is_sep(s[from]) {
        from
    } else {
        spec_first_non_sep(s, from + 1)
    }
}

/// The path begins (after any leading separators) with a drive-letter
/// component such as `C:`.
pub open spec fn spec_has_drive_prefix(s: Seq<char>) -> bool {
    let i = spec_first_non_sep(s, 0);
    i + 1 < s.len() && s[i + 1] == ':'
}

/// Detects a drive-letter path, accepted outright by the Windows-style
/// allow-list check.
pub fn has_drive_prefix(path: &str) -> (r: bool)
    ensures
        r == spec_has_drive_prefix(path@),
{
    let v = to_chars(path);
    let mut i: usize = 0;
    while i < v.len() && is_sep(v[i])
        invariant
            i <= v@.len(),
            spec_first_non_sep(v@, 0) == spec_first_non_sep(v@, i as int),
        decreases v@.len() - i,
    {
        i = i + 1;
    }
    proof {
        assert(spec_first_non_sep(v@, i as int) == i as int);
    }
    i < v.len() && i + 1 < v.len() && v[i + 1] == ':'
}

/// The path is a short-form UNC path (`\\server\...`), accepted outright by
/// the Windows-style allow-list check.
pub fn is_unc_path(path: &str) -> (r: bool)
    ensures
        r == starts_with_seq(path@, double_backslash()),
{
    let v = to_chars(path);
    let dbs = to_chars("\\\\");
    proof {
        reveal_strlit("\\\\");
        assert(dbs@ =~= double_backslash());
    }
    starts_with_chars(&v, &dbs)
}

} // verus!
