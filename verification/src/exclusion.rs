//! The exclusion filter: decides whether a directory subtree is pruned from
//! crawling. The rule set covers operating-system installation directories,
//! package-manager and dependency caches, version-control metadata, recycle
//! and trash directories, system volume metadata, hidden cache directories
//! and desktop-search metadata, across both platform conventions. Absence of
//! a matching rule means the subtree is crawled.

use vstd::prelude::*;
use crate::chars::{contains_chars, contains_seq, ends_with_chars, ends_with_seq, lower_seq, to_chars, to_lower_chars};

verus! {

/// The path matches one of the exclusion rules (compared lower-cased).
pub open spec fn spec_is_excluded(s: Seq<char>) -> bool {
    let l = lower_seq(s);
    ||| contains_seq(l, "\\windows\\"@)
    ||| ends_with_seq(l, "\\windows"@)
    ||| contains_seq(l, "\\program files\\"@)
    ||| contains_seq(l, "\\program files (x86)\\"@)
    ||| contains_seq(l, "\\perflogs\\"@)
    ||| contains_seq(l, "\\$recycle.bin\\"@)
    ||| contains_seq(l, "\\recycle.bin\\"@)
    ||| contains_seq(l, "\\system volume information"@)
    ||| ends_with_seq(l, "\\pagefile.sys"@)
    ||| ends_with_seq(l, "\\hiberfil.sys"@)
    ||| contains_seq(l, "\\windows\\winsxs"@)
    ||| contains_seq(l, "\\windows\\installer"@)
    ||| contains_seq(l, "\\programdata\\"@)
    ||| contains_seq(l, "node_modules"@)
    ||| contains_seq(l, "/.git/"@)
    ||| contains_seq(l, "\\.git\\"@)
    ||| ends_with_seq(l, "/.git"@)
    ||| ends_with_seq(l, "\\.git"@)
    ||| contains_seq(l, "\\.cache\\"@)
    ||| contains_seq(l, "/.cache/"@)
    ||| contains_seq(l, ".spotlight-v100"@)
    ||| contains_seq(l, ".fseventsd"@)
}

/// Evaluated once per directory before it is pushed onto the crawl stack:
/// true prunes the subtree. This governs only subtree pruning; the entry at
/// the boundary is still indexed once by the pass that lists its parent.
pub fn is_excluded_path(path: &str) -> (r: bool)
    ensures
        r == spec_is_excluded(path@),
{
    let v = to_chars(path);
    let l = to_lower_chars(&v);
    if contains_chars(&l, &to_chars("\\windows\\")) {
        return true;
    }
    if ends_with_chars(&l, &to_chars("\\windows")) {
        return true;
    }
    if contains_chars(&l, &to_chars("\\program files\\")) {
        return true;
    }
    if contains_chars(&l, &to_chars("\\program files (x86)\\")) {
        return true;
    }
    if contains_chars(&l, &to_chars("\\perflogs\\")) {
        return true;
    }
    if contains_chars(&l, &to_chars("\\$recycle.bin\\")) {
        return true;
    }
    if contains_chars(&l, &to_chars("\\recycle.bin\\")) {
        return true;
    }
    if contains_chars(&l, &to_chars("\\system volume information")) {
        return true;
    }
    if ends_with_chars(&l, &to_chars("\\pagefile.sys")) {
        return true;
    }
    if ends_with_chars(&l, &to_chars("\\hiberfil.sys")) {
        return true;
    }
    if contains_chars(&l, &to_chars("\\windows\\winsxs")) {
        return true;
    }
    if contains_chars(&l, &to_chars("\\windows\\installer")) {
        return true;
    }
    if contains_chars(&l, &to_chars("\\programdata\\")) {
        return true;
    }
    if contains_chars(&l, &to_chars("node_modules")) {
        return true;
    }
    if contains_chars(&l, &to_chars("/.git/")) {
        return true;
    }
    if contains_chars(&l, &to_chars("\\.git\\")) {
        return true;
    }
    if ends_with_chars(&l, &to_chars("/.git")) {
        return true;
    }
    if ends_with_chars(&l, &to_chars("\\.git")) {
        return true;
    }
    if contains_chars(&l, &to_chars("\\.cache\\")) {
        return true;
    }
    if contains_chars(&l, &to_chars("/.cache/")) {
        return true;
    }
    if contains_chars(&l, &to_chars(".spotlight-v100")) {
        return true;
    }
    if contains_chars(&l, &to_chars(".fseventsd")) {
        return true;
    }
    false
}

} // verus!
