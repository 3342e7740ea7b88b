//! Document-type classification.
//!
//! A path's coarse category is derived from its lower-cased extension
//! against a fixed table; directories always classify as `dir`; an empty
//! extension classifies as `unknown`; any other extension falls back to the
//! upper-cased extension itself (an open-ended long tail, not an error).
//! A second mapping folds stored document types into the report categories
//! used by the per-category aggregate.

use vstd::prelude::*;
use crate::chars::{chars_to_string, eq_chars, lower_seq, to_chars, to_lower_chars, to_upper_chars, upper_seq};
use crate::paths::spec_extension_lower;

verus! {

/// The category for a path with the given lower-cased extension.
pub open spec fn spec_doc_type_of_ext(e: Seq<char>) -> Seq<char> {
    if e == "pdf"@ {
        "PDF"@
    } else if e == "doc"@ || e == "docx"@ || e == "odt"@ {
        "DOC"@
    } else if e == "xls"@ || e == "xlsx"@ || e == "csv"@ {
        "SHEET"@
    } else if e == "ppt"@ || e == "pptx"@ {
        "PPT"@
    } else if e == "jpg"@ || e == "jpeg"@ || e == "png"@ || e == "gif"@ || e == "bmp"@
        || e == "webp"@ || e == "heic"@ {
        "IMAGE"@
    } else if e == "zip"@ || e == "rar"@ || e == "7z"@ || e == "tar"@ || e == "gz"@ {
        "ARCHIVE"@
    } else if e == "log"@ || e == "txt"@ || e == "md"@ || e == "json"@ || e == "xml"@
        || e == "yml"@ || e == "yaml"@ {
        "TEXT"@
    } else if e == "exe"@ || e == "dll"@ || e == "sys"@ {
        "BINARY"@
    } else if e.len() == 0 {
        "unknown"@
    } else {
        upper_seq(e)
    }
}

/// The document type stored for a path: `dir` for directories, otherwise the
/// extension table applied to the path's lower-cased extension.
pub open spec fn spec_doc_type(path: Seq<char>, is_dir: bool) -> Seq<char> {
    if is_dir {
        "dir"@
    } else {
        spec_doc_type_of_ext(spec_extension_lower(path))
    }
}

/// Classifies a path into its coarse document-type category.
pub fn doc_type_for_path(path: &str, is_dir: bool) -> (r: String)
    ensures
        r@ == spec_doc_type(path@, is_dir),
{
    if is_dir {
        return "dir".to_owned();
    }
    let ext = crate::paths::extension_lower(path);
    if eq_chars(&ext, &to_chars("pdf")) {
        return "PDF".to_owned();
    }
    if eq_chars(&ext, &to_chars("doc")) || eq_chars(&ext, &to_chars("docx"))
        || eq_chars(&ext, &to_chars("odt")) {
        return "DOC".to_owned();
    }
    if eq_chars(&ext, &to_chars("xls")) || eq_chars(&ext, &to_chars("xlsx"))
        || eq_chars(&ext, &to_chars("csv")) {
        return "SHEET".to_owned();
    }
    if eq_chars(&ext, &to_chars("ppt")) || eq_chars(&ext, &to_chars("pptx")) {
        return "PPT".to_owned();
    }
    if eq_chars(&ext, &to_chars("jpg")) || eq_chars(&ext, &to_chars("jpeg"))
        || eq_chars(&ext, &to_chars("png")) || eq_chars(&ext, &to_chars("gif"))
        || eq_chars(&ext, &to_chars("bmp")) || eq_chars(&ext, &to_chars("webp"))
        || eq_chars(&ext, &to_chars("heic")) {
        return "IMAGE".to_owned();
    }
    if eq_chars(&ext, &to_chars("zip")) || eq_chars(&ext, &to_chars("rar"))
        || eq_chars(&ext, &to_chars("7z")) || eq_chars(&ext, &to_chars("tar"))
        || eq_chars(&ext, &to_chars("gz")) {
        return "ARCHIVE".to_owned();
    }
    if eq_chars(&ext, &to_chars("log")) || eq_chars(&ext, &to_chars("txt"))
        || eq_chars(&ext, &to_chars("md")) || eq_chars(&ext, &to_chars("json"))
        || eq_chars(&ext, &to_chars("xml")) || eq_chars(&ext, &to_chars("yml"))
        || eq_chars(&ext, &to_chars("yaml")) {
        return "TEXT".to_owned();
    }
    if eq_chars(&ext, &to_chars("exe")) || eq_chars(&ext, &to_chars("dll"))
        || eq_chars(&ext, &to_chars("sys")) {
        return "BINARY".to_owned();
    }
    if ext.len() == 0 {
        return "unknown".to_owned();
    }
    let u = to_upper_chars(&ext);
    chars_to_string(&u)
}

/// Folds a stored document type into the report category used by the
/// per-category aggregate (compared lower-cased, `dir` checked exactly).
pub open spec fn spec_category(doc_type: Seq<char>) -> Seq<char> {
    let l = lower_seq(doc_type);
    if doc_type == "dir"@ {
        "Dir"@
    } else if l == "pdf"@ {
        "PDF"@
    } else if l == "doc"@ || l == "docx"@ || l == "odt"@ {
        "Docs"@
    } else if l == "ppt"@ || l == "pptx"@ {
        "PPT"@
    } else if l == "xls"@ || l == "xlsx"@ || l == "csv"@ {
        "Sheets"@
    } else if l == "mp4"@ || l == "mkv"@ || l == "mov"@ || l == "avi"@ || l == "m4v"@
        || l == "wmv"@ {
        "Videos"@
    } else if l == "jpg"@ || l == "jpeg"@ || l == "png"@ || l == "gif"@ || l == "bmp"@
        || l == "webp"@ || l == "heic"@ || l == "svg"@ || l == "image"@ {
        "Images"@
    } else if l == "txt"@ || l == "log"@ || l == "md"@ || l == "json"@ || l == "xml"@
        || l == "yml"@ || l == "yaml"@ {
        "Text"@
    } else if l == "zip"@ || l == "rar"@ || l == "7z"@ || l == "tar"@ || l == "gz"@
        || l == "exe"@ || l == "dll"@ || l == "bin"@ || l == "binary"@ || l == "archive"@ {
        "Binary/Archive"@
    } else {
        "Other"@
    }
}

/// Exec form of [`spec_category`].
pub fn category_of(doc_type: &str) -> (r: String)
    ensures
        r@ == spec_category(doc_type@),
{
    let v = to_chars(doc_type);
    let l = to_lower_chars(&v);
    if eq_chars(&v, &to_chars("dir")) {
        return "Dir".to_owned();
    }
    if eq_chars(&l, &to_chars("pdf")) {
        return "PDF".to_owned();
    }
    if eq_chars(&l, &to_chars("doc")) || eq_chars(&l, &to_chars("docx"))
        || eq_chars(&l, &to_chars("odt")) {
        return "Docs".to_owned();
    }
    if eq_chars(&l, &to_chars("ppt")) || eq_chars(&l, &to_chars("pptx")) {
        return "PPT".to_owned();
    }
    if eq_chars(&l, &to_chars("xls")) || eq_chars(&l, &to_chars("xlsx"))
        || eq_chars(&l, &to_chars("csv")) {
        return "Sheets".to_owned();
    }
    if eq_chars(&l, &to_chars("mp4")) || eq_chars(&l, &to_chars("mkv"))
        || eq_chars(&l, &to_chars("mov")) || eq_chars(&l, &to_chars("avi"))
        || eq_chars(&l, &to_chars("m4v")) || eq_chars(&l, &to_chars("wmv")) {
        return "Videos".to_owned();
    }
    if eq_chars(&l, &to_chars("jpg")) || eq_chars(&l, &to_chars("jpeg"))
        || eq_chars(&l, &to_chars("png")) || eq_chars(&l, &to_chars("gif"))
        || eq_chars(&l, &to_chars("bmp")) || eq_chars(&l, &to_chars("webp"))
        || eq_chars(&l, &to_chars("heic")) || eq_chars(&l, &to_chars("svg"))
        || eq_chars(&l, &to_chars("image")) {
        return "Images".to_owned();
    }
    if eq_chars(&l, &to_chars("txt")) || eq_chars(&l, &to_chars("log"))
        || eq_chars(&l, &to_chars("md")) || eq_chars(&l, &to_chars("json"))
        || eq_chars(&l, &to_chars("xml")) || eq_chars(&l, &to_chars("yml"))
        || eq_chars(&l, &to_chars("yaml")) {
        return "Text".to_owned();
    }
    if eq_chars(&l, &to_chars("zip")) || eq_chars(&l, &to_chars("rar"))
        || eq_chars(&l, &to_chars("7z")) || eq_chars(&l, &to_chars("tar"))
        || eq_chars(&l, &to_chars("gz")) || eq_chars(&l, &to_chars("exe"))
        || eq_chars(&l, &to_chars("dll")) || eq_chars(&l, &to_chars("bin"))
        || eq_chars(&l, &to_chars("binary")) || eq_chars(&l, &to_chars("archive")) {
        return "Binary/Archive".to_owned();
    }
    "Other".to_owned()
}

} // verus!
