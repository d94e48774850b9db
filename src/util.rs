//! Small decisions on names and sizes.
use crate::decimal::{decimal_of, decimal_text};
use crate::paths::{extension_of, path_extension};
use crate::text::{eq_ascii_folded, eq_ignore_ascii_case};
use vstd::prelude::*;

verus! {

/// `n` bytes for display: the count in the largest of B, KB, MB, GB and TB
/// (steps of 1024) that keeps it below 1024, rounded down; TB has no bound.
pub open spec fn human_size_of(n: nat) -> Seq<char> {
    if n < 1024 {
        decimal_of(n) + seq![' ', 'B']
    } else if n / 1024 < 1024 {
        decimal_of(n / 1024) + seq![' ', 'K', 'B']
    } else if n / 1024 / 1024 < 1024 {
        decimal_of(n / 1024 / 1024) + seq![' ', 'M', 'B']
    } else if n / 1024 / 1024 / 1024 < 1024 {
        decimal_of(n / 1024 / 1024 / 1024) + seq![' ', 'G', 'B']
    } else {
        decimal_of(n / 1024 / 1024 / 1024 / 1024) + seq![' ', 'T', 'B']
    }
}

/// A byte count for display, such as `3 KB` for 3072.
pub fn human_size(size: u64) -> (r: String)
    ensures
        r@ == human_size_of(size as nat),
{
    let mut h = size;
    let mut unit: char = ' ';
    if h >= 1024 {
        h = h / 1024;
        unit = 'K';
        if h >= 1024 {
            h = h / 1024;
            unit = 'M';
            if h >= 1024 {
                h = h / 1024;
                unit = 'G';
                if h >= 1024 {
                    h = h / 1024;
                    unit = 'T';
                }
            }
        }
    }
    let mut r = decimal_text(h);
    r.push(' ');
    if unit != ' ' {
        r.push(unit);
    }
    r.push('B');
    proof {
        let n = size as nat;
        if n < 1024 {
            assert(r@ =~= decimal_of(n) + seq![' ', 'B']);
        } else if n / 1024 < 1024 {
            assert(r@ =~= decimal_of(n / 1024) + seq![' ', 'K', 'B']);
        } else if n / 1024 / 1024 < 1024 {
            assert(r@ =~= decimal_of(n / 1024 / 1024) + seq![' ', 'M', 'B']);
        } else if n / 1024 / 1024 / 1024 < 1024 {
            assert(r@ =~= decimal_of(n / 1024 / 1024 / 1024) + seq![' ', 'G', 'B']);
        } else {
            assert(r@ =~= decimal_of(n / 1024 / 1024 / 1024 / 1024) + seq![' ', 'T', 'B']);
        }
    }
    r
}

/// A file name that starts with `.` is hidden.
pub open spec fn hidden_name(name: Seq<char>) -> bool {
    name.len() > 0 && name[0] == '.'
}

/// Whether a file called `name` is hidden.
pub fn is_hidden_name(name: &str) -> (r: bool)
    ensures
        r == hidden_name(name@),
{
    name.unicode_len() > 0 && name.get_char(0) == '.'
}

/// `ext` is one of `exclude`, ignoring ASCII case.
pub open spec fn ext_listed(ext: Seq<char>, exclude: Seq<String>) -> bool {
    exists|i: int| 0 <= i < exclude.len() && eq_ascii_folded(ext, #[trigger] exclude[i]@)
}

/// Whether the extension `ext` is one of `exclude`, ignoring ASCII case.
pub fn extension_listed(ext: &str, exclude: &Vec<String>) -> (r: bool)
    ensures
        r == ext_listed(ext@, exclude@),
{
    let mut i: usize = 0;
    while i < exclude.len()
        invariant
            i <= exclude.len(),
            forall|k: int| 0 <= k < i ==> !eq_ascii_folded(ext@, #[trigger] exclude@[k]@),
        decreases exclude.len() - i,
    {
        if eq_ignore_ascii_case(ext, exclude[i].as_str()) {
            return true;
        }
        i = i + 1;
    }
    false
}

/// A file whose extension is `ext` (if it has one) is left out of a scan
/// that excludes `exclude`.
pub open spec fn excluded_ext(ext: Option<Seq<char>>, exclude: Seq<String>) -> bool {
    ext matches Some(e) && ext_listed(e, exclude)
}

/// A file whose extension is `ext` is a ZIP archive.
pub open spec fn zip_ext(ext: Option<Seq<char>>) -> bool {
    ext matches Some(e) && eq_ascii_folded(e, seq!['z', 'i', 'p'])
}

/// Whether an extension `ext` is `zip`, ignoring ASCII case.
pub fn is_zip_extension(ext: &Option<String>) -> (r: bool)
    ensures
        r == zip_ext(crate::paths::opt_text(*ext)),
{
    match ext {
        Some(e) => {
            let zip = "zip";
            proof {
                reveal_strlit("zip");
            }
            assert(zip@ =~= seq!['z', 'i', 'p']);
            eq_ignore_ascii_case(e.as_str(), zip)
        },
        None => false,
    }
}

/// Whether the file at `path` is left out of a scan that excludes `exclude`.
pub fn is_excluded(path: &str, exclude: &Vec<String>) -> (r: bool)
    ensures
        r == excluded_ext(path_extension(path@), exclude@),
{
    match extension_of(path) {
        Some(e) => extension_listed(e.as_str(), exclude),
        None => false,
    }
}

/// Whether the file at `path` is a ZIP archive, by its extension.
pub fn is_zip_path(path: &str) -> (r: bool)
    ensures
        r == zip_ext(path_extension(path@)),
{
    let ext = extension_of(path);
    is_zip_extension(&ext)
}

} // verus!
