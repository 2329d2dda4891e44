//! The upload naming policy: which multipart parts are stored, and under
//! which name. A part is stored only when its field is named `file` and it
//! declares a non-empty filename; an empty or absent filename is silently
//! skipped, so a form submitted with no file chosen does not fail. A name
//! that could escape the drop directory (a path separator, `.` or `..`) is
//! rejected rather than joined verbatim.

use vstd::prelude::*;

verus! {

/// A filename that stays inside the drop directory: non-empty, without path
/// separators, and neither `.` nor `..`.
pub open spec fn is_safe_name(s: Seq<char>) -> bool {
    s.len() > 0 && (forall|i: int| 0 <= i < s.len() ==> s[i] != '/' && s[i] != '\\') && !(s.len()
        == 1 && s[0] == '.') && !(s.len() == 2 && s[0] == '.' && s[1] == '.')
}

/// Exec test for [`is_safe_name`].
pub fn safe_name(name: &str) -> (r: bool)
    ensures
        r == is_safe_name(name@),
{
    let n = name.unicode_len();
    if n == 0 {
        return false;
    }
    if n == 1 && name.get_char(0) == '.' {
        return false;
    }
    if n == 2 && name.get_char(0) == '.' && name.get_char(1) == '.' {
        return false;
    }
    let mut i: usize = 0;
    while i < n
        invariant
            0 <= i <= n,
            n == name@.len(),
            forall|q: int| 0 <= q < i ==> name@[q] != '/' && name@[q] != '\\',
        decreases n - i,
    {
        let c = name.get_char(i);
        if c == '/' || c == '\\' {
            return false;
        }
        i = i + 1;
    }
    true
}

/// Whether a request claiming to be an upload is well formed: among the
/// field names of its multipart parts there is at least one named `file`.
/// A request without one is a malformed upload, a client error; whether the
/// parts carry filenames does not matter here.
pub fn has_file_part(field_names: &Vec<String>) -> (r: bool)
    ensures
        r == exists|i: int|
            0 <= i < field_names@.len() && (#[trigger] field_names@[i])@ == "file"@,
{
    let lit = String::from_str("file");
    let n = field_names.len();
    let mut i: usize = 0;
    while i < n
        invariant
            0 <= i <= n,
            n == field_names@.len(),
            lit@ == "file"@,
            forall|q: int| 0 <= q < i ==> (#[trigger] field_names@[q])@ != "file"@,
        decreases n - i,
    {
        if field_names[i] == lit {
            return true;
        }
        i = i + 1;
    }
    false
}

/// The name a multipart part is stored under, if any: the part must belong
/// to the `file` field, declare a filename, and that name must be safe.
/// `None` means the part is skipped without error.
pub fn upload_target(field_name: &str, file_name: Option<&str>) -> (r: Option<String>)
    ensures
        (match (r, file_name) {
            (Some(s), Some(f)) => field_name@ == "file"@ && s@ == f@ && is_safe_name(f@),
            (Some(_), None) => false,
            (None, Some(f)) => !(field_name@ == "file"@ && is_safe_name(f@)),
            (None, None) => true,
        }),
{
    let fe = String::from_str(field_name);
    let lit = String::from_str("file");
    if !(fe == lit) {
        return None;
    }
    match file_name {
        None => None,
        Some(f) => {
            if safe_name(f) {
                Some(String::from_str(f))
            } else {
                None
            }
        },
    }
}

} // verus!
