//! Validators of command-line values.

use vstd::prelude::*;
use crate::text::{push_str, to_string, trim, trim_str};

verus! {

/// The verdict on a path given whether it exists and whether it is a file.
pub open spec fn file_verdict(value: Seq<char>, exists: bool, is_file: bool) -> Result<(), Seq<char>> {
    if !exists {
        Err("File not found: "@ + value)
    } else if !is_file {
        Err("Must be a file: "@ + value)
    } else {
        Ok(())
    }
}

/// Judges a path from what the file system says of it.
pub fn existing_file_verdict(value: &str, exists: bool, is_file: bool) -> (r: Result<(), String>)
    ensures
        match file_verdict(value@, exists, is_file) {
            Ok(()) => r is Ok,
            Err(m) => r matches Err(e) && e@ == m,
        },
{
    if !exists {
        let mut m = to_string("File not found: ");
        push_str(&mut m, value);
        return Err(m);
    }
    if !is_file {
        let mut m = to_string("Must be a file: ");
        push_str(&mut m, value);
        return Err(m);
    }
    Ok(())
}

/// `Path::exists` of the path; it depends on the file system, so nothing is
/// claimed of it.
#[verifier::external_body]
fn path_exists(value: &str) -> bool {
    std::path::Path::new(value).exists()
}

/// `Path::is_file` of the path; it depends on the file system, so nothing is
/// claimed of it.
#[verifier::external_body]
fn path_is_file(value: &str) -> bool {
    std::path::Path::new(value).is_file()
}

/// Accepts the path of an existing file.
pub fn is_existing_file(value: &str) -> (r: Result<(), String>)
    ensures
        r matches Err(e) ==> (e@ == "File not found: "@ + value@ || e@ == "Must be a file: "@ + value@),
{
    let exists = path_exists(value);
    if !exists {
        return existing_file_verdict(value, false, false);
    }
    let is_file = path_is_file(value);
    existing_file_verdict(value, exists, is_file)
}

/// Whether a value reads as a boolean: blank, `true` or `false` once trimmed.
pub open spec fn bool_text(value: Seq<char>) -> bool {
    let t = trim(value);
    t == ""@ || t == "true"@ || t == "false"@
}

/// Accepts a boolean value.
pub fn bool_validator(value: &str) -> (r: Result<(), String>)
    ensures
        bool_text(value@) ==> r is Ok,
        !bool_text(value@) ==> (r matches Err(e) && e@ == "Must be 'true' or 'false': "@ + value@),
{
    let t = trim_str(value);
    let ts = t.as_str();
    if crate::text::str_equal(ts, "") || crate::text::str_equal(ts, "true") || crate::text::str_equal(ts, "false") {
        Ok(())
    } else {
        let mut m = to_string("Must be 'true' or 'false': ");
        push_str(&mut m, value);
        Err(m)
    }
}

} // verus!
