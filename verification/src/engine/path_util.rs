//! Paths of the file system and paths of trees.

use vstd::prelude::*;
use vstd::utf8::{decode_utf8, encode_utf8, valid_utf8};

use crate::bytes::{lossy, lossy_text, text_of};
use crate::text::{replace_char, with_char_replaced};

verus! {

/// Convert a platform path to a forward-slash string for git tree storage.
pub fn to_tree_path(path: &str) -> (r: String)
    ensures
        r@ == with_char_replaced(path@, '\\', '/'),
{
    replace_char(path, '\\', '/')
}

/// Why a location in a tree is no path.
#[derive(Debug)]
pub struct LocationError {
    pub location: String,
}

impl LocationError {
    /// The text of the error.
    pub open spec fn text(&self) -> Seq<char> {
        "Diff path '"@ + self.location@ + "' is not valid UTF-8"@
    }

    /// The text of the error.
    pub fn message(&self) -> (r: String)
        ensures
            r@ == self.text(),
    {
        "Diff path '".to_owned().concat(self.location.as_str()).concat("' is not valid UTF-8")
    }
}

/// Convert a location in a tree to a path.
pub fn diff_location_to_path(location: &[u8]) -> (r: Result<String, LocationError>)
    ensures
        match r {
            Ok(path) => valid_utf8(location@) && path@ == decode_utf8(location@) && encode_utf8(
                path@,
            ) == location@,
            Err(error) => !valid_utf8(location@) && error.location@ == lossy_text(location@),
        },
{
    match text_of(location) {
        Some(path) => Ok(path),
        None => Err(LocationError { location: lossy(location) }),
    }
}

} // verus!
