//! Which files are read.

use vstd::prelude::*;
use crate::problem::{Error, ErrorView, Problem};
use crate::text::same_text;

verus! {

/// Refuses the file at `path` unless its extension is `json`. `extension` is `None` for a file without
/// one, and for one whose extension is not Unicode.
pub fn check_extension(path: &str, extension: Option<&str>) -> (result: Result<(), Error>)
    ensures
        result is Ok <==> (extension matches Some(text) && text@ == "json"@),
        result matches Err(problem) ==> problem@ == (ErrorView::NotJson { path: path@ }),
{
    match extension {
        Some(text) => if same_text(text, "json") {
            Ok(())
        } else {
            Err(Problem::NotJson { path: path.to_owned() })
        },
        None => Err(Problem::NotJson { path: path.to_owned() }),
    }
}

} // verus!
