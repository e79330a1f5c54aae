//! Where the compiled style sheet of a build goes.

use vstd::prelude::*;
use vstd::string::StringExecFns;

verus! {

/// The path of the style sheet in the output directory `out_dir`.
pub fn style_path(out_dir: &str) -> (path: String)
    ensures
        path@ == out_dir@ + "/style.css"@,
{
    String::from_str(out_dir).concat("/style.css")
}

} // verus!
