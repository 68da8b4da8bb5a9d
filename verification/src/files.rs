//! Where the markdown files are looked for.

use vstd::prelude::*;
use crate::text::concat;

verus! {

/// The glob pattern of the markdown files under the directory `dir`.
pub fn markdown_pattern(dir: &str) -> (res: String)
    ensures
        res@ == dir@ + "/"@ + "**/*.md"@,
{
    concat(concat(dir, "/").as_str(), "**/*.md")
}

} // verus!
