//! Filesystem probes. The walk itself is outside work; everything the
//! engine decides about the walked entries is verified code that takes
//! the entry list as a value.

use vstd::prelude::*;

verus! {

/// One entry of a directory walk, as plain values. A `None` path or file
/// name stands for one that was not valid UTF-8; such entries are skipped
/// by every consumer.
pub struct WalkEntry {
    pub path: Option<String>,
    pub file_name: Option<String>,
    pub depth: usize,
    pub is_dir: bool,
}

impl WalkEntry {
    /// Both the path and the final component are usable text.
    pub open spec fn ok(&self) -> bool {
        self.path is Some && self.file_name is Some
    }

    pub open spec fn path_view(&self) -> Seq<char> {
        self.path->0@
    }

    pub open spec fn name_view(&self) -> Seq<char> {
        self.file_name->0@
    }
}

/// Relies on `walkdir::WalkDir`: yields every readable entry of the tree
/// under `dir` whose depth lies between the two bounds, parents before
/// children. Unreadable entries are skipped. Which entries come back
/// depends on the disk; what is promised is only the depth window, which
/// walkdir enforces (its setters clamp the maximum up to the minimum
/// rather than fail, hence the shape of the upper bound).
#[verifier::external_body]
pub fn walk_dir(dir: &str, min_depth: usize, max_depth: usize) -> (r: Vec<WalkEntry>)
    ensures
        forall|k: int|
            0 <= k < r@.len() ==> min_depth <= (#[trigger] r@[k]).depth && r@[k].depth
                <= (if min_depth <= max_depth {
                max_depth
            } else {
                min_depth
            }),
{
    walkdir::WalkDir::new(dir)
        .min_depth(min_depth)
        .max_depth(max_depth)
        .into_iter()
        .filter_map(|e| e.ok())
        .map(|e| WalkEntry {
            path: e.path().to_str().map(|s| s.to_string()),
            file_name: e.file_name().to_str().map(|s| s.to_string()),
            depth: e.depth(),
            is_dir: e.file_type().is_dir(),
        })
        .collect()
}

/// Relies on `std::path::Path::exists`: whether the path points at an
/// entry the process can stat. Depends on the disk, so nothing is
/// promised of the answer.
#[verifier::external_body]
pub fn path_exists(path: &str) -> bool {
    std::path::Path::new(path).exists()
}

} // verus!
