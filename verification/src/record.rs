//! The per-file record collected during traversal.

use vstd::prelude::*;
use crate::names::{spec_extension, extension_of};

verus! {

/// One regular file observed while walking the tree.
///
/// `modified` carries the caller's minute-precision rendering of the
/// modification instant; `modified_ts` carries the same instant as epoch
/// seconds, and all age arithmetic and tie-breaking go by it alone.
/// `depth` counts directory levels below the root: the root itself is 0,
/// its direct children 1.
#[derive(Debug)]
pub struct FileInfo {
    pub path: String,
    pub name: String,
    pub extension: String,
    pub size: u64,
    pub modified: String,
    pub modified_ts: i64,
    pub depth: usize,
}

impl Clone for FileInfo {
    fn clone(&self) -> (r: Self)
        ensures
            r == *self,
    {
        FileInfo {
            path: self.path.clone(),
            name: self.name.clone(),
            extension: self.extension.clone(),
            size: self.size,
            modified: self.modified.clone(),
            modified_ts: self.modified_ts,
            depth: self.depth,
        }
    }
}

/// Build the record for one regular file; the extension is derived from
/// the name, the other fields are taken as handed in.
pub fn build_record(
    path: String,
    name: String,
    size: u64,
    modified: String,
    modified_ts: i64,
    depth: usize,
) -> (r: FileInfo)
    ensures
        r.path == path,
        r.name == name,
        r.extension@ == spec_extension(name@),
        r.size == size,
        r.modified == modified,
        r.modified_ts == modified_ts,
        r.depth == depth,
{
    let extension = extension_of(name.as_str());
    FileInfo { path, name, extension, size, modified, modified_ts, depth }
}

} // verus!
