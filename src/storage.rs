//! Telling object-store paths from local ones.
use vstd::prelude::*;
use crate::text::chars_of;

verus! {

/// The scheme that marks an S3 object path.
pub open spec fn s3_scheme() -> Seq<char> {
    seq!['s', '3', ':', '/', '/']
}

/// `path` starts with the S3 scheme.
pub open spec fn has_s3_scheme(path: Seq<char>) -> bool {
    path.len() >= 5 && path.subrange(0, 5) == s3_scheme()
}

/// The local file system as a storage backend.
#[derive(Debug, Clone, Copy)]
pub struct LocalStorage;

/// Chooses a storage backend from the shape of a path.
#[derive(Debug, Clone, Copy)]
pub struct StorageFactory;

impl StorageFactory {
    /// The path names an S3 object: it starts with `s3://`.
    pub fn is_s3_path(path: &str) -> (r: bool)
        ensures
            r == has_s3_scheme(path@),
    {
        let cs = chars_of(path);
        if cs.len() < 5 {
            return false;
        }
        let r = cs[0] == 's' && cs[1] == '3' && cs[2] == ':' && cs[3] == '/' && cs[4] == '/';
        assert(r == (cs@.subrange(0, 5) =~= s3_scheme()));
        r
    }

    /// The path names a local file: anything that is not an S3 path.
    pub fn is_local_path(path: &str) -> (r: bool)
        ensures
            r == !has_s3_scheme(path@),
    {
        !Self::is_s3_path(path)
    }
}

} // verus!
