//! A stored skeleton: the template a new project is instantiated from.

use vstd::prelude::*;
use crate::error::SkError;
use crate::text;
use crate::text::replace_all_spec;
use crate::util;
use crate::util::filename_of;

verus! {

/// A skeleton project's identifier and the path it is stored at.
pub struct Skeleton {
    pub id: String,
    pub path: String,
}

impl Skeleton {
    /// Constructor for a skeleton from the path it is stored at: the id is
    /// the path's file name with every `.sk` occurrence dropped.
    pub fn from_path_buf(path: String) -> (r: Result<Self, SkError>)
        ensures
            match filename_of(path@) {
                Some(f) => r matches Ok(sk) && sk.id@ == replace_all_spec(f, ".sk"@, ""@)
                    && sk.path == path,
                None => r matches Err(e) && e == SkError::InvalidInput,
            },
    {
        let name = match util::path_buf_filename(path.as_str()) {
            Ok(n) => n,
            Err(e) => {
                return Err(e);
            },
        };
        let id = text::replace_all(name.as_str(), ".sk", "");
        Ok(Skeleton { id, path })
    }
}

} // verus!
