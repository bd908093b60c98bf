use vstd::prelude::*;
use vstd::string::StringExecFns;

verus! {

/// Failure taxonomy of the engine.
///
/// `NotFound` reports a missing source or root path, `IoError` an OS-level
/// read, write, create or rename failure at a path, `EncodingError` file
/// content that is not valid text, and `PermissionSkip` the deliberate
/// exclusion of an executable file from content substitution.
/// `InvalidInput` reports caller input that no rule of the library accepts,
/// and `NoHomeDirectory` a machine on which no home directory is known.
#[derive(Debug, PartialEq, Eq)]
pub enum SkError {
    NotFound { path: String },
    IoError { path: String },
    EncodingError { path: String },
    PermissionSkip { path: String },
    InvalidInput,
    NoHomeDirectory,
}

impl SkError {
    /// A one-line account of the failure, with its path where one is known.
    pub fn message(&self) -> (r: String)
        ensures
            match self {
                SkError::NotFound { path } => r@ == "not found: "@ + path@,
                SkError::IoError { path } => r@ == "i/o failure at "@ + path@,
                SkError::EncodingError { path } => r@ == "not valid text: "@ + path@,
                SkError::PermissionSkip { path } => r@ == "skipped executable file "@ + path@,
                SkError::InvalidInput => r@ == "invalid input"@,
                SkError::NoHomeDirectory => r@ == "could not find the home directory"@,
            },
    {
        match self {
            SkError::NotFound { path } => {
                let mut m = String::from_str("not found: ");
                m.append(path.as_str());
                m
            },
            SkError::IoError { path } => {
                let mut m = String::from_str("i/o failure at ");
                m.append(path.as_str());
                m
            },
            SkError::EncodingError { path } => {
                let mut m = String::from_str("not valid text: ");
                m.append(path.as_str());
                m
            },
            SkError::PermissionSkip { path } => {
                let mut m = String::from_str("skipped executable file ");
                m.append(path.as_str());
                m
            },
            SkError::InvalidInput => String::from_str("invalid input"),
            SkError::NoHomeDirectory => String::from_str("could not find the home directory"),
        }
    }
}

} // verus!
