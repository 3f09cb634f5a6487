//! Typed failures. Every tree operation returns one of these rather than
//! aborting; each carries the offending path or line, used for display only.

use crate::path::{rendered, Path};
use vstd::prelude::*;
use vstd::string::StringExecFns;

verus! {

/// Why an operation failed.
#[derive(Debug)]
pub enum MinixError {
    /// The path resolves to something other than a single file: a folder,
    /// the root, or (on the write path) a file with leftover segments.
    NotAFile(Path),
    /// Reserved for a stricter traversal that would reject a file where a
    /// folder is expected; never raised by the current resolution.
    NotAFolder(Path),
    /// A segment has no matching child at the expected level.
    DoesntExist(Path),
    /// A config line lacks a `=` separator.
    InvalidAssign(String),
}

pub type MinixResult<T> = Result<T, MinixError>;

/// The display text of an error.
pub open spec fn message_of(e: MinixError) -> Seq<char> {
    match e {
        MinixError::NotAFile(p) => "the path "@ + rendered(p@) + " is not a valid file"@,
        MinixError::NotAFolder(p) => "the path "@ + rendered(p@) + " is not a valid folder"@,
        MinixError::DoesntExist(p) => "the path "@ + rendered(p@) + " does not exist"@,
        MinixError::InvalidAssign(s) => "the assignment "@ + s@ + " is invalid"@,
    }
}

impl MinixError {
    /// A user-visible description of the failure.
    pub fn message(&self) -> (r: String)
        ensures
            r@ == message_of(*self),
    {
        match self {
            MinixError::NotAFile(p) => {
                let mut r = "the path ".to_owned();
                r.append(p.render().as_str());
                r.append(" is not a valid file");
                r
            },
            MinixError::NotAFolder(p) => {
                let mut r = "the path ".to_owned();
                r.append(p.render().as_str());
                r.append(" is not a valid folder");
                r
            },
            MinixError::DoesntExist(p) => {
                let mut r = "the path ".to_owned();
                r.append(p.render().as_str());
                r.append(" does not exist");
                r
            },
            MinixError::InvalidAssign(s) => {
                let mut r = "the assignment ".to_owned();
                r.append(s.as_str());
                r.append(" is invalid");
                r
            },
        }
    }
}

} // verus!
