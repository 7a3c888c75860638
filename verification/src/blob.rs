//! The blob view of a framed payload.

use vstd::prelude::*;

use crate::object::parse_frame;
use crate::object::parse_object;
use crate::object::ObjectType;
use crate::GitError;

verus! {

/// The blob codec.
pub struct Blob {}

impl Blob {
    /// Extracts the raw content of a framed blob payload, validating
    /// the type name and the exact declared length. Anything that is
    /// not a well-formed blob frame is corrupt.
    pub fn cat_file(content: Vec<u8>) -> (r: Result<Vec<u8>, GitError>)
        ensures
            match parse_frame(content@) {
                Some(p) => if p.0 == ObjectType::Blob {
                    r matches Ok(c) && c@ == p.1
                } else {
                    r == Err::<Vec<u8>, GitError>(GitError::Corrupt)
                },
                None => r == Err::<Vec<u8>, GitError>(GitError::Corrupt),
            },
    {
        match parse_object(&content) {
            Ok(o) => {
                match o.object_type {
                    ObjectType::Blob => Ok(o.content),
                    _ => Err(GitError::Corrupt),
                }
            },
            Err(_) => Err(GitError::Corrupt),
        }
    }
}

} // verus!
