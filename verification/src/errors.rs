//! Errors of the file operations around a move, with the messages that
//! report them.

use vstd::prelude::*;
use vstd::slice::slice_to_vec;
use vstd::utf8::encode_utf8;
use crate::bytes::append_bytes;

verus! {

/// What went wrong, and on which path (its bytes).
pub enum UtilError {
    /// The size of a file could not be read.
    SizeUnreadable { path: Vec<u8> },
    /// A file could not be opened to hash it.
    HashOpen { path: Vec<u8> },
    /// A file could not be read to hash it.
    HashRead { path: Vec<u8> },
    /// The placeholder at a destination name could not be created.
    CreateFailed { path: Vec<u8> },
    /// A file could not be moved to its destination.
    MoveFailed { source: Vec<u8>, target: Vec<u8> },
    /// A source file could not be removed.
    RemoveFailed { path: Vec<u8> },
    /// A source file could not be moved to the trash.
    TrashFailed { path: Vec<u8> },
}

/// The UTF-8 bytes of a text.
pub open spec fn utf8(s: &str) -> Seq<u8> {
    encode_utf8(s@)
}

impl UtilError {
    /// The message that reports the error, as bytes: fixed UTF-8 text
    /// around the paths as they are.
    pub open spec fn message_spec(&self) -> Seq<u8> {
        match self {
            UtilError::SizeUnreadable { path } => utf8("Unable to read size of '") + path@ + utf8(
                "'.",
            ),
            UtilError::HashOpen { path } => utf8("Unable to open '") + path@ + utf8(
                "' for hashing.",
            ),
            UtilError::HashRead { path } => utf8("Unable to read '") + path@ + utf8(
                "' for hashing.",
            ),
            UtilError::CreateFailed { path } => utf8("Unable to create '") + path@ + utf8("'."),
            UtilError::MoveFailed { source, target } => utf8("Unable to move ") + source@ + utf8(
                " to ",
            ) + target@ + utf8("."),
            UtilError::RemoveFailed { path } => utf8("Failed to remove ") + path@ + utf8("."),
            UtilError::TrashFailed { path } => utf8("Failed to trash ") + path@ + utf8("."),
        }
    }

    /// The message that reports the error.
    pub fn message(&self) -> (r: Vec<u8>)
        ensures
            r@ == self.message_spec(),
    {
        match self {
            UtilError::SizeUnreadable { path } => {
                framed("Unable to read size of '", path.as_slice(), "'.")
            },
            UtilError::HashOpen { path } => {
                framed("Unable to open '", path.as_slice(), "' for hashing.")
            },
            UtilError::HashRead { path } => {
                framed("Unable to read '", path.as_slice(), "' for hashing.")
            },
            UtilError::CreateFailed { path } => {
                framed("Unable to create '", path.as_slice(), "'.")
            },
            UtilError::MoveFailed { source, target } => {
                let mut r = framed("Unable to move ", source.as_slice(), " to ");
                append_bytes(&mut r, target.as_slice());
                append_bytes(&mut r, ".".as_bytes());
                r
            },
            UtilError::RemoveFailed { path } => {
                framed("Failed to remove ", path.as_slice(), ".")
            },
            UtilError::TrashFailed { path } => {
                framed("Failed to trash ", path.as_slice(), ".")
            },
        }
    }
}

fn framed(before: &str, middle: &[u8], after: &str) -> (r: Vec<u8>)
    ensures
        r@ == utf8(before) + middle@ + utf8(after),
{
    let mut r = slice_to_vec(before.as_bytes());
    append_bytes(&mut r, middle);
    append_bytes(&mut r, after.as_bytes());
    r
}

/// A file's size, from what reading its metadata gave (`None` when it
/// failed): the size, or the error naming the file.
pub fn file_size(path: &[u8], metadata_len: Option<u64>) -> (r: Result<u64, UtilError>)
    ensures
        match metadata_len {
            Some(n) => r == Ok::<u64, UtilError>(n),
            None => r matches Err(UtilError::SizeUnreadable { path: p }) && p@ == path@,
        },
{
    match metadata_len {
        Some(n) => Ok(n),
        None => Err(UtilError::SizeUnreadable { path: slice_to_vec(path) }),
    }
}

} // verus!
