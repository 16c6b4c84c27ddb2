//! Helpers of `exifmv`, a tool that files photos into a folder hierarchy:
//! album names taken from folder names, date prefixes, image extensions,
//! numbered destination names, content hashing and the decisions taken
//! while moving a photo to its destination.

pub mod bytes;
pub mod text;
pub mod date_prefix;
pub mod path;
pub mod path_laws;
pub mod naming;
pub mod album;
pub mod extensions;
pub mod errors;
pub mod hashing;
pub mod claims;
pub mod placement;
pub mod runs;
