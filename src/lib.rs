//! A small content-addressable object store in the style of a version-control
//! system's object database. Objects (blobs, trees, commits) are framed as
//! `<kind> <size>\0<payload>`, identified by the SHA-1 digest of that stream
//! and stored zlib-compressed under a path derived from the identifier.
//!
//! Everything here works on bytes in memory and is verified; reading and
//! writing files is left to the caller.

pub mod command;
pub mod commit;
pub mod decimal;
pub mod digest;
pub mod frame;
pub mod object;
pub mod order;
pub mod snapshot;
pub mod tree;
pub mod zlib;
