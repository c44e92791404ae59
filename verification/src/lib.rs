//! A read-only reader for git repositories: object ids, loose objects, commit
//! records, reference resolution and an ordered walk over the commit graph.
//!
//! Nothing here touches the filesystem. Callers read files and hand their
//! bytes over; every decision about those bytes is made, and proved, here.

pub mod bytes;
pub mod cache;
pub mod commit;
pub mod decimal;
pub mod delta;
pub mod error;
pub mod host;
mod id_set;
pub mod locate;
pub mod loose;
pub mod media;
pub mod memory;
pub mod object_id;
pub mod odb;
pub mod pack;
pub mod pack_index;
pub mod packed_refs;
pub mod refs;
pub mod signature;
pub mod summary;
pub mod text;
pub mod walk;
pub mod walk_laws;
pub mod zlib;
