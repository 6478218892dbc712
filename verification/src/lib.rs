//! The object layer of a content-addressable version-control store.
//!
//! The library decodes and encodes the three on-disk formats such a store
//! uses: the type-plus-length frame that wraps every object, the mail-map
//! key/value text that commit and tag objects carry, and the binary entry
//! list of tree objects. Reading and writing the backing files, hashing
//! and compression stay outside; the library works on plain bytes.

pub mod error;
pub mod mode;
pub mod scan;
pub mod text;
pub mod index_map;
pub mod repo;
pub mod mail_map;
pub mod object;
pub mod tree;
