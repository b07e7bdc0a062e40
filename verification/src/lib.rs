//! A small document database core: typed records with soft-delete
//! semantics, whole-collection binary persistence, and relation caches
//! resolved against a target collection.
//!
//! A collection keeps its documents in insertion order. Removing a
//! document only tombstones its slot (the identifier is set to the
//! sentinel value `0`); the slot itself survives until a compacting
//! save drops it. Relation caches are derived data: they are rebuilt
//! by resolution and are never persisted.

use vstd::prelude::*;

pub mod codec;
pub mod doc;
pub mod resolve;
pub mod store;

pub use doc::Document;
pub use doc::Pointer;
pub use doc::Post;
pub use doc::PostV;
pub use doc::User;
pub use doc::UserV;
pub use store::Posts;
pub use store::Users;

verus! {

/// The outcome of a persistence operation that failed.
///
/// `Io` is reserved for the file-handling shell around this crate;
/// the decoder itself only ever reports `Decode`.
#[derive(Clone, Copy, Debug, PartialEq, Eq, Structural)]
pub enum CollectionError {
    /// Reading or writing the backing file failed.
    Io,
    /// The byte blob is not a well-formed collection encoding.
    Decode,
}

impl CollectionError {
    /// A short description of the error.
    pub fn message(&self) -> (r: &'static str)
        ensures
            *self is Io ==> r@ == "IO error"@,
            *self is Decode ==> r@ == "Decode error"@,
    {
        match self {
            CollectionError::Io => "IO error",
            CollectionError::Decode => "Decode error",
        }
    }
}

} // verus!
