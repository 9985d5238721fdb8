//! A tag index: objects carry sets of tags, and a search walks the sorted
//! posting lists of the tags to find the objects that carry all of some tags
//! and none of some others.
//!
//! The index is five ordered tables ([`Tables`]). What they hold is a
//! [`Content`]: the tags of each known object, and the bytes that
//! identifiers were made of. A [`WriteTransaction`] inserts and removes, a
//! [`ReadTransaction`] looks up and searches, and a [`SearchIterator`] yields
//! the objects of a search one by one, in ascending order of their
//! identifiers. The library keeps the tables in memory; a program that keeps
//! them elsewhere reads them in and writes them back.

pub mod id;
pub mod laws;
pub mod object;
pub mod plan;
pub mod read;
pub mod schema;
pub mod search;
pub mod table;
pub mod write;

pub use id::Id;
pub use object::Object;
pub use read::ReadTransaction;
pub use schema::{Content, Tables};
pub use search::SearchIterator;
pub use write::WriteTransaction;
