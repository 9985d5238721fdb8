//! Objects and tags: raw bytes that are identified by their digest, or
//! bare identifiers.

use crate::id::{be_value, le_bytes, Id};
use vstd::prelude::*;

verus! {

/// The 128-bit XXH3 digest of a byte string, with seed zero and the default
/// secret.
pub uninterp spec fn xxh3_128_digest(bytes: Seq<u8>) -> u128;

/// Calls `xxhash_rust::xxh3::xxh3_128`. Its result is a function of the
/// input bytes alone, and it is given the name `xxh3_128_digest`; nothing
/// more is claimed of it.
#[verifier::external_body]
fn digest(bytes: &Vec<u8>) -> (hash: u128)
    ensures
        hash == xxh3_128_digest(bytes@),
{
    xxhash_rust::xxh3::xxh3_128(bytes.as_slice())
}

/// Something that can be tagged, or that can serve as a tag.
#[derive(Debug, Clone, PartialEq, Eq, PartialOrd, Ord)]
pub enum Object {
    /// Bytes, identified by their digest.
    Raw(Vec<u8>),
    /// An identifier that the caller has computed.
    Identified(Id),
}

impl Object {
    /// The bytes of the object's identifier: for raw bytes their digest,
    /// least significant byte first.
    pub open spec fn id(&self) -> Seq<u8> {
        match self {
            Object::Raw(raw) => le_bytes(xxh3_128_digest(raw@)),
            Object::Identified(id) => id@,
        }
    }

    /// The rank of the object's identifier.
    pub open spec fn rank(&self) -> int {
        be_value(self.id())
    }

    /// The bytes that the object was made of, where it was made of bytes.
    pub open spec fn source(&self) -> Option<Seq<u8>> {
        match self {
            Object::Raw(raw) => Some(raw@),
            Object::Identified(_) => None,
        }
    }

    /// The identifier of the object.
    pub fn get_id(&self) -> (id: Id)
        ensures
            id@ == self.id(),
            id.rank() == self.rank(),
    {
        match self {
            Object::Raw(raw) => Id::from_hash(digest(raw)),
            Object::Identified(id) => *id,
        }
    }
}

} // verus!
