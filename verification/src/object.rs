//! Objects as they enter the encoder and as they leave it.
use flate2::write::ZlibEncoder;
use std::io::Write;
use vstd::prelude::*;

use crate::error::GitError;
use crate::format::{encode_object_header, encode_offset};
#[allow(unused_imports)]
use crate::format::{distance_bytes, law_object_header_reads_back, object_header_bytes};
use crate::hash::ObjectHash;

verus! {

/// The kinds of object that the store knows.
#[derive(Clone, Copy, Debug, PartialEq, Eq, Structural)]
pub enum ObjectType {
    Commit,
    Tree,
    Blob,
    Tag,
    /// A zstd delta against an object earlier in the same pack.
    OffsetZstdelta,
    /// A delta against an object earlier in the same pack.
    OffsetDelta,
    /// A delta against an object given by its hash.
    HashDelta,
    /// An AI task, which packs have no type number for.
    Task,
}

impl ObjectType {
    /// The type number that a pack has for the kind, if it has one.
    pub open spec fn pack_number(self) -> Option<u8> {
        match self {
            ObjectType::Commit => Some(1),
            ObjectType::Tree => Some(2),
            ObjectType::Blob => Some(3),
            ObjectType::Tag => Some(4),
            ObjectType::OffsetZstdelta => Some(5),
            ObjectType::OffsetDelta => Some(6),
            ObjectType::HashDelta => Some(7),
            ObjectType::Task => None,
        }
    }

    /// Whether an object of the kind names its base by a distance in the pack.
    pub open spec fn has_distance(self) -> bool {
        self == ObjectType::OffsetDelta || self == ObjectType::OffsetZstdelta
    }

    /// The name of the kind.
    pub open spec fn spec_name(self) -> Seq<char> {
        match self {
            ObjectType::Commit => "commit"@,
            ObjectType::Tree => "tree"@,
            ObjectType::Blob => "blob"@,
            ObjectType::Tag => "tag"@,
            ObjectType::OffsetZstdelta => "OffsetZstdelta"@,
            ObjectType::OffsetDelta => "OffsetDelta"@,
            ObjectType::HashDelta => "HashDelta"@,
            ObjectType::Task => "task"@,
        }
    }

    /// The name of the kind.
    pub fn name(&self) -> (name: &'static str)
        ensures
            name@ == self.spec_name(),
    {
        match self {
            ObjectType::Commit => "commit",
            ObjectType::Tree => "tree",
            ObjectType::Blob => "blob",
            ObjectType::Tag => "tag",
            ObjectType::OffsetZstdelta => "OffsetZstdelta",
            ObjectType::OffsetDelta => "OffsetDelta",
            ObjectType::HashDelta => "HashDelta",
            ObjectType::Task => "task",
        }
    }

    /// Whether the kind is one of the AI objects, which no pack can hold.
    pub fn is_ai_object(&self) -> (ai: bool)
        ensures
            ai == (self.pack_number() is None),
    {
        match self {
            ObjectType::Task => true,
            _ => false,
        }
    }

    /// The type number that a pack has for the kind.
    pub fn to_pack_type_u8(&self) -> (number: Result<u8, GitError>)
        ensures
            match self.pack_number() {
                Some(n) => number == Ok::<u8, GitError>(n),
                None => number matches Err(error) && error.reason() == unnumbered_reason(*self),
            },
    {
        match self {
            ObjectType::Commit => Ok(1),
            ObjectType::Tree => Ok(2),
            ObjectType::Blob => Ok(3),
            ObjectType::Tag => Ok(4),
            ObjectType::OffsetZstdelta => Ok(5),
            ObjectType::OffsetDelta => Ok(6),
            ObjectType::HashDelta => Ok(7),
            ObjectType::Task => Err(
                GitError::pack_encode_quoting(
                    "object type `",
                    self.name(),
                    "` has no type number in a pack",
                ),
            ),
        }
    }
}

/// Why an object of a kind without a type number cannot be encoded.
pub open spec fn unnumbered_reason(obj_type: ObjectType) -> Seq<char> {
    "object type `"@ + obj_type.spec_name() + "` has no type number in a pack"@
}

/// An object with its data.
#[derive(Debug)]
pub struct Entry {
    pub obj_type: ObjectType,
    pub data: Vec<u8>,
    pub hash: ObjectHash,
    /// The number of deltas between the object and one that is stored whole.
    pub chain_len: usize,
}

/// What is known of an object beside its data.
#[derive(Debug)]
pub struct EntryMeta {
    /// The path of the object in its repository, its parts separated by `/`.
    pub file_path: Option<String>,
}

/// A value with what is known of it beside.
#[derive(Debug)]
pub struct MetaAttached<T, U> {
    pub inner: T,
    pub meta: U,
}

/// Where an object stands in a pack.
#[derive(Clone, Copy, Debug, PartialEq, Eq)]
pub struct IndexEntry {
    pub hash: ObjectHash,
    /// The position of the object's first byte in the pack.
    pub offset: u64,
}

impl IndexEntry {
    /// An index entry for `entry` at `offset`.
    pub fn new(entry: &Entry, offset: u64) -> (index: IndexEntry)
        ensures
            index.hash == entry.hash,
            index.offset == offset,
    {
        IndexEntry { hash: entry.hash, offset }
    }
}

/// An object of the kind in a pack, with `len` bytes of data that were compressed
/// to `compressed`: the header, for a delta the distance back to its base, and the
/// compressed data.
pub open spec fn framed(
    obj_type: ObjectType,
    len: nat,
    distance: Option<nat>,
    compressed: Seq<u8>,
) -> Seq<u8> {
    object_header_bytes(obj_type.pack_number()->0 as nat, len) + distance_part(obj_type, distance)
        + compressed
}

/// An object as it stands in a pack.
pub open spec fn object_bytes(obj_type: ObjectType, data: Seq<u8>, distance: Option<nat>) -> Seq<
    u8,
> {
    framed(obj_type, data.len(), distance, zlib_compressed(data))
}

/// The distance in front of the data of a delta; nothing for an object that is
/// stored whole.
pub open spec fn distance_part(obj_type: ObjectType, distance: Option<nat>) -> Seq<u8> {
    if obj_type.has_distance() {
        distance_bytes(distance->0)
    } else {
        Seq::empty()
    }
}

/// Whether an object of the kind can be encoded with the distance: a delta needs
/// one that is not zero, and a delta against a hash is never written. Objects
/// without a type number are refused with an error.
pub open spec fn encodable(obj_type: ObjectType, distance: Option<nat>) -> bool {
    &&& obj_type != ObjectType::HashDelta
    &&& obj_type.has_distance() ==> (distance matches Some(d) && d != 0)
}

/// The distance that an optional number stands for.
pub open spec fn distance_view(offset: Option<usize>) -> Option<nat> {
    match offset {
        Some(distance) => Some(distance as nat),
        None => None,
    }
}

/// Encode one object. `offset` is the distance back to its base if the object is a
/// delta, and plays no part otherwise.
pub fn encode_one_object(entry: &Entry, offset: Option<usize>) -> (encoded: Result<
    Vec<u8>,
    GitError,
>)
    requires
        encodable(entry.obj_type, distance_view(offset)),
    ensures
        match entry.obj_type.pack_number() {
            Some(_) => encoded matches Ok(bytes) && bytes@ == object_bytes(
                entry.obj_type,
                entry.data@,
                distance_view(offset),
            ) && bytes@.len() >= 2 && zlib_round_trips(entry.data@),
            None => encoded matches Err(error) && error.reason() == unnumbered_reason(
                entry.obj_type,
            ),
        },
{
    if let Err(error) = entry.obj_type.to_pack_type_u8() {
        return Err(error);
    }
    let compressed: Vec<u8> = zlib_compress(entry.data.as_slice());
    Ok(frame_object(entry.obj_type, entry.data.len(), offset, compressed))
}

/// Puts the header, and for a delta the distance, in front of the compressed data
/// of an object with `len` bytes of data.
pub fn frame_object(
    obj_type: ObjectType,
    len: usize,
    offset: Option<usize>,
    compressed: Vec<u8>,
) -> (bytes: Vec<u8>)
    requires
        obj_type.pack_number() is Some,
        encodable(obj_type, distance_view(offset)),
    ensures
        bytes@ == framed(obj_type, len as nat, distance_view(offset), compressed@),
        bytes@.len() >= 2,
{
    let number: u8 = match obj_type.to_pack_type_u8() {
        Ok(number) => number,
        Err(_) => 0,
    };
    let mut bytes: Vec<u8> = encode_object_header(number, len);
    proof {
        law_object_header_reads_back(number as nat, len as nat, Seq::empty());
    }
    if obj_type == ObjectType::OffsetDelta || obj_type == ObjectType::OffsetZstdelta {
        if let Some(distance) = offset {
            let mut distance_bytes: Vec<u8> = encode_offset(distance);
            bytes.append(&mut distance_bytes);
        }
    }
    let mut compressed: Vec<u8> = compressed;
    let ghost data_part = compressed@;
    bytes.append(&mut compressed);
    assert(bytes@ =~= framed(obj_type, len as nat, distance_view(offset), data_part));
    bytes
}

/// What `ZlibEncoder` at the default level makes of `data` that is written to it
/// whole, flushed and finished.
pub uninterp spec fn zlib_compressed(data: Seq<u8>) -> Seq<u8>;

/// What `ZlibDecoder` reads from a zlib stream at the front of `bytes`: the data
/// and the number of bytes that the stream takes up.
pub uninterp spec fn zlib_inflated(bytes: Seq<u8>) -> Option<(Seq<u8>, nat)>;

/// Whether the decoder gives back `data` from its compressed form and stops at the
/// end of that, whatever follows.
pub open spec fn zlib_round_trips(data: Seq<u8>) -> bool {
    forall|rest: Seq<u8>| #[trigger]
        zlib_inflated(zlib_compressed(data) + rest) == Some((data, zlib_compressed(data).len()))
}

/// Compresses with `flate2::write::ZlibEncoder`: `write_all`, `flush` and `finish`
/// into a vector, none of which fails on a vector. The contract names the outcome,
/// and says that `ZlibDecoder` reads the data back from it and stops at its end,
/// whatever follows.
#[verifier::external_body]
fn zlib_compress(data: &[u8]) -> (compressed: Vec<u8>)
    ensures
        compressed@ == zlib_compressed(data@),
        forall|rest: Seq<u8>| #[trigger]
            zlib_inflated(compressed@ + rest) == Some((data@, compressed@.len())),
{
    let mut encoder = ZlibEncoder::new(Vec::new(), flate2::Compression::default());
    encoder.write_all(data).expect("zlib compress should never fail");
    encoder.flush().expect("zlib flush should never fail");
    encoder.finish().expect("zlib compress should never fail")
}

} // verus!
