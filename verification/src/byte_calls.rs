//! What calls that make bytes, numbers and names come to.
#![allow(unused_imports)]
use vstd::prelude::*;

use crate::error::GitError;
use crate::format::{
    distance_prefix, encode_header, encode_object_header, encode_offset, size_bytes,
};
use crate::hash::{sha1_digest, sha256_digest, HashAlgorithm, HashKind, ObjectHash};
use crate::names::{idx_file_name, pack_file_name, temp_pack_name};
use crate::object::{
    encode_one_object, frame_object, zlib_compressed, zlib_inflated, Entry, IndexEntry, ObjectType,
};
use crate::plain_laws::{
    law_header_is_signature_version_and_count, law_kinds_have_their_numbers,
    law_two_digits_for_each_byte,
};
use crate::reading::kind_number;

verus! {

/// A header that is encoded has twelve bytes: `PACK`, the number 2, and the count, each byte
/// of which counts 256 times the next.
pub proof fn law_encoded_header(object_number: usize, header: Vec<u8>)
    requires
        object_number <= u32::MAX,
        call_ensures(encode_header, (object_number,), header),
    ensures
        header@.len() == 12,
        header@.take(8) == seq![0x50u8, 0x41, 0x43, 0x4B, 0, 0, 0, 2],
        object_number == ((header@[8] * 256 + header@[9]) * 256 + header@[10]) * 256
            + header@[11],
{
    law_header_is_signature_version_and_count(object_number as nat);
    assert(header@.take(8) =~= header@.take(4) + header@.subrange(4, 8));
    assert(header@.take(8) =~= seq![0x50u8, 0x41, 0x43, 0x4B, 0, 0, 0, 2]);
}

/// A distance below 128 is encoded as itself. Any other is encoded as what it has above its
/// lowest seven bits, less one, with the continuation bit set, and behind that these seven
/// bits.
pub proof fn law_encoded_offset(value: usize, bytes: Vec<u8>, upper: usize, upper_bytes: Vec<u8>)
    requires
        call_ensures(encode_offset, (value,), bytes),
        value >= 128 ==> upper == value / 128 - 1,
        call_ensures(encode_offset, (upper,), upper_bytes),
    ensures
        value < 128 ==> bytes@ == seq![value as u8],
        value >= 128 ==> bytes@ == upper_bytes@.drop_last().push(
            (upper_bytes@.last() + 128) as u8,
        ).push((value % 128) as u8),
{
    if value < 128 {
        assert(value as nat / 128 == 0);
        assert(bytes@ =~= seq![value as u8]);
    } else {
        let front = distance_prefix(upper as nat / 128);
        assert(upper_bytes@ =~= front.push((upper % 128) as u8));
        assert(upper_bytes@.drop_last() =~= front);
        let high = (value / 128) as nat;
        assert(distance_prefix(high) =~= front.push((128 + upper % 128) as u8));
        assert(value as nat / 128 == high);
        assert((upper_bytes@.last() + 128) as u8 == (128 + upper % 128) as u8);
        assert(bytes@ =~= upper_bytes@.drop_last().push((upper_bytes@.last() + 128) as u8).push(
            (value % 128) as u8,
        ));
    }
}

/// The header of an object has the kind and the lowest four bits of the length in its first
/// byte, with the continuation bit. What the length has above these follows seven bits to the
/// byte, the lowest first, with the continuation bit on all but the last byte.
pub proof fn law_encoded_object_header(
    kind: u8,
    len: usize,
    header: Vec<u8>,
    upper: usize,
    upper_header: Vec<u8>,
)
    requires
        kind < 8,
        call_ensures(encode_object_header, (kind, len), header),
        len >= 2048 ==> upper / 16 == len / 2048,
        call_ensures(encode_object_header, (kind, upper), upper_header),
    ensures
        header@[0] == 128 + 16 * kind + len % 16,
        len < 2048 ==> header@.len() == 2 && header@[1] == len / 16,
        len >= 2048 ==> {
            &&& header@[1] == 128 + len / 16 % 128
            &&& header@.skip(2) == upper_header@.skip(1)
        },
{
    let size = (len / 16) as nat;
    assert(len as nat / 16 == size);
    if len >= 2048 {
        assert(size / 128 == upper as nat / 16);
        assert(header@.skip(2) =~= size_bytes(size / 128));
        assert(upper_header@.skip(1) =~= size_bytes(upper as nat / 16));
    } else {
        assert(size / 128 == 0);
    }
}

/// An object that is stored whole is its header and its compressed data.
pub proof fn law_encoded_whole_object(
    entry: &Entry,
    offset: Option<usize>,
    encoded: Result<Vec<u8>, GitError>,
    header: Vec<u8>,
)
    requires
        kind_number(entry.obj_type) != 0,
        call_ensures(encode_one_object, (entry, offset), encoded),
        call_ensures(
            encode_object_header,
            (kind_number(entry.obj_type) as u8, entry.data.len()),
            header,
        ),
    ensures
        encoded is Ok,
        encoded->Ok_0@ == header@ + zlib_compressed(entry.data@),
        forall|rest: Seq<u8>| #[trigger]
            zlib_inflated(zlib_compressed(entry.data@) + rest) == Some(
                (entry.data@, zlib_compressed(entry.data@).len()),
            ),
{
    law_kinds_have_their_numbers(entry.obj_type);
    assert(encoded->Ok_0@ =~= header@ + zlib_compressed(entry.data@));
}

/// A delta is its header, the distance back to its base, and the compressed delta. Its kind is
/// 6, or 5 for a zstd delta.
pub proof fn law_encoded_delta_object(
    entry: &Entry,
    offset: usize,
    encoded: Result<Vec<u8>, GitError>,
    header: Vec<u8>,
    distance: Vec<u8>,
)
    requires
        entry.obj_type == ObjectType::OffsetDelta || entry.obj_type == ObjectType::OffsetZstdelta,
        call_ensures(encode_one_object, (entry, Some(offset)), encoded),
        call_ensures(
            encode_object_header,
            (
                if entry.obj_type == ObjectType::OffsetDelta {
                    6u8
                } else {
                    5u8
                },
                entry.data.len(),
            ),
            header,
        ),
        call_ensures(encode_offset, (offset,), distance),
    ensures
        encoded is Ok,
        encoded->Ok_0@ == header@ + distance@ + zlib_compressed(entry.data@),
        forall|rest: Seq<u8>| #[trigger]
            zlib_inflated(zlib_compressed(entry.data@) + rest) == Some(
                (entry.data@, zlib_compressed(entry.data@).len()),
            ),
{
}

/// An AI object is not encoded.
pub proof fn law_ai_object_is_not_encoded(
    entry: &Entry,
    offset: Option<usize>,
    encoded: Result<Vec<u8>, GitError>,
)
    requires
        entry.obj_type == ObjectType::Task,
        call_ensures(encode_one_object, (entry, offset), encoded),
    ensures
        encoded is Err,
        encoded->Err_0.reason() == "object type `task` has no type number in a pack"@,
{
    reveal_strlit("object type `");
    reveal_strlit("task");
    reveal_strlit("` has no type number in a pack");
    reveal_strlit("object type `task` has no type number in a pack");
    assert(encoded->Err_0.reason() =~= "object type `task` has no type number in a pack"@);
}

/// Framing puts the header, and for a delta the distance, in front of the compressed data,
/// whatever that is.
pub proof fn law_framed_object(
    obj_type: ObjectType,
    number: u8,
    len: usize,
    offset: Option<usize>,
    compressed: Vec<u8>,
    bytes: Vec<u8>,
    header: Vec<u8>,
    distance: Vec<u8>,
)
    requires
        call_ensures(ObjectType::to_pack_type_u8, (&obj_type,), Ok(number)),
        call_ensures(frame_object, (obj_type, len, offset, compressed), bytes),
        call_ensures(encode_object_header, (number, len), header),
        offset matches Some(value) ==> call_ensures(encode_offset, (value,), distance),
        offset is None ==> kind_number(obj_type) != 0,
    ensures
        bytes@ == header@ + (if obj_type == ObjectType::OffsetDelta || obj_type
            == ObjectType::OffsetZstdelta {
            distance@
        } else {
            Seq::empty()
        }) + compressed@,
{
}

/// The number of a kind: one to four for objects proper, five to seven for deltas; an AI
/// object has none.
pub proof fn law_number_of_a_kind(
    obj_type: &ObjectType,
    number: Result<u8, GitError>,
    ai: bool,
)
    requires
        call_ensures(ObjectType::to_pack_type_u8, (obj_type,), number),
        call_ensures(ObjectType::is_ai_object, (obj_type,), ai),
    ensures
        ai == (*obj_type == ObjectType::Task),
        match obj_type {
            ObjectType::Commit => number == Ok::<u8, GitError>(1),
            ObjectType::Tree => number == Ok::<u8, GitError>(2),
            ObjectType::Blob => number == Ok::<u8, GitError>(3),
            ObjectType::Tag => number == Ok::<u8, GitError>(4),
            ObjectType::OffsetZstdelta => number == Ok::<u8, GitError>(5),
            ObjectType::OffsetDelta => number == Ok::<u8, GitError>(6),
            ObjectType::HashDelta => number == Ok::<u8, GitError>(7),
            ObjectType::Task => number is Err,
        },
{
}

/// The name of a kind.
pub proof fn law_name_of_a_kind(obj_type: &ObjectType, name: &'static str)
    requires
        call_ensures(ObjectType::name, (obj_type,), name),
    ensures
        match obj_type {
            ObjectType::Commit => name@ == "commit"@,
            ObjectType::Tree => name@ == "tree"@,
            ObjectType::Blob => name@ == "blob"@,
            ObjectType::Tag => name@ == "tag"@,
            ObjectType::OffsetZstdelta => name@ == "OffsetZstdelta"@,
            ObjectType::OffsetDelta => name@ == "OffsetDelta"@,
            ObjectType::HashDelta => name@ == "HashDelta"@,
            ObjectType::Task => name@ == "task"@,
        },
{
}

/// An index entry has the hash of its object and the position given.
pub proof fn law_new_index_entry(entry: &Entry, offset: u64, index: IndexEntry)
    requires
        call_ensures(IndexEntry::new, (entry, offset), index),
    ensures
        index == (IndexEntry { hash: entry.hash, offset }),
{
}

/// A hash in hexadecimal has two digits for each of its bytes, the higher half first, and its
/// bytes are those that it was made with.
pub proof fn law_hash_in_hexadecimal(hash: &ObjectHash, bytes: Vec<u8>, text: String, i: int)
    requires
        call_ensures(ObjectHash::to_vec, (hash,), bytes),
        call_ensures(ObjectHash::to_hex, (hash,), text),
        0 <= i < bytes@.len(),
    ensures
        match hash {
            ObjectHash::Sha1(sum) => bytes@ == sum@ && text@.len() == 40,
            ObjectHash::Sha256(sum) => bytes@ == sum@ && text@.len() == 64,
        },
        text@[2 * i] == "0123456789abcdef"@[bytes@[i] as int / 16],
        text@[2 * i + 1] == "0123456789abcdef"@[bytes@[i] as int % 16],
{
    law_two_digits_for_each_byte(bytes@, i);
}

/// The hash function of a hash.
pub proof fn law_kind_of_a_hash(hash: &ObjectHash, kind: HashKind)
    requires
        call_ensures(ObjectHash::kind, (hash,), kind),
    ensures
        hash matches ObjectHash::Sha1(_) ==> kind == HashKind::Sha1,
        hash matches ObjectHash::Sha256(_) ==> kind == HashKind::Sha256,
{
}

/// A checksum that takes in two pieces is the digest of the one behind the other, under the
/// hash function that it was made for.
pub proof fn law_checksum_of_two_pieces(
    kind: HashKind,
    fresh: HashAlgorithm,
    first: &mut HashAlgorithm,
    a: &[u8],
    second: &mut HashAlgorithm,
    b: &[u8],
    hash: ObjectHash,
)
    requires
        call_ensures(HashAlgorithm::new, (kind,), fresh),
        *old(first) == fresh,
        call_ensures(HashAlgorithm::update, (first, a), ()),
        *old(second) == *final(first),
        call_ensures(HashAlgorithm::update, (second, b), ()),
        call_ensures(HashAlgorithm::finalize, (final(second),), hash),
    ensures
        match kind {
            HashKind::Sha1 => hash matches ObjectHash::Sha1(sum) && sum@ == sha1_digest(a@ + b@),
            HashKind::Sha256 => hash matches ObjectHash::Sha256(sum) && sum@ == sha256_digest(
                a@ + b@,
            ),
        },
{
    assert(Seq::<u8>::empty() + a@ + b@ =~= a@ + b@);
}

/// The names of the files of a pack.
pub proof fn law_names_of_files(
    hash: &ObjectHash,
    text: String,
    pack: String,
    idx: String,
    timestamp: &str,
    temp: String,
)
    requires
        call_ensures(ObjectHash::to_hex, (hash,), text),
        call_ensures(pack_file_name, (hash,), pack),
        call_ensures(idx_file_name, (hash,), idx),
        call_ensures(temp_pack_name, (timestamp,), temp),
    ensures
        pack@ == "pack-"@ + text@ + ".pack"@,
        idx@ == "pack-"@ + text@ + ".idx"@,
        temp@ == timestamp@ + "objects.pack.tmp"@,
{
}

} // verus!
