//! The byte-level grammar of a pack: the file header, the header in front of
//! each object, and the distance that leads from a delta object to its base.
//!
//! Every encoder here stands beside a specification of the matching reader, and
//! the laws at the end of the file say that reading gives back what was written.
use vstd::prelude::*;

verus! {

/// The number of bytes in front of the first object: signature, version and
/// object count, four bytes each.
pub const HEADER_LEN: usize = 12;

/// A number below 2^32 as four bytes, most significant first.
pub open spec fn be32(n: nat) -> Seq<u8> {
    seq![
        ((n / 0x100_0000) % 256) as u8,
        ((n / 0x1_0000) % 256) as u8,
        ((n / 0x100) % 256) as u8,
        (n % 256) as u8,
    ]
}

/// The file header of a pack with `count` objects: the letters `PACK`, version 2
/// and the count.
pub open spec fn header_bytes(count: nat) -> Seq<u8> {
    seq![0x50u8, 0x41, 0x43, 0x4B] + be32(2) + be32(count)
}

/// The number that four bytes stand for, most significant first.
pub open spec fn read_be32(bytes: Seq<u8>) -> nat {
    (bytes[0] as nat) * 0x100_0000 + (bytes[1] as nat) * 0x1_0000 + (bytes[2] as nat) * 0x100 + (
    bytes[3] as nat)
}

/// Reads a file header: the version and the object count, if the signature is
/// there.
pub open spec fn read_header(pack: Seq<u8>) -> Option<(nat, nat)> {
    if pack.len() >= HEADER_LEN && pack.take(4) == seq![0x50u8, 0x41, 0x43, 0x4B] {
        Some((read_be32(pack.subrange(4, 8)), read_be32(pack.subrange(8, 12))))
    } else {
        None
    }
}

/// All bytes but the last of an encoded distance whose upper part is `high`.
/// Each byte carries the continuation bit, and each further byte counts from one
/// more than the largest value of the shorter encodings.
pub open spec fn distance_prefix(high: nat) -> Seq<u8>
    decreases high,
{
    if high == 0 {
        Seq::empty()
    } else {
        distance_prefix(((high - 1) / 128) as nat).push((128 + (high - 1) % 128) as u8)
    }
}

/// The bytes that stand for the distance from a delta object back to its base.
pub open spec fn distance_bytes(distance: nat) -> Seq<u8> {
    distance_prefix(distance / 128).push((distance % 128) as u8)
}

/// Reads a distance at the front of `bytes`, where `acc` is what the bytes before
/// it contributed: the distance and the number of bytes read.
pub open spec fn read_distance_from(bytes: Seq<u8>, acc: nat) -> Option<(nat, nat)>
    decreases bytes.len(),
{
    if bytes.len() == 0 {
        None
    } else {
        let value = acc * 128 + (bytes[0] % 128) as nat;
        if bytes[0] < 128 {
            Some((value, 1))
        } else {
            match read_distance_from(bytes.skip(1), value + 1) {
                Some((distance, used)) => Some((distance, used + 1)),
                None => None,
            }
        }
    }
}

/// Reads a distance at the front of `bytes`: the distance and the number of bytes
/// read.
pub open spec fn read_distance(bytes: Seq<u8>) -> Option<(nat, nat)> {
    read_distance_from(bytes, 0)
}

/// A size, seven bits to the byte, least significant first; all bytes but the
/// last carry the continuation bit.
pub open spec fn size_bytes(size: nat) -> Seq<u8>
    decreases size,
{
    if size / 128 > 0 {
        seq![(128 + size % 128) as u8] + size_bytes(size / 128)
    } else {
        seq![size as u8]
    }
}

/// The header in front of an object with type number `kind` and `len` bytes of
/// data. Its first byte holds the type and four bits of the length and always
/// continues, so that the header of a short object has a second byte of zero.
pub open spec fn object_header_bytes(kind: nat, len: nat) -> Seq<u8> {
    seq![(128 + kind * 16 + len % 16) as u8] + size_bytes(len / 16)
}

/// Reads a size at the front of `bytes`: the size and the number of bytes read.
pub open spec fn read_size(bytes: Seq<u8>) -> Option<(nat, nat)>
    decreases bytes.len(),
{
    if bytes.len() == 0 {
        None
    } else if bytes[0] < 128 {
        Some((bytes[0] as nat, 1))
    } else {
        match read_size(bytes.skip(1)) {
            Some((high, used)) => Some((high * 128 + (bytes[0] % 128) as nat, used + 1)),
            None => None,
        }
    }
}

/// Reads an object header at the front of `bytes`: the type number, the length of
/// the object's data and the number of bytes read.
pub open spec fn read_object_header(bytes: Seq<u8>) -> Option<(nat, nat, nat)> {
    if bytes.len() == 0 {
        None
    } else {
        let kind = ((bytes[0] / 16) % 8) as nat;
        let low = (bytes[0] % 16) as nat;
        if bytes[0] < 128 {
            Some((kind, low, 1))
        } else {
            match read_size(bytes.skip(1)) {
                Some((high, used)) => Some((kind, high * 16 + low, used + 1)),
                None => None,
            }
        }
    }
}

/// Encode the header of a pack file: `PACK`, version 2, and the number of objects.
pub fn encode_header(object_number: usize) -> (header: Vec<u8>)
    requires
        0 < object_number <= u32::MAX,
    ensures
        header@ == header_bytes(object_number as nat),
        header@.len() == HEADER_LEN,
{
    let count: u32 = object_number as u32;
    let mut result: Vec<u8> = Vec::with_capacity(HEADER_LEN);
    // The signature.
    result.push(0x50);
    result.push(0x41);
    result.push(0x43);
    result.push(0x4B);
    // Only version 2 is written.
    result.push(0);
    result.push(0);
    result.push(0);
    result.push(2);
    // The object count in network byte order.
    result.push((count / 0x100_0000) as u8);
    result.push((count / 0x1_0000 % 256) as u8);
    result.push((count / 0x100 % 256) as u8);
    result.push((count % 256) as u8);
    assert(result@ =~= header_bytes(object_number as nat));
    result
}

/// Encode the distance from a delta object back to its base.
pub fn encode_offset(value: usize) -> (bytes: Vec<u8>)
    requires
        value != 0,
    ensures
        bytes@ == distance_bytes(value as nat),
{
    let mut value: usize = value;
    let mut bytes: Vec<u8> = Vec::new();
    let ghost whole = value as nat;

    proof {
        lemma_low_bits(value);
    }
    bytes.push((value & 0x7F) as u8);
    value = value >> 7;
    while value != 0
        invariant
            distance_bytes(whole) =~= distance_prefix(value as nat) + bytes@.reverse(),
        decreases value,
    {
        let ghost before = bytes@;
        let ghost high = value as nat;
        value = value - 1;
        proof {
            lemma_low_bits(value);
        }
        // All bytes but the last carry the continuation bit.
        let byte: u8 = (value & 0x7F) as u8 | 0x80;
        value = value >> 7;
        bytes.push(byte);
        assert(bytes@.reverse() =~= seq![byte] + before.reverse());
        assert(distance_prefix(high) =~= distance_prefix(value as nat).push(byte));
    }
    let reversed = reverse_bytes(bytes);
    assert(distance_prefix(0) =~= Seq::<u8>::empty());
    reversed
}

/// The header in front of an object of type number `kind` with `len` bytes of
/// data.
pub fn encode_object_header(kind: u8, len: usize) -> (header: Vec<u8>)
    requires
        kind < 8,
    ensures
        header@ == object_header_bytes(kind as nat, len as nat),
{
    let mut header: Vec<u8> = Vec::new();
    proof {
        lemma_low_bits(len);
        assert(kind < 8 ==> (0x80u8 | (kind << 4)) == 128 + kind * 16) by (bit_vector);
    }
    header.push((0x80 | (kind << 4)) + (len & 0x0f) as u8);
    // Four bits of the length are in the first byte.
    let mut size: usize = len >> 4;
    while size >> 7 > 0
        invariant
            object_header_bytes(kind as nat, len as nat) =~= header@ + size_bytes(size as nat),
        decreases size,
    {
        proof {
            lemma_low_bits(size);
        }
        header.push((0x80 | size) as u8);
        size = size >> 7;
    }
    proof {
        lemma_low_bits(size);
    }
    header.push(size as u8);
    header
}

/// The bytes in reverse order.
fn reverse_bytes(bytes: Vec<u8>) -> (reversed: Vec<u8>)
    ensures
        reversed@ == bytes@.reverse(),
{
    let mut reversed: Vec<u8> = Vec::with_capacity(bytes.len());
    let mut i: usize = bytes.len();
    while i > 0
        invariant
            i <= bytes@.len(),
            reversed@ =~= bytes@.skip(i as int).reverse(),
        decreases i,
    {
        i = i - 1;
        reversed.push(bytes[i]);
    }
    assert(bytes@.skip(0) =~= bytes@);
    reversed
}

/// What masks and shifts of a machine word compute.
proof fn lemma_low_bits(value: usize)
    ensures
        value & 0x7F == value % 128,
        value & 0x0f == value % 16,
        value >> 7 == value / 128,
        value >> 4 == value / 16,
        (0x80 | value) as u8 == 128 + value % 128,
        ((value & 0x7F) as u8 | 0x80) == 128 + value % 128,
{
    assert(value & 0x7F == value % 128) by (bit_vector);
    assert(value & 0x0f == value % 16) by (bit_vector);
    assert(value >> 7 == value / 128) by (bit_vector);
    assert(value >> 4 == value / 16) by (bit_vector);
    assert((0x80 | value) as u8 == 128 + value % 128) by (bit_vector);
    assert(((value & 0x7F) as u8 | 0x80) == 128 + value % 128) by (bit_vector);
}

/// A distance that was written is read back, whatever follows it.
pub proof fn law_distance_reads_back(distance: nat, rest: Seq<u8>)
    ensures
        read_distance(distance_bytes(distance) + rest) == Some(
            (distance, distance_bytes(distance).len()),
        ),
{
    let last = seq![(distance % 128) as u8] + rest;
    lemma_read_distance_prefix(distance / 128, last);
    assert(distance_bytes(distance) + rest =~= distance_prefix(distance / 128) + last);
    reveal_with_fuel(read_distance_from, 2);
}

/// Reading the continued bytes of a distance leaves their upper part accumulated.
proof fn lemma_read_distance_prefix(high: nat, rest: Seq<u8>)
    ensures
        read_distance(distance_prefix(high) + rest) == match read_distance_from(rest, high) {
            Some((distance, used)) => Some((distance, used + distance_prefix(high).len())),
            None => None,
        },
    decreases high,
{
    if high == 0 {
        assert(distance_prefix(high) + rest =~= rest);
    } else {
        let upper = ((high - 1) / 128) as nat;
        let byte = (128 + (high - 1) % 128) as u8;
        let tail = seq![byte] + rest;
        lemma_read_distance_prefix(upper, tail);
        assert(distance_prefix(high) + rest =~= distance_prefix(upper) + tail);
        assert(tail.skip(1) =~= rest);
        assert(upper * 128 + (byte % 128) as nat + 1 == high);
    }
}

/// A size that was written is read back, whatever follows it.
proof fn lemma_size_reads_back(size: nat, rest: Seq<u8>)
    ensures
        read_size(size_bytes(size) + rest) == Some((size, size_bytes(size).len())),
        size_bytes(size).len() > 0,
    decreases size,
{
    if size / 128 > 0 {
        lemma_size_reads_back(size / 128, rest);
        assert((size_bytes(size) + rest).skip(1) =~= size_bytes(size / 128) + rest);
    }
}

/// An object header that was written is read back, whatever follows it: the type
/// number, the length and where the header ends.
pub proof fn law_object_header_reads_back(kind: nat, len: nat, rest: Seq<u8>)
    requires
        kind < 8,
    ensures
        read_object_header(object_header_bytes(kind, len) + rest) == Some(
            (kind, len, object_header_bytes(kind, len).len()),
        ),
        object_header_bytes(kind, len).len() >= 2,
{
    lemma_size_reads_back(len / 16, rest);
    assert((object_header_bytes(kind, len) + rest).skip(1) =~= size_bytes(len / 16) + rest);
}

/// A file header is twelve bytes long and reads back as version 2 with the count
/// that was written, whatever follows it.
pub proof fn law_header_reads_back(count: nat, rest: Seq<u8>)
    requires
        count <= u32::MAX,
    ensures
        header_bytes(count).len() == HEADER_LEN,
        read_header(header_bytes(count) + rest) == Some((2nat, count)),
{
    let pack = header_bytes(count) + rest;
    assert(pack.take(4) =~= seq![0x50u8, 0x41, 0x43, 0x4B]);
    assert(pack.subrange(4, 8) =~= be32(2));
    assert(pack.subrange(8, 12) =~= be32(count));
}

} // verus!
