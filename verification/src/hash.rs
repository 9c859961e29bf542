//! Object identifiers and the running checksum of a pack.
use sha1::Digest;
use vstd::prelude::*;

verus! {

/// The hash function that names objects and seals packs.
#[derive(Clone, Copy, Debug, PartialEq, Eq, Structural)]
pub enum HashKind {
    Sha1,
    Sha256,
}

/// The digest of a message under a hash function.
pub open spec fn digest(kind: HashKind, message: Seq<u8>) -> Seq<u8> {
    match kind {
        HashKind::Sha1 => sha1_digest(message),
        HashKind::Sha256 => sha256_digest(message),
    }
}

/// The identifier of an object, or the checksum of a pack.
#[derive(Clone, Copy, Debug)]
pub enum ObjectHash {
    Sha1([u8; 20]),
    Sha256([u8; 32]),
}

impl View for ObjectHash {
    type V = Seq<u8>;

    open spec fn view(&self) -> Seq<u8> {
        match self {
            ObjectHash::Sha1(bytes) => bytes@,
            ObjectHash::Sha256(bytes) => bytes@,
        }
    }
}

/// The digit that stands for a number below sixteen.
pub open spec fn hex_digit(n: int) -> char {
    if n < 10 {
        (0x30 + n) as char
    } else {
        (0x61 + n - 10) as char
    }
}

/// Two lower-case digits for each byte.
pub open spec fn hex(bytes: Seq<u8>) -> Seq<char>
    decreases bytes.len(),
{
    if bytes.len() == 0 {
        Seq::empty()
    } else {
        hex(bytes.drop_last()).push(hex_digit(bytes.last() as int / 16)).push(
            hex_digit(bytes.last() as int % 16),
        )
    }
}

impl ObjectHash {
    /// The hash function that the value belongs to.
    pub open spec fn spec_kind(self) -> HashKind {
        match self {
            ObjectHash::Sha1(_) => HashKind::Sha1,
            ObjectHash::Sha256(_) => HashKind::Sha256,
        }
    }

    /// The hash function that the value belongs to.
    pub fn kind(&self) -> (kind: HashKind)
        ensures
            kind == self.spec_kind(),
    {
        match self {
            ObjectHash::Sha1(_) => HashKind::Sha1,
            ObjectHash::Sha256(_) => HashKind::Sha256,
        }
    }

    /// The bytes of the hash.
    pub fn to_vec(&self) -> (bytes: Vec<u8>)
        ensures
            bytes@ == self@,
    {
        match self {
            ObjectHash::Sha1(bytes) => copy_bytes(bytes),
            ObjectHash::Sha256(bytes) => copy_bytes(bytes),
        }
    }

    /// The hash in lower-case hexadecimal.
    pub fn to_hex(&self) -> (text: String)
        ensures
            text@ == hex(self@),
    {
        let bytes: Vec<u8> = self.to_vec();
        let mut text: String = String::new();
        for i in 0..bytes.len()
            invariant
                text@ == hex(bytes@.take(i as int)),
        {
            assert(bytes@.take(i + 1).drop_last() =~= bytes@.take(i as int));
            text.push(hex_char(bytes[i] / 16));
            text.push(hex_char(bytes[i] % 16));
        }
        assert(bytes@.take(bytes@.len() as int) =~= bytes@);
        text
    }
}

impl vstd::std_specs::cmp::PartialEqSpecImpl for ObjectHash {
    open spec fn obeys_eq_spec() -> bool {
        true
    }

    open spec fn eq_spec(&self, other: &ObjectHash) -> bool {
        *self == *other
    }
}

impl PartialEq for ObjectHash {
    fn eq(&self, other: &ObjectHash) -> (same: bool) {
        match (self, other) {
            (ObjectHash::Sha1(a), ObjectHash::Sha1(b)) => {
                assert(a@ == b@ ==> *a =~= *b);
                same_bytes(a, b)
            },
            (ObjectHash::Sha256(a), ObjectHash::Sha256(b)) => {
                assert(a@ == b@ ==> *a =~= *b);
                same_bytes(a, b)
            },
            _ => false,
        }
    }
}

impl Eq for ObjectHash {

}

/// A checksum that is computed while the bytes go by.
pub enum HashAlgorithm {
    Sha1(sha1::Sha1),
    Sha256(sha2::Sha256),
}

impl View for HashAlgorithm {
    type V = Seq<u8>;

    /// The bytes taken in so far.
    open spec fn view(&self) -> Seq<u8> {
        match self {
            HashAlgorithm::Sha1(hasher) => sha1_absorbed(*hasher),
            HashAlgorithm::Sha256(hasher) => sha256_absorbed(*hasher),
        }
    }
}

impl HashAlgorithm {
    /// The hash function in use.
    pub open spec fn kind(self) -> HashKind {
        match self {
            HashAlgorithm::Sha1(_) => HashKind::Sha1,
            HashAlgorithm::Sha256(_) => HashKind::Sha256,
        }
    }

    /// A checksum that has taken in nothing.
    pub fn new(kind: HashKind) -> (algorithm: HashAlgorithm)
        ensures
            algorithm.kind() == kind,
            algorithm@ == Seq::<u8>::empty(),
    {
        match kind {
            HashKind::Sha1 => HashAlgorithm::Sha1(sha1_new()),
            HashKind::Sha256 => HashAlgorithm::Sha256(sha256_new()),
        }
    }

    /// Takes in further bytes.
    pub fn update(&mut self, data: &[u8])
        ensures
            final(self).kind() == old(self).kind(),
            final(self)@ == old(self)@ + data@,
    {
        match self {
            HashAlgorithm::Sha1(hasher) => sha1_update(hasher, data),
            HashAlgorithm::Sha256(hasher) => sha256_update(hasher, data),
        }
    }

    /// The digest of what was taken in so far.
    pub fn finalize(&self) -> (hash: ObjectHash)
        ensures
            hash.spec_kind() == self.kind(),
            hash@ == digest(self.kind(), self@),
    {
        match self {
            HashAlgorithm::Sha1(hasher) => ObjectHash::Sha1(sha1_finalize(hasher)),
            HashAlgorithm::Sha256(hasher) => ObjectHash::Sha256(sha256_finalize(hasher)),
        }
    }
}

/// Whether two slices hold the same bytes.
fn same_bytes(a: &[u8], b: &[u8]) -> (same: bool)
    ensures
        same == (a@ == b@),
{
    if a.len() != b.len() {
        return false;
    }
    for i in 0..a.len()
        invariant
            a@.len() == b@.len(),
            forall|j: int| 0 <= j < i ==> a@[j] == b@[j],
    {
        if a[i] != b[i] {
            return false;
        }
    }
    assert(a@ =~= b@);
    true
}

/// A vector with the bytes of a slice.
pub(crate) fn copy_bytes(bytes: &[u8]) -> (copy: Vec<u8>)
    ensures
        copy@ == bytes@,
{
    let mut copy: Vec<u8> = Vec::with_capacity(bytes.len());
    for i in 0..bytes.len()
        invariant
            copy@ == bytes@.take(i as int),
    {
        copy.push(bytes[i]);
    }
    assert(bytes@.take(bytes@.len() as int) =~= bytes@);
    copy
}

/// The digit that stands for a number below sixteen.
fn hex_char(n: u8) -> (digit: char)
    requires
        n < 16,
    ensures
        digit == hex_digit(n as int),
{
    if n < 10 {
        (0x30 + n) as char
    } else {
        (0x61 + (n - 10)) as char
    }
}

/// `String::push` appends the character to the end of the string.
pub assume_specification[ String::push ](s: &mut String, c: char)
    ensures
        final(s)@ == old(s)@.push(c),
;

/// The SHA-1 hasher of the crate `sha1`.
#[verifier::external_type_specification]
#[verifier::external_body]
pub struct ExSha1(sha1::Sha1);

/// The SHA-256 hasher of the crate `sha2`.
#[verifier::external_type_specification]
#[verifier::external_body]
pub struct ExSha256(sha2::Sha256);

/// The bytes that a SHA-1 hasher holds as taken in.
pub uninterp spec fn sha1_absorbed(hasher: sha1::Sha1) -> Seq<u8>;

/// The bytes that a SHA-256 hasher holds as taken in.
pub uninterp spec fn sha256_absorbed(hasher: sha2::Sha256) -> Seq<u8>;

/// The SHA-1 digest of a message, as the crate `sha1` computes it.
pub uninterp spec fn sha1_digest(message: Seq<u8>) -> Seq<u8>;

/// The SHA-256 digest of a message, as the crate `sha2` computes it.
pub uninterp spec fn sha256_digest(message: Seq<u8>) -> Seq<u8>;

/// `sha1::Sha1::new` makes a hasher that has taken in nothing.
#[verifier::external_body]
fn sha1_new() -> (hasher: sha1::Sha1)
    ensures
        sha1_absorbed(hasher) == Seq::<u8>::empty(),
{
    sha1::Sha1::new()
}

/// `sha1::Sha1::update` takes in the bytes of `data` behind those before.
#[verifier::external_body]
fn sha1_update(hasher: &mut sha1::Sha1, data: &[u8])
    ensures
        sha1_absorbed(*final(hasher)) == sha1_absorbed(*old(hasher)) + data@,
{
    hasher.update(data)
}

/// `sha1::Sha1::finalize`, on a copy of the hasher, gives the SHA-1 digest of the
/// bytes taken in.
#[verifier::external_body]
fn sha1_finalize(hasher: &sha1::Sha1) -> (digest: [u8; 20])
    ensures
        digest@ == sha1_digest(sha1_absorbed(*hasher)),
{
    hasher.clone().finalize().into()
}

/// `sha2::Sha256::new` makes a hasher that has taken in nothing.
#[verifier::external_body]
fn sha256_new() -> (hasher: sha2::Sha256)
    ensures
        sha256_absorbed(hasher) == Seq::<u8>::empty(),
{
    sha2::Sha256::new()
}

/// `sha2::Sha256::update` takes in the bytes of `data` behind those before.
#[verifier::external_body]
fn sha256_update(hasher: &mut sha2::Sha256, data: &[u8])
    ensures
        sha256_absorbed(*final(hasher)) == sha256_absorbed(*old(hasher)) + data@,
{
    hasher.update(data)
}

/// `sha2::Sha256::finalize`, on a copy of the hasher, gives the SHA-256 digest of
/// the bytes taken in.
#[verifier::external_body]
fn sha256_finalize(hasher: &sha2::Sha256) -> (digest: [u8; 32])
    ensures
        digest@ == sha256_digest(sha256_absorbed(*hasher)),
{
    hasher.clone().finalize().into()
}

} // verus!
