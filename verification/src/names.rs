//! The names of the files that a pack and its index are kept in.
use vstd::prelude::*;

use crate::hash::ObjectHash;
#[allow(unused_imports)]
use crate::hash::hex;

verus! {

/// The name of the file that a pack is written to while its hash is not known.
pub fn temp_pack_name(timestamp: &str) -> (name: String)
    ensures
        name@ == timestamp@ + "objects.pack.tmp"@,
{
    let mut name: String = timestamp.to_owned();
    name.append("objects.pack.tmp");
    name
}

/// The name of the file of a pack.
pub fn pack_file_name(hash: &ObjectHash) -> (name: String)
    ensures
        name@ == "pack-"@ + hex(hash@) + ".pack"@,
{
    named_by(hash, ".pack")
}

/// The name of the file of a pack's index.
pub fn idx_file_name(hash: &ObjectHash) -> (name: String)
    ensures
        name@ == "pack-"@ + hex(hash@) + ".idx"@,
{
    named_by(hash, ".idx")
}

/// `pack-`, the hash and an extension.
fn named_by(hash: &ObjectHash, extension: &str) -> (name: String)
    ensures
        name@ == "pack-"@ + hex(hash@) + extension@,
{
    let mut name: String = "pack-".to_owned();
    name.append(hash.to_hex().as_str());
    name.append(extension);
    name
}

} // verus!
