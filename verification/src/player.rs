//! Identifiers for players that no account service knows: a name-based
//! identifier made from the MD5 digest of a name.

use vstd::array::ArrayAdditionalExecFns;
use vstd::prelude::*;
use vstd::string::StringSliceAdditionalSpecFns;

verus! {

/// The MD5 digest of `data`.
pub uninterp spec fn md5_digest(data: Seq<u8>) -> Seq<u8>;

/// `md5::compute`, which consumes the bytes it is given and returns their
/// digest of sixteen bytes. The digest depends on those bytes alone; the
/// contract says no more than that, by giving the digest its name.
#[verifier::external_body]
fn md5_compute(data: &[u8]) -> (digest: [u8; 16])
    ensures
        digest@ == md5_digest(data@),
{
    md5::compute(data).into()
}

/// The digest with the marks of a name-based identifier: the version, which
/// is three, in the high half of byte six, and the variant in the two high
/// bits of byte eight.
pub open spec fn name_based(digest: Seq<u8>) -> Seq<u8> {
    digest.update(6, (digest[6] & 0x0f) | 0x30).update(8, (digest[8] & 0x3f) | 0x80)
}

/// Marks a digest as a name-based identifier. All other bits are kept.
pub fn uuid_from_md5(digest: [u8; 16]) -> (id: [u8; 16])
    ensures
        id@ == name_based(digest@),
        id@[6] / 16 == 3,
        id@[8] / 64 == 2,
{
    let mut id = digest;
    let six: u8 = id[6];
    let eight: u8 = id[8];
    assert(((six & 0x0f) | 0x30) / 16 == 3) by (bit_vector);
    assert(((eight & 0x3f) | 0x80) / 64 == 2) by (bit_vector);
    id.set(6, (six & 0x0f) | 0x30);
    id.set(8, (eight & 0x3f) | 0x80);
    id
}

/// The identifier of the player that goes by `text`: the MD5 digest of the
/// bytes of the name, marked as a name-based identifier.
pub fn offline_player_uuid(text: &str) -> (id: [u8; 16])
    ensures
        id@ == name_based(md5_digest(text.spec_bytes())),
{
    uuid_from_md5(md5_compute(text.as_bytes()))
}

} // verus!
