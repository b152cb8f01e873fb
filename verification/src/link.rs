//! Content identifiers, as far as the decoder deals with them.

use vstd::prelude::*;
use cid::Cid;

verus! {

/// `cid::CidGeneric`, of which `cid::Cid` is the instance with room for 64
/// bytes of digest. The library looks into no identifier: it parses them,
/// carries them, compares them and writes them back.
#[verifier::external_type_specification]
#[verifier::external_body]
pub struct ExCid<const S: usize>(cid::CidGeneric<S>);

/// `cid::Error`, the error of [`cid_try_from`]; nothing is read of it.
#[verifier::external_type_specification]
#[verifier::external_body]
pub struct ExCidError(cid::Error);

/// What `Cid::try_from` makes of `bytes`: the content identifier whose
/// binary form stands at their front, if there is one.
pub uninterp spec fn cid_from_bytes(bytes: Seq<u8>) -> Option<Cid>;

/// `Cid::try_from(Vec<u8>)`: parses the binary form of a content identifier.
/// Whether it succeeds, and the identifier it gives, depend on the bytes
/// alone.
#[verifier::external_body]
pub(crate) fn cid_try_from(bytes: Vec<u8>) -> (res: Result<Cid, cid::Error>)
    ensures
        match res {
            Ok(c) => cid_from_bytes(bytes@) == Some(c),
            Err(_) => cid_from_bytes(bytes@) is None,
        },
{
    Cid::try_from(bytes)
}


/// What `Cid::to_bytes` gives for `c`: the binary form of the content
/// identifier.
pub uninterp spec fn cid_bytes(c: Cid) -> Seq<u8>;

/// `Cid::to_bytes`: the binary form of a content identifier, which depends
/// on the identifier alone.
#[verifier::external_body]
pub(crate) fn cid_to_bytes(c: &Cid) -> (bytes: Vec<u8>)
    ensures
        bytes@ == cid_bytes(*c),
{
    c.to_bytes()
}

/// `==` on `Cid`: whether two content identifiers are the same. An
/// identifier is taken for what `==` compares of it: its version, its codec,
/// and the code and digest of its hash.
#[verifier::external_body]
pub(crate) fn cid_eq(a: &Cid, b: &Cid) -> (same: bool)
    ensures
        same == (*a == *b),
{
    a == b
}

/// Whether a link to `c` can be written: the binary form of `c` is at most
/// 255 bytes long, and reads back as `c`.
pub open spec fn link_fits(c: Cid) -> bool {
    cid_bytes(c).len() <= 255 && cid_from_bytes(cid_bytes(c)) == Some(c)
}

/// The binary form of `c`, if a link can carry it.
pub fn link_payload(c: &Cid) -> (res: Option<Vec<u8>>)
    ensures
        match res {
            Some(bytes) => link_fits(*c) && bytes@ == cid_bytes(*c),
            None => !link_fits(*c),
        },
{
    let bytes = cid_to_bytes(c);
    if bytes.len() > 255 {
        return None;
    }
    match cid_try_from(bytes.clone()) {
        Ok(back) => if cid_eq(&back, c) {
            Some(bytes)
        } else {
            None
        },
        Err(_) => None,
    }
}

} // verus!
