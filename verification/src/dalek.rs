//! Trusted boundary to the `ed25519_dalek` crate's public-key type.

use vstd::prelude::*;

verus! {

/// The 32 bytes a dalek public key was built from.
pub uninterp spec fn dalek_key_bytes(pk: ed25519_dalek::PublicKey) -> Seq<u8>;

/// Whether 32 bytes decompress to a point of the Ed25519 curve, as decided
/// by `ed25519_dalek::PublicKey::from_bytes`.
pub uninterp spec fn is_ed25519_point(bytes: Seq<u8>) -> bool;

#[verifier::external_type_specification]
#[verifier::external_body]
pub struct ExDalekPublicKey(ed25519_dalek::PublicKey);

/// Relies on `ed25519_dalek::PublicKey::from_bytes`: it accepts exactly the
/// 32-byte strings that decompress to a curve point, and the accepted key
/// holds the input bytes.
#[verifier::external_body]
pub fn dalek_from_bytes(bytes: &[u8]) -> (r: Option<ed25519_dalek::PublicKey>)
    ensures
        r is Some ==> dalek_key_bytes(r->Some_0) == bytes@,
        r is Some <==> (bytes@.len() == 32 && is_ed25519_point(bytes@)),
{
    ed25519_dalek::PublicKey::from_bytes(bytes).ok()
}

/// Relies on `ed25519_dalek::PublicKey::as_bytes`: the 32 compressed point
/// bytes the key was built from.
#[verifier::external_body]
pub fn dalek_as_bytes(pk: &ed25519_dalek::PublicKey) -> (r: Vec<u8>)
    ensures
        r@ == dalek_key_bytes(*pk),
        r@.len() == 32,
{
    pk.as_bytes().to_vec()
}

} // verus!
