//! Identifier of a peer of the network.
//!
//! The data is a multihash of the canonical encoding of the peer's public
//! key. Keys whose encoding is at most 42 bytes are inlined verbatim under
//! the identity code; longer encodings are hashed with SHA-256.

use vstd::prelude::*;
use crate::identity::{
    IdentityKey, pk_enc, key_envelope_parse, lemma_key_envelope_parse_of_enc, ED25519_TAG, RSA_TAG,
};
use crate::multihash::{
    Multihash, multihash_enc, multihash_parse, lemma_multihash_parse_of_enc,
    lemma_multihash_parse_gives_enc, IDENTITY_CODE, SHA2_256_CODE,
};
use crate::util::bytes_eq;
use crate::dalek::{dalek_key_bytes, is_ed25519_point, dalek_from_bytes};
use crate::onion::{onion_of, onion_v3_from_pubkey};

verus! {

/// Public keys with encodings no longer than this are inlined as identity
/// multihashes; the bound is inclusive.
pub const MAX_INLINE_KEY_LENGTH: usize = 42;

/// Why a peer id could not be produced.
#[derive(Debug)]
pub enum ParseError {
    /// The textual form was not valid base-58.
    B58(bs58::decode::Error),
    /// The bytes were not a well-formed multihash envelope.
    MultiHash,
    /// The peer id does not carry an Ed25519 public key.
    NotFoundDalekPK,
    /// Any other failure, described in words.
    GenericError(String),
}

/// Whether a multihash code and digest length are acceptable for a peer id.
pub open spec fn valid_peer_multihash(code: u64, digest_len: nat) -> bool {
    code == SHA2_256_CODE || (code == IDENTITY_CODE && digest_len <= MAX_INLINE_KEY_LENGTH)
}

/// The SHA-256 digest of a byte string, as the `multihash` crate's
/// `Sha2_256` hasher computes it.
pub uninterp spec fn sha2_256_of(data: Seq<u8>) -> Seq<u8>;

/// The base-58 (Bitcoin alphabet) rendering of a byte string, as `bs58`
/// computes it.
pub uninterp spec fn base58_of(data: Seq<u8>) -> Seq<char>;

#[verifier::external_type_specification]
#[verifier::external_body]
pub struct ExBs58DecodeError(bs58::decode::Error);

/// Relies on the `multihash` crate's SHA2-256 hasher: the digest is a
/// function of the input alone and is 32 bytes long.
#[verifier::external_body]
fn sha2_256_digest(data: &[u8]) -> (r: Vec<u8>)
    ensures
        r@ == sha2_256_of(data@),
        r@.len() == 32,
{
    ::multihash::MultihashDigest::digest(&::multihash::Code::Sha2_256, data).digest().to_vec()
}

/// Relies on `bs58::encode` with its default Bitcoin alphabet: the string is
/// a function of the input bytes alone.
#[verifier::external_body]
fn base58_encode(data: &[u8]) -> (r: String)
    ensures
        r@ == base58_of(data@),
{
    bs58::encode(data).into_string()
}

/// Relies on `bs58::decode` with its default Bitcoin alphabet: it inverts
/// `bs58::encode`, returning exactly the byte string whose rendering the
/// input is, and failing on strings that render no byte string.
#[verifier::external_body]
pub(crate) fn base58_decode_str(s: &str) -> (r: Result<Vec<u8>, bs58::decode::Error>)
    ensures
        r is Ok ==> s@ == base58_of(r->Ok_0@),
        forall|b: Seq<u8>| s@ == base58_of(b) ==> (r is Ok && r->Ok_0@ == b),
{
    bs58::decode(s).into_vec()
}

/// Relies on rand's thread-local generator to draw 32 bytes; nothing is
/// assumed about the values drawn.
#[verifier::external_body]
fn random_bytes_32() -> (r: Vec<u8>)
    ensures
        r@.len() == 32,
{
    let drawn: [u8; 32] = rand::Rng::gen(&mut rand::thread_rng());
    drawn.to_vec()
}

/// Whether two peer ids name the same peer: same code, same digest.
pub open spec fn same_peer(a: PeerId, b: PeerId) -> bool {
    a.spec_code() == b.spec_code() && a.spec_digest() == b.spec_digest()
}

/// Identifier of a peer of the network: a multihash of the peer's public
/// key, inlined when short enough and hashed otherwise.
#[derive(Debug)]
pub struct PeerId {
    multihash: Multihash,
}

impl PeerId {
    #[verifier::type_invariant]
    pub(crate) open spec fn wf(&self) -> bool {
        valid_peer_multihash(self.spec_code(), self.spec_digest().len())
    }

    /// The multihash code of this peer id.
    pub closed spec fn spec_code(&self) -> u64 {
        self.multihash.code
    }

    /// The digest carried by this peer id: the key encoding itself under the
    /// identity code, its SHA-256 digest otherwise.
    pub closed spec fn spec_digest(&self) -> Seq<u8> {
        self.multihash.digest@
    }

    /// The serial byte form of this peer id.
    pub open spec fn spec_bytes(&self) -> Seq<u8> {
        multihash_enc(self.spec_code(), self.spec_digest())
    }

    /// The 32 Ed25519 key bytes this peer id inlines, when it is an inline
    /// identity whose envelope carries an Ed25519 key naming a curve point.
    pub open spec fn spec_ed25519_key(&self) -> Option<Seq<u8>> {
        if self.spec_code() == IDENTITY_CODE {
            match key_envelope_parse(self.spec_digest()) {
                Some((tag, data)) => if tag == ED25519_TAG && data.len() == 32
                    && is_ed25519_point(data) {
                    Some(data)
                } else {
                    None
                },
                None => None,
            }
        } else {
            None
        }
    }

    /// Builds a `PeerId` from a public key: the canonical key encoding is
    /// inlined when it is at most 42 bytes long and hashed with SHA-256
    /// otherwise.
    pub fn from_public_key(key: IdentityKey) -> (r: PeerId)
        ensures
            (r.spec_code() == IDENTITY_CODE) <==> pk_enc(key).len() <= MAX_INLINE_KEY_LENGTH,
            pk_enc(key).len() <= MAX_INLINE_KEY_LENGTH ==> r.spec_digest() == pk_enc(key),
            pk_enc(key).len() > MAX_INLINE_KEY_LENGTH ==> r.spec_code() == SHA2_256_CODE
                && r.spec_digest() == sha2_256_of(pk_enc(key)),
    {
        let key_enc = key.into_protobuf_encoding();
        if key_enc.len() <= MAX_INLINE_KEY_LENGTH {
            PeerId { multihash: Multihash { code: IDENTITY_CODE, digest: key_enc } }
        } else {
            let digest = sha2_256_digest(key_enc.as_slice());
            PeerId { multihash: Multihash { code: SHA2_256_CODE, digest } }
        }
    }

    /// Tries to turn a multihash into a `PeerId`: SHA-256 multihashes are
    /// accepted as they are, identity multihashes only up to the inline
    /// bound, and anything else is handed back unchanged as the error.
    pub fn from_multihash(multihash: Multihash) -> (r: Result<PeerId, Multihash>)
        ensures
            match r {
                Ok(p) => valid_peer_multihash(multihash.code, multihash.digest@.len())
                    && p.spec_code() == multihash.code && p.spec_digest() == multihash.digest@,
                Err(m) => !valid_peer_multihash(multihash.code, multihash.digest@.len())
                    && m.code == multihash.code && m.digest@ == multihash.digest@,
            },
    {
        if multihash.code == SHA2_256_CODE || (multihash.code == IDENTITY_CODE
            && multihash.digest.len() <= MAX_INLINE_KEY_LENGTH) {
            Ok(PeerId { multihash })
        } else {
            Err(multihash)
        }
    }

    /// Parses a `PeerId` from its serial byte form: exactly one multihash
    /// envelope carrying a recognized code.
    pub fn from_bytes(data: &[u8]) -> (r: Result<PeerId, ParseError>)
        ensures
            match r {
                Ok(p) => multihash_parse(data@) == Some((p.spec_code(), p.spec_digest()))
                    && p.spec_bytes() == data@ && valid_peer_multihash(
                    p.spec_code(),
                    p.spec_digest().len(),
                ),
                Err(e) => match multihash_parse(data@) {
                    Some((code, digest)) => !valid_peer_multihash(code, digest.len())
                        && e matches ParseError::GenericError(_),
                    None => e matches ParseError::MultiHash,
                },
            },
    {
        let mh = match Multihash::from_bytes(data) {
            Some(mh) => mh,
            None => {
                return Err(ParseError::MultiHash);
            },
        };
        proof {
            lemma_multihash_parse_gives_enc(data@);
        }
        match Self::from_multihash(mh) {
            Ok(p) => Ok(p),
            Err(_) => Err(
                ParseError::GenericError(String::from_str("unsupported multihash code")),
            ),
        }
    }

    /// Generates a random peer id: 32 random bytes inlined as an identity
    /// multihash. Such an id is not derived from any public key; it serves
    /// DHT walks and tests.
    pub fn random() -> (r: PeerId)
        ensures
            r.spec_code() == IDENTITY_CODE,
            r.spec_digest().len() == 32,
    {
        let digest = random_bytes_32();
        PeerId { multihash: Multihash { code: IDENTITY_CODE, digest } }
    }

    /// Whether this peer id names the same peer as `other`.
    pub fn eq_peer(&self, other: &PeerId) -> (r: bool)
        ensures
            r == same_peer(*self, *other),
    {
        self.multihash.code == other.multihash.code && bytes_eq(
            self.multihash.digest.as_slice(),
            other.multihash.digest.as_slice(),
        )
    }

    /// A copy of this peer id, equal to it field by field.
    pub fn duplicate(&self) -> (r: PeerId)
        ensures
            r.spec_code() == self.spec_code(),
            r.spec_digest() == self.spec_digest(),
    {
        proof {
            use_type_invariant(self);
        }
        PeerId {
            multihash: Multihash {
                code: self.multihash.code,
                digest: vstd::slice::slice_to_vec(self.multihash.digest.as_slice()),
            },
        }
    }

    /// The serial byte form of this peer id.
    pub fn to_bytes(&self) -> (r: Vec<u8>)
        ensures
            r@ == self.spec_bytes(),
    {
        self.multihash.to_bytes()
    }

    /// The same bytes as `to_bytes`; kept separate in case a peer id ever
    /// carries more than its multihash.
    pub fn to_hash_bytes(&self) -> (r: Vec<u8>)
        ensures
            r@ == self.spec_bytes(),
    {
        self.multihash.to_bytes()
    }

    /// The base-58 rendering of the serial byte form.
    pub fn to_base58(&self) -> (r: String)
        ensures
            r@ == base58_of(self.spec_bytes()),
    {
        let bytes = self.to_bytes();
        base58_encode(bytes.as_slice())
    }

    /// Parses the base-58 rendering of a peer id: `to_base58` followed by
    /// this function yields the peer id again.
    pub fn from_base58(s: &str) -> (r: Result<PeerId, ParseError>)
        ensures
            r matches Ok(p) ==> s@ == base58_of(p.spec_bytes()),
            forall|b: Seq<u8>|
                s@ == base58_of(b) ==> match multihash_parse(b) {
                    Some((code, digest)) => if valid_peer_multihash(code, digest.len()) {
                        r matches Ok(p) && p.spec_code() == code && p.spec_digest() == digest
                    } else {
                        r matches Err(e) && e matches ParseError::GenericError(_)
                    },
                    None => r matches Err(e) && e matches ParseError::MultiHash,
                },
    {
        let bytes = match base58_decode_str(s) {
            Ok(v) => v,
            Err(e) => {
                return Err(ParseError::B58(e));
            },
        };
        assert(forall|b: Seq<u8>| s@ == base58_of(b) ==> bytes@ == b);
        let r = Self::from_bytes(bytes.as_slice());
        proof {
            assert forall|b: Seq<u8>| s@ == base58_of(b) implies match multihash_parse(b) {
                Some((code, digest)) => if valid_peer_multihash(code, digest.len()) {
                    r matches Ok(p) && p.spec_code() == code && p.spec_digest() == digest
                } else {
                    r matches Err(e) && e matches ParseError::GenericError(_)
                },
                None => r matches Err(e) && e matches ParseError::MultiHash,
            } by {
                assert(bytes@ == b);
                if multihash_parse(b) is Some {
                    let (code, digest) = multihash_parse(b)->Some_0;
                    if valid_peer_multihash(code, digest.len()) {
                        assert(r is Ok);
                        assert(r->Ok_0.spec_code() == code);
                        assert(r->Ok_0.spec_digest() == digest);
                        assert(r matches Ok(p) && p.spec_code() == code && p.spec_digest()
                            == digest);
                    } else {
                        assert(r is Err);
                    }
                } else {
                    assert(r is Err);
                }
            }
        }
        r
    }

    /// Checks whether `public_key` is the key this peer id was derived from,
    /// re-encoding it under the same hashing code. Both recognized codes
    /// support re-encoding, so the check always answers.
    pub fn is_public_key(&self, public_key: &IdentityKey) -> (r: Option<bool>)
        ensures
            r matches Some(eq) && eq == (if self.spec_code() == IDENTITY_CODE {
                self.spec_digest() == pk_enc(*public_key)
            } else {
                self.spec_digest() == sha2_256_of(pk_enc(*public_key))
            }),
    {
        proof {
            use_type_invariant(self);
        }
        let enc = public_key.protobuf_encoding();
        if self.multihash.code == IDENTITY_CODE {
            Some(bytes_eq(self.multihash.digest.as_slice(), enc.as_slice()))
        } else {
            let digest = sha2_256_digest(enc.as_slice());
            Some(bytes_eq(self.multihash.digest.as_slice(), digest.as_slice()))
        }
    }

    /// Extracts the Ed25519 public key this peer id inlines. Succeeds
    /// exactly when the code is identity, the digest is the envelope of an
    /// Ed25519 key, and those bytes name a curve point.
    pub fn as_dalek_pubkey(&self) -> (r: Result<ed25519_dalek::PublicKey, ParseError>)
        ensures
            match r {
                Ok(pk) => self.spec_ed25519_key() == Some(dalek_key_bytes(pk)),
                Err(e) => self.spec_ed25519_key() is None && ((self.spec_code() != IDENTITY_CODE
                    && e matches ParseError::NotFoundDalekPK)
                    || (self.spec_code() == IDENTITY_CODE
                    && match key_envelope_parse(self.spec_digest()) {
                    Some((tag, data)) => (tag == ED25519_TAG && data.len() == 32
                        && !is_ed25519_point(data) && e matches ParseError::GenericError(_)) || (
                    tag == RSA_TAG && e matches ParseError::NotFoundDalekPK) || (!(tag == RSA_TAG
                        || (tag == ED25519_TAG && data.len() == 32)) && e
                        matches ParseError::GenericError(_)),
                    None => e matches ParseError::GenericError(_),
                })),
            },
    {
        if self.multihash.code != IDENTITY_CODE {
            return Err(ParseError::NotFoundDalekPK);
        }
        let pk = match IdentityKey::from_protobuf_encoding(self.multihash.digest.as_slice()) {
            Some(pk) => pk,
            None => {
                return Err(
                    ParseError::GenericError(String::from_str("unable to parse peer id data")),
                );
            },
        };
        match pk {
            IdentityKey::Ed25519(key_bytes) => match dalek_from_bytes(key_bytes.as_slice()) {
                Some(dalek_pk) => Ok(dalek_pk),
                None => Err(
                    ParseError::GenericError(String::from_str("unable to parse peer id data")),
                ),
            },
            IdentityKey::Rsa(_) => Err(ParseError::NotFoundDalekPK),
        }
    }
}

impl PeerId {
    /// Renders this peer id as an onion-v3 address. Succeeds exactly when
    /// the id inlines an Ed25519 key naming a curve point.
    pub fn as_onion_address(&self) -> (r: Result<String, ParseError>)
        ensures
            match r {
                Ok(s) => self.spec_ed25519_key() matches Some(k) && s@ == onion_of(k),
                Err(e) => self.spec_ed25519_key() is None && (self.spec_code() != IDENTITY_CODE
                    ==> e matches ParseError::NotFoundDalekPK),
            },
    {
        let pk = match self.as_dalek_pubkey() {
            Ok(pk) => pk,
            Err(e) => {
                return Err(e);
            },
        };
        Ok(onion_v3_from_pubkey(&pk))
    }

    /// The address this peer is reachable under: its onion-v3 form.
    pub fn get_address(&self) -> (r: Result<String, ParseError>)
        ensures
            match r {
                Ok(s) => self.spec_ed25519_key() matches Some(k) && s@ == onion_of(k),
                Err(e) => self.spec_ed25519_key() is None && (self.spec_code() != IDENTITY_CODE
                    ==> e matches ParseError::NotFoundDalekPK),
            },
    {
        self.as_onion_address()
    }

    /// The human-readable form: the onion-v3 address when the identity is an
    /// Ed25519 key, the base-58 form otherwise.
    pub fn display_string(&self) -> (r: String)
        ensures
            match self.spec_ed25519_key() {
                Some(k) => r@ == onion_of(k),
                None => r@ == base58_of(self.spec_bytes()),
            },
    {
        match self.as_onion_address() {
            Ok(s) => s,
            Err(_) => self.to_base58(),
        }
    }
}

impl PartialEq for PeerId {
    /// Two peer ids are equal when code and digest are.
    fn eq(&self, other: &PeerId) -> (r: bool) {
        self.multihash.code == other.multihash.code && bytes_eq(
            self.multihash.digest.as_slice(),
            other.multihash.digest.as_slice(),
        )
    }
}

impl vstd::std_specs::cmp::PartialEqSpecImpl for PeerId {
    open spec fn obeys_eq_spec() -> bool {
        true
    }

    open spec fn eq_spec(&self, other: &PeerId) -> bool {
        self.spec_code() == other.spec_code() && self.spec_digest() == other.spec_digest()
    }
}

impl Eq for PeerId {

}

impl core::str::FromStr for PeerId {
    type Err = ParseError;

    /// Parses the base-58 rendering, as `from_base58` does.
    fn from_str(s: &str) -> Result<PeerId, ParseError> {
        PeerId::from_base58(s)
    }
}

/// Law: a peer id's serial byte form parses back to the very same code and
/// digest, so `from_bytes` after `to_bytes`, and `from_base58` after
/// `to_base58`, both return the peer id unchanged.
pub proof fn lemma_peer_id_round_trip(p: PeerId)
    ensures
        multihash_parse(p.spec_bytes()) == Some((p.spec_code(), p.spec_digest())),
{
    lemma_multihash_parse_of_enc(p.spec_code(), p.spec_digest());
}

} // verus!
