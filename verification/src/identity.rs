//! Public keys and their canonical byte encoding.
//!
//! A key is carried in a tagged envelope: the byte `0x08`, a varint key-type
//! tag, the byte `0x12`, a varint length, and the raw key material. The
//! envelope length decides whether a peer id inlines the key or hashes it.

use vstd::prelude::*;
use crate::varint::{
    varint_enc, varint_parse, encode_varint, parse_varint, lemma_varint_parse_of_enc,
    lemma_varint_parse_gives_enc,
};

verus! {

/// Key-type tag of RSA keys.
pub const RSA_TAG: u64 = 0;

/// Key-type tag of Ed25519 keys.
pub const ED25519_TAG: u64 = 1;

/// A public key of one of the supported schemes.
///
/// The Ed25519 variant holds the 32 compressed point bytes; the RSA variant
/// holds DER key material that this crate treats as opaque.
#[derive(Clone)]
pub enum IdentityKey {
    /// An Ed25519 public key, as its 32 raw bytes.
    Ed25519(Vec<u8>),
    /// An RSA public key, as opaque DER bytes.
    Rsa(Vec<u8>),
}

/// The key-type tag of a key.
pub open spec fn pk_tag(pk: IdentityKey) -> u64 {
    match pk {
        IdentityKey::Ed25519(_) => ED25519_TAG,
        IdentityKey::Rsa(_) => RSA_TAG,
    }
}

/// The raw key material of a key.
pub open spec fn pk_data(pk: IdentityKey) -> Seq<u8> {
    match pk {
        IdentityKey::Ed25519(d) => d@,
        IdentityKey::Rsa(d) => d@,
    }
}

/// The envelope bytes wrapping a tag and key material.
pub open spec fn key_envelope(tag: u64, data: Seq<u8>) -> Seq<u8> {
    seq![0x08u8] + varint_enc(tag as nat) + seq![0x12u8] + varint_enc(data.len()) + data
}

/// The canonical encoding of a key: its envelope.
pub open spec fn pk_enc(pk: IdentityKey) -> Seq<u8> {
    key_envelope(pk_tag(pk), pk_data(pk))
}

/// What a byte string denotes as an envelope: the tag and key material, or
/// nothing when the bytes are not exactly one well-formed envelope.
pub open spec fn key_envelope_parse(s: Seq<u8>) -> Option<(u64, Seq<u8>)> {
    if s.len() < 1 || s[0] != 0x08u8 {
        None
    } else {
        match varint_parse(s.skip(1)) {
            Some((tag, u1)) => if tag > u64::MAX || 1 + u1 >= s.len() || s[1 + u1 as int] != 0x12u8 {
                None
            } else {
                match varint_parse(s.skip(2 + u1 as int)) {
                    Some((len, u2)) => if 2 + u1 + u2 + len == s.len() {
                        Some(((tag as u64), s.skip((2 + u1 + u2) as int)))
                    } else {
                        None
                    },
                    None => None,
                }
            },
            None => None,
        }
    }
}

/// An envelope parses back to exactly its tag and key material.
pub proof fn lemma_key_envelope_parse_of_enc(tag: u64, data: Seq<u8>)
    ensures
        key_envelope_parse(key_envelope(tag, data)) == Some((tag, data)),
{
    let s = key_envelope(tag, data);
    let e1 = varint_enc(tag as nat);
    let e2 = varint_enc(data.len());
    assert(s[0] == 0x08u8);
    assert(s.skip(1) =~= e1 + (seq![0x12u8] + e2 + data));
    lemma_varint_parse_of_enc(tag as nat, seq![0x12u8] + e2 + data);
    let u1 = e1.len() as int;
    assert(s[1 + u1] == 0x12u8);
    assert(s.skip(2 + u1) =~= e2 + data);
    lemma_varint_parse_of_enc(data.len(), data);
    assert(s.skip(2 + u1 + e2.len() as int) =~= data);
}

impl IdentityKey {
    /// Encodes the key into its canonical envelope.
    pub fn into_protobuf_encoding(self) -> (r: Vec<u8>)
        ensures
            r@ == pk_enc(self),
    {
        self.protobuf_encoding()
    }

    /// Encodes the key into its canonical envelope, keeping the key.
    pub fn protobuf_encoding(&self) -> (r: Vec<u8>)
        ensures
            r@ == pk_enc(*self),
    {
        let (tag, data): (u64, &Vec<u8>) = match self {
            IdentityKey::Ed25519(d) => (ED25519_TAG, d),
            IdentityKey::Rsa(d) => (RSA_TAG, d),
        };
        let ghost data_view = data@;
        let mut out: Vec<u8> = Vec::new();
        out.push(0x08u8);
        let mut tag_bytes = encode_varint(tag);
        out.append(&mut tag_bytes);
        out.push(0x12u8);
        let mut len_bytes = encode_varint(data.len() as u64);
        out.append(&mut len_bytes);
        let mut tail = vstd::slice::slice_to_vec(data.as_slice());
        out.append(&mut tail);
        assert(out@ =~= key_envelope(tag, data_view));
        out
    }

    /// Decodes a canonical envelope back into a key. Fails when the framing
    /// is malformed, the tag names no supported scheme, or an Ed25519 key is
    /// not exactly 32 bytes.
    pub fn from_protobuf_encoding(bytes: &[u8]) -> (r: Option<IdentityKey>)
        ensures
            match r {
                Some(pk) => key_envelope_parse(bytes@) == Some((pk_tag(pk), pk_data(pk))) && (
                pk_tag(pk) == ED25519_TAG ==> pk_data(pk).len() == 32),
                None => match key_envelope_parse(bytes@) {
                    Some((tag, data)) => !(tag == RSA_TAG || (tag == ED25519_TAG && data.len()
                        == 32)),
                    None => true,
                },
            },
    {
        let n = bytes.len();
        if n < 1 || bytes[0] != 0x08u8 {
            return None;
        }
        let (tag, u1) = match parse_varint(bytes, 1) {
            Some(p) => p,
            None => {
                proof {
                    assert(bytes@.skip(1) == bytes@.skip(1 as int));
                    if varint_parse(bytes@.skip(1)) is Some {
                        let (lv, lu) = varint_parse(bytes@.skip(1))->Some_0;
                        assert(lv > u64::MAX);
                    }
                }
                return None;
            },
        };
        proof {
            lemma_varint_parse_gives_enc(bytes@.skip(1));
            assert(u1 <= n - 1);
        }
        if u1 >= n - 1 || bytes[1 + u1] != 0x12u8 {
            return None;
        }
        let (len, u2) = match parse_varint(bytes, 2 + u1) {
            Some(p) => p,
            None => {
                proof {
                    if varint_parse(bytes@.skip(2 + u1)) is Some {
                        let (lv, lu) = varint_parse(bytes@.skip(2 + u1))->Some_0;
                        assert(lv > u64::MAX);
                        assert(bytes@.len() <= usize::MAX);
                    }
                }
                return None;
            },
        };
        proof {
            lemma_varint_parse_gives_enc(bytes@.skip(2 + u1));
            assert(u2 <= n - 2 - u1);
        }
        let pos = 2 + u1 + u2;
        if len != (n - pos) as u64 {
            return None;
        }
        let data = vstd::slice::slice_to_vec(vstd::slice::slice_subrange(bytes, pos, n));
        assert(data@ =~= bytes@.skip(pos as int));
        if tag == ED25519_TAG {
            if data.len() == 32 {
                Some(IdentityKey::Ed25519(data))
            } else {
                None
            }
        } else if tag == RSA_TAG {
            Some(IdentityKey::Rsa(data))
        } else {
            None
        }
    }
}

} // verus!
