//! The multihash envelope: a self-describing hash value framed as a varint
//! hashing code, a varint digest length, and the digest bytes.

use vstd::prelude::*;
use crate::varint::{
    varint_enc, varint_parse, encode_varint, parse_varint, lemma_varint_parse_of_enc,
    lemma_varint_parse_gives_enc,
};

verus! {

/// The hashing code under which a raw payload is carried verbatim.
pub const IDENTITY_CODE: u64 = 0x00;

/// The hashing code for SHA-256 digests.
pub const SHA2_256_CODE: u64 = 0x12;

/// A self-describing hash value: a hashing code together with the digest it
/// frames. Any code and digest may be held; peer-id validity is checked by
/// `PeerId::from_multihash`.
#[derive(Debug, Clone)]
pub struct Multihash {
    /// The hashing code.
    pub code: u64,
    /// The digest bytes.
    pub digest: Vec<u8>,
}

/// The byte encoding of a multihash.
pub open spec fn multihash_enc(code: u64, digest: Seq<u8>) -> Seq<u8> {
    varint_enc(code as nat) + varint_enc(digest.len()) + digest
}

/// What a byte string denotes as a multihash: the code and digest, or
/// nothing when the bytes are not exactly one well-formed envelope.
pub open spec fn multihash_parse(s: Seq<u8>) -> Option<(u64, Seq<u8>)> {
    match varint_parse(s) {
        Some((code, u1)) => if code > u64::MAX {
            None
        } else {
            match varint_parse(s.skip(u1 as int)) {
                Some((len, u2)) => if u1 + u2 + len == s.len() {
                    Some(((code as u64), s.skip((u1 + u2) as int)))
                } else {
                    None
                },
                None => None,
            }
        },
        None => None,
    }
}

/// An encoded multihash parses back to exactly its code and digest.
pub proof fn lemma_multihash_parse_of_enc(code: u64, digest: Seq<u8>)
    ensures
        multihash_parse(multihash_enc(code, digest)) == Some((code, digest)),
{
    let s = multihash_enc(code, digest);
    let e1 = varint_enc(code as nat);
    let e2 = varint_enc(digest.len());
    assert(s =~= e1 + (e2 + digest));
    lemma_varint_parse_of_enc(code as nat, e2 + digest);
    assert(s.skip(e1.len() as int) =~= e2 + digest);
    lemma_varint_parse_of_enc(digest.len(), digest);
    assert(s.skip((e1.len() + e2.len()) as int) =~= digest);
}

/// A byte string that parses as a multihash is exactly that multihash's
/// encoding: the envelope admits one byte form per value.
pub proof fn lemma_multihash_parse_gives_enc(s: Seq<u8>)
    requires
        multihash_parse(s) is Some,
    ensures
        ({
            let (code, digest) = multihash_parse(s)->Some_0;
            s == multihash_enc(code, digest)
        }),
{
    let (code, digest) = multihash_parse(s)->Some_0;
    let (c, u1) = varint_parse(s)->Some_0;
    lemma_varint_parse_gives_enc(s);
    let (len, u2) = varint_parse(s.skip(u1 as int))->Some_0;
    lemma_varint_parse_gives_enc(s.skip(u1 as int));
    assert(s.skip(u1 as int).subrange(0, u2 as int) =~= s.subrange(u1 as int, (u1 + u2) as int));
    assert(digest =~= s.skip((u1 + u2) as int));
    assert(digest.len() == len);
    assert(s =~= s.subrange(0, u1 as int) + s.subrange(u1 as int, (u1 + u2) as int) + s.skip(
        (u1 + u2) as int,
    ));
}

impl Multihash {
    /// Wraps a digest under a hashing code.
    pub fn wrap(code: u64, input_digest: &[u8]) -> (r: Multihash)
        ensures
            r.code == code,
            r.digest@ == input_digest@,
    {
        Multihash { code, digest: vstd::slice::slice_to_vec(input_digest) }
    }

    /// The bytes of the envelope: varint code, varint length, digest.
    pub fn to_bytes(&self) -> (r: Vec<u8>)
        ensures
            r@ == multihash_enc(self.code, self.digest@),
    {
        let mut out = encode_varint(self.code);
        let mut len_bytes = encode_varint(self.digest.len() as u64);
        out.append(&mut len_bytes);
        let mut tail = vstd::slice::slice_to_vec(self.digest.as_slice());
        out.append(&mut tail);
        assert(out@ =~= multihash_enc(self.code, self.digest@));
        out
    }

    /// Parses exactly one envelope out of `bytes`; trailing bytes, a
    /// truncated digest, or a non-canonical varint all fail.
    pub fn from_bytes(bytes: &[u8]) -> (r: Option<Multihash>)
        ensures
            match r {
                Some(mh) => multihash_parse(bytes@) == Some((mh.code, mh.digest@)),
                None => multihash_parse(bytes@) is None,
            },
    {
        let n = bytes.len();
        assert(bytes@.skip(0) =~= bytes@);
        let (code, u1) = match parse_varint(bytes, 0) {
            Some(p) => p,
            None => {
                return None;
            },
        };
        proof {
            lemma_varint_parse_gives_enc(bytes@);
            assert(u1 <= n);
        }
        let (len, u2) = match parse_varint(bytes, u1) {
            Some(p) => p,
            None => {
                proof {
                    if varint_parse(bytes@.skip(u1 as int)) is Some {
                        let (lv, lu) = varint_parse(bytes@.skip(u1 as int))->Some_0;
                        assert(lv > u64::MAX);
                        assert(bytes@.len() <= usize::MAX);
                        assert(u1 + lu + lv != bytes@.len());
                    }
                }
                return None;
            },
        };
        proof {
            lemma_varint_parse_gives_enc(bytes@.skip(u1 as int));
            assert(u2 <= n - u1);
        }
        let pos = u1 + u2;
        if len == (bytes.len() - pos) as u64 {
            let digest = vstd::slice::slice_to_vec(
                vstd::slice::slice_subrange(bytes, pos, bytes.len()),
            );
            assert(digest@ =~= bytes@.skip(pos as int));
            Some(Multihash { code, digest })
        } else {
            None
        }
    }
}

} // verus!
