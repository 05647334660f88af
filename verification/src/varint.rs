//! Canonical unsigned varint coding: base-128 digits, least significant
//! first, the high bit of a byte marking a continuation. Only minimal
//! encodings are accepted, so that every value has exactly one byte form.

use vstd::prelude::*;
use vstd::arithmetic::div_mod::lemma_fundamental_div_mod;

verus! {

/// The canonical varint encoding of `n`.
pub open spec fn varint_enc(n: nat) -> Seq<u8>
    decreases n,
{
    if n < 128 {
        seq![n as u8]
    } else {
        seq![(128 + n % 128) as u8] + varint_enc(n / 128)
    }
}

/// What a varint prefix of `s` denotes: the value and the number of bytes it
/// occupies, or nothing when `s` does not start with a canonical varint.
pub open spec fn varint_parse(s: Seq<u8>) -> Option<(nat, nat)>
    decreases s.len(),
{
    if s.len() == 0 {
        None
    } else if s[0] < 128 {
        Some(((s[0] as nat), 1))
    } else {
        match varint_parse(s.skip(1)) {
            Some((v, u)) => if v == 0 {
                None
            } else {
                Some((((s[0] - 128) + 128 * v) as nat, (u + 1) as nat))
            },
            None => None,
        }
    }
}

/// An encoded value parses back to itself, whatever follows it.
pub proof fn lemma_varint_parse_of_enc(n: nat, rest: Seq<u8>)
    ensures
        varint_parse(varint_enc(n) + rest) == Some((n, varint_enc(n).len())),
    decreases n,
{
    let s = varint_enc(n) + rest;
    if n < 128 {
        assert(s[0] == n as u8);
    } else {
        lemma_fundamental_div_mod(n as int, 128);
        lemma_varint_parse_of_enc(n / 128, rest);
        assert(s.skip(1) =~= varint_enc(n / 128) + rest);
        assert(s[0] == (128 + n % 128) as u8);
        assert(n / 128 >= 1) by {
            assert(n >= 128);
        }
    }
}

/// A successful parse reads back exactly the canonical encoding of its value.
pub proof fn lemma_varint_parse_gives_enc(s: Seq<u8>)
    requires
        varint_parse(s) is Some,
    ensures
        ({
            let (v, u) = varint_parse(s)->Some_0;
            1 <= u <= s.len() && s.subrange(0, u as int) == varint_enc(v)
        }),
    decreases s.len(),
{
    let (v, u) = varint_parse(s)->Some_0;
    if s[0] < 128 {
        assert(s.subrange(0, 1) =~= seq![s[0]]);
    } else {
        lemma_varint_parse_gives_enc(s.skip(1));
        let (v2, u2) = varint_parse(s.skip(1))->Some_0;
        assert(v == (s[0] - 128) + 128 * v2);
        assert(v % 128 == (s[0] - 128) as nat && v / 128 == v2) by {
            lemma_fundamental_div_mod(v as int, 128);
            assert(v == 128 * v2 + (s[0] - 128));
        }
        assert(s.skip(1).subrange(0, u2 as int) == varint_enc(v2));
        assert(s.subrange(0, u as int) =~= seq![s[0]] + s.skip(1).subrange(0, u2 as int));
        assert(s.subrange(0, u as int) =~= seq![(128 + v % 128) as u8] + varint_enc(v / 128));
    }
}

/// Builds the canonical encoding of `value`.
pub fn encode_varint(value: u64) -> (r: Vec<u8>)
    ensures
        r@ == varint_enc(value as nat),
    decreases value,
{
    if value < 128 {
        let mut v: Vec<u8> = Vec::new();
        v.push(value as u8);
        assert(v@ =~= varint_enc(value as nat));
        v
    } else {
        let mut v: Vec<u8> = Vec::new();
        v.push((128 + value % 128) as u8);
        let mut rest = encode_varint(value / 128);
        v.append(&mut rest);
        assert(v@ =~= varint_enc(value as nat));
        v
    }
}

/// Reads the canonical varint at offset `start` of `bytes`, returning its
/// value and the number of bytes read. Fails when no canonical varint starts
/// there or its value does not fit in 64 bits.
pub fn parse_varint(bytes: &[u8], start: usize) -> (r: Option<(u64, usize)>)
    requires
        start <= bytes@.len(),
    ensures
        ({
            let tail = bytes@.skip(start as int);
            match r {
                Some((v, u)) => varint_parse(tail) == Some((v as nat, u as nat)),
                None => match varint_parse(tail) {
                    Some((v, u)) => v > u64::MAX,
                    None => true,
                },
            }
        }),
    decreases bytes@.len() - start,
{
    let ghost tail = bytes@.skip(start as int);
    if start >= bytes.len() {
        return None;
    }
    let b = bytes[start];
    if b < 128 {
        assert(tail[0] == b);
        return Some((b as u64, 1));
    }
    assert(tail[0] == b && b >= 128);
    assert(tail.skip(1) =~= bytes@.skip(start as int + 1));
    let limit = (u64::MAX - ((b - 128) as u64)) / 128;
    proof {
        lemma_fundamental_div_mod((u64::MAX - ((b - 128) as u64)) as int, 128);
    }
    match parse_varint(bytes, start + 1) {
        None => None,
        Some((v, u)) => {
            if v == 0 {
                None
            } else if v > limit {
                None
            } else {
                proof {
                    // The inner varint fits in the remaining bytes, so one
                    // more byte of length cannot overflow.
                    lemma_varint_parse_gives_enc(tail.skip(1));
                }
                Some(((b - 128) as u64 + 128 * v, u + 1))
            }
        },
    }
}

} // verus!
