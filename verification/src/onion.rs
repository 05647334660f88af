//! Onion-v3 rendering of Ed25519 public keys.
//!
//! The address is the base32 form, lowercase, of 35 bytes: the 32 key
//! bytes, two checksum bytes, and the version byte 3. The checksum is the
//! first two bytes of `SHA3-256(".onion checksum" || key || 3)`.

use vstd::prelude::*;
use vstd::string::StringSliceAdditionalSpecFns;
use vstd::string::StrSliceExecFns;
use crate::dalek::{dalek_key_bytes, dalek_as_bytes};
use crate::util::ascii_to_string;

verus! {

/// The version byte of onion-v3 addresses.
pub const ONION_VERSION: u8 = 3;

/// The SHA3-256 digest of a byte string, as sha3's `Sha3_256` computes it.
pub uninterp spec fn sha3_256_of(data: Seq<u8>) -> Seq<u8>;

/// Relies on sha3's `Sha3_256`: the digest is a function of the input alone
/// and is 32 bytes long.
#[verifier::external_body]
fn sha3_256_digest(data: &[u8]) -> (r: Vec<u8>)
    ensures
        r@ == sha3_256_of(data@),
        r@.len() == 32,
{
    let mut hasher = <sha3::Sha3_256 as sha3::Digest>::new();
    sha3::Digest::update(&mut hasher, data);
    let out = sha3::Digest::finalize(hasher);
    out.to_vec()
}

/// The base32 digit at position `i` of the encoding of `bytes`: five bits
/// taken most-significant first.
pub open spec fn b32_digit(bytes: Seq<u8>, i: int) -> u8 {
    let g = i / 8;
    let j = i % 8;
    let b0 = bytes[g * 5] as int;
    let b1 = bytes[g * 5 + 1] as int;
    let b2 = bytes[g * 5 + 2] as int;
    let b3 = bytes[g * 5 + 3] as int;
    let b4 = bytes[g * 5 + 4] as int;
    if j == 0 {
        (b0 / 8) as u8
    } else if j == 1 {
        ((b0 % 8) * 4 + b1 / 64) as u8
    } else if j == 2 {
        ((b1 / 2) % 32) as u8
    } else if j == 3 {
        ((b1 % 2) * 16 + b2 / 16) as u8
    } else if j == 4 {
        ((b2 % 16) * 2 + b3 / 128) as u8
    } else if j == 5 {
        ((b3 / 4) % 32) as u8
    } else if j == 6 {
        ((b3 % 4) * 8 + b4 / 32) as u8
    } else {
        (b4 % 32) as u8
    }
}

/// The lowercase base32 alphabet, as the ASCII code of digit `d`.
pub open spec fn b32_ascii_of_digit(d: u8) -> u8 {
    if d < 26 {
        (97 + d) as u8
    } else {
        (24 + d) as u8
    }
}

/// The digit a lowercase base32 character stands for.
pub open spec fn b32_digit_of_char(c: char) -> u8 {
    let u = c as u32;
    if 97 <= u <= 122 {
        (u - 97) as u8
    } else if 50 <= u <= 55 {
        (u - 24) as u8
    } else {
        0
    }
}

/// Whether `c` is a character of the lowercase base32 alphabet.
pub open spec fn is_b32_char(c: char) -> bool {
    let u = c as u32;
    (97 <= u <= 122) || (50 <= u <= 55)
}

/// The ASCII bytes of the base32 form of a 35-byte string: 56 characters.
pub open spec fn onion_ascii(bytes: Seq<u8>) -> Seq<u8>
    recommends
        bytes.len() == 35,
{
    Seq::new(56, |i: int| b32_ascii_of_digit(b32_digit(bytes, i)))
}

/// The checksum a key's address carries: a SHA3-256 digest, of which the
/// first two bytes go on the wire.
pub open spec fn onion_checksum(key: Seq<u8>) -> Seq<u8> {
    sha3_256_of(".onion checksum".spec_bytes() + key + seq![ONION_VERSION])
}

/// The 35 address bytes behind the textual form: key, checksum, version.
pub open spec fn onion_address_bytes(key: Seq<u8>) -> Seq<u8>
    recommends
        key.len() == 32,
{
    key + seq![onion_checksum(key)[0], onion_checksum(key)[1]] + seq![ONION_VERSION]
}

/// The onion-v3 textual form of a 32-byte Ed25519 key.
pub open spec fn onion_of(key: Seq<u8>) -> Seq<char>
    recommends
        key.len() == 32,
{
    onion_ascii(onion_address_bytes(key)).map_values(|b: u8| b as char)
}

/// Position `8 g + k` sits in group `g` at offset `k`.
proof fn lemma_digit_index(g: int, k: int)
    requires
        0 <= g,
        0 <= k < 8,
    ensures
        (8 * g + k) / 8 == g,
        (8 * g + k) % 8 == k,
{
    vstd::arithmetic::div_mod::lemma_fundamental_div_mod_converse(8 * g + k, 8, g, k);
}

/// The ASCII byte of one base32 digit.
fn ascii_digit(d: u8) -> (r: u8)
    requires
        d < 32,
    ensures
        r == b32_ascii_of_digit(d),
{
    if d < 26 {
        97 + d
    } else {
        24 + d
    }
}

/// Encodes 35 bytes into their 56 lowercase base32 ASCII bytes.
fn onion_encode_ascii(bytes: &[u8]) -> (r: Vec<u8>)
    requires
        bytes@.len() == 35,
    ensures
        r@ == onion_ascii(bytes@),
{
    let mut out: Vec<u8> = Vec::new();
    let mut g: usize = 0;
    while g < 7
        invariant
            bytes@.len() == 35,
            g <= 7,
            out@.len() == 8 * g,
            forall|i: int| 0 <= i < 8 * g ==> out@[i] == b32_ascii_of_digit(b32_digit(bytes@, i)),
        decreases 7 - g,
    {
        let b0 = bytes[5 * g];
        let b1 = bytes[5 * g + 1];
        let b2 = bytes[5 * g + 2];
        let b3 = bytes[5 * g + 3];
        let b4 = bytes[5 * g + 4];
        let ghost out_prev = out@;
        out.push(ascii_digit(b0 / 8));
        out.push(ascii_digit((b0 % 8) * 4 + b1 / 64));
        out.push(ascii_digit((b1 / 2) % 32));
        out.push(ascii_digit((b1 % 2) * 16 + b2 / 16));
        out.push(ascii_digit((b2 % 16) * 2 + b3 / 128));
        out.push(ascii_digit((b3 / 4) % 32));
        out.push(ascii_digit((b3 % 4) * 8 + b4 / 32));
        out.push(ascii_digit(b4 % 32));
        proof {
            let gi = g as int;
            lemma_digit_index(gi, 0);
            lemma_digit_index(gi, 1);
            lemma_digit_index(gi, 2);
            lemma_digit_index(gi, 3);
            lemma_digit_index(gi, 4);
            lemma_digit_index(gi, 5);
            lemma_digit_index(gi, 6);
            lemma_digit_index(gi, 7);
            assert forall|i: int| 0 <= i < 8 * g + 8 implies out@[i] == b32_ascii_of_digit(
                b32_digit(bytes@, i),
            ) by {
                if i < 8 * g {
                    assert(out@[i] == out_prev[i]);
                }
            }
        }
        g = g + 1;
    }
    assert(out@ =~= onion_ascii(bytes@));
    out
}

/// Builds the onion-v3 address string of an Ed25519 public key.
pub fn onion_v3_from_pubkey(pub_key: &ed25519_dalek::PublicKey) -> (r: String)
    ensures
        r@ == onion_of(dalek_key_bytes(*pub_key)),
{
    let key = dalek_as_bytes(pub_key);
    let mut checksum_input: Vec<u8> = ".onion checksum".as_bytes_vec();
    let ghost prefix = checksum_input@;
    let mut key_copy = vstd::slice::slice_to_vec(key.as_slice());
    checksum_input.append(&mut key_copy);
    checksum_input.push(ONION_VERSION);
    assert(checksum_input@ =~= prefix + key@ + seq![ONION_VERSION]);
    let checksum = sha3_256_digest(checksum_input.as_slice());
    let mut address: Vec<u8> = vstd::slice::slice_to_vec(key.as_slice());
    address.push(checksum[0]);
    address.push(checksum[1]);
    address.push(ONION_VERSION);
    assert(address@ =~= onion_address_bytes(key@));
    let ascii = onion_encode_ascii(address.as_slice());
    proof {
        lemma_onion_ascii_low(address@);
    }
    ascii_to_string(ascii)
}

/// Every byte of the base32 ASCII form is below 128.
proof fn lemma_onion_ascii_low(bytes: Seq<u8>)
    requires
        bytes.len() == 35,
    ensures
        forall|i: int| 0 <= i < onion_ascii(bytes).len() ==> onion_ascii(bytes)[i] < 128,
{
}

/// Decodes eight base32 digits back into the five bytes they carry.
pub open spec fn b32_group_decode(d: Seq<u8>) -> Seq<u8>
    recommends
        d.len() == 8,
{
    seq![
        (d[0] * 8 + d[1] / 4) as u8,
        ((d[1] % 4) * 64 + d[2] * 2 + d[3] / 16) as u8,
        ((d[3] % 16) * 16 + d[4] / 2) as u8,
        ((d[4] % 2) * 128 + d[5] * 4 + d[6] / 8) as u8,
        ((d[6] % 8) * 32 + d[7]) as u8,
    ]
}

/// Decodes 52 base32 characters back into the 32 bytes they carry: six full
/// groups of eight characters, then two bytes from the last four.
pub open spec fn b32_decode52(chars: Seq<char>) -> Seq<u8>
    recommends
        chars.len() == 52,
{
    let d = chars.map_values(|c: char| b32_digit_of_char(c));
    b32_group_decode(d.subrange(0, 8)) + b32_group_decode(d.subrange(8, 16)) + b32_group_decode(
        d.subrange(16, 24),
    ) + b32_group_decode(d.subrange(24, 32)) + b32_group_decode(d.subrange(32, 40))
        + b32_group_decode(d.subrange(40, 48)) + seq![
        (d[48] * 8 + d[49] / 4) as u8,
        ((d[49] % 4) * 64 + d[50] * 2 + d[51] / 16) as u8,
    ]
}

/// Every base32 digit of an encoding is below 32.
proof fn lemma_digit_bound(bytes: Seq<u8>, i: int)
    requires
        bytes.len() == 35,
        0 <= i < 56,
    ensures
        b32_digit(bytes, i) < 32,
{
}

/// Decoding the eight digits of group `g` yields that group's five bytes.
proof fn lemma_group_round_trip(bytes: Seq<u8>, g: int)
    requires
        bytes.len() == 35,
        0 <= g < 7,
    ensures
        b32_group_decode(Seq::new(8, |k: int| b32_digit(bytes, 8 * g + k))) == bytes.subrange(
            5 * g,
            5 * g + 5,
        ),
{
    lemma_digit_index(g, 0);
    lemma_digit_index(g, 1);
    lemma_digit_index(g, 2);
    lemma_digit_index(g, 3);
    lemma_digit_index(g, 4);
    lemma_digit_index(g, 5);
    lemma_digit_index(g, 6);
    lemma_digit_index(g, 7);
    let b0 = bytes[g * 5] as int;
    let b1 = bytes[g * 5 + 1] as int;
    let b2 = bytes[g * 5 + 2] as int;
    let b3 = bytes[g * 5 + 3] as int;
    let b4 = bytes[g * 5 + 4] as int;
    let d = Seq::new(8, |k: int| b32_digit(bytes, 8 * g + k));
    vstd::arithmetic::div_mod::lemma_fundamental_div_mod_converse(
        (b0 % 8) * 4 + b1 / 64,
        4,
        b0 % 8,
        b1 / 64,
    );
    vstd::arithmetic::div_mod::lemma_fundamental_div_mod_converse(
        (b1 % 2) * 16 + b2 / 16,
        16,
        b1 % 2,
        b2 / 16,
    );
    vstd::arithmetic::div_mod::lemma_fundamental_div_mod_converse(
        (b2 % 16) * 2 + b3 / 128,
        2,
        b2 % 16,
        b3 / 128,
    );
    vstd::arithmetic::div_mod::lemma_fundamental_div_mod_converse(
        (b3 % 4) * 8 + b4 / 32,
        8,
        b3 % 4,
        b4 / 32,
    );
    assert(d[0] * 8 + d[1] / 4 == b0);
    assert((d[1] % 4) * 64 + d[2] * 2 + d[3] / 16 == b1);
    assert((d[3] % 16) * 16 + d[4] / 2 == b2);
    assert((d[4] % 2) * 128 + d[5] * 4 + d[6] / 8 == b3);
    assert((d[6] % 8) * 32 + d[7] == b4);
    assert(b32_group_decode(d) =~= bytes.subrange(5 * g, 5 * g + 5));
}

/// Law: for every 32-byte Ed25519 key, the onion-v3 text has 56 characters,
/// all from the lowercase base32 alphabet, and its first 52 characters
/// base32-decode to the key bytes.
#[verifier::rlimit(100)]
#[verifier::spinoff_prover]
pub proof fn lemma_onion_consistency(key: Seq<u8>)
    requires
        key.len() == 32,
    ensures
        onion_of(key).len() == 56,
        forall|i: int| 0 <= i < 56 ==> is_b32_char(#[trigger] onion_of(key)[i]),
        b32_decode52(onion_of(key).take(52)) == key,
{
    let addr = onion_address_bytes(key);
    assert(addr.len() == 35);
    let chars = onion_of(key);
    assert forall|i: int| 0 <= i < 56 implies is_b32_char(#[trigger] chars[i]) by {
        lemma_digit_bound(addr, i);
    }
    let taken = chars.take(52);
    let d = taken.map_values(|c: char| b32_digit_of_char(c));
    assert forall|i: int| 0 <= i < 52 implies d[i] == b32_digit(addr, i) by {
        lemma_digit_bound(addr, i);
        assert(taken[i] == (b32_ascii_of_digit(b32_digit(addr, i))) as char);
    }
    assert(d.subrange(0, 8) =~= Seq::new(8, |k: int| b32_digit(addr, 8 * 0 + k)));
    lemma_group_round_trip(addr, 0);
    assert(d.subrange(8, 16) =~= Seq::new(8, |k: int| b32_digit(addr, 8 * 1 + k)));
    lemma_group_round_trip(addr, 1);
    assert(d.subrange(16, 24) =~= Seq::new(8, |k: int| b32_digit(addr, 8 * 2 + k)));
    lemma_group_round_trip(addr, 2);
    assert(d.subrange(24, 32) =~= Seq::new(8, |k: int| b32_digit(addr, 8 * 3 + k)));
    lemma_group_round_trip(addr, 3);
    assert(d.subrange(32, 40) =~= Seq::new(8, |k: int| b32_digit(addr, 8 * 4 + k)));
    lemma_group_round_trip(addr, 4);
    assert(d.subrange(40, 48) =~= Seq::new(8, |k: int| b32_digit(addr, 8 * 5 + k)));
    lemma_group_round_trip(addr, 5);
    lemma_digit_index(6, 0);
    lemma_digit_index(6, 1);
    lemma_digit_index(6, 2);
    lemma_digit_index(6, 3);
    let b30 = addr[30] as int;
    let b31 = addr[31] as int;
    let b32v = addr[32] as int;
    vstd::arithmetic::div_mod::lemma_fundamental_div_mod_converse(
        (b30 % 8) * 4 + b31 / 64,
        4,
        b30 % 8,
        b31 / 64,
    );
    vstd::arithmetic::div_mod::lemma_fundamental_div_mod_converse(
        (b31 % 2) * 16 + b32v / 16,
        16,
        b31 % 2,
        b32v / 16,
    );
    assert(d[48] * 8 + d[49] / 4 == b30);
    assert((d[49] % 4) * 64 + d[50] * 2 + d[51] / 16 == b31);
    let g0 = addr.subrange(0, 5);
    let g1 = addr.subrange(5, 10);
    let g2 = addr.subrange(10, 15);
    let g3 = addr.subrange(15, 20);
    let g4 = addr.subrange(20, 25);
    let g5 = addr.subrange(25, 30);
    let tail_pair = seq![addr[30], addr[31]];
    assert(b32_decode52(taken) == g0 + g1 + g2 + g3 + g4 + g5 + tail_pair);
    assert(g0 + g1 =~= addr.subrange(0, 10));
    assert(addr.subrange(0, 10) + g2 =~= addr.subrange(0, 15));
    assert(addr.subrange(0, 15) + g3 =~= addr.subrange(0, 20));
    assert(addr.subrange(0, 20) + g4 =~= addr.subrange(0, 25));
    assert(addr.subrange(0, 25) + g5 =~= addr.subrange(0, 30));
    assert(addr.subrange(0, 30) + tail_pair =~= key);
    assert(g0 + g1 + g2 + g3 + g4 + g5 + tail_pair == ((((((g0 + g1) + g2) + g3) + g4) + g5)
        + tail_pair));
}

} // verus!
