//! Onion-v3 rendering checks against independent encodings.

use mwc_libp2p::identity::IdentityKey;
use mwc_libp2p::peer_id::PeerId;

/// A fresh Ed25519 public key and its raw bytes.
fn generate_key() -> (IdentityKey, Vec<u8>) {
    let bytes: [u8; 32] = rand::Rng::gen(&mut rand::thread_rng());
    let secret = ed25519_dalek::SecretKey::from_bytes(&bytes).unwrap();
    let public = ed25519_dalek::PublicKey::from(&secret);
    let raw = public.as_bytes().to_vec();
    (IdentityKey::Ed25519(raw.clone()), raw)
}

/// The reference onion-v3 form: checksum via sha3, base32 via data-encoding.
fn reference_onion(key: &[u8]) -> String {
    let mut hasher = <sha3::Sha3_256 as sha3::Digest>::new();
    sha3::Digest::update(&mut hasher, b".onion checksum");
    sha3::Digest::update(&mut hasher, key);
    sha3::Digest::update(&mut hasher, [0x03u8]);
    let checksum = sha3::Digest::finalize(hasher);
    let mut address = key.to_vec();
    address.push(checksum[0]);
    address.push(checksum[1]);
    address.push(0x03);
    data_encoding::BASE32.encode(&address).to_lowercase()
}

#[test]
fn onion_address_matches_reference_encoding() {
    for _ in 0..16 {
        let (key, raw) = generate_key();
        let peer_id = PeerId::from_public_key(key);
        let onion = peer_id.as_onion_address().unwrap();
        assert_eq!(onion, reference_onion(&raw));
    }
}

#[test]
fn onion_address_is_56_lowercase_base32_chars() {
    let (key, _) = generate_key();
    let peer_id = PeerId::from_public_key(key);
    let onion = peer_id.get_address().unwrap();
    assert_eq!(onion.len(), 56);
    assert!(onion.chars().all(|c| matches!(c, 'a'..='z' | '2'..='7')));
}

#[test]
fn onion_first_52_chars_decode_to_key() {
    let (key, raw) = generate_key();
    let peer_id = PeerId::from_public_key(key);
    let onion = peer_id.as_onion_address().unwrap();
    let upper = onion[..52].to_uppercase();
    let mut spec = data_encoding::Specification::new();
    spec.symbols.push_str("ABCDEFGHIJKLMNOPQRSTUVWXYZ234567");
    spec.check_trailing_bits = false;
    let lenient = spec.encoding().unwrap();
    let decoded = lenient.decode(upper.as_bytes()).unwrap();
    assert_eq!(&decoded[..32], &raw[..]);
}

#[test]
fn hashed_peer_id_has_no_onion_address() {
    let key = IdentityKey::Rsa(vec![1u8; 100]);
    let peer_id = PeerId::from_public_key(key);
    assert!(peer_id.as_onion_address().is_err());
}

#[test]
fn display_string_falls_back_to_base58() {
    let key = IdentityKey::Rsa(vec![1u8; 100]);
    let peer_id = PeerId::from_public_key(key);
    assert_eq!(peer_id.display_string(), peer_id.to_base58());
    let (ed_key, _) = generate_key();
    let ed_peer = PeerId::from_public_key(ed_key);
    assert_eq!(ed_peer.display_string(), ed_peer.as_onion_address().unwrap());
}
