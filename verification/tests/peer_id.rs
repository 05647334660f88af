//! Peer-id round trips and key checks.

use mwc_libp2p::identity::IdentityKey;
use mwc_libp2p::peer_id::{ParseError, PeerId};

/// A fresh Ed25519 public key, as the identity type of this crate.
fn generate_ed25519() -> IdentityKey {
    let bytes: [u8; 32] = rand::Rng::gen(&mut rand::thread_rng());
    let secret = ed25519_dalek::SecretKey::from_bytes(&bytes).unwrap();
    let public = ed25519_dalek::PublicKey::from(&secret);
    IdentityKey::Ed25519(public.as_bytes().to_vec())
}

#[test]
fn peer_id_is_public_key() {
    let key = generate_ed25519();
    let peer_id = PeerId::from_public_key(key.clone());
    assert_eq!(peer_id.is_public_key(&key), Some(true));
}

#[test]
fn peer_id_into_bytes_then_from_bytes() {
    let peer_id = PeerId::from_public_key(generate_ed25519());
    let second = PeerId::from_bytes(&peer_id.to_bytes()).unwrap();
    assert_eq!(peer_id, second);
}

#[test]
fn peer_id_to_base58_then_back() {
    let peer_id = PeerId::from_public_key(generate_ed25519());
    let second: PeerId = peer_id.to_base58().parse().unwrap();
    assert_eq!(peer_id, second);
}

#[test]
fn random_peer_id_is_valid() {
    for _ in 0..5000 {
        let peer_id = PeerId::random();
        assert_eq!(peer_id, PeerId::from_bytes(&peer_id.to_bytes()).unwrap());
    }
}

#[test]
fn inlined_identity_uses_identity_code() {
    let key = generate_ed25519();
    let enc = key.clone().into_protobuf_encoding();
    assert_eq!(enc.len(), 36);
    let peer_id = PeerId::from_public_key(key.clone());
    let bytes = peer_id.to_bytes();
    assert_eq!(bytes[0], 0x00);
    assert_eq!(bytes[1], 36);
    assert_eq!(&bytes[2..], &enc[..]);
    let dalek = peer_id.as_dalek_pubkey().unwrap();
    if let IdentityKey::Ed25519(kb) = key {
        assert_eq!(dalek.as_bytes().to_vec(), kb);
    } else {
        panic!("expected an Ed25519 key");
    }
}

#[test]
fn hashed_identity_uses_sha256() {
    let key = IdentityKey::Rsa(vec![7u8; 60]);
    let enc = key.clone().into_protobuf_encoding();
    assert_eq!(enc.len(), 64);
    let peer_id = PeerId::from_public_key(key.clone());
    let bytes = peer_id.to_bytes();
    assert_eq!(bytes[0], 0x12);
    assert_eq!(bytes[1], 32);
    assert_eq!(peer_id.is_public_key(&key), Some(true));
    match peer_id.as_dalek_pubkey() {
        Err(ParseError::NotFoundDalekPK) => {}
        other => panic!("expected NotFoundDalekPK, got {:?}", other),
    }
}

#[test]
fn from_bytes_rejects_long_identity_digest() {
    // Identity multihash with a 43-byte digest: one over the inline bound.
    let mut bytes = vec![0x00u8, 43u8];
    bytes.extend_from_slice(&[1u8; 43]);
    assert!(PeerId::from_bytes(&bytes).is_err());
    // At the bound it still inlines.
    let mut ok_bytes = vec![0x00u8, 42u8];
    ok_bytes.extend_from_slice(&[1u8; 42]);
    assert!(PeerId::from_bytes(&ok_bytes).is_ok());
}

#[test]
fn from_bytes_rejects_malformed_envelopes() {
    match PeerId::from_bytes(&[]) {
        Err(ParseError::MultiHash) => {}
        other => panic!("expected MultiHash, got {:?}", other),
    }
    // Truncated digest.
    assert!(PeerId::from_bytes(&[0x00, 5, 1, 2]).is_err());
    // Trailing bytes after the digest.
    assert!(PeerId::from_bytes(&[0x00, 1, 9, 9]).is_err());
    // Unsupported code.
    assert!(PeerId::from_bytes(&[0x13, 1, 9]).is_err());
}

#[test]
fn base58_decode_error_is_reported() {
    match PeerId::from_base58("0OIl") {
        Err(ParseError::B58(_)) => {}
        other => panic!("expected a base-58 error, got {:?}", other),
    }
}

#[test]
fn from_bytes_insists_on_canonical_varints() {
    // A canonical identity envelope parses.
    let peer = PeerId::from_bytes(&[0x00, 1, 0xAA]).unwrap();
    assert_eq!(peer.to_bytes(), vec![0x00, 1, 0xAA]);
    // The same code written as a padded two-byte varint does not.
    assert!(PeerId::from_bytes(&[0x80, 0x00, 1, 0xAA]).is_err());
}
