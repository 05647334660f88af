//! Core pieces of a libp2p-style peer-to-peer networking library:
//! peer identities with multihash framing and onion-v3 rendering,
//! local-network peer discovery over multicast DNS, and a
//! request/response protocol engine with optional credit-based
//! throttling.

pub mod simple_ser;
pub mod throttled;
pub mod dalek;
pub mod identity;
pub mod mdns;
pub mod multiaddr;
pub mod multihash;
pub mod onion;
pub mod peer_id;
pub mod request_response;
pub mod util;
pub mod varint;
