[package]
name = "mwc_libp2p"
version = "0.1.0"
edition = "2021"
publish = false

[dependencies]
multihash = "=0.14.0"
bs58 = "=0.5.1"
sha3 = "=0.12.0"
data-encoding = "=2.11.1"
ed25519-dalek = "=1.0.1"
rand = "=0.8.8"
dns-parser = "=0.8.0"
futures = "=0.3.34"
async-io = "=2.6.0"
if-watch = { version = "=3.2.2", features = ["smol"] }
socket2 = "=0.6.5"
log = "=0.4.34"
