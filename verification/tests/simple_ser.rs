//! The length-prefixed serializer, pushed and popped back.

use mwc_libp2p::simple_ser::{SimplePopSerializer, SimplePushSerializer};

#[test]
fn version_tag_round_trip() {
    let ser = SimplePushSerializer::new(3);
    let bytes = ser.to_vec();
    assert_eq!(bytes, vec![0, 3]);
    let pop = SimplePopSerializer::new(&bytes);
    assert_eq!(pop.version, 3);
}

#[test]
fn push_pop_values_and_vectors() {
    let mut ser = SimplePushSerializer::new(1);
    ser.push_u16(0xABCD);
    ser.push_vec(&[10, 20, 30]);
    assert_eq!(ser.data_len(), 2 + 2 + 2 + 3);
    let bytes = ser.to_vec();
    let mut pop = SimplePopSerializer::new(&bytes);
    assert_eq!(pop.version, 1);
    assert_eq!(pop.pop_u16(), 0xABCD);
    assert_eq!(pop.pop_vec(), vec![10, 20, 30]);
}

#[test]
fn truncated_reads_yield_zero_and_empty() {
    let bytes = vec![0u8, 2, 0xFF];
    let mut pop = SimplePopSerializer::new(&bytes);
    assert_eq!(pop.version, 2);
    // Only one byte left: no full u16 to read.
    assert_eq!(pop.pop_u16(), 0);
    assert_eq!(pop.pop_vec(), Vec::<u8>::new());
}

#[test]
fn pop_vec_with_truncated_payload_is_empty() {
    let mut ser = SimplePushSerializer::new(0);
    ser.push_u16(5);
    // Length prefix says 5 but only two bytes follow.
    let mut bytes = ser.to_vec();
    bytes.push(1);
    bytes.push(2);
    let mut pop = SimplePopSerializer::new(&bytes);
    assert_eq!(pop.pop_vec(), Vec::<u8>::new());
}

#[test]
fn skip_vec_steps_over_payload() {
    let mut ser = SimplePushSerializer::new(7);
    ser.push_vec(&[1, 2, 3, 4]);
    ser.push_u16(0x0102);
    let bytes = ser.to_vec();
    let mut pop = SimplePopSerializer::new(&bytes);
    pop.skip_vec();
    assert_eq!(pop.pop_u16(), 0x0102);
}
