//! mDNS packet classification, from raw datagrams up to discovered peers.

use mwc_libp2p::mdns::{
    decode_character_string, multicast_membership_action, IpAddress, MdnsPacket, MdnsService,
    MulticastAction, SocketAddress,
};
use mwc_libp2p::multiaddr::Multiaddr;
use mwc_libp2p::peer_id::PeerId;

fn local_addr() -> SocketAddress {
    SocketAddress { ip: IpAddress::V4([192, 0, 2, 7]), port: 5353 }
}

/// Appends a DNS name in label form: `_p2p._udp.local` becomes
/// `4_p2p4_udp5local0`.
fn append_name(out: &mut Vec<u8>, name: &str) {
    for label in name.split('.') {
        out.push(label.len() as u8);
        out.extend_from_slice(label.as_bytes());
    }
    out.push(0);
}

/// A DNS header: id, flags, and the four section counts.
fn header(id: u16, query: bool, qd: u16, an: u16, ar: u16) -> Vec<u8> {
    let flags: u16 = if query { 0x0000 } else { 0x8400 };
    let mut out = Vec::new();
    out.extend_from_slice(&id.to_be_bytes());
    out.extend_from_slice(&flags.to_be_bytes());
    out.extend_from_slice(&qd.to_be_bytes());
    out.extend_from_slice(&an.to_be_bytes());
    out.extend_from_slice(&0u16.to_be_bytes());
    out.extend_from_slice(&ar.to_be_bytes());
    out
}

fn query_packet(id: u16, qname: &str) -> Vec<u8> {
    let mut out = header(id, true, 1, 0, 0);
    append_name(&mut out, qname);
    out.extend_from_slice(&12u16.to_be_bytes()); // PTR
    out.extend_from_slice(&1u16.to_be_bytes()); // IN
    out
}

#[test]
fn classifies_service_query() {
    let packet = query_packet(0xABCD, "_p2p._udp.local");
    match MdnsPacket::new_from_bytes(&packet, local_addr()) {
        Some(MdnsPacket::Query(q)) => assert_eq!(q.query_id(), 0xABCD),
        other => panic!("expected a query, got {:?}", other),
    }
}

#[test]
fn classifies_service_discovery() {
    let packet = query_packet(7, "_services._dns-sd._udp.local");
    match MdnsPacket::new_from_bytes(&packet, local_addr()) {
        Some(MdnsPacket::ServiceDiscovery(d)) => assert_eq!(d.query_id(), 7),
        other => panic!("expected service discovery, got {:?}", other),
    }
}

#[test]
fn drops_unrelated_queries_and_garbage() {
    let packet = query_packet(9, "example.local");
    assert!(MdnsPacket::new_from_bytes(&packet, local_addr()).is_none());
    assert!(MdnsPacket::new_from_bytes(&[1, 2, 3], local_addr()).is_none());
}

#[test]
fn response_yields_discovered_peer_with_matching_address() {
    let peer = PeerId::random();
    let peer_name = data_encoding::BASE32_DNSCURVE.encode(&peer.to_bytes());
    let ptr_target = format!("{}._p2p._udp.local", peer_name);
    let addr_text = format!(
        "/ip4/127.0.0.1/tcp/4001/p2p/{}",
        peer.to_base58()
    );
    let txt_entry = format!("dnsaddr={}", addr_text);

    let mut packet = header(0, false, 0, 1, 1);
    // Answer: service name, PTR to the peer-bearing name.
    append_name(&mut packet, "_p2p._udp.local");
    packet.extend_from_slice(&12u16.to_be_bytes()); // PTR
    packet.extend_from_slice(&1u16.to_be_bytes()); // IN
    packet.extend_from_slice(&120u32.to_be_bytes()); // TTL
    let mut ptr_rdata = Vec::new();
    append_name(&mut ptr_rdata, &ptr_target);
    packet.extend_from_slice(&(ptr_rdata.len() as u16).to_be_bytes());
    packet.extend_from_slice(&ptr_rdata);
    // Additional: TXT under the peer-bearing name with a doubly
    // length-prefixed character string.
    append_name(&mut packet, &ptr_target);
    packet.extend_from_slice(&16u16.to_be_bytes()); // TXT
    packet.extend_from_slice(&1u16.to_be_bytes()); // IN
    packet.extend_from_slice(&120u32.to_be_bytes()); // TTL
    let mut inner = vec![txt_entry.len() as u8];
    inner.extend_from_slice(txt_entry.as_bytes());
    let mut txt_rdata = vec![inner.len() as u8];
    txt_rdata.extend_from_slice(&inner);
    packet.extend_from_slice(&(txt_rdata.len() as u16).to_be_bytes());
    packet.extend_from_slice(&txt_rdata);

    match MdnsPacket::new_from_bytes(&packet, local_addr()) {
        Some(MdnsPacket::Response(resp)) => {
            let peers = resp.discovered_peers();
            assert_eq!(peers.len(), 1);
            assert_eq!(peers[0].id(), &peer);
            assert_eq!(peers[0].ttl(), 120);
            let addrs = peers[0].addresses();
            assert_eq!(addrs.len(), 1);
            assert_eq!(addrs[0].as_bytes(), b"/ip4/127.0.0.1/tcp/4001");
        }
        other => panic!("expected a response, got {:?}", other),
    }
}

#[test]
fn response_drops_addresses_of_other_peers() {
    let peer = PeerId::random();
    let stranger = PeerId::random();
    let peer_name = data_encoding::BASE32_DNSCURVE.encode(&peer.to_bytes());
    let ptr_target = format!("{}._p2p._udp.local", peer_name);
    // The advertised address carries the wrong peer id.
    let txt_entry = format!("dnsaddr=/ip4/10.0.0.1/tcp/1/p2p/{}", stranger.to_base58());

    let mut packet = header(0, false, 0, 1, 1);
    append_name(&mut packet, "_p2p._udp.local");
    packet.extend_from_slice(&12u16.to_be_bytes());
    packet.extend_from_slice(&1u16.to_be_bytes());
    packet.extend_from_slice(&60u32.to_be_bytes());
    let mut ptr_rdata = Vec::new();
    append_name(&mut ptr_rdata, &ptr_target);
    packet.extend_from_slice(&(ptr_rdata.len() as u16).to_be_bytes());
    packet.extend_from_slice(&ptr_rdata);
    append_name(&mut packet, &ptr_target);
    packet.extend_from_slice(&16u16.to_be_bytes());
    packet.extend_from_slice(&1u16.to_be_bytes());
    packet.extend_from_slice(&60u32.to_be_bytes());
    let mut inner = vec![txt_entry.len() as u8];
    inner.extend_from_slice(txt_entry.as_bytes());
    let mut txt_rdata = vec![inner.len() as u8];
    txt_rdata.extend_from_slice(&inner);
    packet.extend_from_slice(&(txt_rdata.len() as u16).to_be_bytes());
    packet.extend_from_slice(&txt_rdata);

    match MdnsPacket::new_from_bytes(&packet, local_addr()) {
        Some(MdnsPacket::Response(resp)) => {
            let peers = resp.discovered_peers();
            assert_eq!(peers.len(), 1);
            assert_eq!(peers[0].id(), &peer);
            assert!(peers[0].addresses().is_empty());
        }
        other => panic!("expected a response, got {:?}", other),
    }
}

#[test]
fn character_strings_decode_back() {
    assert_eq!(decode_character_string(&[]), Some(vec![]));
    assert_eq!(decode_character_string(&[3, 7, 8, 9]), Some(vec![7, 8, 9]));
    assert_eq!(decode_character_string(&[2, 7, 8, 9]), None);
}

#[test]
fn multiaddr_pops_trailing_p2p_component() {
    let peer = PeerId::random();
    let text = format!("/ip4/127.0.0.1/tcp/4001/p2p/{}", peer.to_base58());
    let addr = Multiaddr::parse(text.into_bytes()).unwrap();
    let (base, token) = addr.pop_p2p().unwrap();
    assert_eq!(base.as_bytes(), b"/ip4/127.0.0.1/tcp/4001");
    assert_eq!(token, peer.to_base58().into_bytes());

    let plain = Multiaddr::parse(b"/ip4/127.0.0.1/tcp/4001".to_vec()).unwrap();
    assert!(plain.pop_p2p().is_none());
}

#[test]
fn service_queues_drain_front_first() {
    let mut service = MdnsService::new();
    service.enqueue_response(vec![1]);
    service.enqueue_response(vec![2]);
    assert_eq!(service.next_response_to_send(), Some(vec![1]));
    assert_eq!(service.next_response_to_send(), Some(vec![2]));
    assert_eq!(service.next_response_to_send(), None);

    service.on_query_interval(vec![9]);
    assert_eq!(service.next_query_to_send(), Some(vec![9]));
    assert_eq!(service.next_query_to_send(), None);

    let mut quiet = MdnsService::silent();
    quiet.on_query_interval(vec![9]);
    assert_eq!(quiet.next_query_to_send(), None);
}

#[test]
fn send_errors_clear_the_queue() {
    let mut service = MdnsService::new();
    service.enqueue_response(vec![1]);
    service.enqueue_response(vec![2]);
    service.on_send_error();
    assert_eq!(service.next_response_to_send(), None);
}

#[test]
fn multicast_follows_interface_events() {
    assert_eq!(multicast_membership_action(true, false, true), MulticastAction::Join);
    assert_eq!(multicast_membership_action(false, false, true), MulticastAction::Leave);
    assert_eq!(multicast_membership_action(true, true, true), MulticastAction::Ignore);
    assert_eq!(multicast_membership_action(true, false, false), MulticastAction::Ignore);
}

#[test]
fn response_accepts_case_variant_peer_tokens() {
    // The DNSCurve base32 decoder translates letter case, so an uppercase
    // PTR token still names the peer.
    let peer = PeerId::random();
    let peer_name = data_encoding::BASE32_DNSCURVE.encode(&peer.to_bytes()).to_uppercase();
    let ptr_target = format!("{}._p2p._udp.local", peer_name);

    let mut packet = header(0, false, 0, 1, 0);
    append_name(&mut packet, "_p2p._udp.local");
    packet.extend_from_slice(&12u16.to_be_bytes());
    packet.extend_from_slice(&1u16.to_be_bytes());
    packet.extend_from_slice(&90u32.to_be_bytes());
    let mut ptr_rdata = Vec::new();
    append_name(&mut ptr_rdata, &ptr_target);
    packet.extend_from_slice(&(ptr_rdata.len() as u16).to_be_bytes());
    packet.extend_from_slice(&ptr_rdata);

    match MdnsPacket::new_from_bytes(&packet, local_addr()) {
        Some(MdnsPacket::Response(resp)) => {
            let peers = resp.discovered_peers();
            assert_eq!(peers.len(), 1);
            assert_eq!(peers[0].id(), &peer);
        }
        other => panic!("expected a response, got {:?}", other),
    }
}
