//! The request/response engine, driven through whole exchanges.

use mwc_libp2p::peer_id::PeerId;
use mwc_libp2p::request_response::{
    InboundFailure, RequestResponse, RequestResponseEvent, RequestResponseMessage,
};

#[test]
fn is_response_outbound() {
    let ping = "ping".to_string().into_bytes();
    let offline_peer = PeerId::random();

    let mut swarm1 = RequestResponse::new();
    let request_id1 = swarm1.send_request(&offline_peer, ping.clone());

    match swarm1.take_dial_failure(&offline_peer) {
        Some(RequestResponseEvent::OutboundFailure { peer, request_id: req_id, error: _error }) => {
            assert_eq!(&offline_peer, &peer);
            assert_eq!(req_id, request_id1);
        }
        e => panic!("Peer: Unexpected event: {:?}", e),
    }

    let request_id2 = swarm1.send_request(&offline_peer, ping.clone());

    assert!(!swarm1.is_pending_outbound(&offline_peer, request_id1));
    assert!(swarm1.is_pending_outbound(&offline_peer, request_id2));
}

#[test]
fn ping_protocol() {
    let ping = "ping".to_string().into_bytes();
    let pong = "pong".to_string().into_bytes();

    let peer1_id = PeerId::random();
    let peer2_id = PeerId::random();

    let mut swarm1 = RequestResponse::new();
    let mut swarm2 = RequestResponse::new();

    swarm1.on_connection_established(&peer2_id);
    swarm2.on_connection_established(&peer1_id);

    let num_pings: u8 = rand::Rng::gen_range(&mut rand::thread_rng(), 1..100);

    let mut count = 0;
    loop {
        let req_id = swarm2.send_request(&peer1_id, ping.clone());
        assert!(swarm2.is_pending_outbound(&peer1_id, req_id));

        // The wire carries the request to peer 1.
        let channel = match swarm1.on_request_received(&peer2_id, ping.clone()) {
            RequestResponseEvent::Message {
                peer,
                message: RequestResponseMessage::Request { request, channel, .. },
            } => {
                assert_eq!(&request, &ping);
                assert_eq!(&peer, &peer2_id);
                channel
            }
            e => panic!("Peer1: Unexpected event: {:?}", e),
        };
        match swarm1.send_response(channel, pong.clone()) {
            Ok(RequestResponseEvent::ResponseSent { peer, .. }) => {
                assert_eq!(&peer, &peer2_id);
            }
            e => panic!("Peer1: Unexpected event: {:?}", e),
        }

        // The wire carries the response back to peer 2.
        match swarm2.on_response_received(&peer1_id, req_id, pong.clone()) {
            Some(RequestResponseEvent::Message {
                peer,
                message: RequestResponseMessage::Response { request_id, response },
            }) => {
                count += 1;
                assert_eq!(&response, &pong);
                assert_eq!(&peer, &peer1_id);
                assert_eq!(req_id, request_id);
                assert!(!swarm2.is_pending_outbound(&peer1_id, req_id));
                if count >= num_pings {
                    return;
                }
            }
            e => panic!("Peer2: Unexpected event: {:?}", e),
        }
    }
}

#[test]
fn emits_inbound_connection_closed_failure() {
    let ping = "ping".to_string().into_bytes();

    let peer1_id = PeerId::random();
    let peer2_id = PeerId::random();

    let mut swarm1 = RequestResponse::new();
    swarm1.on_connection_established(&peer2_id);

    // Peer 1 receives the request but answers nothing yet.
    match swarm1.on_request_received(&peer2_id, ping.clone()) {
        RequestResponseEvent::Message {
            peer,
            message: RequestResponseMessage::Request { request, .. },
        } => {
            assert_eq!(&request, &ping);
            assert_eq!(&peer, &peer2_id);
        }
        e => panic!("Peer1: Unexpected event: {:?}", e),
    }

    // Peer 2 drops the connection before any response is sent.
    match swarm1.take_closed_inbound(&peer2_id) {
        Some(RequestResponseEvent::InboundFailure {
            error: InboundFailure::ConnectionClosed,
            ..
        }) => {}
        e => panic!("Peer1: Unexpected event: {:?}", e),
    }
    swarm1.on_disconnect(&peer2_id);
    assert!(swarm1.take_closed_inbound(&peer2_id).is_none());
}

#[test]
fn response_after_terminal_event_is_dropped() {
    let peer = PeerId::random();
    let mut swarm = RequestResponse::new();
    swarm.on_connection_established(&peer);
    let id = swarm.send_request(&peer, b"ask".to_vec());
    assert!(swarm.on_response_received(&peer, id, b"reply".to_vec()).is_some());
    // A second terminal event for the same id reports nothing.
    assert!(swarm.on_response_received(&peer, id, b"reply".to_vec()).is_none());
    assert!(swarm.on_outbound_failure(
        &peer,
        id,
        mwc_libp2p::request_response::OutboundFailure::Timeout,
    ).is_none());
}

#[test]
fn dispatch_after_connection_established() {
    let peer = PeerId::random();
    let mut swarm = RequestResponse::new();
    let id = swarm.send_request(&peer, b"hello".to_vec());
    // Not connected yet: the request waits for the dial.
    assert!(swarm.is_pending_outbound(&peer, id));
    swarm.on_connection_established(&peer);
    let (dispatched_id, request) = swarm.next_to_dispatch(&peer).unwrap();
    assert_eq!(dispatched_id, id);
    assert_eq!(request, b"hello".to_vec());
    assert!(swarm.next_to_dispatch(&peer).is_none());
    // Still pending until the response arrives.
    assert!(swarm.is_pending_outbound(&peer, id));
}
