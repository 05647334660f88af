//! The credit-based throttling wrapper.

use mwc_libp2p::peer_id::PeerId;
use mwc_libp2p::request_response::{RequestResponseEvent, RequestResponseMessage};
use mwc_libp2p::throttled::{Throttled, ThrottledEvent};

#[test]
fn ping_protocol_throttled() {
    let ping = "ping".to_string().into_bytes();
    let pong = "pong".to_string().into_bytes();

    let peer1_id = PeerId::random();
    let peer2_id = PeerId::random();

    let mut swarm1 = Throttled::new();
    let mut swarm2 = Throttled::new();

    let limit1: u16 = rand::Rng::gen_range(&mut rand::thread_rng(), 1..10);
    let limit2: u16 = rand::Rng::gen_range(&mut rand::thread_rng(), 1..10);
    swarm1.set_receive_limit(limit1);
    swarm2.set_receive_limit(limit2);

    // Each side learns the other's grant.
    swarm1.override_receive_limit(&peer2_id, limit1);
    swarm2.on_credit_received(&peer1_id, limit1);

    let num_pings: u16 = rand::Rng::gen_range(&mut rand::thread_rng(), 100..1000);

    let mut count: u16 = 0;
    let mut in_flight: Vec<u64> = Vec::new();
    loop {
        // Send until the budget is used up.
        while let Some(id) = swarm2.send_request(&peer1_id, ping.clone()) {
            in_flight.push(id);
        }
        assert!(!in_flight.is_empty());
        assert!(in_flight.len() <= limit1 as usize);

        // Peer 1 receives each request and answers it; peer 2 sees the
        // responses come back.
        for id in in_flight.drain(..) {
            let channel = match swarm1.on_request_received(&peer2_id, ping.clone()) {
                ThrottledEvent::Event(RequestResponseEvent::Message {
                    peer,
                    message: RequestResponseMessage::Request { request, channel, .. },
                }) => {
                    assert_eq!(&request, &ping);
                    assert_eq!(&peer, &peer2_id);
                    channel
                }
                e => panic!("Peer1: Unexpected event: {:?}", e),
            };
            match swarm1.send_response(channel, pong.clone()) {
                Ok(ThrottledEvent::Event(RequestResponseEvent::ResponseSent { peer, .. })) => {
                    assert_eq!(&peer, &peer2_id);
                }
                e => panic!("Peer1: Unexpected event: {:?}", e),
            }
            match swarm2.on_response_received(&peer1_id, id, pong.clone()) {
                Some(RequestResponseEvent::Message {
                    peer,
                    message: RequestResponseMessage::Response { request_id, response },
                }) => {
                    count += 1;
                    assert_eq!(&response, &pong);
                    assert_eq!(&peer, &peer1_id);
                    assert_eq!(request_id, id);
                }
                e => panic!("Peer2: Unexpected event: {:?}", e),
            }
        }

        if count >= num_pings {
            break;
        }

        // Peer 1 regrants its budget; blocked sending resumes.
        match swarm2.on_credit_received(&peer1_id, limit1) {
            Some(ThrottledEvent::ResumeSending(peer)) => assert_eq!(peer, peer1_id),
            e => panic!("Peer2: Unexpected event: {:?}", e),
        }
    }
}

#[test]
fn send_request_refuses_without_budget() {
    let peer = PeerId::random();
    let mut swarm = Throttled::new();
    // One request may go out before the first grant.
    assert!(swarm.send_request(&peer, b"one".to_vec()).is_some());
    assert!(swarm.send_request(&peer, b"two".to_vec()).is_none());
    // Fresh credit resumes sending.
    match swarm.on_credit_received(&peer, 2) {
        Some(ThrottledEvent::ResumeSending(p)) => assert_eq!(p, peer),
        e => panic!("Unexpected event: {:?}", e),
    }
    assert!(swarm.send_request(&peer, b"three".to_vec()).is_some());
    assert!(swarm.send_request(&peer, b"four".to_vec()).is_some());
    assert!(swarm.send_request(&peer, b"five".to_vec()).is_none());
}

#[test]
fn inbound_over_budget_is_reported() {
    let peer = PeerId::random();
    let mut swarm = Throttled::new();
    swarm.set_receive_limit(1);
    swarm.override_receive_limit(&peer, 1);
    match swarm.on_request_received(&peer, b"a".to_vec()) {
        ThrottledEvent::Event(RequestResponseEvent::Message { .. }) => {}
        e => panic!("Unexpected event: {:?}", e),
    }
    match swarm.on_request_received(&peer, b"b".to_vec()) {
        ThrottledEvent::TooManyInboundRequests(p) => assert_eq!(p, peer),
        e => panic!("Unexpected event: {:?}", e),
    }
}

#[test]
fn responses_regrant_credit_up_to_the_limit() {
    let peer = PeerId::random();
    let mut swarm = Throttled::new();
    swarm.set_receive_limit(2);
    swarm.override_receive_limit(&peer, 2);
    // Two inbound requests use the grant up.
    let mut channels = Vec::new();
    for _ in 0..2 {
        match swarm.on_request_received(&peer, b"ask".to_vec()) {
            ThrottledEvent::Event(RequestResponseEvent::Message {
                message: RequestResponseMessage::Request { channel, .. },
                ..
            }) => channels.push(channel),
            e => panic!("Unexpected event: {:?}", e),
        }
    }
    match swarm.on_request_received(&peer, b"ask".to_vec()) {
        ThrottledEvent::TooManyInboundRequests(_) => {}
        e => panic!("Unexpected event: {:?}", e),
    }
    // Answering regrants one unit each time, so one more request fits.
    assert!(swarm.send_response(channels.remove(0), b"reply".to_vec()).is_ok());
    match swarm.on_request_received(&peer, b"ask".to_vec()) {
        ThrottledEvent::Event(_) => {}
        e => panic!("Unexpected event: {:?}", e),
    }
}
