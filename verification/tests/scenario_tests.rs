//! End-to-end walk of the stack for two peers, frames shuttled by hand:
//! listen, resolve, dial, negotiate, subscribe, publish, deliver.

use peerswarm::addr::{parse, render};
use peerswarm::floodsub::{FloodSub, Frame};
use peerswarm::negotiate::{NegState, Negotiator, Role};
use peerswarm::swarm::Swarm;
use peerswarm::transport::Carrier;

const FLOODSUB_PROTO: u64 = 1;

#[test]
fn two_peers_negotiate_and_exchange_one_message() {
    // Peer A listens on the wildcard address; the carrier reports the
    // concrete port it bound, and the resolved address carries it.
    let mut swarm_a = Swarm::new(vec![Carrier::Tcp]);
    let listen = parse(b"/ip4/0.0.0.0/tcp/0").expect("well-formed");
    let resolved = swarm_a.listen_on(&listen, 54321).expect("tcp is registered");
    assert_eq!(render(&resolved), b"/ip4/0.0.0.0/tcp/54321".to_vec());

    // Peer B dials the advertised address; the dial resolves and both
    // sides now hold a connection record.
    let mut swarm_b = Swarm::new(vec![Carrier::Tcp]);
    let target = parse(b"/ip4/127.0.0.1/tcp/54321").expect("well-formed");
    let dial_id = swarm_b.dial(&target).expect("tcp is registered");
    let conn_b = swarm_b.on_dial_connected(dial_id, target);
    let remote_of_a = parse(b"/ip4/127.0.0.1/tcp/49152").expect("well-formed");
    let conn_a = swarm_a.on_incoming(remote_of_a);

    // Both ends negotiate; each consumes the other's list and they agree.
    let mut neg_a = Negotiator::new(Role::Listener, vec![FLOODSUB_PROTO]);
    let mut neg_b = Negotiator::new(Role::Dialer, vec![FLOODSUB_PROTO]);
    let offer_a = neg_a.begin();
    let offer_b = neg_b.begin();
    let picked_a = neg_a.on_remote_list(&offer_b).expect("overlap");
    let picked_b = neg_b.on_remote_list(&offer_a).expect("overlap");
    assert_eq!(picked_a, picked_b);
    assert_eq!(neg_a.state, NegState::Selected(FLOODSUB_PROTO));
    swarm_a.on_negotiated(conn_a, picked_a);
    swarm_b.on_negotiated(conn_b, picked_b);
    assert_eq!(swarm_a.conns[0].proto, Some(FLOODSUB_PROTO));

    // The negotiated connection joins both overlays.
    let mut overlay_a = FloodSub::new(10, 64);
    let mut overlay_b = FloodSub::new(20, 64);
    overlay_a.add_peer(20);
    overlay_b.add_peer(10);

    // B subscribes to "room"; its control frame reaches A.
    let room = b"room".to_vec();
    let targets = overlay_b.subscribe(&room);
    assert_eq!(targets, vec![10]);
    overlay_a.on_frame(20, &Frame::Subscribe(room.clone())).expect("B is connected");

    // A publishes ("room", "hi"); B's application layer receives the
    // payload exactly once.
    let (msg, recipients) = overlay_a.publish(vec![room], b"hi".to_vec());
    assert_eq!(recipients, vec![20]);
    let delivery = overlay_b.on_frame(10, &Frame::Publish(msg.clone())).expect("A is connected");
    assert!(delivery.deliver);
    assert_eq!(msg.payload, b"hi".to_vec());
    let echo = overlay_b.on_frame(10, &Frame::Publish(msg)).expect("A is connected");
    assert!(!echo.deliver, "the same message is never delivered twice");
}
