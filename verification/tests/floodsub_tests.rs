use peerswarm::floodsub::{FloodSub, Frame, Message, SeenCache};
use peerswarm::Error;

fn topic(name: &str) -> Vec<u8> {
    name.as_bytes().to_vec()
}

#[test]
fn subscribe_is_idempotent() {
    let mut fs = FloodSub::new(1, 16);
    fs.add_peer(2);
    let _ = fs.subscribe(&topic("room"));
    let once = fs.subs.clone();
    let recipients = fs.subscribe(&topic("room"));
    assert_eq!(fs.subs, once);
    assert_eq!(recipients, vec![2], "the re-broadcast still goes out");
}

#[test]
fn unsubscribe_removes_only_that_topic() {
    let mut fs = FloodSub::new(1, 16);
    let _ = fs.subscribe(&topic("a"));
    let _ = fs.subscribe(&topic("b"));
    let _ = fs.unsubscribe(&topic("a"));
    assert_eq!(fs.subs, vec![topic("b")]);
    let _ = fs.unsubscribe(&topic("never-subscribed"));
    assert_eq!(fs.subs, vec![topic("b")]);
}

#[test]
fn publish_stamps_identity_and_floods_to_all_peers() {
    let mut fs = FloodSub::new(42, 16);
    fs.add_peer(2);
    fs.add_peer(3);
    let (msg, recipients) = fs.publish(vec![topic("room")], b"hi".to_vec());
    assert_eq!(msg.origin, 42);
    assert_eq!(msg.seqno, 0);
    assert_eq!(msg.payload, b"hi".to_vec());
    assert_eq!(recipients, vec![2, 3]);
    let (msg2, _) = fs.publish(vec![topic("room")], b"again".to_vec());
    assert_eq!(msg2.seqno, 1, "sequence numbers increase per origin");
}

#[test]
fn receive_delivers_when_subscribed_and_relays_to_others() {
    let mut fs = FloodSub::new(1, 16);
    fs.add_peer(2);
    fs.add_peer(3);
    let _ = fs.subscribe(&topic("room"));
    let msg = Message { origin: 9, seqno: 0, topics: vec![topic("room")], payload: b"hi".to_vec() };
    let d = fs.on_receive(2, &msg);
    assert!(d.deliver);
    assert_eq!(d.relay_to, vec![3], "the sender is not relayed back to");
}

#[test]
fn receive_without_matching_subscription_relays_but_does_not_deliver() {
    let mut fs = FloodSub::new(1, 16);
    fs.add_peer(2);
    fs.add_peer(3);
    let _ = fs.subscribe(&topic("other"));
    let msg = Message { origin: 9, seqno: 0, topics: vec![topic("room")], payload: vec![] };
    let d = fs.on_receive(2, &msg);
    assert!(!d.deliver);
    assert_eq!(d.relay_to, vec![3]);
}

#[test]
fn duplicate_receipt_is_silent() {
    let mut fs = FloodSub::new(1, 16);
    fs.add_peer(2);
    fs.add_peer(3);
    let _ = fs.subscribe(&topic("room"));
    let msg = Message { origin: 9, seqno: 5, topics: vec![topic("room")], payload: b"hi".to_vec() };
    let first = fs.on_receive(2, &msg);
    assert!(first.deliver);
    let again = fs.on_receive(3, &msg);
    assert!(!again.deliver, "a seen message is not delivered again");
    assert!(again.relay_to.is_empty(), "a seen message is not re-relayed");
}

#[test]
fn own_published_message_is_not_redelivered() {
    let mut fs = FloodSub::new(1, 16);
    fs.add_peer(2);
    let _ = fs.subscribe(&topic("room"));
    let (msg, _) = fs.publish(vec![topic("room")], b"hi".to_vec());
    let echoed = fs.on_receive(2, &msg);
    assert!(!echoed.deliver, "publishing already recorded the identity");
    assert!(echoed.relay_to.is_empty());
}

#[test]
fn control_frames_track_peer_interest() {
    let mut fs = FloodSub::new(1, 16);
    fs.add_peer(2);
    fs.on_control(2, true, &topic("room")).expect("peer is connected");
    assert_eq!(fs.peers[0].topics, vec![topic("room")]);
    fs.on_control(2, false, &topic("room")).expect("peer is connected");
    assert!(fs.peers[0].topics.is_empty());
}

#[test]
fn frames_from_unknown_peers_are_malformed_and_change_nothing() {
    let mut fs = FloodSub::new(1, 16);
    fs.add_peer(2);
    let before_peers = fs.peers.clone();
    let r = fs.on_control(77, true, &topic("room"));
    assert_eq!(r, Err(Error::Malformed));
    assert_eq!(fs.peers, before_peers);
    let msg = Message { origin: 9, seqno: 0, topics: vec![topic("room")], payload: vec![] };
    let r = fs.on_frame(77, &Frame::Publish(msg));
    assert!(matches!(r, Err(Error::Malformed)));
}

#[test]
fn peer_disconnect_drops_only_that_peer() {
    let mut fs = FloodSub::new(1, 16);
    fs.add_peer(2);
    fs.add_peer(3);
    fs.remove_peer(2);
    assert_eq!(fs.all_peer_ids(), vec![3]);
    let recipients = fs.subscribe(&topic("room"));
    assert_eq!(recipients, vec![3]);
}

#[test]
fn seen_cache_evicts_oldest_when_full() {
    let mut cache = SeenCache::new(2);
    cache.insert(1, 1);
    cache.insert(1, 2);
    cache.insert(1, 3);
    assert!(!cache.contains(1, 1), "the oldest identity is evicted");
    assert!(cache.contains(1, 2));
    assert!(cache.contains(1, 3));
    cache.insert(1, 2);
    assert_eq!(cache.ids.len(), 2, "re-recording a cached identity adds nothing");
}

#[test]
fn retention_window_is_cap_distinct_identities() {
    let mut cache = SeenCache::new(3);
    cache.insert(7, 0);
    cache.insert(8, 1);
    cache.insert(8, 2);
    assert!(cache.contains(7, 0), "two distinct newer identities do not evict it");
    cache.insert(8, 3);
    assert!(!cache.contains(7, 0), "the third one does");
}

#[test]
fn smallest_cache_still_dedups_back_to_back() {
    let mut fs = FloodSub::new(1, 1);
    fs.add_peer(2);
    let _ = fs.subscribe(&topic("room"));
    let msg = Message { origin: 9, seqno: 0, topics: vec![topic("room")], payload: vec![] };
    assert!(fs.on_receive(2, &msg).deliver);
    assert!(!fs.on_receive(2, &msg).deliver);
}

#[test]
fn delivery_needs_only_one_shared_topic() {
    let mut fs = FloodSub::new(1, 16);
    let _ = fs.subscribe(&topic("b"));
    let msg = Message {
        origin: 9,
        seqno: 0,
        topics: vec![topic("a"), topic("b"), topic("c")],
        payload: vec![],
    };
    assert!(fs.on_receive(2, &msg).deliver);
}

/// Two peers: one listens, the other dials, both negotiate this protocol,
/// the dialer subscribes to "room", the listener publishes "hi" on it, and
/// the dialer's application layer receives the payload exactly once.
#[test]
fn two_peer_publish_reaches_subscriber_exactly_once() {
    let mut a = FloodSub::new(1, 16);
    let mut b = FloodSub::new(2, 16);
    a.add_peer(2);
    b.add_peer(1);

    // B subscribes to "room" and its subscribe frame reaches A.
    let targets = b.subscribe(&topic("room"));
    assert_eq!(targets, vec![1]);
    a.on_frame(2, &Frame::Subscribe(topic("room"))).expect("B is connected to A");

    // A publishes ("room", "hi") and floods it to its peers.
    let (msg, recipients) = a.publish(vec![topic("room")], b"hi".to_vec());
    assert_eq!(recipients, vec![2]);

    // B receives it: delivered to the application layer, payload intact.
    let d = b.on_frame(1, &Frame::Publish(msg.clone())).expect("A is connected to B");
    assert!(d.deliver);
    assert_eq!(msg.payload, b"hi".to_vec());
    assert!(d.relay_to.is_empty(), "no third peer to relay to");

    // The mesh echoing the same message back delivers nothing a second time.
    let again = b.on_frame(1, &Frame::Publish(msg)).expect("A is connected to B");
    assert!(!again.deliver);
}

/// Three peers in a star: B and C each connect only to A. C publishes on a
/// shared topic; B receives the message relayed through A exactly once,
/// and A does not send it back to C.
#[test]
fn star_mesh_relays_through_the_center_exactly_once() {
    let mut a = FloodSub::new(1, 16);
    let mut b = FloodSub::new(2, 16);
    let mut c = FloodSub::new(3, 16);
    a.add_peer(2);
    a.add_peer(3);
    b.add_peer(1);
    c.add_peer(1);

    for node in [&mut a, &mut b, &mut c] {
        let _ = node.subscribe(&topic("shared"));
    }
    a.on_frame(2, &Frame::Subscribe(topic("shared"))).expect("B connected");
    a.on_frame(3, &Frame::Subscribe(topic("shared"))).expect("C connected");
    b.on_frame(1, &Frame::Subscribe(topic("shared"))).expect("A connected");
    c.on_frame(1, &Frame::Subscribe(topic("shared"))).expect("A connected");

    // C publishes; its only peer is A.
    let (msg, recipients) = c.publish(vec![topic("shared")], b"from C".to_vec());
    assert_eq!(recipients, vec![1]);

    // A receives from C: delivers locally, relays to B but not back to C.
    let at_a = a.on_frame(3, &Frame::Publish(msg.clone())).expect("C connected");
    assert!(at_a.deliver);
    assert_eq!(at_a.relay_to, vec![2], "relay reaches B only, never the sender C");

    // B receives from A: delivers locally; A is its only peer, so nothing
    // is relayed onwards.
    let at_b = b.on_frame(1, &Frame::Publish(msg.clone())).expect("A connected");
    assert!(at_b.deliver);
    assert!(at_b.relay_to.is_empty());

    // Any further copy of the message is dropped everywhere: exactly one
    // delivery per peer.
    let a_again = a.on_frame(2, &Frame::Publish(msg.clone())).expect("B connected");
    assert!(!a_again.deliver);
    assert!(a_again.relay_to.is_empty());
    let b_again = b.on_frame(1, &Frame::Publish(msg)).expect("A connected");
    assert!(!b_again.deliver);
}
