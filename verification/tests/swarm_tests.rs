use peerswarm::addr::{parse, render};
use peerswarm::swarm::Swarm;
use peerswarm::transport::{carrier_for, Carrier};
use peerswarm::Error;

fn addr(s: &str) -> peerswarm::addr::Addr {
    parse(s.as_bytes()).expect("address should parse")
}

#[test]
fn combinator_picks_first_matching_carrier() {
    let carriers = vec![Carrier::Ws, Carrier::Tcp];
    let plain = addr("/ip4/1.2.3.4/tcp/80");
    let ws = addr("/ip4/1.2.3.4/tcp/80/ws");
    assert_eq!(carrier_for(&carriers, &plain), Some(Carrier::Tcp));
    assert_eq!(carrier_for(&carriers, &ws), Some(Carrier::Ws));
    let tcp_only = vec![Carrier::Tcp];
    assert_eq!(carrier_for(&tcp_only, &ws), None);
}

#[test]
fn listen_resolves_wildcard_port() {
    let mut swarm = Swarm::new(vec![Carrier::Tcp]);
    let resolved = swarm
        .listen_on(&addr("/ip4/0.0.0.0/tcp/0"), 54321)
        .expect("tcp address is supported");
    assert_eq!(render(&resolved), b"/ip4/0.0.0.0/tcp/54321".to_vec());
    assert_eq!(swarm.listeners.len(), 1);
}

#[test]
fn listen_keeps_concrete_port() {
    let mut swarm = Swarm::new(vec![Carrier::Tcp]);
    let resolved = swarm
        .listen_on(&addr("/ip4/0.0.0.0/tcp/7000"), 7000)
        .expect("tcp address is supported");
    assert_eq!(resolved.port(), 7000);
}

#[test]
fn unsupported_address_is_rejected() {
    let mut swarm = Swarm::new(vec![Carrier::Tcp]);
    let ws = addr("/ip4/1.2.3.4/tcp/80/ws");
    assert!(matches!(swarm.listen_on(&ws, 80), Err(Error::Unsupported)));
    assert!(matches!(swarm.dial(&ws), Err(Error::Unsupported)));
    assert!(swarm.listeners.is_empty());
    assert!(swarm.dials.is_empty());
}

#[test]
fn dial_lifecycle_tracks_identifiers() {
    let mut swarm = Swarm::new(vec![Carrier::Tcp]);
    let d1 = swarm.dial(&addr("/ip4/127.0.0.1/tcp/4001")).expect("supported");
    let d2 = swarm.dial(&addr("/ip4/127.0.0.1/tcp/4002")).expect("supported");
    assert_ne!(d1, d2);
    assert_eq!(swarm.dials.len(), 2);

    let conn = swarm.on_dial_connected(d1, addr("/ip4/127.0.0.1/tcp/4001"));
    assert_eq!(swarm.dials.len(), 1);
    assert_eq!(swarm.conn_count(), 1);
    assert_eq!(swarm.conns[0].id, conn);
    assert!(swarm.conns[0].proto.is_none());

    swarm.on_dial_failed(d2);
    assert!(swarm.dials.is_empty());
    assert_eq!(swarm.conn_count(), 1, "a failed dial closes nothing else");
}

#[test]
fn negotiation_marks_only_that_connection() {
    let mut swarm = Swarm::new(vec![Carrier::Tcp]);
    let c1 = swarm.on_incoming(addr("/ip4/10.0.0.1/tcp/5001"));
    let c2 = swarm.on_incoming(addr("/ip4/10.0.0.2/tcp/5002"));
    swarm.on_negotiated(c1, 7);
    assert_eq!(swarm.conns[0].proto, Some(7));
    assert_eq!(swarm.conns[1].proto, None);
    let _ = c2;
}

#[test]
fn closing_one_connection_leaves_the_others() {
    let mut swarm = Swarm::new(vec![Carrier::Tcp]);
    let c1 = swarm.on_incoming(addr("/ip4/10.0.0.1/tcp/5001"));
    let c2 = swarm.on_incoming(addr("/ip4/10.0.0.2/tcp/5002"));
    swarm.on_conn_closed(c1);
    assert_eq!(swarm.conn_count(), 1);
    assert_eq!(swarm.conns[0].id, c2);
}
