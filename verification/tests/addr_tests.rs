use peerswarm::addr::{parse, render, with_resolved_port, Addr, Segment};

fn ok(s: &str) -> Addr {
    parse(s.as_bytes()).expect("address should parse")
}

#[test]
fn parses_wildcard_listen_address() {
    let a = ok("/ip4/0.0.0.0/tcp/0");
    assert_eq!(a.segs.len(), 2);
    assert!(matches!(a.segs[0], Segment::Ip4(0, 0, 0, 0)));
    assert!(matches!(a.segs[1], Segment::Tcp(0)));
    assert!(a.is_wildcard_port());
    assert!(!a.uses_ws());
}

#[test]
fn parses_concrete_address() {
    let a = ok("/ip4/127.0.0.1/tcp/8080");
    assert!(matches!(a.segs[0], Segment::Ip4(127, 0, 0, 1)));
    assert_eq!(a.port(), 8080);
    assert!(!a.is_wildcard_port());
}

#[test]
fn parses_websocket_address() {
    let a = ok("/ip4/1.2.3.4/tcp/1000/ws");
    assert_eq!(a.segs.len(), 3);
    assert!(matches!(a.segs[2], Segment::Ws));
    assert!(a.uses_ws());
}

#[test]
fn round_trips_through_render() {
    for s in [
        "/ip4/0.0.0.0/tcp/0",
        "/ip4/127.0.0.1/tcp/54321",
        "/ip4/255.255.255.255/tcp/65535",
        "/ip4/1.2.3.4/tcp/1000/ws",
        "/ip4/10.0.0.9/tcp/1/ws",
    ] {
        let a = ok(s);
        let rendered = render(&a);
        assert_eq!(rendered, s.as_bytes().to_vec());
        let again = parse(&rendered).expect("rendered address should parse");
        assert!(a.same_as(&again));
    }
}

#[test]
fn rejects_malformed_addresses() {
    for s in [
        "",
        "/",
        "/ip4/0.0.0.0",
        "/ip4/0.0.0.0/tcp/",
        "/ip4/0.0.0/tcp/1",
        "/ip4/256.0.0.1/tcp/1",
        "/ip4/01.0.0.0/tcp/5",
        "/ip4/1.2.3.4/tcp/65536",
        "/ip4/1.2.3.4/tcp/05",
        "/ip4/1.2.3.4/tcp/1/wss",
        "/ip4/1.2.3.4/tcp/1/ws/",
        "/ip6/::1/tcp/1",
        "ip4/1.2.3.4/tcp/1",
        "/ip4/1.2.3.4/udp/1",
        "/ip4/1.2.3.4/tcp/1 ",
    ] {
        let r = parse(s.as_bytes());
        assert!(
            matches!(r, Err(peerswarm::Error::Malformed)),
            "should reject {s:?}"
        );
    }
}

#[test]
fn resolves_wildcard_port() {
    let a = ok("/ip4/0.0.0.0/tcp/0");
    let resolved = with_resolved_port(&a, 54321);
    assert_eq!(render(&resolved), b"/ip4/0.0.0.0/tcp/54321".to_vec());
    assert_eq!(resolved.port(), 54321);
    assert!(!resolved.is_wildcard_port());
}

#[test]
fn equality_is_structural() {
    let a = ok("/ip4/9.8.7.6/tcp/42");
    let b = ok("/ip4/9.8.7.6/tcp/42");
    let c = ok("/ip4/9.8.7.6/tcp/43");
    assert!(a.same_as(&b));
    assert!(!a.same_as(&c));
}
