use peerswarm::negotiate::{select_protocol, NegState, Negotiator, Role};
use peerswarm::Error;

const FLOODSUB: u64 = 7;
const IDENTIFY: u64 = 8;
const KAD: u64 = 9;

#[test]
fn selects_protocol_in_intersection() {
    let offered = vec![IDENTIFY, FLOODSUB, KAD];
    let supported = vec![KAD, FLOODSUB];
    let picked = select_protocol(&offered, &supported).expect("overlap should negotiate");
    assert_eq!(picked, FLOODSUB);
}

#[test]
fn offering_side_order_wins_ties() {
    let offered = vec![FLOODSUB, IDENTIFY];
    let supported = vec![IDENTIFY, FLOODSUB];
    assert_eq!(select_protocol(&offered, &supported), Ok(FLOODSUB));
}

#[test]
fn disjoint_sets_fail_with_no_common_protocol() {
    let offered = vec![IDENTIFY, KAD];
    let supported = vec![FLOODSUB];
    assert_eq!(select_protocol(&offered, &supported), Err(Error::NoCommonProtocol));
}

#[test]
fn empty_offer_fails() {
    let offered: Vec<u64> = vec![];
    let supported = vec![FLOODSUB];
    assert_eq!(select_protocol(&offered, &supported), Err(Error::NoCommonProtocol));
}

#[test]
fn negotiator_reaches_selected_state() {
    let mut neg = Negotiator::new(Role::Listener, vec![FLOODSUB, IDENTIFY]);
    assert_eq!(neg.state, NegState::Start);
    let offer = neg.begin();
    assert_eq!(offer, vec![FLOODSUB, IDENTIFY]);
    assert_eq!(neg.state, NegState::Exchanging);
    let picked = neg.on_remote_list(&vec![KAD, FLOODSUB]).expect("should select");
    assert_eq!(picked, FLOODSUB);
    assert_eq!(neg.state, NegState::Selected(FLOODSUB));
}

#[test]
fn negotiator_fails_on_disjoint_lists() {
    let mut neg = Negotiator::new(Role::Dialer, vec![FLOODSUB]);
    let _ = neg.begin();
    let r = neg.on_remote_list(&vec![KAD, IDENTIFY]);
    assert_eq!(r, Err(Error::NoCommonProtocol));
    assert_eq!(neg.state, NegState::Failed);
}

#[test]
fn both_ends_select_the_listener_preference() {
    let mut listener = Negotiator::new(Role::Listener, vec![FLOODSUB, IDENTIFY]);
    let mut dialer = Negotiator::new(Role::Dialer, vec![IDENTIFY, FLOODSUB]);
    let listener_offer = listener.begin();
    let dialer_offer = dialer.begin();
    let at_listener = listener.on_remote_list(&dialer_offer).expect("overlap");
    let at_dialer = dialer.on_remote_list(&listener_offer).expect("overlap");
    assert_eq!(at_listener, at_dialer, "the two ends agree");
    assert_eq!(at_listener, FLOODSUB, "the listener's order wins the tie");
}
