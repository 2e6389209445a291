use dhcp_lease::{ClientAddr, DHCPState, DeclineReason, Ipv4, LeaseEvent, LeaseStatus, Message, MessageError, Reply};

fn ip(d: u8) -> Ipv4 {
    Ipv4(192, 168, 1, d)
}

fn client(n: u16) -> ClientAddr {
    ClientAddr { ip: Ipv4(10, 0, 0, 1), port: 5000 + n }
}

fn two_address_state() -> DHCPState {
    DHCPState::new(vec![ip(100), ip(101)])
}

fn send(st: &mut DHCPState, msg: &str, c: ClientAddr) -> Option<String> {
    st.handle_message(msg.as_bytes(), c, 0).unwrap().map(|b| String::from_utf8(b).unwrap())
}

fn total(st: &DHCPState) -> usize {
    st.pool().available_addresses().len() + st.pool().leased_addresses().len()
}

#[test]
fn two_address_scenario() {
    let mut st = two_address_state();
    let (c1, c2, c3) = (client(1), client(2), client(3));
    assert_eq!(send(&mut st, "DISCOVER", c1).as_deref(), Some("OFFER:192.168.1.101"));
    assert_eq!(send(&mut st, "REQUEST:192.168.1.101", c1).as_deref(), Some("ACK:192.168.1.101"));
    assert_eq!(send(&mut st, "DISCOVER", c2).as_deref(), Some("OFFER:192.168.1.100"));
    assert_eq!(send(&mut st, "REQUEST:192.168.1.100", c2).as_deref(), Some("ACK:192.168.1.100"));
    assert_eq!(send(&mut st, "DISCOVER", c3).as_deref(), Some("NO_AVAILABLE_IP"));
    assert_eq!(send(&mut st, "RELEASE", c1), None);
    assert_eq!(st.pool().available_addresses(), &vec![ip(101)]);
    assert_eq!(send(&mut st, "DISCOVER", c3).as_deref(), Some("OFFER:192.168.1.101"));
}

#[test]
fn admin_eviction_returns_address_and_notifies() {
    let mut st = two_address_state();
    let (c1, c2) = (client(1), client(2));
    send(&mut st, "DISCOVER", c1);
    send(&mut st, "REQUEST:192.168.1.101", c1);
    send(&mut st, "DISCOVER", c2);
    send(&mut st, "REQUEST:192.168.1.100", c2);
    let note = st.supprimer_client(c2, 9).expect("client2 holds a lease");
    assert_eq!(note.encode(), b"RELEASED_BY_ADMIN:192.168.1.100".to_vec());
    assert_eq!(st.pool().available_addresses(), &vec![ip(100)]);
    assert_eq!(st.afficher_clients().len(), 1);
    let last = st.afficher_historique().last().unwrap();
    assert_eq!((last.client, last.addr, last.event, last.at), (c2, ip(100), LeaseEvent::Evicted, 9));
}

#[test]
fn eviction_of_unknown_client_is_none() {
    let mut st = two_address_state();
    assert!(st.supprimer_client(client(7), 0).is_none());
    assert!(st.afficher_historique().is_empty());
}

#[test]
fn discover_then_request_of_offer_is_acked() {
    let mut st = DHCPState::new(vec![ip(1), ip(2), ip(3)]);
    let c = client(1);
    let offer = st.handle(Message::Discover { hw: b"AA".to_vec() }, c, 1).unwrap();
    let a = match offer {
        Reply::Offer { addr, hw } => {
            assert_eq!(hw, b"AA".to_vec());
            addr
        }
        other => panic!("{:?}", other),
    };
    match st.handle(Message::Request { addr: a, hw: b"AA".to_vec() }, c, 2) {
        Some(Reply::Ack { addr, .. }) => assert_eq!(addr, a),
        other => panic!("{:?}", other),
    }
    let l = &st.afficher_clients()[0];
    assert_eq!((l.client, l.addr, l.status, l.since), (c, a, LeaseStatus::Bound, 2));
}

#[test]
fn request_of_address_bound_elsewhere_is_declined() {
    let mut st = two_address_state();
    let (a, b) = (client(1), client(2));
    send(&mut st, "DISCOVER:BB", b);
    send(&mut st, "REQUEST:192.168.1.101:BB", b);
    let history_before = st.afficher_historique().len();
    assert_eq!(send(&mut st, "REQUEST:192.168.1.101:AA", a).as_deref(), Some("DECLINE:IP_IN_USE"));
    let l = &st.afficher_clients()[0];
    assert_eq!((l.client, l.addr, l.status), (b, ip(101), LeaseStatus::Bound));
    assert_eq!(l.hw, b"BB".to_vec());
    assert_eq!(st.afficher_clients().len(), 1);
    assert_eq!(st.afficher_historique().len(), history_before);
    assert_eq!(st.pool().available_addresses(), &vec![ip(100)]);
}

#[test]
fn release_without_lease_is_a_noop() {
    let mut st = two_address_state();
    send(&mut st, "DISCOVER", client(1));
    let hist = st.afficher_historique().len();
    assert_eq!(send(&mut st, "RELEASE", client(2)), None);
    assert_eq!(st.afficher_historique().len(), hist);
    assert_eq!(st.afficher_clients().len(), 1);
    assert_eq!(st.pool().available_addresses(), &vec![ip(100)]);
    assert_eq!(st.pool().leased_addresses(), &vec![ip(101)]);
}

#[test]
fn repeated_discover_does_not_leak() {
    let mut st = DHCPState::new(vec![ip(1), ip(2), ip(3)]);
    for _ in 0..10 {
        assert_eq!(send(&mut st, "DISCOVER", client(1)).as_deref(), Some("OFFER:192.168.1.3"));
        assert_eq!(total(&st), 3);
        assert_eq!(st.pool().leased_addresses().len(), 1);
        assert_eq!(st.afficher_clients().len(), 1);
    }
}

#[test]
fn stale_offer_is_withdrawn_in_history() {
    let mut st = two_address_state();
    send(&mut st, "DISCOVER", client(1));
    send(&mut st, "DISCOVER", client(1));
    let events: Vec<LeaseEvent> = st.afficher_historique().iter().map(|h| h.event).collect();
    assert_eq!(events, vec![LeaseEvent::Offered, LeaseEvent::Withdrawn, LeaseEvent::Offered]);
}

#[test]
fn discover_from_bound_client_offers_its_address_again() {
    let mut st = two_address_state();
    let c = client(1);
    send(&mut st, "DISCOVER", c);
    send(&mut st, "REQUEST:192.168.1.101", c);
    let hist = st.afficher_historique().len();
    assert_eq!(send(&mut st, "DISCOVER", c).as_deref(), Some("OFFER:192.168.1.101"));
    assert_eq!(st.afficher_historique().len(), hist);
    assert_eq!(st.afficher_clients()[0].status, LeaseStatus::Bound);
    assert_eq!(st.pool().available_addresses(), &vec![ip(100)]);
}

#[test]
fn request_of_unknown_address_is_declined() {
    let mut st = two_address_state();
    assert_eq!(send(&mut st, "REQUEST:10.9.9.9", client(1)).as_deref(), Some("DECLINE:UNKNOWN_IP"));
    assert!(st.afficher_clients().is_empty());
    assert!(st.afficher_historique().is_empty());
}

#[test]
fn request_without_discover_binds_available_address() {
    let mut st = two_address_state();
    assert_eq!(send(&mut st, "REQUEST:192.168.1.100:CC", client(4)).as_deref(), Some("ACK:192.168.1.100:CC"));
    assert_eq!(st.pool().available_addresses(), &vec![ip(101)]);
    assert_eq!(st.pool().leased_addresses(), &vec![ip(100)]);
}

#[test]
fn duplicate_request_is_idempotent() {
    let mut st = two_address_state();
    let c = client(1);
    send(&mut st, "REQUEST:192.168.1.100", c);
    let hist = st.afficher_historique().len();
    assert_eq!(send(&mut st, "REQUEST:192.168.1.100", c).as_deref(), Some("ACK:192.168.1.100"));
    assert_eq!(st.afficher_historique().len(), hist);
    assert_eq!(st.afficher_clients().len(), 1);
}

#[test]
fn binding_an_offered_address_withdraws_the_offer() {
    let mut st = two_address_state();
    let (a, b) = (client(1), client(2));
    send(&mut st, "DISCOVER", a);
    assert_eq!(send(&mut st, "REQUEST:192.168.1.101", b).as_deref(), Some("ACK:192.168.1.101"));
    assert_eq!(st.afficher_clients().len(), 1);
    assert_eq!(st.afficher_clients()[0].client, b);
    assert_eq!(send(&mut st, "REQUEST:192.168.1.101", a).as_deref(), Some("DECLINE:IP_IN_USE"));
    assert_eq!(send(&mut st, "RELEASE", a), None);
    assert_eq!(st.pool().leased_addresses(), &vec![ip(101)]);
}

#[test]
fn moving_to_another_address_returns_the_old_one() {
    let mut st = two_address_state();
    let c = client(1);
    send(&mut st, "REQUEST:192.168.1.100", c);
    assert_eq!(send(&mut st, "REQUEST:192.168.1.101", c).as_deref(), Some("ACK:192.168.1.101"));
    assert_eq!(st.pool().available_addresses(), &vec![ip(100)]);
    assert_eq!(st.pool().leased_addresses(), &vec![ip(101)]);
    assert_eq!(st.afficher_clients().len(), 1);
}

#[test]
fn malformed_datagrams_change_nothing() {
    let mut st = two_address_state();
    assert_eq!(st.handle_message(b"REQUEST:abc", client(1), 0), Err(MessageError::BadAddress));
    assert_eq!(st.handle_message(b"PING", client(1), 0), Err(MessageError::UnknownVerb));
    assert!(st.afficher_clients().is_empty());
    assert_eq!(total(&st), 2);
}

#[test]
fn history_records_each_transition_in_order() {
    let mut st = two_address_state();
    let c = client(1);
    st.handle_message(b"DISCOVER:M1", c, 10).unwrap();
    st.handle_message(b"REQUEST:192.168.1.101:M1", c, 11).unwrap();
    st.handle_message(b"RELEASE", c, 12).unwrap();
    let h: Vec<(LeaseEvent, Ipv4, u64)> = st.afficher_historique().iter().map(|e| (e.event, e.addr, e.at)).collect();
    assert_eq!(
        h,
        vec![(LeaseEvent::Offered, ip(101), 10), (LeaseEvent::Bound, ip(101), 11), (LeaseEvent::Released, ip(101), 12)]
    );
    assert!(st.afficher_historique().iter().all(|e| e.hw == b"M1".to_vec() && e.client == c));
}

#[test]
fn decline_reply_through_handle() {
    let mut st = DHCPState::new(vec![ip(1)]);
    let r = st.handle(Message::Request { addr: ip(9), hw: Vec::new() }, client(1), 0);
    assert!(matches!(r, Some(Reply::Decline(DeclineReason::UnknownAddress))));
}

#[test]
fn eviction_by_address_finds_the_holder() {
    let mut st = two_address_state();
    let c = client(3);
    send(&mut st, "DISCOVER", c);
    match st.evict_address(ip(101), 5) {
        Some((who, note)) => {
            assert_eq!(who, c);
            assert_eq!(note.encode(), b"RELEASED_BY_ADMIN:192.168.1.101".to_vec());
        }
        None => panic!("address 101 is held"),
    }
    assert!(st.afficher_clients().is_empty());
    assert_eq!(st.pool().available_addresses(), &vec![ip(100), ip(101)]);
    assert!(st.evict_address(ip(101), 6).is_none());
}
