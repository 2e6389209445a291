use dhcp_lease::{parse_ipv4, parse_message, parse_reply, DeclineReason, Ipv4, Message, MessageError, Reply};

#[test]
fn parse_ipv4_reads_dotted_decimal() {
    let t = b"192.168.1.100";
    assert_eq!(parse_ipv4(t, 0, t.len()), Some(Ipv4(192, 168, 1, 100)));
    let z = b"0.0.0.0";
    assert_eq!(parse_ipv4(z, 0, z.len()), Some(Ipv4(0, 0, 0, 0)));
    let m = b"255.255.255.255";
    assert_eq!(parse_ipv4(m, 0, m.len()), Some(Ipv4(255, 255, 255, 255)));
}

#[test]
fn parse_ipv4_rejects_malformed_text() {
    for t in [
        &b"192.168.1"[..],
        b"192.168.1.256",
        b"192.168.01.1",
        b"192.168.1.1.",
        b"192.168..1",
        b"a.b.c.d",
        b"",
        b"1.2.3.4.5",
    ] {
        assert_eq!(parse_ipv4(t, 0, t.len()), None, "{:?}", t);
    }
}

#[test]
fn parse_ipv4_reads_a_window() {
    let t = b"x10.0.0.7y";
    assert_eq!(parse_ipv4(t, 1, 9), Some(Ipv4(10, 0, 0, 7)));
}

#[test]
fn discover_with_and_without_hardware_address() {
    match parse_message(b"DISCOVER") {
        Ok(Message::Discover { hw }) => assert!(hw.is_empty()),
        other => panic!("{:?}", other),
    }
    match parse_message(b"DISCOVER:3C5A37AABBCC\n") {
        Ok(Message::Discover { hw }) => assert_eq!(hw, b"3C5A37AABBCC".to_vec()),
        other => panic!("{:?}", other),
    }
}

#[test]
fn request_with_colons_in_hardware_address() {
    match parse_message(b"  REQUEST:192.168.1.101:3c:5a:37  ") {
        Ok(Message::Request { addr, hw }) => {
            assert_eq!(addr, Ipv4(192, 168, 1, 101));
            assert_eq!(hw, b"3c:5a:37".to_vec());
        }
        other => panic!("{:?}", other),
    }
    match parse_message(b"REQUEST:10.1.2.3") {
        Ok(Message::Request { addr, hw }) => {
            assert_eq!(addr, Ipv4(10, 1, 2, 3));
            assert!(hw.is_empty());
        }
        other => panic!("{:?}", other),
    }
}

#[test]
fn request_with_bad_address_is_malformed() {
    assert!(matches!(parse_message(b"REQUEST:not-an-ip:AA"), Err(MessageError::BadAddress)));
    assert!(matches!(parse_message(b"REQUEST"), Err(MessageError::BadAddress)));
    assert!(matches!(parse_message(b"REQUEST:192.168.1.300"), Err(MessageError::BadAddress)));
}

#[test]
fn release_ignores_its_payload() {
    assert!(matches!(parse_message(b"RELEASE"), Ok(Message::Release)));
    assert!(matches!(parse_message(b"RELEASE:192.168.1.100"), Ok(Message::Release)));
}

#[test]
fn unknown_verbs_are_malformed() {
    for t in [&b"OFFER:192.168.1.1"[..], b"discover", b"", b"HELLO", b"DISCOVERX"] {
        assert!(matches!(parse_message(t), Err(MessageError::UnknownVerb)), "{:?}", t);
    }
}

#[test]
fn replies_encode_as_text() {
    let a = Ipv4(192, 168, 1, 101);
    assert_eq!(Reply::Offer { addr: a, hw: Vec::new() }.encode(), b"OFFER:192.168.1.101".to_vec());
    assert_eq!(Reply::Offer { addr: a, hw: b"AB12".to_vec() }.encode(), b"OFFER:192.168.1.101:AB12".to_vec());
    assert_eq!(Reply::Ack { addr: Ipv4(10, 0, 0, 9), hw: b"M".to_vec() }.encode(), b"ACK:10.0.0.9:M".to_vec());
    assert_eq!(Reply::Decline(DeclineReason::AddressInUse).encode(), b"DECLINE:IP_IN_USE".to_vec());
    assert_eq!(Reply::Decline(DeclineReason::UnknownAddress).encode(), b"DECLINE:UNKNOWN_IP".to_vec());
    assert_eq!(Reply::NoAddressAvailable.encode(), b"NO_AVAILABLE_IP".to_vec());
    assert_eq!(Reply::ReleasedByAdmin(Ipv4(192, 168, 1, 100)).encode(), b"RELEASED_BY_ADMIN:192.168.1.100".to_vec());
}

#[test]
fn encoded_request_parses_back() {
    let a = Ipv4(172, 16, 0, 42);
    let ack = Reply::Ack { addr: a, hw: b"FF".to_vec() }.encode();
    let mut req = b"REQUEST".to_vec();
    req.extend_from_slice(&ack[3..]);
    match parse_message(&req) {
        Ok(Message::Request { addr, hw }) => {
            assert_eq!(addr, a);
            assert_eq!(hw, b"FF".to_vec());
        }
        other => panic!("{:?}", other),
    }
}

#[test]
fn messages_encode_as_text() {
    assert_eq!(Message::Discover { hw: Vec::new() }.encode(), b"DISCOVER".to_vec());
    assert_eq!(Message::Discover { hw: b"3C5A37".to_vec() }.encode(), b"DISCOVER:3C5A37".to_vec());
    assert_eq!(
        Message::Request { addr: Ipv4(192, 168, 1, 7), hw: b"AA:BB".to_vec() }.encode(),
        b"REQUEST:192.168.1.7:AA:BB".to_vec()
    );
    assert_eq!(Message::Release.encode(), b"RELEASE".to_vec());
}

#[test]
fn message_text_reads_back() {
    let ms = vec![
        Message::Discover { hw: Vec::new() },
        Message::Discover { hw: b"B8:27:EB:01".to_vec() },
        Message::Request { addr: Ipv4(0, 10, 200, 255), hw: Vec::new() },
        Message::Request { addr: Ipv4(1, 2, 3, 4), hw: b"x:y".to_vec() },
    ];
    for m in ms {
        let back = parse_message(&m.encode()).unwrap();
        assert_eq!(format!("{:?}", back), format!("{:?}", m));
    }
    assert!(matches!(parse_message(&Message::Release.encode()), Ok(Message::Release)));
}

#[test]
fn parse_reply_reads_every_reply() {
    match parse_reply(b"OFFER:192.168.1.101:3C5A37\r\n") {
        Some(Reply::Offer { addr, hw }) => {
            assert_eq!(addr, Ipv4(192, 168, 1, 101));
            assert_eq!(hw, b"3C5A37".to_vec());
        }
        other => panic!("{:?}", other),
    }
    match parse_reply(b"ACK:10.0.0.1") {
        Some(Reply::Ack { addr, hw }) => {
            assert_eq!(addr, Ipv4(10, 0, 0, 1));
            assert!(hw.is_empty());
        }
        other => panic!("{:?}", other),
    }
    assert!(matches!(parse_reply(b"DECLINE:IP_IN_USE"), Some(Reply::Decline(DeclineReason::AddressInUse))));
    assert!(matches!(parse_reply(b"DECLINE:UNKNOWN_IP"), Some(Reply::Decline(DeclineReason::UnknownAddress))));
    assert!(matches!(parse_reply(b"NO_AVAILABLE_IP"), Some(Reply::NoAddressAvailable)));
    match parse_reply(b"RELEASED_BY_ADMIN:192.168.1.100") {
        Some(Reply::ReleasedByAdmin(a)) => assert_eq!(a, Ipv4(192, 168, 1, 100)),
        other => panic!("{:?}", other),
    }
}

#[test]
fn parse_reply_rejects_other_text() {
    for t in [&b"OFFER:1.2.3"[..], b"DECLINE:BUSY", b"DECLINE", b"RELEASED_BY_ADMIN:x", b"HELLO", b"", b"DISCOVER"] {
        assert!(parse_reply(t).is_none(), "{:?}", t);
    }
}

#[test]
fn reply_text_reads_back() {
    let rs = vec![
        Reply::Offer { addr: Ipv4(192, 168, 1, 9), hw: b"M:1".to_vec() },
        Reply::Ack { addr: Ipv4(255, 0, 0, 1), hw: Vec::new() },
        Reply::Decline(DeclineReason::AddressInUse),
        Reply::Decline(DeclineReason::UnknownAddress),
        Reply::NoAddressAvailable,
        Reply::ReleasedByAdmin(Ipv4(172, 16, 5, 4)),
    ];
    for r in rs {
        let back = parse_reply(&r.encode()).unwrap();
        assert_eq!(format!("{:?}", back), format!("{:?}", r));
    }
}
