use tun2proxy::error::Error;
use tun2proxy::net::{IpAddr, Ipv4Addr, Ipv6Addr, SocketAddr};
use tun2proxy::proxy_handler::{
    copy_and_record_traffic, handle_tcp_session, start_udp_session, udp_associate_addr, CopyAction, ProxyResult,
    ProxyType, TcpAction, TcpEvent, UdpAction, UdpEvent, UdpSession, UdpStartAction, UdpStartEvent,
};

fn v4(port: u16) -> SocketAddr {
    SocketAddr::new(IpAddr::V4(Ipv4Addr::new(1, 2, 3, 4)), port)
}

fn v6(port: u16) -> SocketAddr {
    SocketAddr::new(IpAddr::V6(Ipv6Addr::new(0x2001, 0xdb8, 0, 0, 0, 0, 0, 1)), port)
}

fn udp(proxy_type: ProxyType, dst: SocketAddr, domain: Option<&str>) -> UdpSession {
    UdpSession { proxy_type, dst, domain_name: domain.map(|s| s.to_string()) }
}

#[test]
fn headers_name_the_destination() {
    assert_eq!(
        udp(ProxyType::Socks5, v4(258), None).wrap(b"hi"),
        vec![0, 0, 0, 1, 1, 2, 3, 4, 1, 2, b'h', b'i']
    );
    assert_eq!(
        udp(ProxyType::Socks5, v6(258), None).wrap(b""),
        vec![0, 0, 0, 4, 0x20, 1, 0x0d, 0xb8, 0, 0, 0, 0, 0, 0, 0, 0, 0, 0, 0, 1, 1, 2]
    );
    assert_eq!(
        udp(ProxyType::Socks5, v4(258), Some("ab.c")).wrap(b"x"),
        vec![0, 0, 0, 3, 4, b'a', b'b', b'.', b'c', 1, 2, b'x']
    );
    assert_eq!(udp(ProxyType::Direct, v4(258), Some("ab.c")).wrap(b"x"), vec![b'x']);
    assert_eq!(udp(ProxyType::Http, v4(258), None).wrap(b"x"), vec![b'x']);
    assert_eq!(udp(ProxyType::Direct, v4(258), Some(&"d".repeat(300))).wrap(b"x"), vec![b'x']);
}

#[test]
fn unwrapping_undoes_wrapping() {
    let long = "d".repeat(255);
    for session in [
        udp(ProxyType::Socks5, v4(1), None),
        udp(ProxyType::Socks5, v6(1), None),
        udp(ProxyType::Socks4, v4(1), Some("example.com")),
        udp(ProxyType::Socks5, v4(1), Some("é")),
        udp(ProxyType::Socks5, v4(1), Some(&long)),
        udp(ProxyType::Socks5, v4(1), Some("")),
        udp(ProxyType::Direct, v4(1), None),
    ] {
        for data in [&b""[..], b"\x00\x00\x00\x01", b"hello"] {
            assert_eq!(session.unwrap(&session.wrap(data)).unwrap(), data);
        }
    }
}

#[test]
fn bad_headers_are_refused() {
    let session = udp(ProxyType::Socks5, v4(1), None);
    for data in [
        &b""[..],
        b"\x00\x00\x00",
        b"\x00\x01\x00\x01\x01\x02\x03\x04\x00\x01",
        b"\x00\x00\x00\x02\x01\x02\x03\x04\x00\x01",
        b"\x00\x00\x00\x01\x01\x02\x03\x04\x00",
        b"\x00\x00\x00\x03\x02ab\x00",
        b"\x00\x00\x00\x03\x01\xff\x00\x01",
        b"\x00\x00\x00\x04\x00\x00\x00\x00\x00\x00\x00\x00\x00\x00\x00\x00\x00\x00\x00\x00\x00",
    ] {
        match session.unwrap(data) {
            Err(Error::Socks(text)) => assert!(!text.is_empty()),
            other => panic!("{data:?} should be refused, got {other:?}"),
        }
    }
    // The number of the fragment does not matter.
    assert_eq!(session.unwrap(b"\x00\x00\x07\x01\x01\x02\x03\x04\x00\x01ok").unwrap(), b"ok");
}

#[test]
fn error_of_a_bad_header_is_told() {
    let session = udp(ProxyType::Socks5, v4(1), None);
    let a = session.unwrap(b"\x00\x00\x00\x09").unwrap_err().message();
    let b = session.unwrap(b"\x00\x00").unwrap_err().message();
    assert_ne!(a, b);
}

#[test]
fn udp_packets_go_both_ways() {
    let session = udp(ProxyType::Socks5, v4(9), None);
    let header = vec![0, 0, 0, 1, 1, 2, 3, 4, 0, 9];

    let step = session.handle_udp_associate_session(UdpEvent::FromClient(b"abc".to_vec()));
    assert_eq!((step.tx, step.rx), (3, 0));
    match step.action {
        UdpAction::ToServer(data) => assert_eq!(data, [&header[..], b"abc"].concat()),
        other => panic!("{other:?}"),
    }

    let reply = [&header[..], b"defg"].concat();
    let step = session.handle_udp_associate_session(UdpEvent::FromServer(reply));
    assert_eq!((step.tx, step.rx), (0, 14));
    match step.action {
        UdpAction::ToClient(data) => assert_eq!(data, b"defg"),
        other => panic!("{other:?}"),
    }

    let step = session.handle_udp_associate_session(UdpEvent::FromServer(vec![1]));
    assert!(matches!(step.action, UdpAction::Fail(Error::Socks(_))));
    for end in [UdpEvent::FromClient(vec![]), UdpEvent::FromServer(vec![])] {
        let step = session.handle_udp_associate_session(end);
        assert_eq!((step.tx, step.rx), (0, 0));
        assert!(matches!(step.action, UdpAction::End));
    }
}

#[test]
fn dns_packets_pass_the_cache() {
    let session = udp(ProxyType::Direct, v4(53), None);
    let step = session.handle_udp_associate_session(UdpEvent::FirstPacket(b"q".to_vec()));
    assert_eq!(step.tx, 1);
    assert!(matches!(step.action, UdpAction::ToServer(data) if data == b"q"));
    let step = session.handle_udp_associate_session(UdpEvent::FromClient(b"q2".to_vec()));
    assert_eq!(step.tx, 2);
    assert!(matches!(step.action, UdpAction::AskCache(data) if data == b"q2"));
    let asked = UdpEvent::CacheAsked { packet: b"q2".to_vec(), answered: true };
    let step = session.handle_udp_associate_session(asked);
    assert_eq!(step.tx, 0);
    assert!(matches!(step.action, UdpAction::Next));
    let asked = UdpEvent::CacheAsked { packet: b"q2".to_vec(), answered: false };
    let step = session.handle_udp_associate_session(asked);
    assert_eq!(step.tx, 0);
    assert!(matches!(step.action, UdpAction::ToServer(data) if data == b"q2"));
    let step = session.handle_udp_associate_session(UdpEvent::FromServer(b"a".to_vec()));
    assert_eq!(step.rx, 1);
    assert!(matches!(step.action, UdpAction::Snoop(data) if data == b"a"));
}

#[test]
fn udp_needs_an_association() {
    assert_eq!(udp_associate_addr(ProxyResult::UdpAssociate(v4(7))).unwrap(), v4(7));
    for other in [ProxyResult::Established, ProxyResult::Bypass(v4(7))] {
        assert_eq!(udp_associate_addr(other).unwrap_err().message(), "udp associate failed");
    }
}

#[test]
fn copied_bytes_are_counted() {
    assert_eq!(copy_and_record_traffic(10, 5, true), CopyAction::Forward { total: 15, tx: 5, rx: 0 });
    assert_eq!(copy_and_record_traffic(10, 5, false), CopyAction::Forward { total: 15, tx: 0, rx: 5 });
    assert_eq!(copy_and_record_traffic(10, 0, true), CopyAction::End(10));
}

#[test]
fn tcp_session_follows_the_handshake() {
    assert!(matches!(handle_tcp_session(TcpEvent::Begin(v4(1))), TcpAction::Connect(a) if a == v4(1)));
    assert!(matches!(handle_tcp_session(TcpEvent::Connected), TcpAction::Handshake));
    let end = |r: ProxyResult| handle_tcp_session(TcpEvent::Handshaken(Ok(r)));
    assert!(matches!(end(ProxyResult::Established), TcpAction::Copy));
    assert!(matches!(end(ProxyResult::UdpAssociate(v4(2))), TcpAction::Copy));
    assert!(matches!(end(ProxyResult::Bypass(v4(2))), TcpAction::Reconnect(a) if a == v4(2)));
    assert!(matches!(handle_tcp_session(TcpEvent::Reconnected), TcpAction::Copy));
    match handle_tcp_session(TcpEvent::Handshaken(Err(Error::text("no")))) {
        TcpAction::Abandon(e) => assert_eq!(e.message(), "no"),
        other => panic!("{other:?}"),
    }
    assert!(matches!(handle_tcp_session(TcpEvent::Copied), TcpAction::End));
}

#[test]
fn known_udp_address_needs_no_handshake() {
    let begin = UdpStartEvent::Begin { udp_associate: Some(v6(7)), server_addr: v4(1080) };
    assert!(matches!(start_udp_session(begin), UdpStartAction::Open(a) if a == v6(7)));
}

#[test]
fn unknown_udp_address_comes_from_the_handshake() {
    let begin = UdpStartEvent::Begin { udp_associate: None, server_addr: v4(1080) };
    assert!(matches!(start_udp_session(begin), UdpStartAction::Connect(a) if a == v4(1080)));
    assert!(matches!(start_udp_session(UdpStartEvent::Connected), UdpStartAction::Handshake));
    let done = UdpStartEvent::Handshaken(Ok(ProxyResult::UdpAssociate(v4(9))));
    assert!(matches!(start_udp_session(done), UdpStartAction::Open(a) if a == v4(9)));
    for other in [ProxyResult::Established, ProxyResult::Bypass(v4(9))] {
        match start_udp_session(UdpStartEvent::Handshaken(Ok(other))) {
            UdpStartAction::Fail(e) => assert_eq!(e.message(), "udp associate failed"),
            action => panic!("{action:?}"),
        }
    }
    match start_udp_session(UdpStartEvent::Handshaken(Err(Error::text("refused")))) {
        UdpStartAction::Fail(e) => assert_eq!(e.message(), "refused"),
        action => panic!("{action:?}"),
    }
}

#[test]
fn first_packet_goes_first() {
    match start_udp_session(UdpStartEvent::Opened(Some(vec![1, 2]))) {
        UdpStartAction::Forward(packet) => assert_eq!(packet, vec![1, 2]),
        action => panic!("{action:?}"),
    }
    assert!(matches!(start_udp_session(UdpStartEvent::Opened(None)), UdpStartAction::Read));
}

#[test]
fn long_names_fit_into_no_header() {
    let long = "d".repeat(256);
    let events = || {
        [
            (UdpEvent::FirstPacket(vec![1]), true),
            (UdpEvent::FromClient(vec![1]), true),
            (UdpEvent::FromClient(vec![]), false),
            (UdpEvent::CacheAsked { packet: vec![1], answered: false }, true),
            (UdpEvent::CacheAsked { packet: vec![1], answered: true }, false),
            (UdpEvent::FromServer(vec![1]), false),
        ]
    };
    for (event, sends) in events() {
        assert_eq!(udp(ProxyType::Socks5, v4(80), Some(&long)).accepts(&event), !sends);
        assert!(udp(ProxyType::Socks5, v4(80), Some(&long[1..])).accepts(&event));
        assert!(udp(ProxyType::Socks5, v4(80), None).accepts(&event));
        assert!(udp(ProxyType::Direct, v4(80), Some(&long)).accepts(&event));
    }
    // A DNS query goes to the cache first.
    assert!(udp(ProxyType::Socks4, v4(53), Some(&long)).accepts(&UdpEvent::FromClient(vec![1])));
}
