use tun2proxy::dns;
use tun2proxy::dns::try_resolve_from_cache;
use tun2proxy::dns_mapping::{make_shared_dns_cache, DnsCache};
use tun2proxy::net::{IpAddr, Ipv4Addr, Ipv6Addr, SocketAddr};
use tun2proxy::proxy_handler::{Handshake, HandshakeAction, HandshakeEvent, ProxyResult};

/// A handler for the tests of a handshake's result.
///
/// - When `established` is true at construction, the handshake ends immediately.
/// - When `bypass_to` is Some, the handler starts unestablished with a dummy byte to send.
///   When data is pushed, it changes `server_addr` to `bypass_to` and sets `established`.
struct MockHandler {
    server_addr: SocketAddr,
    udp_associate: Option<SocketAddr>,
    bypass_to: Option<SocketAddr>,
    established: bool,
    outbuf: Vec<u8>,
}

impl MockHandler {
    fn established(server_addr: SocketAddr, udp_associate: Option<SocketAddr>) -> Self {
        Self { server_addr, udp_associate, bypass_to: None, established: true, outbuf: vec![] }
    }

    fn bypass(server_addr: SocketAddr, bypass_to: SocketAddr) -> Self {
        Self {
            server_addr,
            udp_associate: None,
            bypass_to: Some(bypass_to),
            established: false,
            outbuf: vec![0x01], // dummy handshake byte
        }
    }
}

/// Carries out a handshake with a server that sends back what it gets.
fn handle_proxy_session(mut handler: MockHandler) -> Result<ProxyResult, String> {
    let (mut handshake, mut action) = Handshake::new(handler.server_addr);
    let mut echo: Vec<u8> = vec![];
    loop {
        let event = match action {
            HandshakeAction::Check => HandshakeEvent::Handler {
                established: handler.established,
                outgoing: handler.outbuf.len(),
                server_addr: handler.server_addr,
                udp_associate: handler.udp_associate,
            },
            HandshakeAction::Send => {
                let n = handler.outbuf.len();
                echo.append(&mut handler.outbuf);
                HandshakeEvent::Sent(n)
            }
            HandshakeAction::Receive => HandshakeEvent::Received(echo.len()),
            HandshakeAction::Push => {
                echo.clear();
                if let Some(addr) = handler.bypass_to {
                    handler.server_addr = addr;
                }
                handler.established = true;
                HandshakeEvent::Pushed { outgoing: handler.outbuf.len() }
            }
            HandshakeAction::Finish { result, .. } => return Ok(result),
            HandshakeAction::Fail(e) => return Err(e.message()),
        };
        action = handshake.handle_proxy_session(event);
    }
}

fn addr(a: u8, b: u8, c: u8, d: u8, port: u16) -> SocketAddr {
    SocketAddr::new(IpAddr::V4(Ipv4Addr::new(a, b, c, d)), port)
}

#[test]
fn test_proxy_result_established() {
    let proxy_addr = addr(10, 0, 0, 1, 8080);
    let result = handle_proxy_session(MockHandler::established(proxy_addr, None)).unwrap();
    assert!(matches!(result, ProxyResult::Established));
}

#[test]
fn test_proxy_result_udp_associate() {
    let proxy_addr = addr(10, 0, 0, 1, 8080);
    let udp_addr = addr(10, 0, 0, 1, 9090);
    let result = handle_proxy_session(MockHandler::established(proxy_addr, Some(udp_addr))).unwrap();
    if let ProxyResult::UdpAssociate(addr) = result {
        assert_eq!(addr, udp_addr);
    } else {
        panic!("expected ProxyResult::UdpAssociate");
    }
}

#[test]
fn test_proxy_result_bypass() {
    let proxy_addr = addr(10, 0, 0, 1, 8080);
    let bypass_addr = addr(93, 184, 216, 34, 443);
    let result = handle_proxy_session(MockHandler::bypass(proxy_addr, bypass_addr)).unwrap();
    if let ProxyResult::Bypass(addr) = result {
        assert_eq!(addr, bypass_addr);
    } else {
        panic!("expected ProxyResult::Bypass");
    }
}

#[test]
fn handshake_with_nothing_to_say_fails() {
    let mut handler = MockHandler::bypass(addr(10, 0, 0, 1, 8080), addr(1, 1, 1, 1, 1));
    handler.outbuf.clear();
    assert_eq!(handle_proxy_session(handler), Err("proxy_handler launched went wrong".to_string()));
}

#[test]
fn handshake_counts_bytes() {
    let server = addr(10, 0, 0, 1, 8080);
    let handler = |established: bool, outgoing: usize| HandshakeEvent::Handler {
        established,
        outgoing,
        server_addr: server,
        udp_associate: None,
    };
    let (mut h, _) = Handshake::new(server);
    assert!(matches!(h.handle_proxy_session(handler(false, 5)), HandshakeAction::Send));
    assert!(matches!(h.handle_proxy_session(HandshakeEvent::Sent(5)), HandshakeAction::Receive));
    assert!(matches!(h.handle_proxy_session(HandshakeEvent::Received(7)), HandshakeAction::Push));
    assert!(matches!(h.handle_proxy_session(HandshakeEvent::Pushed { outgoing: 3 }), HandshakeAction::Send));
    assert!(matches!(h.handle_proxy_session(HandshakeEvent::Sent(3)), HandshakeAction::Check));
    assert!(matches!(h.handle_proxy_session(handler(false, 0)), HandshakeAction::Receive));
    assert!(matches!(h.handle_proxy_session(HandshakeEvent::Received(2)), HandshakeAction::Push));
    assert!(matches!(h.handle_proxy_session(HandshakeEvent::Pushed { outgoing: 0 }), HandshakeAction::Check));
    let end = h.handle_proxy_session(handler(true, 0));
    assert!(matches!(end, HandshakeAction::Finish { result: ProxyResult::Established, tx: 8, rx: 9 }));

    let (mut h, _) = Handshake::new(server);
    h.handle_proxy_session(handler(false, 5));
    h.handle_proxy_session(HandshakeEvent::Sent(5));
    match h.handle_proxy_session(HandshakeEvent::Received(0)) {
        HandshakeAction::Fail(e) => assert_eq!(e.message(), "server closed accidentially"),
        _ => panic!("expected a failure"),
    }
}

// --- try_resolve_from_cache tests ---

fn insert(cache: &mut DnsCache, domain: &str, pairs: &[(IpAddr, u32)]) {
    cache.insert(domain, &dns::records_from_pairs(pairs));
}

#[test]
fn test_try_resolve_from_cache_hit() {
    let mut cache = make_shared_dns_cache();
    let ip = IpAddr::V4(Ipv4Addr::new(93, 184, 216, 34));
    insert(&mut cache, "example.com", &[(ip, 300)]);

    let query = dns::build_dns_query("example.com", 0xABCD).unwrap();
    let result = try_resolve_from_cache(&query, &cache, true);

    assert!(result.is_some());
    let response_bytes = result.unwrap();
    let msg = dns::parse_data_to_dns_message(&response_bytes, false).unwrap();
    assert_eq!(msg.id(), 0xABCD);
    assert_eq!(msg.answers().len(), 1);
    let extracted = dns::extract_ipaddr_from_dns_message(&msg).unwrap();
    assert_eq!(extracted, ip);
}

#[test]
fn test_try_resolve_from_cache_miss() {
    let cache = make_shared_dns_cache();
    // Cache is empty — should return None
    let query = dns::build_dns_query("example.com", 0x1234).unwrap();
    let result = try_resolve_from_cache(&query, &cache, true);
    assert!(result.is_none());
}

#[test]
fn test_try_resolve_from_cache_miss_different_domain() {
    let mut cache = make_shared_dns_cache();
    let ip = IpAddr::V4(Ipv4Addr::new(1, 2, 3, 4));
    insert(&mut cache, "other.com", &[(ip, 300)]);

    // Query for a domain not in cache
    let query = dns::build_dns_query("example.com", 0x5678).unwrap();
    let result = try_resolve_from_cache(&query, &cache, true);
    assert!(result.is_none());
}

#[test]
fn test_try_resolve_from_cache_ipv6_disabled_v4_only() {
    let mut cache = make_shared_dns_cache();
    let v4 = IpAddr::V4(Ipv4Addr::new(1, 2, 3, 4));
    insert(&mut cache, "example.com", &[(v4, 300)]);

    let query = dns::build_dns_query("example.com", 0x1111).unwrap();
    let result = try_resolve_from_cache(&query, &cache, false);

    // IPv4-only cache entry should still return when ipv6 disabled
    assert!(result.is_some());
    let msg = dns::parse_data_to_dns_message(&result.unwrap(), false).unwrap();
    assert_eq!(msg.answers().len(), 1);
}

#[test]
fn test_try_resolve_from_cache_ipv6_disabled_v6_only() {
    let mut cache = make_shared_dns_cache();
    let v6 = IpAddr::V6(Ipv6Addr::new(0x2001, 0xdb8, 0, 0, 0, 0, 0, 1));
    insert(&mut cache, "example.com", &[(v6, 300)]);

    let query = dns::build_dns_query("example.com", 0x2222).unwrap();
    let result = try_resolve_from_cache(&query, &cache, false);

    // Only IPv6 cached, but ipv6 disabled → all records removed → should return None
    assert!(result.is_none());
}

#[test]
fn test_try_resolve_from_cache_ipv6_disabled_mixed() {
    let mut cache = make_shared_dns_cache();
    let v4 = IpAddr::V4(Ipv4Addr::new(10, 0, 0, 1));
    let v6 = IpAddr::V6(Ipv6Addr::new(0x2001, 0xdb8, 0, 0, 0, 0, 0, 1));
    insert(&mut cache, "dual.example.com", &[(v4, 300), (v6, 300)]);

    let query = dns::build_dns_query("dual.example.com", 0x3333).unwrap();
    let result = try_resolve_from_cache(&query, &cache, false);

    // IPv6 removed, IPv4 remains
    assert!(result.is_some());
    let msg = dns::parse_data_to_dns_message(&result.unwrap(), false).unwrap();
    assert_eq!(msg.answers().len(), 1);
    let extracted = dns::extract_ipaddr_from_dns_message(&msg).unwrap();
    assert_eq!(extracted, v4);
}

#[test]
fn test_try_resolve_from_cache_ipv6_enabled_mixed() {
    let mut cache = make_shared_dns_cache();
    let v4 = IpAddr::V4(Ipv4Addr::new(10, 0, 0, 1));
    let v6 = IpAddr::V6(Ipv6Addr::new(0x2001, 0xdb8, 0, 0, 0, 0, 0, 1));
    insert(&mut cache, "dual.example.com", &[(v4, 300), (v6, 300)]);

    let query = dns::build_dns_query("dual.example.com", 0x4444).unwrap();
    let result = try_resolve_from_cache(&query, &cache, true);

    // Both records should be present
    assert!(result.is_some());
    let msg = dns::parse_data_to_dns_message(&result.unwrap(), false).unwrap();
    assert_eq!(msg.answers().len(), 2);
}

#[test]
fn test_try_resolve_from_cache_invalid_data() {
    let cache = make_shared_dns_cache();
    // Garbage data that can't be parsed as DNS
    let result = try_resolve_from_cache(&[0xFF, 0xFE, 0x00], &cache, true);
    assert!(result.is_none());
}

#[test]
fn test_try_resolve_from_cache_preserves_query_id() {
    let mut cache = make_shared_dns_cache();
    let ip = IpAddr::V4(Ipv4Addr::new(8, 8, 8, 8));
    insert(&mut cache, "dns.google", &[(ip, 60)]);

    // Different query IDs should produce responses with matching IDs
    for id in [0x0001, 0x9999, 0xFFFF] {
        let query = dns::build_dns_query("dns.google", id).unwrap();
        let result = try_resolve_from_cache(&query, &cache, true).unwrap();
        let msg = dns::parse_data_to_dns_message(&result, false).unwrap();
        assert_eq!(msg.id(), id);
    }
}

#[test]
fn test_try_resolve_from_cache_multiple_v4_records() {
    let mut cache = make_shared_dns_cache();
    let ip1 = IpAddr::V4(Ipv4Addr::new(1, 2, 3, 4));
    let ip2 = IpAddr::V4(Ipv4Addr::new(5, 6, 7, 8));
    let ip3 = IpAddr::V4(Ipv4Addr::new(9, 10, 11, 12));
    insert(&mut cache, "cdn.example.com", &[(ip1, 60), (ip2, 120), (ip3, 180)]);

    let query = dns::build_dns_query("cdn.example.com", 0x7777).unwrap();
    let result = try_resolve_from_cache(&query, &cache, true);

    assert!(result.is_some());
    let msg = dns::parse_data_to_dns_message(&result.unwrap(), false).unwrap();
    assert_eq!(msg.answers().len(), 3);
    let pairs = dns::extract_ip_ttl_pairs_from_dns_message(&msg);
    assert_eq!(pairs[0].0, ip1);
    assert_eq!(pairs[1].0, ip2);
    assert_eq!(pairs[2].0, ip3);
}
