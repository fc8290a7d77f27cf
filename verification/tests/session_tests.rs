use tun2proxy::error::Error;
use tun2proxy::net::{IpAddr, Ipv4Addr, Ipv6Addr, SocketAddr};
use tun2proxy::proxy_handler::{ProxyType, UdpTarget};
use tun2proxy::session::{
    choose_manager, route_dst, ArgDns, ManagerKind, Router, RouterConfig, RunAction, RunEvent,
};
use tun2proxy::session_info::{IpProtocol, SessionInfo};

fn ip(a: u8, b: u8, c: u8, d: u8) -> IpAddr {
    IpAddr::V4(Ipv4Addr::new(a, b, c, d))
}

fn v6(a: u16, b: u16, h: u16) -> IpAddr {
    IpAddr::V6(Ipv6Addr::new(a, b, 0, 0, 0, 0, 0, h))
}

fn local() -> SocketAddr {
    SocketAddr::new(ip(10, 0, 0, 33), 4000)
}

fn server() -> SocketAddr {
    SocketAddr::new(ip(93, 184, 216, 34), 443)
}

fn config(dns: ArgDns) -> RouterConfig {
    RouterConfig {
        proxy_type: ProxyType::Socks5,
        dns,
        dns_addr: ip(8, 8, 8, 8),
        max_sessions: 2,
        exit_on_fatal_error: false,
        udpgw_server: None,
    }
}

fn tcp(router: &mut Router) -> RunAction {
    router.run(RunEvent::Tcp { local: local(), peer: server() })
}

fn looked_up(router: &mut Router, domain: Option<&str>, bypass: bool) -> RunAction {
    router.run(RunEvent::LookedUp { domain: domain.map(|s| s.to_string()), bypass })
}

#[test]
fn manager_goes_by_the_proxy() {
    assert_eq!(choose_manager(true, ProxyType::Http, true), ManagerKind::Given);
    assert_eq!(choose_manager(false, ProxyType::Http, true), ManagerKind::Http { password: true });
    assert_eq!(choose_manager(false, ProxyType::Http, false), ManagerKind::Http { password: false });
    assert_eq!(choose_manager(false, ProxyType::Socks4, true), ManagerKind::Socks { version: 4 });
    assert_eq!(choose_manager(false, ProxyType::Socks5, true), ManagerKind::Socks { version: 5 });
    assert_eq!(choose_manager(false, ProxyType::Direct, true), ManagerKind::NoProxy);
}

#[test]
fn private_dns_is_redirected() {
    let dns = ip(8, 8, 8, 8);
    for private in [
        ip(10, 1, 2, 3),
        ip(127, 0, 0, 53),
        ip(169, 254, 1, 1),
        ip(172, 16, 0, 1),
        ip(172, 31, 255, 255),
        ip(192, 168, 1, 1),
        ip(198, 18, 0, 1),
        ip(198, 19, 255, 255),
        v6(0, 0, 0),
        v6(0, 0, 1),
        v6(0xfc00, 0, 1),
        v6(0xfdff, 0, 1),
        v6(0xfe80, 0, 1),
        IpAddr::V6(Ipv6Addr::new(0, 0, 0, 0, 0, 0xffff, 0xc0a8, 0x0101)),
    ] {
        assert_eq!(route_dst(SocketAddr::new(private, 53), dns), SocketAddr::new(dns, 53), "{private:?}");
        assert_eq!(route_dst(SocketAddr::new(private, 54), dns), SocketAddr::new(private, 54));
    }
    for public in [
        ip(1, 1, 1, 1),
        ip(9, 255, 255, 255),
        ip(11, 0, 0, 0),
        ip(128, 0, 0, 1),
        ip(169, 253, 0, 1),
        ip(172, 15, 0, 1),
        ip(172, 32, 0, 1),
        ip(192, 169, 0, 1),
        ip(198, 17, 0, 1),
        ip(198, 20, 0, 1),
        v6(0, 0, 2),
        v6(0xfbff, 0, 1),
        v6(0xfe00, 0, 1),
        v6(0xfe81, 0, 1),
        v6(0x2001, 0xdb8, 1),
        IpAddr::V6(Ipv6Addr::new(0, 0, 0, 0, 0, 0xffff, 0x0101, 0x0101)),
        IpAddr::V6(Ipv6Addr::new(0, 0, 0, 0, 0, 0xffff, 0xc612, 0x0101)),
    ] {
        assert_eq!(route_dst(SocketAddr::new(public, 53), dns), SocketAddr::new(public, 53), "{public:?}");
    }
    // An address of the other family can take its place.
    let dns6 = v6(0x2001, 0x4860, 0x8888);
    assert_eq!(route_dst(SocketAddr::new(ip(10, 0, 0, 1), 53), dns6), SocketAddr::new(dns6, 53));
}

#[test]
fn sessions_are_limited() {
    let mut router = Router::new(config(ArgDns::Direct));
    for _ in 0..2 {
        assert!(matches!(tcp(&mut router), RunAction::LookUp(_)));
        assert!(matches!(looked_up(&mut router, None, false), RunAction::MakeHandler { .. }));
        assert!(matches!(router.run(RunEvent::HandlerMade(Ok(()))), RunAction::RunTcp(_)));
    }
    assert_eq!(router.task_count(), 2);
    assert!(matches!(tcp(&mut router), RunAction::Accept));
    assert!(matches!(router.run(RunEvent::Udp { local: local(), peer: server() }), RunAction::Accept));
    assert_eq!(router.task_count(), 2);
    assert!(router.any_running());
    router.session_ended();
    assert!(matches!(tcp(&mut router), RunAction::LookUp(_)));
    assert_eq!(router.task_count(), 2);
    // One of the two is still on its way to its handler.
    assert!(router.any_running());
    router.session_ended();
    assert!(!router.any_running());
}

#[test]
fn session_beyond_the_limit_may_end_the_program() {
    let mut router = Router::new(RouterConfig {
        max_sessions: 0,
        exit_on_fatal_error: true,
        ..config(ArgDns::Direct)
    });
    assert!(matches!(tcp(&mut router), RunAction::Exit(0)));
}

#[test]
fn shutdown_tells_the_count() {
    let mut router = Router::new(config(ArgDns::Virtual));
    let peer = SocketAddr::new(ip(1, 1, 1, 1), 53);
    assert!(matches!(router.run(RunEvent::Udp { local: local(), peer }), RunAction::RunVirtualDns(_)));
    assert!(matches!(router.run(RunEvent::Unknown), RunAction::Accept));
    assert!(matches!(router.run(RunEvent::Shutdown), RunAction::Exit(1)));
}

#[test]
fn tcp_session_gets_its_handler() {
    let mut router = Router::new(config(ArgDns::Direct));
    assert!(matches!(tcp(&mut router), RunAction::LookUp(a) if a == server().ip()));
    match looked_up(&mut router, Some("example.com"), false) {
        RunAction::MakeHandler { bypass, info, domain, udp_associate } => {
            assert!(!bypass && !udp_associate);
            assert_eq!(info, SessionInfo::new(local(), server(), IpProtocol::Tcp));
            assert_eq!(domain.as_deref(), Some("example.com"));
        }
        other => panic!("{other:?}"),
    }
    match router.run(RunEvent::HandlerMade(Err(Error::text("no handler")))) {
        RunAction::Fail(e) => assert_eq!(e.message(), "no handler"),
        other => panic!("{other:?}"),
    }
}

#[test]
fn bypass_leaves_the_proxy_out() {
    for resolved in [true, false] {
        let mut router = Router::new(config(ArgDns::Direct));
        let peer = SocketAddr::new(ip(198, 18, 0, 9), 9);
        router.run(RunEvent::Udp { local: local(), peer });
        match looked_up(&mut router, Some("example.com"), true) {
            RunAction::Resolve { info, domain } => {
                assert_eq!(info.dst, peer);
                assert_eq!(domain.as_deref(), Some("example.com"));
            }
            other => panic!("{other:?}"),
        }
        let info = SessionInfo::new(local(), server(), IpProtocol::Udp);
        match router.run(RunEvent::Resolved { bypass: resolved, info }) {
            RunAction::MakeHandler { bypass, info: i, udp_associate, .. } => {
                assert_eq!(bypass, resolved);
                assert_eq!(i, info);
                assert!(udp_associate);
            }
            other => panic!("{other:?}"),
        }
        match router.run(RunEvent::HandlerMade(Ok(()))) {
            RunAction::RunUdp { info: i, proxy_type, first_packet } => {
                assert_eq!(i, info);
                assert_eq!(proxy_type, if resolved { ProxyType::Direct } else { ProxyType::Socks5 });
                assert_eq!(first_packet, None);
            }
            other => panic!("{other:?}"),
        }
    }
}

#[test]
fn dns_goes_by_its_mode() {
    let peer = SocketAddr::new(ip(192, 168, 0, 1), 53);
    let dst = SocketAddr::new(ip(8, 8, 8, 8), 53);
    for dns in [ArgDns::Virtual, ArgDns::OverTcp, ArgDns::Direct, ArgDns::OverProxy] {
        let mut router = Router::new(config(dns));
        let action = router.run(RunEvent::Udp { local: local(), peer });
        if dns == ArgDns::Virtual {
            assert!(matches!(action, RunAction::RunVirtualDns(info) if info.dst == dst));
            continue;
        }
        assert!(matches!(action, RunAction::ReadFirstPacket));
        match router.run(RunEvent::FirstPacket(Some(b"query".to_vec()))) {
            RunAction::AskCache(p) => assert_eq!(p, b"query"),
            other => panic!("{other:?}"),
        }
        match (dns, router.run(RunEvent::CacheAsked(false))) {
            (ArgDns::OverTcp, RunAction::RunDnsOverTcp { info, first_packet }) => {
                assert_eq!(info.dst, dst);
                assert_eq!(first_packet, b"query");
            }
            (ArgDns::Direct, RunAction::RunDirectDns { dst: d, first_packet }) => {
                assert_eq!(d, dst);
                assert_eq!(first_packet, b"query");
            }
            (ArgDns::OverProxy, RunAction::LookUp(a)) => {
                assert_eq!(a, peer.ip());
                looked_up(&mut router, None, false);
                match router.run(RunEvent::HandlerMade(Ok(()))) {
                    RunAction::RunUdp { info, first_packet, .. } => {
                        assert_eq!(info.dst, dst);
                        assert_eq!(first_packet, Some(b"query".to_vec()));
                    }
                    other => panic!("{other:?}"),
                }
            }
            (_, other) => panic!("{other:?}"),
        }
        assert_eq!(router.task_count(), 1);
    }
}

#[test]
fn answered_dns_session_is_over() {
    let peer = SocketAddr::new(ip(1, 1, 1, 1), 53);
    let mut router = Router::new(config(ArgDns::Direct));
    router.run(RunEvent::Udp { local: local(), peer });
    router.run(RunEvent::FirstPacket(Some(b"query".to_vec())));
    assert_eq!(router.task_count(), 1);
    assert!(matches!(router.run(RunEvent::CacheAsked(true)), RunAction::Accept));
    assert_eq!(router.task_count(), 0);
    router.run(RunEvent::Udp { local: local(), peer });
    assert!(matches!(router.run(RunEvent::FirstPacket(None)), RunAction::Accept));
    assert_eq!(router.task_count(), 0);
}

#[test]
fn udp_without_handler_is_dropped() {
    let mut router = Router::new(config(ArgDns::Direct));
    router.run(RunEvent::Udp { local: local(), peer: server() });
    looked_up(&mut router, None, false);
    assert!(matches!(router.run(RunEvent::HandlerMade(Err(Error::text("no")))), RunAction::Accept));
    assert_eq!(router.task_count(), 0);
    assert!(matches!(router.run(RunEvent::Shutdown), RunAction::Exit(0)));
}

#[test]
fn gateway_takes_udp() {
    let gateway = SocketAddr::new(ip(127, 0, 0, 1), 7300);
    for domain in [None, Some("example.com"), Some("10.0.0.5"), Some("fd00::7")] {
        let mut router = Router::new(RouterConfig { udpgw_server: Some(gateway), ..config(ArgDns::Direct) });
        router.run(RunEvent::Udp { local: local(), peer: server() });
        match looked_up(&mut router, domain, false) {
            RunAction::MakeHandler { bypass: false, info, domain: None, udp_associate: false } => {
                assert_eq!(info.src.to_text(), "0.0.0.0:0");
                assert_eq!(info.dst, gateway);
                assert_eq!(info.protocol, IpProtocol::Tcp);
            }
            other => panic!("{other:?}"),
        }
        match router.run(RunEvent::HandlerMade(Ok(()))) {
            RunAction::RunGateway { info, target, .. } => {
                assert_eq!(info.dst, server());
                match (domain, target) {
                    (None, UdpTarget::Address(a)) => assert_eq!(a, server()),
                    (Some("10.0.0.5"), UdpTarget::Address(a)) => {
                        assert_eq!(a, SocketAddr::new(ip(10, 0, 0, 5), 443));
                    }
                    (Some("fd00::7"), UdpTarget::Address(a)) => {
                        let ip = IpAddr::V6(Ipv6Addr::new(0xfd00, 0, 0, 0, 0, 0, 0, 7));
                        assert_eq!(a, SocketAddr::new(ip, 443));
                    }
                    (Some(d), UdpTarget::Domain(name, 443)) => assert_eq!(name, d),
                    (_, other) => panic!("{other:?}"),
                }
            }
            other => panic!("{other:?}"),
        }
    }
    // A TCP session takes the proxy.
    let mut router = Router::new(RouterConfig { udpgw_server: Some(gateway), ..config(ArgDns::Direct) });
    tcp(&mut router);
    looked_up(&mut router, None, false);
    assert!(matches!(router.run(RunEvent::HandlerMade(Ok(()))), RunAction::RunTcp(_)));
}

#[test]
fn private_networks_of_ipv4() {
    let dns = ip(8, 8, 8, 8);
    for a in 0..=255u8 {
        for b in [0, 15, 16, 17, 18, 19, 20, 31, 32, 167, 168, 169, 253, 254, 255u8] {
            let private = a == 10
                || a == 127
                || (a, b) == (169, 254)
                || (a == 172 && (16..32).contains(&b))
                || (a, b) == (192, 168)
                || (a == 198 && (b == 18 || b == 19));
            let redirected = route_dst(SocketAddr::new(ip(a, b, 1, 2), 53), dns).ip() == dns;
            assert_eq!(redirected, private, "{a}.{b}");
        }
    }
}

#[test]
fn private_networks_of_ipv6() {
    let dns = ip(8, 8, 8, 8);
    for first in (0..=0xff00u16).step_by(0x100).chain((0xfbf0..=0xff00).step_by(0x10)).chain(0xfe70..0xfe90) {
        let private = (0xfc00..0xfe00).contains(&first) || first == 0xfe80;
        let addr = IpAddr::V6(Ipv6Addr::new(first, 1, 2, 3, 4, 5, 6, 7));
        assert_eq!(route_dst(SocketAddr::new(addr, 53), dns).ip() == dns, private, "{first:x}");
    }
}
