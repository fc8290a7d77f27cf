//! The routing of accepted sessions: which of them are taken, and through what each of them
//! goes.
//!
//! The router decides; accepting, looking up and spawning are left to the caller, who
//! performs the action that it is given and comes back with the event.

use vstd::prelude::*;

use hickory_proto::rr::RData;
use socks5_impl::protocol::Address;

use crate::dns::DNS_PORT;
use crate::error::{Error, ErrorView};
use crate::net::{law_v4_text, IpAddr, Ipv4Addr, Ipv6Addr, SocketAddr};
use crate::proxy_handler::{ProxyType, UdpTarget, UdpTargetView};
use crate::session_info::{IpProtocol, SessionInfo};

verus! {

/// How DNS queries are treated.
#[derive(Clone, Copy, PartialEq, Eq, Structural, Debug)]
pub enum ArgDns {
    /// Answered with invented addresses.
    Virtual,
    /// Sent over one shared TCP connection through the proxy.
    OverTcp,
    /// Sent to the DNS server without the proxy.
    Direct,
    /// Sent through the proxy like any other packet.
    OverProxy,
}

/// What routing depends on.
#[derive(Clone, Copy, PartialEq, Eq, Structural, Debug)]
pub struct RouterConfig {
    pub proxy_type: ProxyType,
    pub dns: ArgDns,
    pub dns_addr: IpAddr,
    pub max_sessions: usize,
    pub exit_on_fatal_error: bool,
    /// The gateway through which UDP packets go, where there is one.
    pub udpgw_server: Option<SocketAddr>,
}

/// How connections to the proxy are made.
#[derive(Clone, Copy, PartialEq, Eq, Structural, Debug)]
pub enum ManagerKind {
    /// As the caller does it.
    Given,
    /// By SOCKS in this version.
    Socks { version: u8 },
    /// By HTTP, with a password where there are credentials.
    Http { password: bool },
    /// Not at all.
    NoProxy,
}

/// How connections to the proxy are made: as the caller does it, or by the protocol of the
/// proxy.
pub open spec fn manager_for(given: bool, proxy_type: ProxyType, has_credentials: bool) -> ManagerKind {
    if given {
        ManagerKind::Given
    } else {
        match proxy_type {
            ProxyType::Socks5 => ManagerKind::Socks { version: 5 },
            ProxyType::Socks4 => ManagerKind::Socks { version: 4 },
            ProxyType::Http => ManagerKind::Http { password: has_credentials },
            ProxyType::Direct => ManagerKind::NoProxy,
        }
    }
}

/// How connections to the proxy are made: as the caller does it, or by the protocol of the
/// proxy.
pub fn choose_manager(given: bool, proxy_type: ProxyType, has_credentials: bool) -> (r: ManagerKind)
    ensures
        r == manager_for(given, proxy_type, has_credentials),
        r == (if given {
            ManagerKind::Given
        } else {
            match proxy_type {
                ProxyType::Socks5 => ManagerKind::Socks { version: 5 },
                ProxyType::Socks4 => ManagerKind::Socks { version: 4 },
                ProxyType::Http => ManagerKind::Http { password: has_credentials },
                ProxyType::Direct => ManagerKind::NoProxy,
            }
        }),
{
    if given {
        return ManagerKind::Given;
    }
    match proxy_type {
        ProxyType::Socks5 => ManagerKind::Socks { version: 5 },
        ProxyType::Socks4 => ManagerKind::Socks { version: 4 },
        ProxyType::Http => ManagerKind::Http { password: has_credentials },
        ProxyType::Direct => ManagerKind::NoProxy,
    }
}

/// Whether IPv4 addresses that begin with the octets `a` and `b` are private, loopback or
/// link-local ones.
pub open spec fn private_prefix(a: u8, b: u8) -> bool {
    ||| a == 10
    ||| a == 127
    ||| a == 169 && b == 254
    ||| a == 172 && 16 <= b <= 31
    ||| a == 192 && b == 168
}

/// Whether `ip` is an address of a private network: for IPv4 those of private, loopback,
/// link-local and benchmark networks, for IPv6 those that stand for one of the first three
/// kinds, unique local and `fe80` ones, the loopback address and the unspecified one.
pub open spec fn private_ip(ip: IpAddr) -> bool {
    match ip {
        IpAddr::V4(v4) => {
            let o = v4.spec_octets();
            private_prefix(o[0], o[1]) || (o[0] == 198 && 18 <= o[1] <= 19)
        },
        IpAddr::V6(v6) => {
            let o = v6.embedded_v4().spec_octets();
            let first = v6.spec_segments()[0];
            ||| v6.is_v4_mapped() && private_prefix(o[0], o[1])
            ||| 0xfc00 <= first <= 0xfdff
            ||| first == 0xfe80
            ||| v6.bits <= 1
        },
    }
}

/// `tproxy_config::is_private_ip`: whether `ip` is an address of a private network.
#[verifier::external_body]
fn is_private_ip(ip: IpAddr) -> (r: bool)
    ensures
        r == private_ip(ip),
{
    tproxy_config::is_private_ip(match ip {
        IpAddr::V4(v4) => v4.bits.to_be_bytes().into(),
        IpAddr::V6(v6) => v6.bits.to_be_bytes().into(),
    })
}

/// The destination of a UDP session: that of its packets, but for DNS queries to an address
/// of a private network, which go to the DNS server `dns_addr`.
pub open spec fn routed_dst(peer: SocketAddr, dns_addr: IpAddr) -> SocketAddr {
    if peer.spec_port() == DNS_PORT && private_ip(peer.spec_ip()) {
        peer.spec_with_ip(dns_addr)
    } else {
        peer
    }
}

/// The destination of a UDP session whose packets go to `peer`.
pub fn route_dst(peer: SocketAddr, dns_addr: IpAddr) -> (r: SocketAddr)
    ensures
        r == routed_dst(peer, dns_addr),
{
    if peer.port() == DNS_PORT && is_private_ip(peer.ip()) {
        peer.with_ip(dns_addr)
    } else {
        peer
    }
}

/// A session that has been taken and is on its way to its handler: its ends, where its first
/// packets go, and the packet that has been read from it.
#[derive(Debug)]
pub struct Candidate {
    pub info: SessionInfo,
    pub peer: SocketAddr,
    pub first_packet: Option<Vec<u8>>,
}

/// A session on its way to its handler, in mathematical terms.
pub struct CandidateView {
    pub info: SessionInfo,
    pub peer: SocketAddr,
    pub first_packet: Option<Seq<u8>>,
}

/// A packet, in mathematical terms.
pub open spec fn packet_view(packet: Option<Vec<u8>>) -> Option<Seq<u8>> {
    match packet {
        Some(p) => Some(p@),
        None => None,
    }
}

/// A name, in mathematical terms.
pub open spec fn name_view(name: Option<String>) -> Option<Seq<char>> {
    match name {
        Some(s) => Some(s@),
        None => None,
    }
}

impl View for Candidate {
    type V = CandidateView;

    open spec fn view(&self) -> CandidateView {
        CandidateView {
            info: self.info,
            peer: self.peer,
            first_packet: packet_view(self.first_packet),
        }
    }
}

/// What the router waits for.
#[derive(Debug)]
pub enum Stage {
    /// The next session.
    Accepting,
    /// The first packet of a DNS session.
    FirstPacket(Candidate),
    /// The answer of the cache to the first packet.
    AskingCache(Candidate),
    /// What is known of the destination.
    LookingUp(Candidate),
    /// The address of a destination that is to be reached without the proxy.
    Resolving(Candidate, Option<String>),
    /// The handler of the session; `bypass` says whether the proxy is left out.
    Handling { candidate: Candidate, bypass: bool },
    /// The handler of the connection to the gateway.
    HandlingGateway { candidate: Candidate, domain: Option<String> },
    /// Nothing: the router has ended.
    Ended,
}

/// What the router waits for, in mathematical terms.
pub enum StageView {
    Accepting,
    FirstPacket(CandidateView),
    AskingCache(CandidateView),
    LookingUp(CandidateView),
    Resolving(CandidateView, Option<Seq<char>>),
    Handling { candidate: CandidateView, bypass: bool },
    HandlingGateway { candidate: CandidateView, domain: Option<Seq<char>> },
    Ended,
}

impl View for Stage {
    type V = StageView;

    open spec fn view(&self) -> StageView {
        match self {
            Stage::Accepting => StageView::Accepting,
            Stage::FirstPacket(c) => StageView::FirstPacket(c@),
            Stage::AskingCache(c) => StageView::AskingCache(c@),
            Stage::LookingUp(c) => StageView::LookingUp(c@),
            Stage::Resolving(c, domain) => StageView::Resolving(c@, name_view(*domain)),
            Stage::Handling { candidate, bypass } => StageView::Handling {
                candidate: candidate@,
                bypass: *bypass,
            },
            Stage::HandlingGateway { candidate, domain } => StageView::HandlingGateway {
                candidate: candidate@,
                domain: name_view(*domain),
            },
            Stage::Ended => StageView::Ended,
        }
    }
}

/// What has happened.
#[derive(Debug)]
pub enum RunEvent {
    /// The program is to end.
    Shutdown,
    /// A TCP session has come.
    Tcp { local: SocketAddr, peer: SocketAddr },
    /// A UDP session has come.
    Udp { local: SocketAddr, peer: SocketAddr },
    /// Something else has come.
    Unknown,
    /// The first packet has been read; there is none where reading failed or nothing came.
    FirstPacket(Option<Vec<u8>>),
    /// The cache has been asked; it has answered the packet or not.
    CacheAsked(bool),
    /// The destination has been looked up: its domain name, and whether the patterns say
    /// that it is to be reached without the proxy.
    LookedUp { domain: Option<String>, bypass: bool },
    /// The destination that is to be reached without the proxy has been resolved, or it is
    /// to be reached through the proxy after all.
    Resolved { bypass: bool, info: SessionInfo },
    /// The handler has been made, or it could not be.
    HandlerMade(Result<(), Error>),
}

/// What has happened, in mathematical terms.
pub enum RunEventView {
    Shutdown,
    Tcp { local: SocketAddr, peer: SocketAddr },
    Udp { local: SocketAddr, peer: SocketAddr },
    Unknown,
    FirstPacket(Option<Seq<u8>>),
    CacheAsked(bool),
    LookedUp { domain: Option<Seq<char>>, bypass: bool },
    Resolved { bypass: bool, info: SessionInfo },
    HandlerMade(Result<(), ErrorView>),
}

impl View for RunEvent {
    type V = RunEventView;

    open spec fn view(&self) -> RunEventView {
        match self {
            RunEvent::Shutdown => RunEventView::Shutdown,
            RunEvent::Tcp { local, peer } => RunEventView::Tcp { local: *local, peer: *peer },
            RunEvent::Udp { local, peer } => RunEventView::Udp { local: *local, peer: *peer },
            RunEvent::Unknown => RunEventView::Unknown,
            RunEvent::FirstPacket(p) => RunEventView::FirstPacket(packet_view(*p)),
            RunEvent::CacheAsked(answered) => RunEventView::CacheAsked(*answered),
            RunEvent::LookedUp { domain, bypass } => RunEventView::LookedUp {
                domain: name_view(*domain),
                bypass: *bypass,
            },
            RunEvent::Resolved { bypass, info } => RunEventView::Resolved {
                bypass: *bypass,
                info: *info,
            },
            RunEvent::HandlerMade(Ok(_)) => RunEventView::HandlerMade(Ok(())),
            RunEvent::HandlerMade(Err(e)) => RunEventView::HandlerMade(Err(e@)),
        }
    }
}

/// What is to be done.
#[derive(Debug)]
pub enum RunAction {
    /// Wait for the next session. The one that has just come, if any, is dropped.
    Accept,
    /// End, with so many sessions still running.
    Exit(usize),
    /// End with this error.
    Fail(Error),
    /// Read the first packet.
    ReadFirstPacket,
    /// Ask the cache for an answer to this packet.
    AskCache(Vec<u8>),
    /// Look up what is known of this address.
    LookUp(IpAddr),
    /// Resolve the destination, which is to be reached without the proxy.
    Resolve { info: SessionInfo, domain: Option<String> },
    /// Make a handler: without the proxy, where `bypass` says so.
    MakeHandler { bypass: bool, info: SessionInfo, domain: Option<String>, udp_associate: bool },
    /// Run a session that answers DNS queries with invented addresses.
    RunVirtualDns(SessionInfo),
    /// Run a session that sends DNS queries over the shared connection.
    RunDnsOverTcp { info: SessionInfo, first_packet: Vec<u8> },
    /// Run a session that sends DNS queries to this server.
    RunDirectDns { dst: SocketAddr, first_packet: Vec<u8> },
    /// Run a TCP session with the handler.
    RunTcp(SessionInfo),
    /// Run a UDP session with the handler.
    RunUdp { info: SessionInfo, proxy_type: ProxyType, first_packet: Option<Vec<u8>> },
    /// Run a UDP session through the gateway with the handler.
    RunGateway { info: SessionInfo, target: UdpTarget, first_packet: Option<Vec<u8>> },
}

/// What is to be done, in mathematical terms.
pub enum RunActionView {
    Accept,
    Exit(usize),
    Fail(ErrorView),
    ReadFirstPacket,
    AskCache(Seq<u8>),
    LookUp(IpAddr),
    Resolve { info: SessionInfo, domain: Option<Seq<char>> },
    MakeHandler { bypass: bool, info: SessionInfo, domain: Option<Seq<char>>, udp_associate: bool },
    RunVirtualDns(SessionInfo),
    RunDnsOverTcp { info: SessionInfo, first_packet: Seq<u8> },
    RunDirectDns { dst: SocketAddr, first_packet: Seq<u8> },
    RunTcp(SessionInfo),
    RunUdp { info: SessionInfo, proxy_type: ProxyType, first_packet: Option<Seq<u8>> },
    RunGateway { info: SessionInfo, target: UdpTargetView, first_packet: Option<Seq<u8>> },
}

impl View for RunAction {
    type V = RunActionView;

    open spec fn view(&self) -> RunActionView {
        match self {
            RunAction::Accept => RunActionView::Accept,
            RunAction::Exit(n) => RunActionView::Exit(*n),
            RunAction::Fail(e) => RunActionView::Fail(e@),
            RunAction::ReadFirstPacket => RunActionView::ReadFirstPacket,
            RunAction::AskCache(p) => RunActionView::AskCache(p@),
            RunAction::LookUp(ip) => RunActionView::LookUp(*ip),
            RunAction::Resolve { info, domain } => RunActionView::Resolve {
                info: *info,
                domain: name_view(*domain),
            },
            RunAction::MakeHandler { bypass, info, domain, udp_associate } => {
                RunActionView::MakeHandler {
                    bypass: *bypass,
                    info: *info,
                    domain: name_view(*domain),
                    udp_associate: *udp_associate,
                }
            },
            RunAction::RunVirtualDns(info) => RunActionView::RunVirtualDns(*info),
            RunAction::RunDnsOverTcp { info, first_packet } => RunActionView::RunDnsOverTcp {
                info: *info,
                first_packet: first_packet@,
            },
            RunAction::RunDirectDns { dst, first_packet } => RunActionView::RunDirectDns {
                dst: *dst,
                first_packet: first_packet@,
            },
            RunAction::RunTcp(info) => RunActionView::RunTcp(*info),
            RunAction::RunUdp { info, proxy_type, first_packet } => RunActionView::RunUdp {
                info: *info,
                proxy_type: *proxy_type,
                first_packet: packet_view(*first_packet),
            },
            RunAction::RunGateway { info, target, first_packet } => RunActionView::RunGateway {
                info: *info,
                target: target@,
                first_packet: packet_view(*first_packet),
            },
        }
    }
}

/// The router, in mathematical terms: what routing depends on, how many sessions there are,
/// and what the router waits for.
pub struct RouterView {
    pub config: RouterConfig,
    pub task_count: nat,
    pub stage: StageView,
}

/// The unspecified address of the family of `peer`, with the port zero.
pub open spec fn unspecified_like(peer: SocketAddr) -> SocketAddr {
    match peer {
        SocketAddr::V4(_) => SocketAddr::spec_new(IpAddr::V4(Ipv4Addr { bits: 0 }), 0),
        SocketAddr::V6(_) => SocketAddr::spec_new(IpAddr::V6(Ipv6Addr { bits: 0 }), 0),
    }
}

/// The address that `socks5_impl::protocol::Address::from` reads in the host `text`, where
/// it is the text of one.
pub uninterp spec fn host_address(text: Seq<char>) -> Option<IpAddr>;

/// The destination with the host `host`: the address of which it is the text, or the domain
/// name.
pub open spec fn named_target(host: Seq<char>, port: u16) -> UdpTargetView {
    match host_address(host) {
        Some(ip) => UdpTargetView::Address(SocketAddr::spec_new(ip, port)),
        None => UdpTargetView::Domain(host, port),
    }
}

/// `socks5_impl::protocol::Address::from` on a host and a port: the address with that port,
/// where the host is the text of an address, or the host as a domain name with that port.
///
/// `hickory_proto::rr::RData::from` tells the two families of addresses apart.
#[verifier::external_body]
fn target_for(host: &str, port: u16) -> (r: UdpTarget)
    ensures
        r@ == match host_address(host@) {
            Some(ip) => UdpTargetView::Address(SocketAddr::spec_new(ip, port)),
            None => UdpTargetView::Domain(host@, port),
        },
{
    match Address::from((host, port)) {
        Address::SocketAddress(a) => UdpTarget::Address(SocketAddr::new(match RData::from(a.ip()) {
            RData::AAAA(ip) => IpAddr::V6(Ipv6Addr { bits: ip.0.into() }),
            RData::A(ip) => IpAddr::V4(Ipv4Addr { bits: ip.0.into() }),
            _ => IpAddr::V4(Ipv4Addr { bits: 0 }),
        }, a.port())),
        Address::DomainAddress(name, port) => UdpTarget::Domain(name.into(), port),
    }
}

/// Where the packets of a session through the gateway go: to the name of the destination,
/// where it is known, or to its address.
pub open spec fn gateway_target(dst: SocketAddr, domain: Option<Seq<char>>) -> UdpTargetView {
    match domain {
        Some(name) => named_target(name, dst.spec_port()),
        None => UdpTargetView::Address(dst),
    }
}

impl RouterView {
    /// How many of the sessions that are counted are on their way to their handlers.
    pub open spec fn on_the_way(self) -> nat {
        if self.stage is Accepting || self.stage is Ended {
            0
        } else {
            1
        }
    }

    /// Whether the router counts no more sessions than it may, the one on its way among them.
    pub open spec fn wf(self) -> bool {
        &&& self.task_count <= self.config.max_sessions
        &&& match self.stage {
            StageView::Accepting => true,
            StageView::Ended => true,
            StageView::AskingCache(c) => self.task_count > 0 && c.first_packet is Some,
            _ => self.task_count > 0,
        }
    }

    /// Whether `event` is what the router waits for.
    pub open spec fn expects(self, event: RunEventView) -> bool {
        match event {
            RunEventView::Shutdown => self.stage is Accepting,
            RunEventView::Tcp { .. } => self.stage is Accepting,
            RunEventView::Udp { .. } => self.stage is Accepting,
            RunEventView::Unknown => self.stage is Accepting,
            RunEventView::FirstPacket(_) => self.stage is FirstPacket,
            RunEventView::CacheAsked(_) => self.stage is AskingCache,
            RunEventView::LookedUp { .. } => self.stage is LookingUp,
            RunEventView::Resolved { info, .. } => self.stage is Resolving && info.protocol
                == self.stage->Resolving_0.info.protocol,
            RunEventView::HandlerMade(_) => self.stage is Handling || self.stage
                is HandlingGateway,
        }
    }

    /// The router once it waits for the next session.
    pub open spec fn accepting(self) -> RouterView {
        RouterView { stage: StageView::Accepting, ..self }
    }

    /// The router once the session at hand is over.
    pub open spec fn released(self) -> RouterView {
        RouterView {
            task_count: (self.task_count - 1) as nat,
            stage: StageView::Accepting,
            ..self
        }
    }

    /// A new session beyond the limit ends the program, or is dropped.
    pub open spec fn refuse(self) -> (RouterView, RunActionView) {
        if self.config.exit_on_fatal_error {
            (
                RouterView { stage: StageView::Ended, ..self },
                RunActionView::Exit(self.task_count as usize),
            )
        } else {
            (self, RunActionView::Accept)
        }
    }

    /// Looks up the destination of a session that has been taken.
    pub open spec fn look_up(self, c: CandidateView) -> (RouterView, RunActionView) {
        (
            RouterView { stage: StageView::LookingUp(c), ..self },
            RunActionView::LookUp(c.peer.spec_ip()),
        )
    }

    /// Has a handler made for the session `c` with the ends `info`.
    pub open spec fn make_handler(
        self,
        c: CandidateView,
        info: SessionInfo,
        domain: Option<Seq<char>>,
        bypass: bool,
    ) -> (RouterView, RunActionView) {
        (
            RouterView {
                stage: StageView::Handling {
                    candidate: CandidateView { info, ..c },
                    bypass,
                },
                ..self
            },
            RunActionView::MakeHandler {
                bypass,
                info,
                domain,
                udp_associate: c.info.protocol == IpProtocol::Udp,
            },
        )
    }

    /// What the event `event` leads to.
    pub open spec fn step(self, event: RunEventView) -> (RouterView, RunActionView) {
        match event {
            RunEventView::Shutdown => (
                RouterView { stage: StageView::Ended, ..self },
                RunActionView::Exit(self.task_count as usize),
            ),
            RunEventView::Unknown => (self, RunActionView::Accept),
            RunEventView::Tcp { local, peer } => if self.task_count >= self.config.max_sessions {
                self.refuse()
            } else {
                RouterView { task_count: self.task_count + 1, ..self }.look_up(
                    CandidateView {
                        info: SessionInfo { src: local, dst: peer, protocol: IpProtocol::Tcp },
                        peer,
                        first_packet: None,
                    },
                )
            },
            RunEventView::Udp { local, peer } => if self.task_count >= self.config.max_sessions {
                self.refuse()
            } else {
                let r = RouterView { task_count: self.task_count + 1, ..self };
                let c = CandidateView {
                    info: SessionInfo {
                        src: local,
                        dst: routed_dst(peer, self.config.dns_addr),
                        protocol: IpProtocol::Udp,
                    },
                    peer,
                    first_packet: None,
                };
                if peer.spec_port() != DNS_PORT {
                    r.look_up(c)
                } else if self.config.dns == ArgDns::Virtual {
                    (r.accepting(), RunActionView::RunVirtualDns(c.info))
                } else {
                    (
                        RouterView { stage: StageView::FirstPacket(c), ..r },
                        RunActionView::ReadFirstPacket,
                    )
                }
            },
            RunEventView::FirstPacket(packet) => {
                let c = self.stage->FirstPacket_0;
                match packet {
                    None => (self.released(), RunActionView::Accept),
                    Some(p) => (
                        RouterView {
                            stage: StageView::AskingCache(
                                CandidateView { first_packet: Some(p), ..c },
                            ),
                            ..self
                        },
                        RunActionView::AskCache(p),
                    ),
                }
            },
            RunEventView::CacheAsked(answered) => {
                let c = self.stage->AskingCache_0;
                let p = c.first_packet.unwrap();
                if answered {
                    (self.released(), RunActionView::Accept)
                } else if self.config.dns == ArgDns::OverTcp {
                    (
                        self.accepting(),
                        RunActionView::RunDnsOverTcp { info: c.info, first_packet: p },
                    )
                } else if self.config.dns == ArgDns::Direct {
                    (
                        self.accepting(),
                        RunActionView::RunDirectDns { dst: c.info.dst, first_packet: p },
                    )
                } else {
                    self.look_up(c)
                }
            },
            RunEventView::LookedUp { domain, bypass } => {
                let c = self.stage->LookingUp_0;
                if bypass {
                    (
                        RouterView { stage: StageView::Resolving(c, domain), ..self },
                        RunActionView::Resolve { info: c.info, domain },
                    )
                } else {
                    match self.config.udpgw_server {
                        Some(server) if c.info.protocol == IpProtocol::Udp => (
                            RouterView {
                                stage: StageView::HandlingGateway { candidate: c, domain },
                                ..self
                            },
                            RunActionView::MakeHandler {
                                bypass: false,
                                info: SessionInfo {
                                    src: unspecified_like(c.peer),
                                    dst: server,
                                    protocol: IpProtocol::Tcp,
                                },
                                domain: None,
                                udp_associate: false,
                            },
                        ),
                        _ => self.make_handler(c, c.info, domain, false),
                    }
                }
            },
            RunEventView::Resolved { bypass, info } => {
                let c = self.stage->Resolving_0;
                self.make_handler(c, info, self.stage->Resolving_1, bypass)
            },
            RunEventView::HandlerMade(result) => match self.stage {
                StageView::HandlingGateway { candidate: c, domain } => match result {
                    Ok(_) => (
                        self.accepting(),
                        RunActionView::RunGateway {
                            info: c.info,
                            target: gateway_target(c.info.dst, domain),
                            first_packet: c.first_packet,
                        },
                    ),
                    Err(e) => (
                        RouterView { stage: StageView::Ended, ..self },
                        RunActionView::Fail(e),
                    ),
                },
                StageView::Handling { candidate: c, bypass } => if c.info.protocol
                    == IpProtocol::Udp {
                    match result {
                        Ok(_) => (
                            self.accepting(),
                            RunActionView::RunUdp {
                                info: c.info,
                                proxy_type: if bypass {
                                    ProxyType::Direct
                                } else {
                                    self.config.proxy_type
                                },
                                first_packet: c.first_packet,
                            },
                        ),
                        Err(_) => (self.released(), RunActionView::Accept),
                    }
                } else {
                    match result {
                        Ok(_) => (self.accepting(), RunActionView::RunTcp(c.info)),
                        Err(e) => (
                            RouterView { stage: StageView::Ended, ..self },
                            RunActionView::Fail(e),
                        ),
                    }
                },
                _ => (self, RunActionView::Accept),
            },
        }
    }
}

/// The router.
pub struct Router {
    config: RouterConfig,
    task_count: usize,
    stage: Stage,
}

impl View for Router {
    type V = RouterView;

    closed spec fn view(&self) -> RouterView {
        RouterView {
            config: self.config,
            task_count: self.task_count as nat,
            stage: self.stage@,
        }
    }
}

impl Router {
    #[verifier::type_invariant]
    spec fn inv(self) -> bool {
        self@.wf()
    }
}

fn unspecified_source(peer: SocketAddr) -> (r: SocketAddr)
    ensures
        r == unspecified_like(peer),
{
    match peer {
        SocketAddr::V4(_) => SocketAddr::new(IpAddr::V4(Ipv4Addr { bits: 0 }), 0),
        SocketAddr::V6(_) => SocketAddr::new(IpAddr::V6(Ipv6Addr { bits: 0 }), 0),
    }
}

fn copy_packet(packet: &Vec<u8>) -> (r: Vec<u8>)
    ensures
        r@ == packet@,
{
    let mut out: Vec<u8> = Vec::new();
    out.extend_from_slice(packet.as_slice());
    assert(out@ =~= packet@);
    out
}

fn copy_name(name: &Option<String>) -> (r: Option<String>)
    ensures
        name_view(r) == name_view(*name),
{
    match name {
        Some(s) => Some(s.clone()),
        None => None,
    }
}

impl Router {
    /// The router at its start.
    pub fn new(config: RouterConfig) -> (r: Router)
        ensures
            r@ == RouterView::started(config),
            r@ == (RouterView { config, task_count: 0, stage: StageView::Accepting }),
            r@.wf(),
    {
        Router { config, task_count: 0, stage: Stage::Accepting }
    }

    /// How many sessions there are.
    pub fn task_count(&self) -> (r: usize)
        ensures
            r == self@.task_count,
    {
        self.task_count
    }

    /// Whether there is a session that has its handler.
    pub fn any_running(&self) -> (r: bool)
        ensures
            r == (self@.task_count > self@.on_the_way()),
    {
        match self.stage {
            Stage::Accepting | Stage::Ended => self.task_count > 0,
            _ => self.task_count > 1,
        }
    }

    /// Counts a session that has ended, which is none on its way to its handler.
    pub fn session_ended(&mut self)
        requires
            old(self)@.task_count > old(self)@.on_the_way(),
        ensures
            final(self)@.wf(),
            final(self)@ == (RouterView {
                task_count: (old(self)@.task_count - 1) as nat,
                ..old(self)@
            }),
    {
        proof {
            use_type_invariant(&*self);
        }
        self.task_count = self.task_count - 1;
    }

    fn refuse(&mut self) -> (action: RunAction)
        requires
            old(self)@.stage is Accepting,
        ensures
            (final(self)@, action@) == old(self)@.refuse(),
    {
        proof {
            use_type_invariant(&*self);
        }
        if self.config.exit_on_fatal_error {
            self.stage = Stage::Ended;
            RunAction::Exit(self.task_count)
        } else {
            RunAction::Accept
        }
    }

    fn look_up(&mut self, c: Candidate) -> (action: RunAction)
        requires
            old(self)@.task_count > 0,
        ensures
            (final(self)@, action@) == old(self)@.look_up(c@),
    {
        proof {
            use_type_invariant(&*self);
        }
        let ip: IpAddr = c.peer.ip();
        self.stage = Stage::LookingUp(c);
        RunAction::LookUp(ip)
    }

    fn make_handler(
        &mut self,
        c: Candidate,
        info: SessionInfo,
        domain: Option<String>,
        bypass: bool,
    ) -> (action: RunAction)
        requires
            old(self)@.task_count > 0,
        ensures
            (final(self)@, action@) == old(self)@.make_handler(c@, info, name_view(domain), bypass),
    {
        proof {
            use_type_invariant(&*self);
        }
        let udp_associate: bool = c.info.protocol == IpProtocol::Udp;
        self.stage = Stage::Handling {
            candidate: Candidate { info, peer: c.peer, first_packet: c.first_packet },
            bypass,
        };
        RunAction::MakeHandler { bypass, info, domain, udp_associate }
    }

    /// What the event `event` leads to.
    pub fn run(&mut self, event: RunEvent) -> (action: RunAction)
        requires
            old(self)@.expects(event@),
        ensures
            (final(self)@, action@) == old(self)@.step(event@),
            final(self)@.wf(),
    {
        proof {
            use_type_invariant(&*self);
        }
        match event {
            RunEvent::Shutdown => {
                self.stage = Stage::Ended;
                RunAction::Exit(self.task_count)
            },
            RunEvent::Unknown => RunAction::Accept,
            RunEvent::Tcp { local, peer } => {
                if self.task_count >= self.config.max_sessions {
                    return self.refuse();
                }
                self.task_count = self.task_count + 1;
                let info: SessionInfo = SessionInfo::new(local, peer, IpProtocol::Tcp);
                self.look_up(Candidate { info, peer, first_packet: None })
            },
            RunEvent::Udp { local, peer } => {
                if self.task_count >= self.config.max_sessions {
                    return self.refuse();
                }
                self.task_count = self.task_count + 1;
                let dst: SocketAddr = route_dst(peer, self.config.dns_addr);
                let info: SessionInfo = SessionInfo::new(local, dst, IpProtocol::Udp);
                let c: Candidate = Candidate { info, peer, first_packet: None };
                if peer.port() != DNS_PORT {
                    return self.look_up(c);
                }
                if self.config.dns == ArgDns::Virtual {
                    return RunAction::RunVirtualDns(info);
                }
                self.stage = Stage::FirstPacket(c);
                RunAction::ReadFirstPacket
            },
            RunEvent::FirstPacket(packet) => {
                let mut stage: Stage = Stage::Accepting;
                std::mem::swap(&mut stage, &mut self.stage);
                if let Stage::FirstPacket(c) = stage {
                    match packet {
                        None => {
                            self.task_count = self.task_count - 1;
                            RunAction::Accept
                        },
                        Some(p) => {
                            let copy: Vec<u8> = copy_packet(&p);
                            self.stage = Stage::AskingCache(
                                Candidate { info: c.info, peer: c.peer, first_packet: Some(p) },
                            );
                            RunAction::AskCache(copy)
                        },
                    }
                } else {
                    RunAction::Accept
                }
            },
            RunEvent::CacheAsked(answered) => {
                let mut stage: Stage = Stage::Accepting;
                std::mem::swap(&mut stage, &mut self.stage);
                if let Stage::AskingCache(c) = stage {
                    if answered {
                        self.task_count = self.task_count - 1;
                        return RunAction::Accept;
                    }
                    if self.config.dns == ArgDns::OverTcp || self.config.dns == ArgDns::Direct {
                        if let Some(p) = c.first_packet {
                            if self.config.dns == ArgDns::OverTcp {
                                return RunAction::RunDnsOverTcp { info: c.info, first_packet: p };
                            }
                            return RunAction::RunDirectDns { dst: c.info.dst, first_packet: p };
                        }
                        return RunAction::Accept;
                    }
                    self.look_up(c)
                } else {
                    RunAction::Accept
                }
            },
            RunEvent::LookedUp { domain, bypass } => {
                let mut stage: Stage = Stage::Accepting;
                std::mem::swap(&mut stage, &mut self.stage);
                if let Stage::LookingUp(c) = stage {
                    let info: SessionInfo = c.info;
                    if bypass {
                        let copy: Option<String> = copy_name(&domain);
                        self.stage = Stage::Resolving(c, domain);
                        return RunAction::Resolve { info, domain: copy };
                    }
                    if let Some(server) = self.config.udpgw_server {
                        if info.protocol == IpProtocol::Udp {
                            let src: SocketAddr = unspecified_source(c.peer);
                            self.stage = Stage::HandlingGateway { candidate: c, domain };
                            return RunAction::MakeHandler {
                                bypass: false,
                                info: SessionInfo::new(src, server, IpProtocol::Tcp),
                                domain: None,
                                udp_associate: false,
                            };
                        }
                    }
                    self.make_handler(c, info, domain, false)
                } else {
                    RunAction::Accept
                }
            },
            RunEvent::Resolved { bypass, info } => {
                let mut stage: Stage = Stage::Accepting;
                std::mem::swap(&mut stage, &mut self.stage);
                if let Stage::Resolving(c, domain) = stage {
                    self.make_handler(c, info, domain, bypass)
                } else {
                    RunAction::Accept
                }
            },
            RunEvent::HandlerMade(result) => {
                let mut stage: Stage = Stage::Accepting;
                std::mem::swap(&mut stage, &mut self.stage);
                match stage {
                    Stage::HandlingGateway { candidate, domain } => match result {
                        Ok(_) => {
                            let dst: SocketAddr = candidate.info.dst;
                            let target: UdpTarget = match domain {
                                Some(name) => target_for(name.as_str(), dst.port()),
                                None => UdpTarget::Address(dst),
                            };
                            RunAction::RunGateway {
                                info: candidate.info,
                                target,
                                first_packet: candidate.first_packet,
                            }
                        },
                        Err(e) => {
                            self.stage = Stage::Ended;
                            RunAction::Fail(e)
                        },
                    },
                    Stage::Handling { candidate, bypass } => {
                        if candidate.info.protocol == IpProtocol::Udp {
                            match result {
                                Ok(_) => RunAction::RunUdp {
                                    info: candidate.info,
                                    proxy_type: if bypass {
                                        ProxyType::Direct
                                    } else {
                                        self.config.proxy_type
                                    },
                                    first_packet: candidate.first_packet,
                                },
                                Err(_) => {
                                    self.task_count = self.task_count - 1;
                                    RunAction::Accept
                                },
                            }
                        } else {
                            match result {
                                Ok(_) => RunAction::RunTcp(candidate.info),
                                Err(e) => {
                                    self.stage = Stage::Ended;
                                    RunAction::Fail(e)
                                },
                            }
                        }
                    },
                    _ => RunAction::Accept,
                }
            },
        }
    }
}

impl RouterView {
    /// There are never more sessions than the limit allows: a session beyond it is not
    /// taken.
    pub proof fn law_session_limit(self, event: RunEventView)
        requires
            self.wf(),
            self.expects(event),
        ensures
            self.step(event).0.wf(),
            self.step(event).0.task_count <= self.config.max_sessions,
            self.task_count >= self.config.max_sessions && (event is Tcp || event is Udp)
                ==> self.step(event).0.task_count == self.task_count && (self.step(event).1
                is Accept || self.step(event).1 is Exit),
    {
    }

    /// The count of sessions grows by one when a session is taken, falls by one when a UDP
    /// session ends before it has a handler, and stays as it is otherwise.
    pub proof fn law_session_count(self, event: RunEventView)
        requires
            self.wf(),
            self.expects(event),
        ensures
            self.step(event).0.task_count == self.task_count + (if (event is Tcp || event is Udp)
                && self.task_count < self.config.max_sessions {
                1int
            } else if event == RunEventView::CacheAsked(true) || event == RunEventView::FirstPacket(
                None,
            ) || (event matches RunEventView::HandlerMade(Err(_)) && self.stage matches
                StageView::Handling { candidate, .. } && candidate.info.protocol
                == IpProtocol::Udp) {
                -1
            } else {
                0
            }),
    {
    }

    /// A UDP session for which no handler could be made is not among the sessions of which
    /// the end of the program tells.
    pub proof fn law_exit_counts_sessions(self, local: SocketAddr, peer: SocketAddr, error: ErrorView)
        requires
            self.wf(),
            self.stage is Accepting,
            self.task_count < self.config.max_sessions,
            self.config.udpgw_server is None,
            peer.spec_port() != DNS_PORT,
        ensures
            ({
                let r = self.step(RunEventView::Udp { local, peer }).0;
                let r = r.step(RunEventView::LookedUp { domain: None, bypass: false }).0;
                let (r, action) = r.step(RunEventView::HandlerMade(Err(error)));
                &&& action is Accept
                &&& r == self
                &&& r.step(RunEventView::Shutdown).1 == RunActionView::Exit(self.task_count as usize)
            }),
    {
    }

    /// A DNS query that the cache cannot answer goes where the mode says; to the proxy, or
    /// round it, it goes in the last mode only.
    pub proof fn law_dns_goes_by_mode(self, local: SocketAddr, peer: SocketAddr, packet: Seq<u8>)
        requires
            self.stage is Accepting,
            self.task_count < self.config.max_sessions,
            peer.spec_port() == DNS_PORT,
        ensures
            ({
                let dst = routed_dst(peer, self.config.dns_addr);
                let info = SessionInfo { src: local, dst, protocol: IpProtocol::Udp };
                let (first, action) = self.step(RunEventView::Udp { local, peer });
                let (second, asked) = first.step(RunEventView::FirstPacket(Some(packet)));
                let (third, end) = second.step(RunEventView::CacheAsked(false));
                if self.config.dns == ArgDns::Virtual {
                    action == RunActionView::RunVirtualDns(info)
                } else {
                    &&& action is ReadFirstPacket
                    &&& asked == RunActionView::AskCache(packet)
                    &&& end == match self.config.dns {
                        ArgDns::OverTcp => RunActionView::RunDnsOverTcp {
                            info,
                            first_packet: packet,
                        },
                        ArgDns::Direct => RunActionView::RunDirectDns { dst, first_packet: packet },
                        _ => RunActionView::LookUp(peer.spec_ip()),
                    }
                }
            }),
    {
    }

    /// Only DNS queries to private addresses are sent elsewhere, and only their address
    /// changes.
    pub proof fn law_redirected_dns(peer: SocketAddr, dns_addr: IpAddr)
        ensures
            routed_dst(peer, dns_addr).spec_port() == peer.spec_port(),
            routed_dst(peer, dns_addr) != peer ==> peer.spec_port() == DNS_PORT && private_ip(
                peer.spec_ip(),
            ) && routed_dst(peer, dns_addr).spec_ip() == dns_addr,
    {
    }

    /// The proxy is left out exactly where the patterns say so and the destination could be
    /// resolved; a UDP session that leaves it out has no proxy protocol.
    pub proof fn law_bypass_leaves_proxy_out(
        self,
        domain: Option<Seq<char>>,
        bypass: bool,
        resolved: bool,
        info: SessionInfo,
    )
        requires
            self.stage is LookingUp,
            info.protocol == self.stage->LookingUp_0.info.protocol,
        ensures
            ({
                let c = self.stage->LookingUp_0;
                let (r, action) = self.step(RunEventView::LookedUp { domain, bypass });
                if !bypass {
                    &&& action matches RunActionView::MakeHandler { bypass: b, .. } && !b
                    &&& r.step(RunEventView::HandlerMade(Ok(()))).1 matches RunActionView::RunUdp {
                        proxy_type,
                        ..
                    } ==> proxy_type == self.config.proxy_type
                } else {
                    let (q, next) = r.step(RunEventView::Resolved { bypass: resolved, info });
                    &&& action == (RunActionView::Resolve { info: c.info, domain })
                    &&& next matches RunActionView::MakeHandler { bypass: b, info: i, domain: d, .. }
                        && b == resolved && i == info && d == domain
                    &&& q.step(RunEventView::HandlerMade(Ok(()))).1 matches RunActionView::RunUdp {
                        proxy_type,
                        ..
                    } ==> proxy_type == (if resolved {
                        ProxyType::Direct
                    } else {
                        self.config.proxy_type
                    })
                }
            }),
    {
    }
}

/// The manager that the caller gives is used wherever there is one; otherwise the protocol of
/// the proxy decides, and credentials matter to HTTP only.
pub proof fn law_manager(given: bool, proxy_type: ProxyType, has_credentials: bool)
    ensures
        manager_for(given, proxy_type, has_credentials) is Given <==> given,
        !given && proxy_type == ProxyType::Socks5 ==> manager_for(given, proxy_type, has_credentials)
            == (ManagerKind::Socks { version: 5 }),
        !given && proxy_type == ProxyType::Socks4 ==> manager_for(given, proxy_type, has_credentials)
            == (ManagerKind::Socks { version: 4 }),
        !given && proxy_type == ProxyType::Http ==> manager_for(given, proxy_type, has_credentials)
            == (ManagerKind::Http { password: has_credentials }),
        !given && proxy_type == ProxyType::Direct ==> manager_for(given, proxy_type, has_credentials)
            is NoProxy,
{
}

/// DNS packets, those to port 53, that go to a private address go to the DNS server instead,
/// at the same port; all other packets go where they are sent.
pub proof fn law_dns_to_private_address(peer: SocketAddr, dns_addr: IpAddr)
    ensures
        peer.spec_port() == 53 && private_ip(peer.spec_ip()) ==> routed_dst(peer, dns_addr).spec_ip()
            == dns_addr && routed_dst(peer, dns_addr).spec_port() == 53,
        peer.spec_port() != 53 || !private_ip(peer.spec_ip()) ==> routed_dst(peer, dns_addr) == peer,
{
}

/// Packets through the gateway go to the name of the destination where it is known, and to
/// its address otherwise; a name that is the text of an address stands for that address. The
/// port is that of the destination.
pub proof fn law_gateway_target(dst: SocketAddr, name: Seq<char>)
    ensures
        gateway_target(dst, None) == UdpTargetView::Address(dst),
        host_address(name) is None ==> gateway_target(dst, Some(name)) == UdpTargetView::Domain(
            name,
            dst.spec_port(),
        ),
        host_address(name) matches Some(ip) ==> (gateway_target(dst, Some(name)) matches
            UdpTargetView::Address(a) && a.spec_ip() == ip && a.spec_port() == dst.spec_port()),
{
}

impl RouterView {
    /// A session beyond the limit is not taken: the program ends with the number of sessions
    /// where it is to end on such an error, and otherwise goes on as it was.
    pub proof fn law_session_beyond_limit(self, local: SocketAddr, peer: SocketAddr)
        requires
            self.wf(),
            self.stage is Accepting,
            self.task_count == self.config.max_sessions,
        ensures
            ({
                let tcp = self.step(RunEventView::Tcp { local, peer });
                let udp = self.step(RunEventView::Udp { local, peer });
                &&& tcp == udp
                &&& if self.config.exit_on_fatal_error {
                    tcp.1 == RunActionView::Exit(self.task_count as usize) && tcp.0.stage is Ended
                } else {
                    tcp.1 is Accept && tcp.0 == self
                }
            }),
    {
    }

    /// The end of the program tells the number of sessions; what is neither TCP nor UDP is
    /// dropped without a trace.
    pub proof fn law_shutdown(self)
        requires
            self.wf(),
            self.stage is Accepting,
        ensures
            self.step(RunEventView::Shutdown).1 == RunActionView::Exit(self.task_count as usize),
            self.step(RunEventView::Shutdown).0.stage is Ended,
            self.step(RunEventView::Unknown).1 is Accept,
            self.step(RunEventView::Unknown).0 == self,
    {
    }

    /// A TCP session that is not bypassed gets a handler through the proxy for its own ends
    /// and with exactly the name that the lookup of its destination gave; with the handler it
    /// runs, and is one session more. Without the handler the program fails.
    pub proof fn law_tcp_through_proxy(
        self,
        local: SocketAddr,
        peer: SocketAddr,
        domain: Option<Seq<char>>,
        error: ErrorView,
    )
        requires
            self.wf(),
            self.stage is Accepting,
            self.task_count < self.config.max_sessions,
        ensures
            ({
                let info = SessionInfo { src: local, dst: peer, protocol: IpProtocol::Tcp };
                let (first, look) = self.step(RunEventView::Tcp { local, peer });
                let (second, make) = first.step(RunEventView::LookedUp { domain, bypass: false });
                let (third, run) = second.step(RunEventView::HandlerMade(Ok(())));
                &&& look == RunActionView::LookUp(peer.spec_ip())
                &&& make == (RunActionView::MakeHandler {
                    bypass: false,
                    info,
                    domain,
                    udp_associate: false,
                })
                &&& run == RunActionView::RunTcp(info)
                &&& third.stage is Accepting
                &&& third.task_count == self.task_count + 1
                &&& third.config == self.config
                &&& second.step(RunEventView::HandlerMade(Err(error))).1 == RunActionView::Fail(error)
            }),
    {
    }

    /// A UDP session that is not bypassed, and that no gateway takes, gets a handler with a
    /// UDP association for its own ends and with exactly the name that the lookup of its
    /// destination gave; with the handler it runs in the protocol of the proxy. Packets to
    /// other ports than that of DNS go where they are sent.
    pub proof fn law_udp_through_proxy(
        self,
        local: SocketAddr,
        peer: SocketAddr,
        domain: Option<Seq<char>>,
    )
        requires
            self.wf(),
            self.stage is Accepting,
            self.task_count < self.config.max_sessions,
            self.config.udpgw_server is None,
            peer.spec_port() != 53,
        ensures
            ({
                let info = SessionInfo { src: local, dst: peer, protocol: IpProtocol::Udp };
                let (first, look) = self.step(RunEventView::Udp { local, peer });
                let (second, make) = first.step(RunEventView::LookedUp { domain, bypass: false });
                let (third, run) = second.step(RunEventView::HandlerMade(Ok(())));
                &&& look == RunActionView::LookUp(peer.spec_ip())
                &&& make == (RunActionView::MakeHandler {
                    bypass: false,
                    info,
                    domain,
                    udp_associate: true,
                })
                &&& run == (RunActionView::RunUdp {
                    info,
                    proxy_type: self.config.proxy_type,
                    first_packet: None,
                })
                &&& third.stage is Accepting
                &&& third.task_count == self.task_count + 1
                &&& third.config == self.config
            }),
    {
    }

    /// A UDP session that is not bypassed goes through the gateway where there is one: over a
    /// TCP connection through the proxy to the gateway, from the unspecified address of the
    /// destination's family. Its packets go to the destination. Without the connection the
    /// program fails.
    pub proof fn law_udp_through_gateway(
        self,
        local: SocketAddr,
        peer: SocketAddr,
        domain: Option<Seq<char>>,
        gateway: SocketAddr,
        error: ErrorView,
    )
        requires
            self.wf(),
            self.stage is Accepting,
            self.task_count < self.config.max_sessions,
            self.config.udpgw_server == Some(gateway),
            peer.spec_port() != 53,
        ensures
            ({
                let info = SessionInfo { src: local, dst: peer, protocol: IpProtocol::Udp };
                let any = if peer is V4 {
                    IpAddr::V4(Ipv4Addr { bits: 0 })
                } else {
                    IpAddr::V6(Ipv6Addr { bits: 0 })
                };
                let (first, look) = self.step(RunEventView::Udp { local, peer });
                let (second, make) = first.step(RunEventView::LookedUp { domain, bypass: false });
                let (third, run) = second.step(RunEventView::HandlerMade(Ok(())));
                &&& look == RunActionView::LookUp(peer.spec_ip())
                &&& make matches RunActionView::MakeHandler {
                    bypass,
                    info: i,
                    domain: d,
                    udp_associate,
                } && !bypass && d is None && !udp_associate && i.dst == gateway && i.protocol
                    == IpProtocol::Tcp && i.src.spec_ip() == any && i.src.spec_port() == 0
                &&& run == (RunActionView::RunGateway {
                    info,
                    target: gateway_target(peer, domain),
                    first_packet: None,
                })
                &&& third.stage is Accepting
                &&& third.task_count == self.task_count + 1
                &&& second.step(RunEventView::HandlerMade(Err(error))).1 == RunActionView::Fail(error)
            }),
    {
    }

    /// A session that is to be bypassed is resolved with its own ends and the name that the
    /// lookup gave, and gets a handler for the ends that this gave: without the proxy where
    /// it could be resolved, through it otherwise. No gateway takes it.
    pub proof fn law_bypassed_session(
        self,
        local: SocketAddr,
        peer: SocketAddr,
        domain: Option<Seq<char>>,
        tcp: bool,
        resolved: bool,
        dst: SocketAddr,
    )
        requires
            self.wf(),
            self.stage is Accepting,
            self.task_count < self.config.max_sessions,
            peer.spec_port() != 53,
        ensures
            ({
                let protocol = if tcp { IpProtocol::Tcp } else { IpProtocol::Udp };
                let info = SessionInfo { src: local, dst: peer, protocol };
                let other = SessionInfo { src: local, dst, protocol };
                let first = self.step(
                    if tcp {
                        RunEventView::Tcp { local, peer }
                    } else {
                        RunEventView::Udp { local, peer }
                    },
                ).0;
                let (second, resolve) = first.step(RunEventView::LookedUp { domain, bypass: true });
                let (third, make) = second.step(
                    RunEventView::Resolved { bypass: resolved, info: other },
                );
                let (fourth, run) = third.step(RunEventView::HandlerMade(Ok(())));
                &&& resolve == (RunActionView::Resolve { info, domain })
                &&& make == (RunActionView::MakeHandler {
                    bypass: resolved,
                    info: other,
                    domain,
                    udp_associate: !tcp,
                })
                &&& run == (if tcp {
                    RunActionView::RunTcp(other)
                } else {
                    RunActionView::RunUdp {
                        info: other,
                        proxy_type: if resolved { ProxyType::Direct } else { self.config.proxy_type },
                        first_packet: None,
                    }
                })
                &&& fourth.stage is Accepting
                &&& fourth.task_count == self.task_count + 1
            }),
    {
    }

    /// A DNS session that goes through the proxy keeps the packet that was read from it: it
    /// is handed on with the session, which goes to the DNS server where it was sent to a
    /// private address. Its name is looked up by the address to which it was sent.
    pub proof fn law_dns_through_proxy(
        self,
        local: SocketAddr,
        peer: SocketAddr,
        packet: Seq<u8>,
        domain: Option<Seq<char>>,
    )
        requires
            self.wf(),
            self.stage is Accepting,
            self.task_count < self.config.max_sessions,
            self.config.dns == ArgDns::OverProxy,
            peer.spec_port() == 53,
        ensures
            ({
                let dst = routed_dst(peer, self.config.dns_addr);
                let info = SessionInfo { src: local, dst, protocol: IpProtocol::Udp };
                let (first, read) = self.step(RunEventView::Udp { local, peer });
                let (second, ask) = first.step(RunEventView::FirstPacket(Some(packet)));
                let (third, look) = second.step(RunEventView::CacheAsked(false));
                let (fourth, make) = third.step(RunEventView::LookedUp { domain, bypass: false });
                let (fifth, run) = fourth.step(RunEventView::HandlerMade(Ok(())));
                &&& read is ReadFirstPacket
                &&& ask == RunActionView::AskCache(packet)
                &&& look == RunActionView::LookUp(peer.spec_ip())
                &&& fifth.stage is Accepting
                &&& fifth.task_count == self.task_count + 1
                &&& if self.config.udpgw_server is None {
                    &&& make == (RunActionView::MakeHandler {
                        bypass: false,
                        info,
                        domain,
                        udp_associate: true,
                    })
                    &&& run == (RunActionView::RunUdp {
                        info,
                        proxy_type: self.config.proxy_type,
                        first_packet: Some(packet),
                    })
                } else {
                    run == (RunActionView::RunGateway {
                        info,
                        target: gateway_target(dst, domain),
                        first_packet: Some(packet),
                    })
                }
            }),
    {
    }

    /// A DNS session is over, and no longer counted, where nothing can be read from it or the
    /// cache has answered its first packet; where it runs on, it is counted.
    pub proof fn law_dns_session_counts(self, local: SocketAddr, peer: SocketAddr, packet: Seq<u8>)
        requires
            self.wf(),
            self.stage is Accepting,
            self.task_count < self.config.max_sessions,
            peer.spec_port() == 53,
        ensures
            ({
                let first = self.step(RunEventView::Udp { local, peer }).0;
                let second = first.step(RunEventView::FirstPacket(Some(packet))).0;
                &&& self.config.dns == ArgDns::Virtual ==> first.stage is Accepting
                    && first.task_count == self.task_count + 1
                &&& self.config.dns != ArgDns::Virtual ==> {
                    &&& first.step(RunEventView::FirstPacket(None)) == (self, RunActionView::Accept)
                    &&& second.step(RunEventView::CacheAsked(true)) == (self, RunActionView::Accept)
                    &&& self.config.dns != ArgDns::OverProxy ==> second.step(
                        RunEventView::CacheAsked(false),
                    ).0 == RouterView { task_count: self.task_count + 1, ..self }
                }
            }),
    {
    }

    /// The router at its start.
    pub open spec fn started(config: RouterConfig) -> RouterView {
        RouterView { config, task_count: 0, stage: StageView::Accepting }
    }

    /// At its start the router waits for a session and counts none; it takes the first one
    /// wherever any may be taken.
    pub proof fn law_started(config: RouterConfig, local: SocketAddr, peer: SocketAddr)
        ensures
            ({
                let r = RouterView::started(config);
                let tcp = RunEventView::Tcp { local, peer };
                &&& r.wf()
                &&& r.config == config
                &&& r.expects(tcp)
                &&& r.step(RunEventView::Shutdown).1 == RunActionView::Exit(0)
                &&& config.max_sessions > 0 ==> r.step(tcp).1 is LookUp && r.step(tcp).0.task_count
                    == 1
            }),
    {
    }

    /// What becomes of a session, whatever protocol it has and whether or not a packet of it
    /// has been read, once its destination has been looked up. Its handler is made for its own
    /// ends, or for those that resolving gave, with the name that the lookup gave, and with a
    /// UDP association exactly where it is a UDP session; with the handler it runs, and the
    /// packet is handed on. Where no handler could be made a UDP session is dropped and no
    /// longer counted, and any other one ends the program. Through a gateway the handler is
    /// that of the connection to it.
    pub proof fn law_looked_up(
        self,
        domain: Option<Seq<char>>,
        resolved: bool,
        info: SessionInfo,
        error: ErrorView,
    )
        requires
            self.wf(),
            self.stage is LookingUp,
            info.protocol == self.stage->LookingUp_0.info.protocol,
        ensures
            ({
                let c = self.stage->LookingUp_0;
                let udp = c.info.protocol == IpProtocol::Udp;
                let made = RunEventView::HandlerMade(Ok(()));
                let failed = RunEventView::HandlerMade(Err(error));
                let next = RouterView { stage: StageView::Accepting, ..self };
                let dropped = RouterView { task_count: (self.task_count - 1) as nat, ..next };
                let (asked, resolve) = self.step(RunEventView::LookedUp { domain, bypass: true });
                let (around, make) = asked.step(RunEventView::Resolved { bypass: resolved, info });
                let (through, make_proxy) = self.step(
                    RunEventView::LookedUp { domain, bypass: false },
                );
                &&& resolve == (RunActionView::Resolve { info: c.info, domain })
                &&& make == (RunActionView::MakeHandler {
                    bypass: resolved,
                    info,
                    domain,
                    udp_associate: udp,
                })
                &&& around.step(made) == (
                    next,
                    if udp {
                        RunActionView::RunUdp {
                            info,
                            proxy_type: if resolved {
                                ProxyType::Direct
                            } else {
                                self.config.proxy_type
                            },
                            first_packet: c.first_packet,
                        }
                    } else {
                        RunActionView::RunTcp(info)
                    },
                )
                &&& udp ==> around.step(failed) == (dropped, RunActionView::Accept)
                &&& !udp ==> around.step(failed).1 == RunActionView::Fail(error) && around.step(
                    failed,
                ).0.stage is Ended
                &&& if udp && self.config.udpgw_server is Some {
                    &&& make_proxy matches RunActionView::MakeHandler {
                        bypass,
                        info: i,
                        domain: d,
                        udp_associate,
                    } && !bypass && d is None && !udp_associate && i.dst
                        == self.config.udpgw_server->0 && i.protocol == IpProtocol::Tcp
                        && i.src.spec_port() == 0 && i.src.spec_ip() == (if c.peer is V4 {
                        IpAddr::V4(Ipv4Addr { bits: 0 })
                    } else {
                        IpAddr::V6(Ipv6Addr { bits: 0 })
                    })
                    &&& through.step(made) == (
                        next,
                        RunActionView::RunGateway {
                            info: c.info,
                            target: gateway_target(c.info.dst, domain),
                            first_packet: c.first_packet,
                        },
                    )
                    &&& through.step(failed).1 == RunActionView::Fail(error)
                    &&& through.step(failed).0.stage is Ended
                } else {
                    &&& make_proxy == (RunActionView::MakeHandler {
                        bypass: false,
                        info: c.info,
                        domain,
                        udp_associate: udp,
                    })
                    &&& through.step(made) == (
                        next,
                        if udp {
                            RunActionView::RunUdp {
                                info: c.info,
                                proxy_type: self.config.proxy_type,
                                first_packet: c.first_packet,
                            }
                        } else {
                            RunActionView::RunTcp(c.info)
                        },
                    )
                    &&& udp ==> through.step(failed) == (dropped, RunActionView::Accept)
                    &&& !udp ==> through.step(failed).1 == RunActionView::Fail(error)
                        && through.step(failed).0.stage is Ended
                }
            }),
    {
    }
}

/// The private IPv4 networks are 10/8, 127/8, 169.254/16, 172.16/12, 192.168/16 and 198.18/15.
/// An IPv6 address that stands for an IPv4 address is private where that is in one of the
/// first five; the unspecified address and the loopback address are private.
pub proof fn law_private_networks(addr: Ipv4Addr, a: u8, b: u8, c: u8, d: u8)
    requires
        addr.bits == 16777216 * a + 65536 * b + 256 * c + d,
    ensures
        private_ip(IpAddr::V4(addr)) <==> a == 10 || a == 127 || (a == 169 && b == 254) || (a == 172
            && b / 16 == 1) || (a == 192 && b == 168) || (a == 198 && b / 2 == 9),
        a != 198 && private_ip(IpAddr::V4(addr)) ==> private_ip(
            IpAddr::V6(Ipv6Addr { bits: (0xffff_0000_0000 + addr.bits) as u128 }),
        ),
        private_ip(IpAddr::V6(Ipv6Addr { bits: 0 })),
        private_ip(IpAddr::V6(Ipv6Addr { bits: 1 })),
{
    law_v4_text(addr, a, b, c, d);
    Ipv6Addr::law_mapped_text(addr);
}

} // verus!
