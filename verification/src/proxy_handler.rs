//! Sessions through a proxy: the handshake, the copying of a TCP session, and the packets
//! of a UDP association.
//!
//! Reading and writing are left to the caller, who performs the action that it is given and
//! comes back with the event.

use vstd::prelude::*;
use vstd::utf8::{encode_utf8, encode_utf8_valid_utf8, valid_utf8};

use socks5_impl::protocol::{Address, StreamOperation, UdpHeader};

use crate::dns::DNS_PORT;
use crate::error::{Error, ErrorView};
use crate::net::SocketAddr;

verus! {

/// The protocol of a proxy.
#[derive(Clone, Copy, PartialEq, Eq, Structural, Debug)]
pub enum ProxyType {
    Http,
    Socks4,
    Socks5,
    /// No proxy at all.
    Direct,
}

/// How a handshake with a proxy has ended.
#[derive(Clone, Copy, PartialEq, Eq, Structural, Debug)]
pub enum ProxyResult {
    /// The connection to the destination stands.
    Established,
    /// The proxy is to be left out, and the destination reached at this address.
    Bypass(SocketAddr),
    /// The proxy takes UDP packets at this address.
    UdpAssociate(SocketAddr),
}

/// What a handshake waits for.
#[derive(Clone, Copy, PartialEq, Eq, Structural, Debug)]
pub enum HandshakePhase {
    /// To learn the state of the handler.
    Checking,
    /// That the first bytes are sent.
    Launching,
    /// To receive bytes from the proxy.
    Reading,
    /// That the handler has worked on them.
    Pushing,
    /// That the handler's reply is sent.
    Answering,
}

/// A handshake with a proxy: what it waits for, whether the first bytes have been sent, how
/// many bytes have gone either way, and the address of the proxy.
#[derive(Clone, Copy, PartialEq, Eq, Structural, Debug)]
pub struct Handshake {
    pub phase: HandshakePhase,
    pub launched: bool,
    pub tx: usize,
    pub rx: usize,
    pub initial_server_addr: SocketAddr,
}

/// What has happened in a handshake.
#[derive(Clone, Copy, PartialEq, Eq, Structural, Debug)]
pub enum HandshakeEvent {
    /// The handler is in this state: whether the connection stands, how many bytes it has to
    /// send, which server it talks to, and where that takes UDP packets.
    Handler {
        established: bool,
        outgoing: usize,
        server_addr: SocketAddr,
        udp_associate: Option<SocketAddr>,
    },
    /// All that the handler had to send, so many bytes, has been sent and consumed.
    Sent(usize),
    /// So many bytes have come from the proxy; it has closed the connection where there are
    /// none.
    Received(usize),
    /// The handler has worked on them, and has so many bytes to send.
    Pushed { outgoing: usize },
}

/// What is to be done in a handshake.
#[derive(Debug)]
pub enum HandshakeAction {
    /// Look at the state of the handler.
    Check,
    /// Send and consume all that the handler has to send.
    Send,
    /// Receive bytes from the proxy.
    Receive,
    /// Give the handler what has been received.
    Push,
    /// The handshake has ended, after so many bytes either way.
    Finish { result: ProxyResult, tx: usize, rx: usize },
    /// The handshake has failed.
    Fail(Error),
}

/// What is to be done in a handshake, in mathematical terms.
pub enum HandshakeActionView {
    Check,
    Send,
    Receive,
    Push,
    Finish { result: ProxyResult, tx: usize, rx: usize },
    Fail(ErrorView),
}

impl View for HandshakeAction {
    type V = HandshakeActionView;

    open spec fn view(&self) -> HandshakeActionView {
        match self {
            HandshakeAction::Check => HandshakeActionView::Check,
            HandshakeAction::Send => HandshakeActionView::Send,
            HandshakeAction::Receive => HandshakeActionView::Receive,
            HandshakeAction::Push => HandshakeActionView::Push,
            HandshakeAction::Finish { result, tx, rx } => HandshakeActionView::Finish {
                result: *result,
                tx: *tx,
                rx: *rx,
            },
            HandshakeAction::Fail(e) => HandshakeActionView::Fail(e@),
        }
    }
}

/// How a handshake ends with a handler that talked to `initial` at first and talks to
/// `server` now: the proxy is left out where the address has changed.
pub open spec fn result_of(
    initial: SocketAddr,
    server: SocketAddr,
    udp_associate: Option<SocketAddr>,
) -> ProxyResult {
    if server != initial {
        ProxyResult::Bypass(server)
    } else {
        match udp_associate {
            Some(addr) => ProxyResult::UdpAssociate(addr),
            None => ProxyResult::Established,
        }
    }
}

impl Handshake {
    /// The beginning of a handshake with the proxy at `server_addr`.
    pub open spec fn begun(server_addr: SocketAddr) -> (Handshake, HandshakeActionView) {
        (
            Handshake {
                phase: HandshakePhase::Checking,
                launched: false,
                tx: 0,
                rx: 0,
                initial_server_addr: server_addr,
            },
            HandshakeActionView::Check,
        )
    }

    /// The beginning of a handshake with the proxy at `server_addr`.
    pub fn new(server_addr: SocketAddr) -> (r: (Handshake, HandshakeAction))
        ensures
            (r.0, r.1@) == Handshake::begun(server_addr),
            r.0 == (Handshake {
                phase: HandshakePhase::Checking,
                launched: false,
                tx: 0,
                rx: 0,
                initial_server_addr: server_addr,
            }),
            r.1@ == HandshakeActionView::Check,
    {
        (
            Handshake {
                phase: HandshakePhase::Checking,
                launched: false,
                tx: 0,
                rx: 0,
                initial_server_addr: server_addr,
            },
            HandshakeAction::Check,
        )
    }

    /// Whether `event` is what the handshake waits for, and the counts can take it in.
    pub open spec fn expects(self, event: HandshakeEvent) -> bool {
        match event {
            HandshakeEvent::Handler { .. } => self.phase == HandshakePhase::Checking,
            HandshakeEvent::Sent(n) => (self.phase == HandshakePhase::Launching || self.phase
                == HandshakePhase::Answering) && self.tx + n <= usize::MAX,
            HandshakeEvent::Received(n) => self.phase == HandshakePhase::Reading && self.rx + n
                <= usize::MAX,
            HandshakeEvent::Pushed { .. } => self.phase == HandshakePhase::Pushing,
        }
    }

    /// What the event `event` leads to.
    pub open spec fn step(self, event: HandshakeEvent) -> (Handshake, HandshakeActionView) {
        match event {
            HandshakeEvent::Handler { established, outgoing, server_addr, udp_associate } => {
                if established {
                    (
                        self,
                        HandshakeActionView::Finish {
                            result: result_of(self.initial_server_addr, server_addr, udp_associate),
                            tx: self.tx,
                            rx: self.rx,
                        },
                    )
                } else if self.launched {
                    (
                        Handshake { phase: HandshakePhase::Reading, ..self },
                        HandshakeActionView::Receive,
                    )
                } else if outgoing == 0 {
                    (
                        self,
                        HandshakeActionView::Fail(
                            ErrorView::Text("proxy_handler launched went wrong"@),
                        ),
                    )
                } else {
                    (
                        Handshake { phase: HandshakePhase::Launching, ..self },
                        HandshakeActionView::Send,
                    )
                }
            },
            HandshakeEvent::Sent(n) => {
                let h = Handshake { tx: (self.tx + n) as usize, ..self };
                if self.phase == HandshakePhase::Launching {
                    (
                        Handshake { phase: HandshakePhase::Reading, launched: true, ..h },
                        HandshakeActionView::Receive,
                    )
                } else {
                    (
                        Handshake { phase: HandshakePhase::Checking, ..h },
                        HandshakeActionView::Check,
                    )
                }
            },
            HandshakeEvent::Received(n) => if n == 0 {
                (
                    self,
                    HandshakeActionView::Fail(ErrorView::Text("server closed accidentially"@)),
                )
            } else {
                (
                    Handshake {
                        phase: HandshakePhase::Pushing,
                        rx: (self.rx + n) as usize,
                        ..self
                    },
                    HandshakeActionView::Push,
                )
            },
            HandshakeEvent::Pushed { outgoing } => if outgoing > 0 {
                (
                    Handshake { phase: HandshakePhase::Answering, ..self },
                    HandshakeActionView::Send,
                )
            } else {
                (
                    Handshake { phase: HandshakePhase::Checking, ..self },
                    HandshakeActionView::Check,
                )
            },
        }
    }

    /// What the event `event` leads to in the handshake.
    pub fn handle_proxy_session(&mut self, event: HandshakeEvent) -> (action: HandshakeAction)
        requires
            old(self).expects(event),
        ensures
            (*final(self), action@) == old(self).step(event),
    {
        match event {
            HandshakeEvent::Handler { established, outgoing, server_addr, udp_associate } => {
                if established {
                    let result: ProxyResult = if server_addr != self.initial_server_addr {
                        ProxyResult::Bypass(server_addr)
                    } else {
                        match udp_associate {
                            Some(addr) => ProxyResult::UdpAssociate(addr),
                            None => ProxyResult::Established,
                        }
                    };
                    return HandshakeAction::Finish { result, tx: self.tx, rx: self.rx };
                }
                if self.launched {
                    self.phase = HandshakePhase::Reading;
                    return HandshakeAction::Receive;
                }
                if outgoing == 0 {
                    return HandshakeAction::Fail(Error::text("proxy_handler launched went wrong"));
                }
                self.phase = HandshakePhase::Launching;
                HandshakeAction::Send
            },
            HandshakeEvent::Sent(n) => {
                self.tx = self.tx + n;
                if self.phase == HandshakePhase::Launching {
                    self.launched = true;
                    self.phase = HandshakePhase::Reading;
                    HandshakeAction::Receive
                } else {
                    self.phase = HandshakePhase::Checking;
                    HandshakeAction::Check
                }
            },
            HandshakeEvent::Received(n) => {
                if n == 0 {
                    return HandshakeAction::Fail(Error::text("server closed accidentially"));
                }
                self.rx = self.rx + n;
                self.phase = HandshakePhase::Pushing;
                HandshakeAction::Push
            },
            HandshakeEvent::Pushed { outgoing } => {
                if outgoing > 0 {
                    self.phase = HandshakePhase::Answering;
                    HandshakeAction::Send
                } else {
                    self.phase = HandshakePhase::Checking;
                    HandshakeAction::Check
                }
            },
        }
    }

    /// Nothing is received before the first bytes have been sent.
    pub open spec fn wf(self) -> bool {
        match self.phase {
            HandshakePhase::Checking => true,
            HandshakePhase::Launching => !self.launched,
            _ => self.launched,
        }
    }

    /// The handshake speaks first: whatever happens, it asks for bytes from the proxy only
    /// after its own first bytes have been sent.
    pub proof fn law_speaks_first(self, event: HandshakeEvent)
        requires
            self.wf(),
            self.expects(event),
        ensures
            self.step(event).0.wf(),
            self.step(event).1 is Receive ==> self.step(event).0.launched,
    {
    }

    /// The handshake ends exactly when the handler says that the connection stands. It ends
    /// with a bypass exactly where the handler has changed its server, and otherwise with the
    /// address for UDP packets where there is one.
    pub proof fn law_result(
        self,
        event: HandshakeEvent,
        outgoing: usize,
        server_addr: SocketAddr,
        udp_associate: Option<SocketAddr>,
    )
        requires
            self.expects(event),
        ensures
            self.step(event).1 is Finish <==> event matches HandshakeEvent::Handler {
                established: true,
                ..
            },
            ({
                let end = HandshakeEvent::Handler {
                    established: true,
                    outgoing,
                    server_addr,
                    udp_associate,
                };
                self.step(end).1 matches HandshakeActionView::Finish { result, tx, rx } && (result
                    is Bypass <==> server_addr != self.initial_server_addr) && (result
                    is UdpAssociate <==> server_addr == self.initial_server_addr
                    && udp_associate is Some) && tx == self.tx && rx == self.rx && (result
                    matches ProxyResult::Bypass(to) ==> to == server_addr) && (result
                    matches ProxyResult::UdpAssociate(to) ==> Some(to) == udp_associate)
            }),
    {
    }

    /// A handshake begins with a look at the handler. What that has to send is sent, and only
    /// then are bytes received; a handler with nothing to send is an error. No byte has been
    /// counted by then but those that were sent.
    pub proof fn law_begins(server: SocketAddr, outgoing: usize, udp_associate: Option<SocketAddr>)
        ensures
            ({
                let (first, look) = Handshake::begun(server);
                let seen = HandshakeEvent::Handler {
                    established: false,
                    outgoing,
                    server_addr: server,
                    udp_associate,
                };
                let (second, send) = first.step(seen);
                let (third, receive) = second.step(HandshakeEvent::Sent(outgoing));
                &&& look is Check
                &&& first.wf()
                &&& first.expects(seen)
                &&& first.initial_server_addr == server
                &&& if outgoing == 0 {
                    send == HandshakeActionView::Fail(
                        ErrorView::Text("proxy_handler launched went wrong"@),
                    )
                } else {
                    &&& send is Send
                    &&& second.expects(HandshakeEvent::Sent(outgoing))
                    &&& receive is Receive
                    &&& third.wf()
                    &&& third.launched
                    &&& third.tx == outgoing
                    &&& third.rx == 0
                    &&& third.initial_server_addr == server
                }
            }),
    {
    }

    /// A round of a handshake: the bytes that come are handed to the handler, what it has to
    /// send then is sent, and it is looked at again; where the connection does not stand yet,
    /// more bytes are received. The counts grow by exactly what has come and gone. A proxy
    /// that closes the connection is an error.
    pub proof fn law_round(
        self,
        received: usize,
        outgoing: usize,
        left: usize,
        server: SocketAddr,
        udp_associate: Option<SocketAddr>,
    )
        requires
            self.wf(),
            self.phase == HandshakePhase::Reading,
            self.rx + received <= usize::MAX,
            self.tx + outgoing <= usize::MAX,
        ensures
            ({
                let (first, push) = self.step(HandshakeEvent::Received(received));
                let (second, answer) = first.step(HandshakeEvent::Pushed { outgoing });
                let (third, look) = second.step(HandshakeEvent::Sent(outgoing));
                let after = if outgoing > 0 {
                    third
                } else {
                    second
                };
                let seen = HandshakeEvent::Handler {
                    established: false,
                    outgoing: left,
                    server_addr: server,
                    udp_associate,
                };
                &&& received == 0 ==> push == HandshakeActionView::Fail(
                    ErrorView::Text("server closed accidentially"@),
                )
                &&& received > 0 ==> {
                    &&& push is Push
                    &&& first.expects(HandshakeEvent::Pushed { outgoing })
                    &&& outgoing > 0 ==> answer is Send && second.expects(
                        HandshakeEvent::Sent(outgoing),
                    ) && look is Check
                    &&& outgoing == 0 ==> answer is Check
                    &&& after.expects(seen)
                    &&& after.step(seen).1 is Receive
                    &&& after.step(seen).0 == Handshake {
                        tx: (self.tx + outgoing) as usize,
                        rx: (self.rx + received) as usize,
                        ..self
                    }
                }
            }),
    {
    }
}

/// What is to be done with a piece of a stream that is copied.
#[derive(Clone, Copy, PartialEq, Eq, Structural, Debug)]
pub enum CopyAction {
    /// The stream has ended after so many bytes.
    End(u64),
    /// Record so much traffic, and write the piece.
    Forward { total: u64, tx: usize, rx: usize },
}

/// What a piece of `n` bytes leads to in a stream of which `total` bytes have been copied.
pub open spec fn copied(total: u64, n: usize, is_tx: bool) -> CopyAction {
    if n == 0 {
        CopyAction::End(total)
    } else {
        CopyAction::Forward {
            total: (total + n) as u64,
            tx: if is_tx { n } else { 0 },
            rx: if is_tx { 0 } else { n },
        }
    }
}

/// A stream ends where nothing is left of it, after as many bytes as were copied. Every other
/// piece is written, and recorded once, in full, in its own direction.
pub proof fn law_copy(total: u64, n: usize, is_tx: bool)
    requires
        total + n <= u64::MAX,
    ensures
        n == 0 ==> copied(total, n, is_tx) == CopyAction::End(total),
        n > 0 ==> (copied(total, n, is_tx) matches CopyAction::Forward { total: t, tx, rx } && t - n
            == total && tx + rx == n && (tx == n <==> is_tx) && (rx == n <==> !is_tx)),
{
}

/// What a piece of `n` bytes leads to in a stream of which `total` bytes have been copied.
pub fn copy_and_record_traffic(total: u64, n: usize, is_tx: bool) -> (r: CopyAction)
    requires
        total + n <= u64::MAX,
    ensures
        r == copied(total, n, is_tx),
        r == (if n == 0 {
            CopyAction::End(total)
        } else {
            CopyAction::Forward {
                total: (total + n) as u64,
                tx: if is_tx { n } else { 0 },
                rx: if is_tx { 0 } else { n },
            }
        }),
{
    if n == 0 {
        return CopyAction::End(total);
    }
    let (tx, rx) = if is_tx {
        (n, 0)
    } else {
        (0, n)
    };
    CopyAction::Forward { total: total + n as u64, tx, rx }
}

/// What has happened in a TCP session.
#[derive(Debug)]
pub enum TcpEvent {
    /// It begins, with a handler that talks to this server.
    Begin(SocketAddr),
    /// The connection to the server stands.
    Connected,
    /// The handshake has ended.
    Handshaken(Result<ProxyResult, Error>),
    /// The connection that replaces the one to the proxy stands.
    Reconnected,
    /// Both directions have been copied to their ends.
    Copied,
}

/// What is to be done in a TCP session.
#[derive(Debug)]
pub enum TcpAction {
    /// Connect to this address.
    Connect(SocketAddr),
    /// Carry out the handshake.
    Handshake,
    /// Close the connection to the client, and fail.
    Abandon(Error),
    /// Close the connection to the proxy, and connect to this address in its place.
    Reconnect(SocketAddr),
    /// Copy both directions.
    Copy,
    /// The session is over.
    End,
}

/// What the event `event` leads to in a TCP session.
pub open spec fn tcp_step(event: TcpEvent) -> TcpAction {
    match event {
        TcpEvent::Begin(server_addr) => TcpAction::Connect(server_addr),
        TcpEvent::Connected => TcpAction::Handshake,
        TcpEvent::Handshaken(Err(e)) => TcpAction::Abandon(e),
        TcpEvent::Handshaken(Ok(ProxyResult::Bypass(addr))) => TcpAction::Reconnect(addr),
        TcpEvent::Handshaken(Ok(_)) => TcpAction::Copy,
        TcpEvent::Reconnected => TcpAction::Copy,
        TcpEvent::Copied => TcpAction::End,
    }
}

/// A TCP session connects to the server of its handler, carries out the handshake, copies both
/// directions and is over; where the proxy is to be left out it first connects to the
/// destination in place of the proxy. It copies nothing after a handshake that failed.
pub proof fn law_tcp_session(server: SocketAddr, other: SocketAddr, error: Error)
    ensures
        tcp_step(TcpEvent::Begin(server)) == TcpAction::Connect(server),
        tcp_step(TcpEvent::Connected) is Handshake,
        tcp_step(TcpEvent::Handshaken(Ok(ProxyResult::Established))) is Copy,
        tcp_step(TcpEvent::Handshaken(Ok(ProxyResult::UdpAssociate(other)))) is Copy,
        tcp_step(TcpEvent::Handshaken(Ok(ProxyResult::Bypass(other)))) == TcpAction::Reconnect(
            other,
        ),
        tcp_step(TcpEvent::Reconnected) is Copy,
        tcp_step(TcpEvent::Handshaken(Err(error))) == TcpAction::Abandon(error),
        tcp_step(TcpEvent::Copied) is End,
{
}

/// What the event `event` leads to in a TCP session.
pub fn handle_tcp_session(event: TcpEvent) -> (action: TcpAction)
    ensures
        action == tcp_step(event),
        match event {
            TcpEvent::Begin(server_addr) => action == TcpAction::Connect(server_addr),
            TcpEvent::Connected => action == TcpAction::Handshake,
            TcpEvent::Handshaken(Err(e)) => action == TcpAction::Abandon(e),
            TcpEvent::Handshaken(Ok(ProxyResult::Bypass(addr))) => action == TcpAction::Reconnect(
                addr,
            ),
            TcpEvent::Handshaken(Ok(_)) => action == TcpAction::Copy,
            TcpEvent::Reconnected => action == TcpAction::Copy,
            TcpEvent::Copied => action == TcpAction::End,
        },
{
    match event {
        TcpEvent::Begin(server_addr) => TcpAction::Connect(server_addr),
        TcpEvent::Connected => TcpAction::Handshake,
        TcpEvent::Handshaken(Err(e)) => TcpAction::Abandon(e),
        TcpEvent::Handshaken(Ok(ProxyResult::Bypass(addr))) => TcpAction::Reconnect(addr),
        TcpEvent::Handshaken(Ok(_)) => TcpAction::Copy,
        TcpEvent::Reconnected => TcpAction::Copy,
        TcpEvent::Copied => TcpAction::End,
    }
}

/// The destination of a UDP packet: an address, or a domain name and a port.
#[derive(Debug)]
pub enum UdpTarget {
    Address(SocketAddr),
    Domain(String, u16),
}

/// The destination of a UDP packet, in mathematical terms.
pub enum UdpTargetView {
    Address(SocketAddr),
    Domain(Seq<char>, u16),
}

impl View for UdpTarget {
    type V = UdpTargetView;

    open spec fn view(&self) -> UdpTargetView {
        match self {
            UdpTarget::Address(addr) => UdpTargetView::Address(*addr),
            UdpTarget::Domain(name, port) => UdpTargetView::Domain(name@, *port),
        }
    }
}

impl UdpTargetView {
    /// Whether a domain name is short enough for its length to fit into a byte.
    pub open spec fn fits(self) -> bool {
        self matches UdpTargetView::Domain(name, _) ==> encode_utf8(name).len() <= 255
    }

    /// The bytes that write the destination: the kind of address, the address, and the port.
    pub open spec fn bytes(self) -> Seq<u8> {
        match self {
            UdpTargetView::Address(SocketAddr::V4(a)) => seq![1u8] + a.ip.spec_octets()
                + port_bytes(a.port),
            UdpTargetView::Address(SocketAddr::V6(a)) => seq![4u8] + a.ip.spec_octets()
                + port_bytes(a.port),
            UdpTargetView::Domain(name, port) => seq![3u8, encode_utf8(name).len() as u8]
                + encode_utf8(name) + port_bytes(port),
        }
    }
}

/// The bytes of a port, the more significant one first.
pub open spec fn port_bytes(port: u16) -> Seq<u8> {
    seq![(port / 256) as u8, (port % 256) as u8]
}

/// The header that a SOCKS5 proxy wants in front of a UDP packet for `target`: two zero
/// bytes, the number of the fragment, and the destination.
pub open spec fn udp_header(frag: u8, target: UdpTargetView) -> Seq<u8> {
    seq![0u8, 0u8, frag] + target.bytes()
}

/// `socks5_impl::protocol::UdpHeader::write_to_stream`: the bytes of the header of a packet
/// for `target`.
///
/// A domain name of more than 255 bytes cannot be written.
#[verifier::external_body]
fn write_udp_header(frag: u8, target: &UdpTarget) -> (r: Vec<u8>)
    requires
        target@.fits(),
    ensures
        r@ == udp_header(frag, target@),
{
    let address = match target {
        UdpTarget::Address(SocketAddr::V4(a)) => Address::SocketAddress((a.ip.bits.to_be_bytes(), a.port).into()),
        UdpTarget::Address(SocketAddr::V6(a)) => Address::SocketAddress((a.ip.bits.to_be_bytes(), a.port).into()),
        UdpTarget::Domain(name, port) => Address::DomainAddress(name.clone().into(), *port),
    };
    let mut out = Vec::new();
    let _ = UdpHeader::new(frag, address).write_to_stream(&mut out);
    out
}

/// The length of the header with which the packet `data` from a SOCKS5 proxy begins, where
/// it begins with one.
pub open spec fn udp_header_len(data: Seq<u8>) -> Option<nat> {
    if data.len() < 4 || data[0] != 0 || data[1] != 0 {
        None
    } else if data[3] == 1 && data.len() >= 10 {
        Some(10)
    } else if data[3] == 4 && data.len() >= 22 {
        Some(22)
    } else if data[3] == 3 && data.len() >= 5 && data.len() >= 7 + data[4] && valid_utf8(
        data.subrange(5, 5 + data[4]),
    ) {
        Some((7 + data[4]) as nat)
    } else {
        None
    }
}

/// The text of the error with which `socks5_impl::protocol::UdpHeader::retrieve_from_stream`
/// refuses `data`.
pub uninterp spec fn udp_header_error(data: Seq<u8>) -> Seq<char>;

/// `socks5_impl::protocol::UdpHeader::retrieve_from_stream`: the length of the header with
/// which `data` begins, or the text of the error where it begins with none.
#[verifier::external_body]
fn read_udp_header(data: &[u8]) -> (r: Result<usize, String>)
    ensures
        match r {
            Ok(n) => udp_header_len(data@) == Some(n as nat) && n <= data@.len(),
            Err(e) => udp_header_len(data@) is None && e@ == udp_header_error(data@),
        },
{
    let mut rest = data;
    UdpHeader::retrieve_from_stream(&mut rest).map(|h| h.len()).map_err(|e| e.to_string())
}

/// A UDP session through a proxy: the protocol of the proxy, the destination, and its domain
/// name where that is known.
#[derive(Debug)]
pub struct UdpSession {
    pub proxy_type: ProxyType,
    pub dst: SocketAddr,
    pub domain_name: Option<String>,
}

/// What has happened in a UDP session.
#[derive(Debug)]
pub enum UdpEvent {
    /// The first packet, which was read before the session began. The cache has no answer to
    /// it.
    FirstPacket(Vec<u8>),
    /// A packet from the client; none is left where it is empty.
    FromClient(Vec<u8>),
    /// The cache has been asked for an answer to this packet.
    CacheAsked { packet: Vec<u8>, answered: bool },
    /// A packet from the server; none is left where it is empty.
    FromServer(Vec<u8>),
}

/// What is to be done in a UDP session.
#[derive(Debug)]
pub enum UdpAction {
    /// Wait for the next packet.
    Next,
    /// Ask the cache for an answer to this packet.
    AskCache(Vec<u8>),
    /// Send these bytes to the server.
    ToServer(Vec<u8>),
    /// Send these bytes to the client.
    ToClient(Vec<u8>),
    /// Take the DNS response in these bytes in, and send what comes of it to the client.
    Snoop(Vec<u8>),
    /// The session is over.
    End,
    /// The session has failed.
    Fail(Error),
}

/// What is to be done in a UDP session, in mathematical terms.
pub enum UdpActionView {
    Next,
    AskCache(Seq<u8>),
    ToServer(Seq<u8>),
    ToClient(Seq<u8>),
    Snoop(Seq<u8>),
    End,
    Fail(ErrorView),
}

impl View for UdpAction {
    type V = UdpActionView;

    open spec fn view(&self) -> UdpActionView {
        match self {
            UdpAction::Next => UdpActionView::Next,
            UdpAction::AskCache(data) => UdpActionView::AskCache(data@),
            UdpAction::ToServer(data) => UdpActionView::ToServer(data@),
            UdpAction::ToClient(data) => UdpActionView::ToClient(data@),
            UdpAction::Snoop(data) => UdpActionView::Snoop(data@),
            UdpAction::End => UdpActionView::End,
            UdpAction::Fail(e) => UdpActionView::Fail(e@),
        }
    }
}

/// What is to be done in a UDP session, and how much traffic is to be recorded before.
#[derive(Debug)]
pub struct UdpStep {
    pub tx: usize,
    pub rx: usize,
    pub action: UdpAction,
}

/// Where the packets of a UDP session go after the handshake with the proxy.
pub open spec fn associated(result: ProxyResult) -> Result<SocketAddr, ErrorView> {
    match result {
        ProxyResult::UdpAssociate(addr) => Ok(addr),
        _ => Err(ErrorView::Text("udp associate failed"@)),
    }
}

/// The packets of a UDP session go exactly where the proxy takes them, and nowhere where it
/// takes none.
pub proof fn law_associated(addr: SocketAddr)
    ensures
        associated(ProxyResult::UdpAssociate(addr)) == Ok::<SocketAddr, ErrorView>(addr),
        associated(ProxyResult::Established) == Err::<SocketAddr, ErrorView>(
            ErrorView::Text("udp associate failed"@),
        ),
        associated(ProxyResult::Bypass(addr)) == Err::<SocketAddr, ErrorView>(
            ErrorView::Text("udp associate failed"@),
        ),
{
}

/// Where the packets of a UDP session go after the handshake with the proxy.
pub fn udp_associate_addr(result: ProxyResult) -> (r: Result<SocketAddr, Error>)
    ensures
        match r {
            Ok(addr) => associated(result) == Ok::<SocketAddr, ErrorView>(addr),
            Err(e) => associated(result) == Err::<SocketAddr, ErrorView>(e@),
        },
        match result {
            ProxyResult::UdpAssociate(addr) => r matches Ok(a) && a == addr,
            _ => r matches Err(e) && e@ == ErrorView::Text("udp associate failed"@),
        },
{
    match result {
        ProxyResult::UdpAssociate(addr) => Ok(addr),
        _ => Err(Error::text("udp associate failed")),
    }
}

/// What has happened at the start of a UDP session.
#[derive(Debug)]
pub enum UdpStartEvent {
    /// It begins, with a handler that talks to this server and may already know where UDP
    /// packets go.
    Begin { udp_associate: Option<SocketAddr>, server_addr: SocketAddr },
    /// The connection to the proxy stands.
    Connected,
    /// The handshake has ended.
    Handshaken(Result<ProxyResult, Error>),
    /// The way for UDP packets is open; this packet was read before the session began.
    Opened(Option<Vec<u8>>),
}

/// What is to be done at the start of a UDP session.
#[derive(Debug)]
pub enum UdpStartAction {
    /// Connect to the proxy at this address, and keep the connection as long as the session.
    Connect(SocketAddr),
    /// Carry out the handshake.
    Handshake,
    /// Open the way for UDP packets to this address.
    Open(SocketAddr),
    /// Hand this packet to the session before anything is read.
    Forward(Vec<u8>),
    /// Read from the client and the server.
    Read,
    /// The session has failed.
    Fail(Error),
}

/// What is to be done at the start of a UDP session, in mathematical terms.
pub enum UdpStartActionView {
    Connect(SocketAddr),
    Handshake,
    Open(SocketAddr),
    Forward(Seq<u8>),
    Read,
    Fail(ErrorView),
}

impl View for UdpStartAction {
    type V = UdpStartActionView;

    open spec fn view(&self) -> UdpStartActionView {
        match self {
            UdpStartAction::Connect(addr) => UdpStartActionView::Connect(*addr),
            UdpStartAction::Handshake => UdpStartActionView::Handshake,
            UdpStartAction::Open(addr) => UdpStartActionView::Open(*addr),
            UdpStartAction::Forward(packet) => UdpStartActionView::Forward(packet@),
            UdpStartAction::Read => UdpStartActionView::Read,
            UdpStartAction::Fail(e) => UdpStartActionView::Fail(e@),
        }
    }
}

/// What the event `event` leads to at the start of a UDP session.
pub open spec fn udp_start(event: UdpStartEvent) -> UdpStartActionView {
    match event {
        UdpStartEvent::Begin { udp_associate: Some(addr), .. } => UdpStartActionView::Open(addr),
        UdpStartEvent::Begin { udp_associate: None, server_addr } => UdpStartActionView::Connect(
            server_addr,
        ),
        UdpStartEvent::Connected => UdpStartActionView::Handshake,
        UdpStartEvent::Handshaken(Ok(result)) => match associated(result) {
            Ok(addr) => UdpStartActionView::Open(addr),
            Err(e) => UdpStartActionView::Fail(e),
        },
        UdpStartEvent::Handshaken(Err(e)) => UdpStartActionView::Fail(e@),
        UdpStartEvent::Opened(Some(packet)) => UdpStartActionView::Forward(packet@),
        UdpStartEvent::Opened(None) => UdpStartActionView::Read,
    }
}

/// A UDP session opens the way for its packets at once where the handler knows the address,
/// and otherwise after a handshake that gives one. A packet that was read before it began is
/// handed on unchanged before anything is read. A handshake without an address, or one that
/// failed, ends the session.
pub proof fn law_udp_start(
    server: SocketAddr,
    addr: SocketAddr,
    udp_associate: Option<SocketAddr>,
    packet: Vec<u8>,
    error: Error,
)
    ensures
        udp_start(UdpStartEvent::Begin { udp_associate, server_addr: server }) == (
        if udp_associate is Some {
            UdpStartActionView::Open(udp_associate->0)
        } else {
            UdpStartActionView::Connect(server)
        }),
        udp_start(UdpStartEvent::Connected) is Handshake,
        udp_start(UdpStartEvent::Handshaken(Ok(ProxyResult::UdpAssociate(addr))))
            == UdpStartActionView::Open(addr),
        udp_start(UdpStartEvent::Handshaken(Ok(ProxyResult::Established)))
            == UdpStartActionView::Fail(ErrorView::Text("udp associate failed"@)),
        udp_start(UdpStartEvent::Handshaken(Ok(ProxyResult::Bypass(addr))))
            == UdpStartActionView::Fail(ErrorView::Text("udp associate failed"@)),
        udp_start(UdpStartEvent::Handshaken(Err(error))) == UdpStartActionView::Fail(error@),
        udp_start(UdpStartEvent::Opened(Some(packet))) == UdpStartActionView::Forward(packet@),
        udp_start(UdpStartEvent::Opened(None)) is Read,
{
}

/// What the event `event` leads to at the start of a UDP session.
pub fn start_udp_session(event: UdpStartEvent) -> (action: UdpStartAction)
    ensures
        action@ == udp_start(event),
        match event {
            UdpStartEvent::Begin { udp_associate: Some(addr), .. } => action
                == UdpStartAction::Open(addr),
            UdpStartEvent::Begin { udp_associate: None, server_addr } => action
                == UdpStartAction::Connect(server_addr),
            UdpStartEvent::Connected => action == UdpStartAction::Handshake,
            UdpStartEvent::Handshaken(Ok(ProxyResult::UdpAssociate(addr))) => action
                == UdpStartAction::Open(addr),
            UdpStartEvent::Handshaken(Ok(_)) => action matches UdpStartAction::Fail(e) && e@
                == ErrorView::Text("udp associate failed"@),
            UdpStartEvent::Handshaken(Err(e)) => action == UdpStartAction::Fail(e),
            UdpStartEvent::Opened(Some(packet)) => action == UdpStartAction::Forward(packet),
            UdpStartEvent::Opened(None) => action == UdpStartAction::Read,
        },
{
    match event {
        UdpStartEvent::Begin { udp_associate: Some(addr), .. } => UdpStartAction::Open(addr),
        UdpStartEvent::Begin { udp_associate: None, server_addr } => UdpStartAction::Connect(
            server_addr,
        ),
        UdpStartEvent::Connected => UdpStartAction::Handshake,
        UdpStartEvent::Handshaken(Ok(result)) => match udp_associate_addr(result) {
            Ok(addr) => UdpStartAction::Open(addr),
            Err(e) => UdpStartAction::Fail(e),
        },
        UdpStartEvent::Handshaken(Err(e)) => UdpStartAction::Fail(e),
        UdpStartEvent::Opened(Some(packet)) => UdpStartAction::Forward(packet),
        UdpStartEvent::Opened(None) => UdpStartAction::Read,
    }
}

impl UdpSession {
    /// The destination of the packets: the domain name, where it is known, or the address.
    pub open spec fn spec_target(self) -> UdpTargetView {
        match self.domain_name {
            Some(name) => UdpTargetView::Domain(name@, self.dst.spec_port()),
            None => UdpTargetView::Address(self.dst),
        }
    }

    /// Whether the proxy wants a header in front of every packet.
    pub open spec fn uses_headers(self) -> bool {
        self.proxy_type == ProxyType::Socks4 || self.proxy_type == ProxyType::Socks5
    }

    /// The packet `data` as it goes to the server.
    pub open spec fn wrapped(self, data: Seq<u8>) -> Seq<u8> {
        if self.uses_headers() {
            udp_header(0, self.spec_target()) + data
        } else {
            data
        }
    }

    /// What the packet `data` from the server holds.
    pub open spec fn unwrapped(self, data: Seq<u8>) -> Result<Seq<u8>, ErrorView> {
        if self.uses_headers() {
            match udp_header_len(data) {
                Some(n) => Ok(data.skip(n as int)),
                None => Err(ErrorView::Socks(udp_header_error(data))),
            }
        } else {
            Ok(data)
        }
    }

    /// What the event `event` leads to, and the traffic to be recorded before.
    pub open spec fn step(self, event: UdpEvent) -> (UdpActionView, nat, nat) {
        match event {
            UdpEvent::FirstPacket(data) => (
                UdpActionView::ToServer(self.wrapped(data@)),
                data@.len(),
                0,
            ),
            UdpEvent::FromClient(data) => if data@.len() == 0 {
                (UdpActionView::End, 0, 0)
            } else if self.dst.spec_port() == DNS_PORT {
                (UdpActionView::AskCache(data@), data@.len(), 0)
            } else {
                (UdpActionView::ToServer(self.wrapped(data@)), data@.len(), 0)
            },
            UdpEvent::CacheAsked { packet, answered } => if answered {
                (UdpActionView::Next, 0, 0)
            } else {
                (UdpActionView::ToServer(self.wrapped(packet@)), 0, 0)
            },
            UdpEvent::FromServer(data) => if data@.len() == 0 {
                (UdpActionView::End, 0, 0)
            } else {
                (
                    match self.unwrapped(data@) {
                        Err(e) => UdpActionView::Fail(e),
                        Ok(payload) => if self.dst.spec_port() == DNS_PORT {
                            UdpActionView::Snoop(payload)
                        } else {
                            UdpActionView::ToClient(payload)
                        },
                    },
                    0,
                    data@.len(),
                )
            },
        }
    }

    fn target(&self) -> (r: UdpTarget)
        ensures
            r@ == self.spec_target(),
    {
        match &self.domain_name {
            Some(name) => UdpTarget::Domain(name.clone(), self.dst.port()),
            None => UdpTarget::Address(self.dst),
        }
    }

    /// The packet `data` as it goes to the server.
    pub fn wrap(&self, data: &[u8]) -> (r: Vec<u8>)
        requires
            self.uses_headers() ==> self.spec_target().fits(),
        ensures
            r@ == self.wrapped(data@),
    {
        let mut out: Vec<u8> = match self.proxy_type {
            ProxyType::Socks4 | ProxyType::Socks5 => write_udp_header(0, &self.target()),
            _ => Vec::new(),
        };
        let ghost header = out@;
        out.extend_from_slice(data);
        assert(out@ =~= header + data@);
        assert(out@ =~= self.wrapped(data@));
        out
    }

    /// What the packet `data` from the server holds.
    pub fn unwrap(&self, data: &[u8]) -> (r: Result<Vec<u8>, Error>)
        ensures
            match r {
                Ok(payload) => self.unwrapped(data@) == Ok::<Seq<u8>, ErrorView>(payload@),
                Err(e) => self.unwrapped(data@) == Err::<Seq<u8>, ErrorView>(e@),
            },
    {
        let skip: usize = match self.proxy_type {
            ProxyType::Socks4 | ProxyType::Socks5 => match read_udp_header(data) {
                Ok(n) => n,
                Err(e) => {
                    return Err(Error::Socks(e));
                },
            },
            _ => 0,
        };
        let mut out: Vec<u8> = Vec::new();
        out.extend_from_slice(vstd::slice::slice_subrange(data, skip, data.len()));
        assert(out@ =~= data@.skip(skip as int));
        assert(data@.skip(0) =~= data@);
        Ok(out)
    }

    /// Whether the name of the destination fits into the header of the packet that `event`
    /// sends to the server, if it sends one with a header.
    pub open spec fn can_take(self, event: UdpEvent) -> bool {
        self.step(event).0 is ToServer && self.uses_headers() ==> self.spec_target().fits()
    }

    /// Whether the name of the destination fits into the header of the packet that `event`
    /// sends to the server, if it sends one with a header.
    pub fn accepts(&self, event: &UdpEvent) -> (r: bool)
        ensures
            r == self.can_take(*event),
    {
        let sends: bool = match event {
            UdpEvent::FirstPacket(_) => true,
            UdpEvent::FromClient(data) => data.len() > 0 && self.dst.port() != DNS_PORT,
            UdpEvent::CacheAsked { packet: _, answered } => !*answered,
            UdpEvent::FromServer(_) => false,
        };
        let with_header: bool = match self.proxy_type {
            ProxyType::Socks4 | ProxyType::Socks5 => true,
            _ => false,
        };
        if !sends || !with_header {
            return true;
        }
        match &self.domain_name {
            Some(name) => name.as_str().as_bytes().len() <= 255,
            None => true,
        }
    }

    /// What the event `event` leads to, and the traffic to be recorded before. The name of a
    /// destination must fit into the header of a packet that gets one.
    pub fn handle_udp_associate_session(&self, event: UdpEvent) -> (r: UdpStep)
        requires
            self.can_take(event),
        ensures
            (r.action@, r.tx as nat, r.rx as nat) == self.step(event),
    {
        match event {
            UdpEvent::FirstPacket(data) => UdpStep {
                tx: data.len(),
                rx: 0,
                action: UdpAction::ToServer(self.wrap(data.as_slice())),
            },
            UdpEvent::FromClient(data) => {
                let len: usize = data.len();
                if len == 0 {
                    return UdpStep { tx: 0, rx: 0, action: UdpAction::End };
                }
                if self.dst.port() == DNS_PORT {
                    return UdpStep { tx: len, rx: 0, action: UdpAction::AskCache(data) };
                }
                UdpStep { tx: len, rx: 0, action: UdpAction::ToServer(self.wrap(data.as_slice())) }
            },
            UdpEvent::CacheAsked { packet, answered } => {
                if answered {
                    return UdpStep { tx: 0, rx: 0, action: UdpAction::Next };
                }
                UdpStep { tx: 0, rx: 0, action: UdpAction::ToServer(self.wrap(packet.as_slice())) }
            },
            UdpEvent::FromServer(data) => {
                let len: usize = data.len();
                if len == 0 {
                    return UdpStep { tx: 0, rx: 0, action: UdpAction::End };
                }
                let action: UdpAction = match self.unwrap(data.as_slice()) {
                    Err(e) => UdpAction::Fail(e),
                    Ok(payload) => {
                        if self.dst.port() == DNS_PORT {
                            UdpAction::Snoop(payload)
                        } else {
                            UdpAction::ToClient(payload)
                        }
                    },
                };
                UdpStep { tx: 0, rx: len, action }
            },
        }
    }

    /// What goes to the server and comes back unchanged is the packet that was sent.
    pub proof fn law_unwrap_undoes_wrap(self, data: Seq<u8>)
        requires
            self.uses_headers() ==> self.spec_target().fits(),
        ensures
            self.unwrapped(self.wrapped(data)) == Ok::<Seq<u8>, ErrorView>(data),
    {
        if self.uses_headers() {
            let target = self.spec_target();
            let header = udp_header(0, target);
            let all = header + data;
            match target {
                UdpTargetView::Domain(name, _) => {
                    encode_utf8_valid_utf8(name);
                    assert(all.subrange(5, 5 + encode_utf8(name).len() as int) =~= encode_utf8(name));
                },
                UdpTargetView::Address(_) => {},
            }
            assert(udp_header_len(all) == Some(header.len()));
            assert(all.skip(header.len() as int) =~= data);
        }
    }

    /// Every packet that goes to a server of a SOCKS proxy, the first one, one from the client
    /// and one to which the cache had no answer, is the header for the destination of the
    /// session followed by exactly that packet: two zero bytes, the fragment 0, the kind of
    /// the destination, the destination and its port. The destination is the domain name
    /// where it is known and the address otherwise. Other servers get the packet as it is.
    pub proof fn law_packets_to_server(self, packet: Vec<u8>)
        requires
            self.uses_headers() ==> self.spec_target().fits(),
        ensures
            self.uses_headers() <==> self.proxy_type == ProxyType::Socks4 || self.proxy_type
                == ProxyType::Socks5,
            ({
                let port = self.dst.spec_port();
                let sent = if !self.uses_headers() {
                    packet@
                } else if self.domain_name is Some {
                    let name = encode_utf8(self.domain_name->0@);
                    seq![0u8, 0u8, 0u8, 3u8, name.len() as u8] + name + seq![
                        (port / 256) as u8,
                        (port % 256) as u8,
                    ] + packet@
                } else {
                    seq![0u8, 0u8, 0u8] + seq![if self.dst is V4 { 1u8 } else { 4u8 }] + (
                    if self.dst is V4 {
                        self.dst->V4_0.ip.spec_octets()
                    } else {
                        self.dst->V6_0.ip.spec_octets()
                    }) + seq![(port / 256) as u8, (port % 256) as u8] + packet@
                };
                let first = UdpEvent::FirstPacket(packet);
                let later = UdpEvent::FromClient(packet);
                let missed = UdpEvent::CacheAsked { packet, answered: false };
                &&& self.unwrapped(sent) == Ok::<Seq<u8>, ErrorView>(packet@)
                &&& self.step(first) == (UdpActionView::ToServer(sent), packet@.len(), 0nat)
                &&& packet@.len() > 0 && port != 53 ==> self.step(later) == (
                    UdpActionView::ToServer(sent),
                    packet@.len(),
                    0nat,
                )
                &&& self.step(missed) == (UdpActionView::ToServer(sent), 0nat, 0nat)
                &&& self.can_take(first)
                &&& self.can_take(later)
                &&& self.can_take(missed)
            }),
    {
        let port = self.dst.spec_port();
        self.law_unwrap_undoes_wrap(packet@);
        if self.uses_headers() {
            if self.domain_name is Some {
                let name = encode_utf8(self.domain_name->0@);
                assert(self.wrapped(packet@) =~= seq![0u8, 0u8, 0u8, 3u8, name.len() as u8] + name
                    + seq![(port / 256) as u8, (port % 256) as u8] + packet@);
            } else {
                match self.dst {
                    SocketAddr::V4(a) => {
                        assert(self.wrapped(packet@) =~= seq![0u8, 0u8, 0u8] + seq![1u8]
                            + a.ip.spec_octets() + seq![(port / 256) as u8, (port % 256) as u8]
                            + packet@);
                    },
                    SocketAddr::V6(a) => {
                        assert(self.wrapped(packet@) =~= seq![0u8, 0u8, 0u8] + seq![4u8]
                            + a.ip.spec_octets() + seq![(port / 256) as u8, (port % 256) as u8]
                            + packet@);
                    },
                }
            }
        }
    }

    /// A client that has nothing left ends the session. A packet of its to the port of DNS is
    /// first put to the cache, as it is; where that has answered it goes no further.
    pub proof fn law_packets_from_client(self, packet: Vec<u8>)
        ensures
            packet@.len() == 0 ==> self.step(UdpEvent::FromClient(packet)) == (
                UdpActionView::End,
                0nat,
                0nat,
            ),
            packet@.len() > 0 && self.dst.spec_port() == 53 ==> self.step(
                UdpEvent::FromClient(packet),
            ) == (UdpActionView::AskCache(packet@), packet@.len(), 0nat),
            self.step(UdpEvent::CacheAsked { packet, answered: true }) == (
                UdpActionView::Next,
                0nat,
                0nat,
            ),
    {
    }

    /// A server that has nothing left ends the session. What its packets hold behind their
    /// header goes to the client, and from the port of DNS it is taken in as a response on the
    /// way; all of a packet is counted. A packet of a SOCKS proxy without a header is an error.
    pub proof fn law_packets_from_server(self, packet: Vec<u8>)
        ensures
            ({
                let (action, tx, rx) = self.step(UdpEvent::FromServer(packet));
                &&& tx == 0
                &&& rx == packet@.len()
                &&& packet@.len() == 0 ==> action is End
                &&& packet@.len() > 0 && !self.uses_headers() ==> action == (
                if self.dst.spec_port() == 53 {
                    UdpActionView::Snoop(packet@)
                } else {
                    UdpActionView::ToClient(packet@)
                })
                &&& packet@.len() > 0 && self.uses_headers() ==> match udp_header_len(packet@) {
                    None => action == UdpActionView::Fail(
                        ErrorView::Socks(udp_header_error(packet@)),
                    ),
                    Some(n) => action == (if self.dst.spec_port() == 53 {
                        UdpActionView::Snoop(packet@.skip(n as int))
                    } else {
                        UdpActionView::ToClient(packet@.skip(n as int))
                    }),
                }
            }),
    {
    }

    /// Any packet of a SOCKS proxy that begins with a header, whatever fragment and
    /// destination that names, holds what follows the header.
    pub proof fn law_header_is_skipped(self, frag: u8, target: UdpTargetView, data: Seq<u8>)
        requires
            self.uses_headers(),
            target.fits(),
        ensures
            udp_header_len(udp_header(frag, target) + data) == Some(udp_header(frag, target).len()),
            self.unwrapped(udp_header(frag, target) + data) == Ok::<Seq<u8>, ErrorView>(data),
    {
        let header = udp_header(frag, target);
        let all = header + data;
        match target {
            UdpTargetView::Domain(name, _) => {
                encode_utf8_valid_utf8(name);
                assert(all.subrange(5, 5 + encode_utf8(name).len() as int) =~= encode_utf8(name));
            },
            UdpTargetView::Address(_) => {},
        }
        assert(all.skip(header.len() as int) =~= data);
    }

    /// Whether a session takes an event depends on the name of its destination alone, and only
    /// where a packet gets a header: the name must fit into a byte's worth of bytes.
    pub proof fn law_can_take(self, event: UdpEvent)
        ensures
            !self.can_take(event) ==> self.uses_headers() && self.domain_name is Some
                && encode_utf8(self.domain_name->0@).len() > 255 && event !is FromServer,
    {
    }
}

} // verus!
