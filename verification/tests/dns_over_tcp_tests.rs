use std::collections::HashMap;

use tun2proxy::dns;
use tun2proxy::dns_mapping::DnsCache;
use tun2proxy::dns_over_tcp::{
    handle_dns_over_tcp_session, make_dns_msg, query_domain, take_response, take_response_at, tcp_frame, QueryAction,
    QueryEvent, ReaderAction, ReaderEvent, SessionAction, SessionEvent, SharedDnsTcpClient, ANSWER_LIMIT, WRITE_LIMIT,
};
use tun2proxy::error::Error;
use tun2proxy::net::{IpAddr, Ipv4Addr, Ipv6Addr, SocketAddr};
use tun2proxy::proxy_handler::ProxyResult;
use tun2proxy::session_info::IpProtocol;

/// What a server does with one connection.
#[derive(Clone, Copy)]
enum Connection {
    /// It sends every query back.
    Echo,
    /// It reads queries and says nothing.
    Silent,
    /// It reads one query and closes the connection.
    Close,
}

/// A client with the far end of its connection. A handle is a number; what is sent through
/// it lands in the inbox.
struct Bench {
    client: SharedDnsTcpClient<u32>,
    server: Vec<Connection>,
    connections: usize,
    reader_alive: bool,
    to_server: Vec<u8>,
    to_client: Vec<u8>,
    inbox: HashMap<u32, Result<Vec<u8>, String>>,
    handles: u32,
    ended_with: Option<String>,
}

impl Bench {
    fn new(server: Vec<Connection>) -> Bench {
        Bench {
            client: SharedDnsTcpClient::new(SocketAddr::new(IpAddr::V4(Ipv4Addr::new(127, 0, 0, 1)), 1)),
            server,
            connections: 0,
            reader_alive: false,
            to_server: vec![],
            to_client: vec![],
            inbox: HashMap::new(),
            handles: 0,
            ended_with: None,
        }
    }

    /// A client that is connected, with queries registered under these identifiers. What it
    /// wrote is thrown away.
    fn with_pending(ids: &[u16]) -> (Bench, Vec<u32>) {
        let mut bench = Bench::new(vec![Connection::Silent]);
        let handles = ids.iter().map(|id| bench.send(&make_dns_msg(*id)).unwrap()).collect();
        bench.to_server.clear();
        (bench, handles)
    }

    fn notify(&mut self, handles: Vec<u32>, text: &str) {
        for h in handles {
            self.inbox.insert(h, Err(text.to_string()));
        }
    }

    /// Sends a query; the result is the handle through which it waits, or its error.
    fn send(&mut self, raw: &[u8]) -> Result<u32, String> {
        let mut event = QueryEvent::Begin { reader_finished: !self.reader_alive };
        loop {
            event = match self.client.query(raw, event) {
                QueryAction::Connect { notify, error } => {
                    assert_eq!(error.message(), "DNS TCP connection reset");
                    self.notify(notify, &error.message());
                    self.to_server.clear();
                    self.to_client.clear();
                    self.connections += 1;
                    self.reader_alive = true;
                    QueryEvent::Connected(Ok(()))
                }
                QueryAction::Register => {
                    self.handles += 1;
                    QueryEvent::Register(self.handles)
                }
                QueryAction::Write(bytes) => {
                    self.to_server.extend_from_slice(&bytes);
                    QueryEvent::Written
                }
                QueryAction::Wait => return Ok(self.handles),
                QueryAction::Return { result, notify, .. } => {
                    assert!(notify.is_empty());
                    return Err(result.unwrap_err().message());
                }
            };
        }
    }

    /// Lets the server work on what it got, and the reading task on what came back.
    fn work(&mut self) {
        match self.server[self.connections - 1] {
            Connection::Echo => {
                let bytes = std::mem::take(&mut self.to_server);
                self.to_client.extend_from_slice(&bytes);
                self.read(false);
            }
            Connection::Silent => self.read(false),
            Connection::Close => {
                self.read(true);
                self.end_reader();
            }
        }
    }

    /// What follows the end of the reading.
    fn end_reader(&mut self) {
        let (notify, error) = self.client.reader_ended();
        assert!(self.client.is_idle());
        self.notify(notify, &error.message());
    }

    /// The reading task: takes whole frames from what came, and ends where the connection
    /// has ended.
    fn read(&mut self, closed: bool) {
        while self.reader_alive {
            let event = if self.to_client.len() < 2 {
                if !closed {
                    return;
                }
                ReaderEvent::Failed(Error::text("early eof"))
            } else {
                ReaderEvent::Length(self.to_client[0], self.to_client[1])
            };
            match self.client.reader_loop(event) {
                ReaderAction::ReadMessage(n) => {
                    let message = self.to_client[2..2 + n].to_vec();
                    self.to_client.drain(..2 + n);
                    match self.client.reader_loop(ReaderEvent::Message(message)) {
                        ReaderAction::Deliver { to, message } => {
                            for h in to {
                                self.inbox.insert(h, Ok(message.clone()));
                            }
                        }
                        _ => panic!("a message should be handed on"),
                    }
                }
                ReaderAction::Stop(error) => {
                    self.ended_with = Some(error.message());
                    self.reader_alive = false;
                }
                ReaderAction::Deliver { .. } => panic!("a length should be read"),
            }
        }
    }

    /// Waits for the answer to a query: what has come through its handle, or a timeout.
    fn receive(&mut self, raw: &[u8], handle: u32) -> Result<Vec<u8>, String> {
        let event = match self.inbox.remove(&handle) {
            Some(Ok(bytes)) => QueryEvent::Answered(Ok(bytes)),
            Some(Err(text)) => QueryEvent::Answered(Err(Error::text(&text))),
            None => QueryEvent::TimedOut,
        };
        match self.client.query(raw, event) {
            QueryAction::Return { result, notify, stop_reader } => {
                assert!(!stop_reader);
                let others = notify.into_iter().filter(|h| *h != handle).collect();
                self.notify(others, "DNS query timed out");
                result.map_err(|e| e.message())
            }
            _ => panic!("the query should be over"),
        }
    }

    fn query(&mut self, raw: &[u8]) -> Result<Vec<u8>, String> {
        let handle = self.send(raw)?;
        self.work();
        self.receive(raw, handle)
    }
}

// ── reader_loop unit tests ───────────────────────────────────────

#[test]
fn test_reader_loop_dispatches_by_txn_id() {
    let (mut bench, handles) = Bench::with_pending(&[0x1111, 0x2222]);

    // Two TCP-framed DNS responses with different txn_ids.
    bench.to_client.extend_from_slice(&tcp_frame(&make_dns_msg(0x1111)));
    bench.to_client.extend_from_slice(&tcp_frame(&make_dns_msg(0x2222)));
    bench.read(false);

    let result1 = bench.inbox[&handles[0]].clone().unwrap();
    let result2 = bench.inbox[&handles[1]].clone().unwrap();
    assert_eq!(&result1[0..2], &0x1111u16.to_be_bytes());
    assert_eq!(&result2[0..2], &0x2222u16.to_be_bytes());

    // Nobody waits after dispatch.
    assert!(bench.client.is_idle());
}

#[test]
fn test_reader_loop_drops_unknown_txn_id() {
    let (mut bench, handles) = Bench::with_pending(&[0x2222]);

    // An unknown txn_id first — should be silently dropped.
    bench.to_client.extend_from_slice(&tcp_frame(&make_dns_msg(0x9999)));
    // Then a known txn_id — should be dispatched.
    bench.to_client.extend_from_slice(&tcp_frame(&make_dns_msg(0x2222)));
    bench.read(false);

    let result = bench.inbox[&handles[0]].clone().unwrap();
    assert_eq!(&result[0..2], &0x2222u16.to_be_bytes());
}

#[test]
fn test_reader_loop_broadcasts_to_all_senders() {
    let (mut bench, handles) = Bench::with_pending(&[0x4444, 0x4444]);

    // One response should be cloned to both senders.
    bench.to_client.extend_from_slice(&tcp_frame(&make_dns_msg(0x4444)));
    bench.read(false);

    let r1 = bench.inbox[&handles[0]].clone().unwrap();
    let r2 = bench.inbox[&handles[1]].clone().unwrap();
    assert_eq!(&r1[0..2], &0x4444u16.to_be_bytes());
    assert_eq!(&r2[0..2], &0x4444u16.to_be_bytes());
}

#[test]
fn test_reader_loop_notifies_pending_on_eof() {
    let (mut bench, handles) = Bench::with_pending(&[0x3333]);

    // The server side is closed.
    bench.read(true);
    assert_eq!(bench.ended_with.as_deref(), Some("early eof"));
    bench.end_reader();

    let result = bench.inbox[&handles[0]].clone();
    assert!(result.is_err());
    assert!(result.unwrap_err().to_string().contains("closed"));
}

// ── SharedDnsTcpClient::query() integration tests ────────────────

#[test]
fn test_query_too_short() {
    // query() should reject messages shorter than 2 bytes without connecting.
    let mut bench = Bench::new(vec![]);
    let result = bench.query(&[0x01]);
    assert!(result.is_err());
    assert!(result.unwrap_err().to_string().contains("too short"));
    assert_eq!(bench.connections, 0);
}

#[test]
fn test_query_success() {
    let mut bench = Bench::new(vec![Connection::Echo]);

    let response = bench.query(&make_dns_msg(0xABCD)).unwrap();
    assert_eq!(&response[0..2], &0xABCDu16.to_be_bytes());
    assert_eq!(response.len(), 12);
}

#[test]
fn test_concurrent_queries_different_txn_ids() {
    let mut bench = Bench::new(vec![Connection::Echo]);

    let (msg1, msg2, msg3) = (make_dns_msg(0x0001), make_dns_msg(0x0002), make_dns_msg(0x0003));
    let (h1, h2, h3) = (bench.send(&msg1).unwrap(), bench.send(&msg2).unwrap(), bench.send(&msg3).unwrap());
    bench.work();
    let (r1, r2, r3) = (bench.receive(&msg1, h1), bench.receive(&msg2, h2), bench.receive(&msg3, h3));

    assert_eq!(&r1.unwrap()[0..2], &0x0001u16.to_be_bytes());
    assert_eq!(&r2.unwrap()[0..2], &0x0002u16.to_be_bytes());
    assert_eq!(&r3.unwrap()[0..2], &0x0003u16.to_be_bytes());
    assert_eq!(bench.connections, 1);
}

/// When multiple sessions send queries with the same txn_id concurrently
/// (common: the OS resolver retries from different UDP source ports),
/// they piggyback on a single in-flight query and all receive the response.
#[test]
fn test_same_txn_id_concurrent_queries() {
    let mut bench = Bench::new(vec![Connection::Echo]);

    let (msg1, msg2) = (make_dns_msg(0x5555), make_dns_msg(0x5555));
    let (h1, h2) = (bench.send(&msg1).unwrap(), bench.send(&msg2).unwrap());
    // Only one of them was written.
    assert_eq!(bench.to_server, tcp_frame(&msg1));
    bench.work();
    let (r1, r2) = (bench.receive(&msg1, h1), bench.receive(&msg2, h2));

    // Both should succeed — the second piggybacks on the first.
    assert_eq!(&r1.unwrap()[0..2], &0x5555u16.to_be_bytes());
    assert_eq!(&r2.unwrap()[0..2], &0x5555u16.to_be_bytes());
}

/// A query that has timed out must leave no entry behind: a later query with the same
/// transaction ID proceeds normally, over a new connection.
#[test]
fn test_timeout_cleanup_allows_txn_id_reuse() {
    let mut bench = Bench::new(vec![Connection::Silent, Connection::Echo]);

    // First query — server won't respond, must time out.
    let result = bench.query(&make_dns_msg(0x1234));
    assert!(result.is_err());
    assert!(
        result.unwrap_err().to_string().contains("timed out"),
        "first query should time out"
    );

    // Second query with the SAME txn_id — should reconnect and succeed.
    let result = bench.query(&make_dns_msg(0x1234));
    assert!(result.is_ok(), "second query should succeed after reconnect");
    assert_eq!(&result.unwrap()[0..2], &0x1234u16.to_be_bytes());
}

#[test]
fn test_connection_lost_returns_error() {
    let mut bench = Bench::new(vec![Connection::Close]);

    let result = bench.query(&make_dns_msg(0xAAAA));
    assert!(result.is_err());
    let err = result.unwrap_err().to_string();
    assert!(
        err.contains("closed") || err.contains("lost"),
        "expected connection-related error, got: {err}"
    );
}

#[test]
fn test_reconnect_after_connection_drop() {
    let mut bench = Bench::new(vec![Connection::Close, Connection::Echo]);

    // First query — connection will be dropped, should fail.
    let result = bench.query(&make_dns_msg(0xBBBB));
    assert!(result.is_err());

    // Second query — should reconnect and succeed.
    let result = bench.query(&make_dns_msg(0xCCCC));
    assert!(result.is_ok());
    assert_eq!(&result.unwrap()[0..2], &0xCCCCu16.to_be_bytes());
}

// ── the rest of the client ───────────────────────────────────────

#[test]
fn frames_hold_the_length() {
    assert_eq!(make_dns_msg(0x1234), vec![0x12, 0x34, 0, 0, 0, 0, 0, 0, 0, 0, 0, 0]);
    assert_eq!(tcp_frame(&[7, 8, 9]), vec![0, 3, 7, 8, 9]);
    assert_eq!(&tcp_frame(&vec![1; 300])[0..3], &[1, 44, 1]);
    assert_eq!(&tcp_frame(&vec![1; 65536 + 5])[0..3], &[0, 5, 1]);
}

#[test]
fn framed_message_is_read_as_itself() {
    let query = dns::build_dns_query("example.com", 7).unwrap();
    let message = dns::parse_data_to_dns_message(&tcp_frame(&query), true).unwrap();
    assert_eq!(message.to_vec().unwrap(), query);
}

#[test]
fn timeout_tells_the_others_who_wait() {
    let mut bench = Bench::new(vec![Connection::Silent]);
    let msg = make_dns_msg(0x7777);
    let (h1, h2) = (bench.send(&msg).unwrap(), bench.send(&msg).unwrap());
    assert_eq!(bench.receive(&msg, h1), Err("DNS query timed out".to_string()));
    assert_eq!(bench.receive(&msg, h2), Err("DNS query timed out".to_string()));
    assert!(bench.client.is_idle());
}

#[test]
fn reconnecting_tells_those_who_wait() {
    let mut bench = Bench::new(vec![Connection::Silent, Connection::Silent]);
    let (a, b, c) = (make_dns_msg(1), make_dns_msg(2), make_dns_msg(3));
    let (ha, hb) = (bench.send(&a).unwrap(), bench.send(&b).unwrap());
    assert!(bench.receive(&a, ha).is_err());
    bench.send(&c).unwrap();
    assert_eq!(bench.connections, 2);
    assert_eq!(bench.receive(&b, hb), Err("DNS TCP connection reset".to_string()));
}

#[test]
fn failed_connection_fails_the_query() {
    let mut bench = Bench::new(vec![Connection::Echo]);
    let msg = make_dns_msg(5);
    assert!(matches!(
        bench.client.query(&msg, QueryEvent::Begin { reader_finished: false }),
        QueryAction::Connect { .. }
    ));
    match bench.client.query(&msg, QueryEvent::Connected(Err(Error::text("refused")))) {
        QueryAction::Return { result: Err(e), stop_reader: false, .. } => assert_eq!(e.message(), "refused"),
        _ => panic!("the query should fail"),
    }
    // The next one tries again.
    assert!(bench.query(&msg).is_ok());
}

#[test]
fn failed_write_fails_the_query() {
    let msg = make_dns_msg(6);
    let (mut bench, _) = Bench::with_pending(&[6]);
    match bench.client.query(&msg, QueryEvent::WriteFailed(Error::text("broken pipe"))) {
        QueryAction::Return { result: Err(e), stop_reader: false, .. } => assert_eq!(e.message(), "broken pipe"),
        _ => panic!("the query should fail"),
    }
    assert!(bench.client.is_idle());
    assert!(matches!(
        bench.client.query(&msg, QueryEvent::Begin { reader_finished: false }),
        QueryAction::Connect { .. }
    ));

    let (mut bench, _) = Bench::with_pending(&[6]);
    match bench.client.query(&msg, QueryEvent::WriteTimedOut) {
        QueryAction::Return { result: Err(e), stop_reader: true, .. } => {
            assert_eq!(e.message(), "DNS TCP write timed out")
        }
        _ => panic!("the query should fail"),
    }
    assert!(bench.client.is_idle());
}

#[test]
fn lost_handle_fails_the_query() {
    let (mut bench, _) = Bench::with_pending(&[6]);
    match bench.client.query(&make_dns_msg(6), QueryEvent::Lost) {
        QueryAction::Return { result: Err(e), .. } => {
            assert_eq!(e.message(), "DNS TCP connection lost while waiting for response")
        }
        _ => panic!("the query should fail"),
    }
}

#[test]
fn huge_query_cannot_be_framed() {
    let mut bench = Bench::new(vec![Connection::Echo]);
    assert_eq!(
        bench.send(&vec![0; 65536]),
        Err("out of range integral type conversion attempted".to_string())
    );
}

#[test]
fn empty_frame_ends_the_reader() {
    let (mut bench, handles) = Bench::with_pending(&[1, 2]);
    bench.to_client.extend_from_slice(&[0, 0]);
    bench.read(false);
    assert!(!bench.reader_alive);
    bench.end_reader();
    assert!(bench.inbox[&handles[0]].is_err());
    assert!(bench.inbox[&handles[1]].is_err());
    assert!(bench.client.is_idle());
}

#[test]
fn tiny_message_is_dropped() {
    let (mut bench, _) = Bench::with_pending(&[0]);
    match bench.client.reader_loop(ReaderEvent::Message(vec![0])) {
        ReaderAction::Deliver { to, .. } => assert!(to.is_empty()),
        _ => panic!("the reader should go on"),
    }
    assert!(!bench.client.is_idle());
}

#[test]
fn session_of_the_connection() {
    let server = SocketAddr::new(IpAddr::V4(Ipv4Addr::new(8, 8, 8, 8)), 53);
    let info = SharedDnsTcpClient::<u32>::new(server).session();
    assert_eq!(info.src.to_text(), "0.0.0.0:0");
    assert_eq!(info.dst, server);
    assert_eq!(info.protocol, IpProtocol::Tcp);
}

#[test]
fn connection_follows_the_handshake() {
    let addr = SocketAddr::new(IpAddr::V4(Ipv4Addr::new(1, 2, 3, 4)), 5);
    assert!(matches!(SharedDnsTcpClient::<u32>::connection_for(ProxyResult::Established), Ok(None)));
    match SharedDnsTcpClient::<u32>::connection_for(ProxyResult::Bypass(addr)) {
        Ok(Some(a)) => assert_eq!(a, addr),
        _ => panic!("another connection should be opened"),
    }
    match SharedDnsTcpClient::<u32>::connection_for(ProxyResult::UdpAssociate(addr)) {
        Err(e) => assert_eq!(e.message(), "unexpected UDP associate in DNS-over-TCP"),
        _ => panic!("UDP associate should be refused"),
    }
}

// ── responses ────────────────────────────────────────────────────

#[test]
fn query_names_its_domain() {
    let query = dns::build_dns_query("example.com", 7).unwrap();
    assert_eq!(query_domain(&query).unwrap(), "example.com.");
    assert!(query_domain(&[1, 2, 3]).is_err());
}

fn response_with(domain: &str, ips: &[IpAddr]) -> Vec<u8> {
    let mut cache = DnsCache::new();
    let pairs: Vec<(IpAddr, u32)> = ips.iter().map(|ip| (*ip, 60)).collect();
    cache.insert(domain, &dns::records_from_pairs(&pairs));
    let query = dns::build_dns_query(domain, 9).unwrap();
    dns::try_resolve_from_cache(&query, &cache, true).unwrap()
}

#[test]
fn response_fills_the_cache() {
    let v4 = IpAddr::V4(Ipv4Addr::new(1, 2, 3, 4));
    let v6 = IpAddr::V6(Ipv6Addr::new(0x2001, 0xdb8, 0, 0, 0, 0, 0, 1));
    let response = response_with("example.com", &[v4, v6]);

    let mut cache = DnsCache::new();
    let bytes = take_response(&response, "example.com", false, &mut cache).unwrap();
    assert_eq!(cache.lookup_ips("example.com"), Some(vec![v4, v6]));
    let message = dns::parse_data_to_dns_message(&bytes, false).unwrap();
    assert_eq!(dns::extract_all_ipaddrs_from_dns_message(&message), vec![v4]);

    let mut cache = DnsCache::new();
    let bytes = take_response_at(&response, "example.com", true, &mut cache, 5).unwrap();
    let message = dns::parse_data_to_dns_message(&bytes, false).unwrap();
    assert_eq!(dns::extract_all_ipaddrs_from_dns_message(&message), vec![v4, v6]);
}

#[test]
fn response_without_addresses_leaves_the_cache() {
    let mut cache = DnsCache::new();
    assert!(take_response(&[1, 2, 3], "example.com", true, &mut cache).is_none());
    let query = dns::build_dns_query("example.com", 7).unwrap();
    assert_eq!(take_response(&query, "example.com", true, &mut cache), Some(query));
    assert_eq!(cache.lookup_ips("example.com"), None);
}

#[test]
fn session_goes_from_packet_to_packet() {
    assert_eq!(handle_dns_over_tcp_session(SessionEvent::FirstPacket), SessionAction::Forward);
    assert_eq!(handle_dns_over_tcp_session(SessionEvent::Forwarded), SessionAction::Read);
    assert_eq!(handle_dns_over_tcp_session(SessionEvent::Packet(10)), SessionAction::AskCache);
    assert_eq!(handle_dns_over_tcp_session(SessionEvent::CacheAsked(Some(true))), SessionAction::Read);
    assert_eq!(handle_dns_over_tcp_session(SessionEvent::CacheAsked(Some(false))), SessionAction::Forward);
    assert_eq!(handle_dns_over_tcp_session(SessionEvent::CacheAsked(None)), SessionAction::Read);
    assert_eq!(handle_dns_over_tcp_session(SessionEvent::Packet(0)), SessionAction::End);
    assert_eq!(handle_dns_over_tcp_session(SessionEvent::ReadFailed), SessionAction::End);
}

#[test]
fn unanswered_queries_wait_until_the_reader_has_ended() {
    for zero in [false, true] {
        let (mut bench, handles) = Bench::with_pending(&[0x1111, 0x2222]);
        bench.to_client.extend_from_slice(&tcp_frame(&make_dns_msg(0x1111)));
        if zero {
            bench.to_client.extend_from_slice(&[0, 0]);
        }
        bench.read(!zero);
        assert!(!bench.reader_alive);
        assert_eq!(bench.ended_with.as_deref(), Some(if zero { "DNS TCP: zero-length message" } else { "early eof" }));
        assert!(bench.inbox[&handles[0]].is_ok());
        assert!(!bench.inbox.contains_key(&handles[1]));
        assert!(!bench.client.is_idle());
        let (notify, error) = bench.client.reader_ended();
        assert_eq!(notify, vec![handles[1]]);
        assert_eq!(error.message(), "DNS TCP connection closed");
        assert!(bench.client.is_idle());
    }
}

#[test]
fn limits_of_a_query() {
    assert_eq!((WRITE_LIMIT, ANSWER_LIMIT), (5, 10));
}
