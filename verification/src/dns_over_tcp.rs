//! DNS over one shared TCP connection: queries of many sessions share the connection and
//! are told apart by their transaction identifiers.
//!
//! The client decides; opening the connection, reading, writing and waiting are left to the
//! caller, who performs the action that it is given and comes back with the event.

use vstd::prelude::*;

use crate::cache_laws::{aged, all_hold};
use crate::dns::{
    be_u16, bytes_view, dns_message, extract_domain_from_dns_message,
    extract_ip_ttl_pairs_from_dns_message, is_whole, known_answers, one_question, pair_records,
    parse_data_to_dns_message, parsed, reads_as, records_from_pairs, remove_ipv6_entries,
    DnsMessage, MessageView,
};
use crate::dns_mapping::{gives_address, has_address, CacheView, DnsCache, DnsRecord, LATEST};
use crate::error::{Error, ErrorView};
use crate::net::{IpAddr, Ipv4Addr, SocketAddr};
use crate::proxy_handler::ProxyResult;
use crate::session_info::{IpProtocol, SessionInfo};
use crate::table::{
    get, has_key, is_row, keys_unique, lemma_no_row, lemma_put, lemma_row, lemma_without, put, row,
    without,
};
use crate::text::normal_domain;

verus! {

/// The bytes of `n`, the more significant one first.
pub open spec fn be_bytes(n: u16) -> Seq<u8> {
    seq![(n / 256) as u8, (n % 256) as u8]
}

/// `msg` with its length in front, as messages go over TCP.
pub open spec fn framed(msg: Seq<u8>) -> Seq<u8> {
    be_bytes((msg.len() % 65536) as u16) + msg
}

/// A message of twelve bytes, all zero but for the transaction identifier.
pub open spec fn bare_message(txn_id: u16) -> Seq<u8> {
    be_bytes(txn_id) + seq![0u8, 0, 0, 0, 0, 0, 0, 0, 0, 0]
}

/// The smallest DNS message with the given transaction identifier: a header and nothing
/// else.
pub fn make_dns_msg(txn_id: u16) -> (r: Vec<u8>)
    ensures
        r@ == bare_message(txn_id),
{
    let mut buf: Vec<u8> = Vec::new();
    buf.push((txn_id / 256) as u8);
    buf.push((txn_id % 256) as u8);
    let mut i: usize = 2;
    while i < 12
        invariant
            2 <= i <= 12,
            buf@ == bare_message(txn_id).take(i as int),
        decreases 12 - i,
    {
        buf.push(0);
        assert(bare_message(txn_id).take(i + 1) =~= bare_message(txn_id).take(i as int).push(0));
        i = i + 1;
    }
    assert(bare_message(txn_id).take(12) =~= bare_message(txn_id));
    buf
}

/// `msg` with its length in front, in two bytes, the more significant one first. Of a longer
/// message the length is taken modulo 65536.
pub fn tcp_frame(msg: &[u8]) -> (r: Vec<u8>)
    ensures
        r@ == framed(msg@),
{
    let len: u16 = (msg.len() % 65536) as u16;
    let mut frame: Vec<u8> = Vec::new();
    frame.push((len / 256) as u8);
    frame.push((len % 256) as u8);
    frame.extend_from_slice(msg);
    assert(frame@ =~= framed(msg@));
    frame
}

/// A message that goes over TCP is read as what it is.
pub proof fn law_frame_round_trip(msg: Seq<u8>)
    requires
        msg.len() <= 65535,
    ensures
        parsed(framed(msg), true) == parsed(msg, false),
        framed(msg).len() == msg.len() + 2,
{
    let frame = framed(msg);
    assert(be_u16(frame[0], frame[1]) == msg.len());
    assert(frame.subrange(2, msg.len() as int + 2) =~= msg);
}

/// The queries that wait for an answer, by transaction identifier, each with those who wait
/// for it, in mathematical terms.
pub open spec fn pending_view<T>(rows: Seq<(u16, Vec<T>)>) -> Seq<(u16, Seq<T>)> {
    Seq::new(rows.len(), |i: int| (rows[i].0, rows[i].1@))
}

/// All who wait, in the order of the rows.
pub open spec fn all_waiting<T>(pending: Seq<(u16, Seq<T>)>) -> Seq<T>
    decreases pending.len(),
{
    if pending.len() == 0 {
        seq![]
    } else {
        pending[0].1 + all_waiting(pending.drop_first())
    }
}

/// Those who wait for the answer to `txn_id`.
pub open spec fn waiting_for<T>(pending: Seq<(u16, Seq<T>)>, txn_id: u16) -> Seq<T> {
    match get(pending, txn_id) {
        Some(list) => list,
        None => seq![],
    }
}

/// How many seconds writing a query may take.
pub const WRITE_LIMIT: u64 = 5;

/// How many seconds a query waits for its answer.
pub const ANSWER_LIMIT: u64 = 10;

/// What has happened to a query.
pub enum QueryEvent<T> {
    /// It is to be sent. `reader_finished` says whether the task that reads answers has
    /// ended.
    Begin { reader_finished: bool },
    /// The connection has been opened, or it could not be.
    Connected(Result<(), Error>),
    /// It is to wait for its answer through this handle.
    Register(T),
    /// It has been written.
    Written,
    /// Writing it has failed.
    WriteFailed(Error),
    /// Writing it has taken longer than [`WRITE_LIMIT`].
    WriteTimedOut,
    /// Its answer has come, or the error that was sent in its place.
    Answered(Result<Vec<u8>, Error>),
    /// The handle was dropped without an answer.
    Lost,
    /// Its answer has taken longer than [`ANSWER_LIMIT`].
    TimedOut,
}

/// What has happened to a query, in mathematical terms.
pub enum QueryEventView<T> {
    Begin { reader_finished: bool },
    Connected(Result<(), ErrorView>),
    Register(T),
    Written,
    WriteFailed(ErrorView),
    WriteTimedOut,
    Answered(Result<Seq<u8>, ErrorView>),
    Lost,
    TimedOut,
}

impl<T> View for QueryEvent<T> {
    type V = QueryEventView<T>;

    open spec fn view(&self) -> QueryEventView<T> {
        match self {
            QueryEvent::Begin { reader_finished } => QueryEventView::Begin {
                reader_finished: *reader_finished,
            },
            QueryEvent::Connected(Ok(_)) => QueryEventView::Connected(Ok(())),
            QueryEvent::Connected(Err(e)) => QueryEventView::Connected(Err(e@)),
            QueryEvent::Register(t) => QueryEventView::Register(*t),
            QueryEvent::Written => QueryEventView::Written,
            QueryEvent::WriteFailed(e) => QueryEventView::WriteFailed(e@),
            QueryEvent::WriteTimedOut => QueryEventView::WriteTimedOut,
            QueryEvent::Answered(Ok(bytes)) => QueryEventView::Answered(Ok(bytes@)),
            QueryEvent::Answered(Err(e)) => QueryEventView::Answered(Err(e@)),
            QueryEvent::Lost => QueryEventView::Lost,
            QueryEvent::TimedOut => QueryEventView::TimedOut,
        }
    }
}

/// What is to be done for a query.
pub enum QueryAction<T> {
    /// Send `error` to all of `notify`, and open a new connection.
    Connect { notify: Vec<T>, error: Error },
    /// Make a handle and register it.
    Register,
    /// Write these bytes.
    Write(Vec<u8>),
    /// Wait for the answer.
    Wait,
    /// The query is over. `notify` is told the same error; the reading task is stopped where
    /// `stop_reader` says so.
    Return { result: Result<Vec<u8>, Error>, notify: Vec<T>, stop_reader: bool },
}

/// What is to be done for a query, in mathematical terms.
pub enum QueryActionView<T> {
    Connect { notify: Seq<T>, error: ErrorView },
    Register,
    Write(Seq<u8>),
    Wait,
    Return { result: Result<Seq<u8>, ErrorView>, notify: Seq<T>, stop_reader: bool },
}

impl<T> View for QueryAction<T> {
    type V = QueryActionView<T>;

    open spec fn view(&self) -> QueryActionView<T> {
        match self {
            QueryAction::Connect { notify, error } => QueryActionView::Connect {
                notify: notify@,
                error: error@,
            },
            QueryAction::Register => QueryActionView::Register,
            QueryAction::Write(bytes) => QueryActionView::Write(bytes@),
            QueryAction::Wait => QueryActionView::Wait,
            QueryAction::Return { result: Ok(bytes), notify, stop_reader } => QueryActionView::Return {
                result: Ok(bytes@),
                notify: notify@,
                stop_reader: *stop_reader,
            },
            QueryAction::Return { result: Err(e), notify, stop_reader } => QueryActionView::Return {
                result: Err(e@),
                notify: notify@,
                stop_reader: *stop_reader,
            },
        }
    }
}

/// The query is over with the error `text`, and nobody else is concerned.
pub open spec fn fail<T>(text: Seq<char>) -> QueryActionView<T> {
    QueryActionView::Return {
        result: Err(ErrorView::Text(text)),
        notify: seq![],
        stop_reader: false,
    }
}

/// What the reading task has read.
pub enum ReaderEvent {
    /// The two bytes that give the length of a message.
    Length(u8, u8),
    /// A whole message.
    Message(Vec<u8>),
    /// Nothing: the connection has ended or failed with this error.
    Failed(Error),
}

/// What the reading task is to do.
pub enum ReaderAction<T> {
    /// Read a message of this length.
    ReadMessage(usize),
    /// Hand the message to all of `to`, and read the next length.
    Deliver { to: Vec<T>, message: Vec<u8> },
    /// End with this error.
    Stop(Error),
}

/// What the reading task is to do, in mathematical terms.
pub enum ReaderActionView<T> {
    ReadMessage(nat),
    Deliver { to: Seq<T>, message: Seq<u8> },
    Stop(ErrorView),
}

impl<T> View for ReaderAction<T> {
    type V = ReaderActionView<T>;

    open spec fn view(&self) -> ReaderActionView<T> {
        match self {
            ReaderAction::ReadMessage(n) => ReaderActionView::ReadMessage(*n as nat),
            ReaderAction::Deliver { to, message } => ReaderActionView::Deliver {
                to: to@,
                message: message@,
            },
            ReaderAction::Stop(e) => ReaderActionView::Stop(e@),
        }
    }
}

/// The client, in mathematical terms: the queries that wait, whether there is a connection
/// to write to and a task that reads from it, and whether the next query must reconnect.
pub struct ClientView<T> {
    pub dns_addr: SocketAddr,
    pub pending: Seq<(u16, Seq<T>)>,
    pub writer: bool,
    pub reader: bool,
    pub force_reconnect: bool,
}

impl<T> ClientView<T> {
    /// Whether no transaction identifier occurs twice.
    pub open spec fn wf(self) -> bool {
        keys_unique(self.pending)
    }

    /// Whether a query needs a new connection.
    pub open spec fn needs_connection(self, reader_finished: bool) -> bool {
        self.force_reconnect || !(self.writer && self.reader && !reader_finished)
    }

    /// The client once a query has made sure of a connection: as it was, or without a
    /// connection and without anyone who waits.
    pub open spec fn ensured(self, reader_finished: bool) -> ClientView<T> {
        if self.needs_connection(reader_finished) {
            ClientView {
                pending: seq![],
                writer: false,
                reader: false,
                force_reconnect: false,
                ..self
            }
        } else {
            self
        }
    }

    /// What the event `event` leads to for the query `raw`.
    pub open spec fn query(self, raw: Seq<u8>, event: QueryEventView<T>) -> (
        ClientView<T>,
        QueryActionView<T>,
    ) {
        let txn_id = be_u16(raw[0], raw[1]) as u16;
        if raw.len() < 2 {
            (self, fail("DNS query too short"@))
        } else {
            match event {
                QueryEventView::Begin { reader_finished } => (
                    self.ensured(reader_finished),
                    if self.needs_connection(reader_finished) {
                        QueryActionView::Connect {
                            notify: all_waiting(self.pending),
                            error: ErrorView::Text("DNS TCP connection reset"@),
                        }
                    } else {
                        QueryActionView::Register
                    },
                ),
                QueryEventView::Connected(Ok(_)) => (
                    ClientView { writer: true, reader: true, ..self },
                    QueryActionView::Register,
                ),
                QueryEventView::Connected(Err(e)) => (
                    ClientView { writer: false, reader: false, ..self },
                    QueryActionView::Return {
                        result: Err(e),
                        notify: seq![],
                        stop_reader: false,
                    },
                ),
                QueryEventView::Register(t) => (
                    ClientView {
                        pending: put(
                            self.pending,
                            txn_id,
                            waiting_for(self.pending, txn_id).push(t),
                        ),
                        ..self
                    },
                    if has_key(self.pending, txn_id) {
                        QueryActionView::Wait
                    } else if raw.len() > 65535 {
                        fail("out of range integral type conversion attempted"@)
                    } else {
                        QueryActionView::Write(framed(raw))
                    },
                ),
                QueryEventView::Written => (self, QueryActionView::Wait),
                QueryEventView::WriteFailed(e) => (
                    ClientView {
                        pending: without(self.pending, txn_id),
                        writer: false,
                        ..self
                    },
                    QueryActionView::Return {
                        result: Err(e),
                        notify: seq![],
                        stop_reader: false,
                    },
                ),
                QueryEventView::WriteTimedOut => (
                    ClientView {
                        pending: without(self.pending, txn_id),
                        writer: false,
                        reader: false,
                        ..self
                    },
                    QueryActionView::Return {
                        result: Err(ErrorView::Text("DNS TCP write timed out"@)),
                        notify: seq![],
                        stop_reader: self.reader,
                    },
                ),
                QueryEventView::Answered(result) => (
                    self,
                    QueryActionView::Return { result, notify: seq![], stop_reader: false },
                ),
                QueryEventView::Lost => (
                    self,
                    fail("DNS TCP connection lost while waiting for response"@),
                ),
                QueryEventView::TimedOut => (
                    ClientView {
                        pending: without(self.pending, txn_id),
                        force_reconnect: true,
                        ..self
                    },
                    QueryActionView::Return {
                        result: Err(ErrorView::Text("DNS query timed out"@)),
                        notify: waiting_for(self.pending, txn_id),
                        stop_reader: false,
                    },
                ),
            }
        }
    }

    /// What the event `event` leads to in the reading task.
    pub open spec fn reader_step(self, event: ReaderEvent) -> (ClientView<T>, ReaderActionView<T>) {
        match event {
            ReaderEvent::Length(high, low) => if be_u16(high, low) == 0 {
                (self, ReaderActionView::Stop(ErrorView::Text("DNS TCP: zero-length message"@)))
            } else {
                (self, ReaderActionView::ReadMessage(be_u16(high, low)))
            },
            ReaderEvent::Message(msg) => if msg@.len() < 2 {
                (self, ReaderActionView::Deliver { to: seq![], message: msg@ })
            } else {
                let txn_id = be_u16(msg@[0], msg@[1]) as u16;
                (
                    ClientView { pending: without(self.pending, txn_id), ..self },
                    ReaderActionView::Deliver {
                        to: waiting_for(self.pending, txn_id),
                        message: msg@,
                    },
                )
            },
            ReaderEvent::Failed(e) => (self, ReaderActionView::Stop(e@)),
        }
    }

    /// The client once nobody waits any more.
    pub open spec fn drained(self) -> ClientView<T> {
        ClientView { pending: seq![], ..self }
    }
}

/// The client of a DNS server that is reached over one shared TCP connection. `T` is the
/// type of the handles through which queries wait.
pub struct SharedDnsTcpClient<T> {
    dns_addr: SocketAddr,
    pending: Vec<(u16, Vec<T>)>,
    writer: bool,
    reader: bool,
    force_reconnect: bool,
}

impl<T> View for SharedDnsTcpClient<T> {
    type V = ClientView<T>;

    closed spec fn view(&self) -> ClientView<T> {
        ClientView {
            dns_addr: self.dns_addr,
            pending: pending_view(self.pending@),
            writer: self.writer,
            reader: self.reader,
            force_reconnect: self.force_reconnect,
        }
    }
}

fn find_row<T>(rows: &Vec<(u16, Vec<T>)>, txn_id: u16) -> (r: Option<usize>)
    requires
        keys_unique(pending_view(rows@)),
    ensures
        match r {
            Some(i) => i < rows@.len() && is_row(pending_view(rows@), txn_id, i as int) && row(
                pending_view(rows@),
                txn_id,
            ) == i && has_key(pending_view(rows@), txn_id) && get(pending_view(rows@), txn_id)
                == Some(rows@[i as int].1@),
            None => !has_key(pending_view(rows@), txn_id) && get(
                pending_view(rows@),
                txn_id,
            ) is None,
        },
{
    let ghost view = pending_view(rows@);
    let mut i: usize = 0;
    while i < rows.len()
        invariant
            i <= rows@.len(),
            view == pending_view(rows@),
            keys_unique(view),
            forall|j: int| 0 <= j < i ==> (#[trigger] view[j]).0 != txn_id,
        decreases rows@.len() - i,
    {
        if rows[i].0 == txn_id {
            proof {
                assert(is_row(view, txn_id, i as int));
                lemma_row(view, txn_id, i as int);
            }
            return Some(i);
        }
        i = i + 1;
    }
    proof {
        lemma_no_row(view, txn_id);
    }
    None
}

fn take_row<T>(rows: &mut Vec<(u16, Vec<T>)>, txn_id: u16) -> (r: Vec<T>)
    requires
        keys_unique(pending_view(old(rows)@)),
    ensures
        pending_view(final(rows)@) == without(pending_view(old(rows)@), txn_id),
        r@ == waiting_for(pending_view(old(rows)@), txn_id),
{
    let ghost before = pending_view(rows@);
    proof {
        lemma_without(before, txn_id);
    }
    match find_row(rows, txn_id) {
        Some(i) => {
            let (_, list) = rows.remove(i);
            assert(pending_view(rows@) =~= before.remove(i as int));
            list
        },
        None => Vec::new(),
    }
}

fn add_row<T>(rows: &mut Vec<(u16, Vec<T>)>, txn_id: u16, t: T) -> (first: bool)
    requires
        keys_unique(pending_view(old(rows)@)),
    ensures
        pending_view(final(rows)@) == put(
            pending_view(old(rows)@),
            txn_id,
            waiting_for(pending_view(old(rows)@), txn_id).push(t),
        ),
        first == !has_key(pending_view(old(rows)@), txn_id),
{
    let ghost before = pending_view(rows@);
    match find_row(rows, txn_id) {
        Some(i) => {
            rows[i].1.push(t);
            assert(pending_view(rows@) =~= before.update(
                i as int,
                (txn_id, waiting_for(before, txn_id).push(t)),
            ));
            false
        },
        None => {
            let mut list: Vec<T> = Vec::new();
            list.push(t);
            rows.push((txn_id, list));
            assert(list@ =~= waiting_for(before, txn_id).push(t));
            assert(pending_view(rows@) =~= before.push(
                (txn_id, waiting_for(before, txn_id).push(t)),
            ));
            true
        },
    }
}

impl<T> SharedDnsTcpClient<T> {
    #[verifier::type_invariant]
    spec fn inv(self) -> bool {
        keys_unique(pending_view(self.pending@))
    }

    /// The client of the server at `dns_addr`, without a connection.
    pub fn new(dns_addr: SocketAddr) -> (r: SharedDnsTcpClient<T>)
        ensures
            r@ == ClientView::<T>::fresh(dns_addr),
            r@.wf(),
            r@ == (ClientView::<T> {
                dns_addr,
                pending: seq![],
                writer: false,
                reader: false,
                force_reconnect: false,
            }),
    {
        let r: SharedDnsTcpClient<T> = SharedDnsTcpClient {
            dns_addr,
            pending: Vec::new(),
            writer: false,
            reader: false,
            force_reconnect: false,
        };
        assert(r@.pending =~= seq![]);
        r
    }

    /// The session for which the connection to the server is opened.
    pub fn session(&self) -> (r: SessionInfo)
        ensures
            r == self@.ends(),
            r.src.spec_ip() == IpAddr::V4(Ipv4Addr { bits: 0 }),
            r.src.spec_port() == 0,
            r.dst == self@.dns_addr,
            r.protocol == IpProtocol::Tcp,
    {
        let src: SocketAddr = SocketAddr::new(IpAddr::V4(Ipv4Addr { bits: 0 }), 0);
        SessionInfo::new(src, self.dns_addr, IpProtocol::Tcp)
    }

    /// Whether nobody waits.
    pub fn is_idle(&self) -> (r: bool)
        ensures
            r == (self@.pending.len() == 0),
    {
        self.pending.len() == 0
    }

    fn take(&mut self, txn_id: u16) -> (r: Vec<T>)
        ensures
            final(self)@.wf(),
            final(self)@ == (ClientView { pending: without(old(self)@.pending, txn_id), ..old(self)@ }),
            r@ == waiting_for(old(self)@.pending, txn_id),
    {
        proof {
            use_type_invariant(&*self);
            lemma_without(self@.pending, txn_id);
        }
        let mut rows: Vec<(u16, Vec<T>)> = Vec::new();
        std::mem::swap(&mut rows, &mut self.pending);
        let r: Vec<T> = take_row(&mut rows, txn_id);
        self.pending = rows;
        r
    }

    fn take_all(&mut self) -> (r: Vec<T>)
        ensures
            final(self)@ == old(self)@.drained(),
            final(self)@.wf(),
            r@ == all_waiting(old(self)@.pending),
    {
        let mut rows: Vec<(u16, Vec<T>)> = Vec::new();
        std::mem::swap(&mut rows, &mut self.pending);
        assert(self@.pending =~= seq![]);
        let mut all: Vec<T> = Vec::new();
        let ghost start = pending_view(rows@);
        assert(Seq::<T>::empty() + all_waiting(start) =~= all_waiting(start));
        while rows.len() > 0
            invariant
                all_waiting(start) == all@ + all_waiting(pending_view(rows@)),
            decreases rows@.len(),
        {
            let ghost before = pending_view(rows@);
            let ghost so_far = all@;
            let (_, mut list) = rows.remove(0);
            let ghost rest = pending_view(rows@);
            assert(list@ == before[0].1);
            assert(rest =~= before.drop_first());
            all.append(&mut list);
            assert(so_far + (before[0].1 + all_waiting(rest)) =~= all@ + all_waiting(rest));
        }
        assert(all@ + Seq::<T>::empty() =~= all@);
        all
    }

    fn register(&mut self, txn_id: u16, t: T) -> (first: bool)
        ensures
            final(self)@.wf(),
            final(self)@ == (ClientView {
                pending: put(
                    old(self)@.pending,
                    txn_id,
                    waiting_for(old(self)@.pending, txn_id).push(t),
                ),
                ..old(self)@
            }),
            first == !has_key(old(self)@.pending, txn_id),
    {
        proof {
            use_type_invariant(&*self);
            lemma_put(self@.pending, txn_id, waiting_for(self@.pending, txn_id).push(t));
        }
        let mut rows: Vec<(u16, Vec<T>)> = Vec::new();
        std::mem::swap(&mut rows, &mut self.pending);
        let first: bool = add_row(&mut rows, txn_id, t);
        self.pending = rows;
        first
    }

    /// Makes sure of a connection: where a new one is needed, the old one is given up, and
    /// those who waited on it are returned with the error that they are to be sent.
    pub fn ensure_connected(&mut self, reader_finished: bool) -> (r: Option<(Vec<T>, Error)>)
        ensures
            final(self)@.wf(),
            final(self)@ == old(self)@.ensured(reader_finished),
            match r {
                Some((notify, error)) => old(self)@.reset_notice(reader_finished) == Some(
                    (notify@, error@),
                ),
                None => old(self)@.reset_notice(reader_finished) is None,
            },
            match r {
                Some((notify, error)) => old(self)@.needs_connection(reader_finished) && notify@
                    == all_waiting(old(self)@.pending) && error@ == ErrorView::Text(
                    "DNS TCP connection reset"@,
                ),
                None => !old(self)@.needs_connection(reader_finished),
            },
    {
        proof {
            use_type_invariant(&*self);
        }
        let forced: bool = self.force_reconnect;
        self.force_reconnect = false;
        if !forced && self.writer && self.reader && !reader_finished {
            return None;
        }
        self.reader = false;
        self.writer = false;
        Some((self.take_all(), Error::text("DNS TCP connection reset")))
    }

    /// What to do with the connection after the handshake with the proxy: use it, or open
    /// one to the given address in its place.
    pub fn connection_for(result: ProxyResult) -> (r: Result<Option<SocketAddr>, Error>)
        ensures
            match r {
                Ok(other) => connection_after(result) == Ok::<Option<SocketAddr>, ErrorView>(other),
                Err(e) => connection_after(result) == Err::<Option<SocketAddr>, ErrorView>(e@),
            },
            match result {
                ProxyResult::Established => r matches Ok(None),
                ProxyResult::Bypass(addr) => r matches Ok(Some(a)) && a == addr,
                ProxyResult::UdpAssociate(_) => r matches Err(e) && e@ == ErrorView::Text(
                    "unexpected UDP associate in DNS-over-TCP"@,
                ),
            },
    {
        match result {
            ProxyResult::Established => Ok(None),
            ProxyResult::Bypass(addr) => Ok(Some(addr)),
            ProxyResult::UdpAssociate(_) => Err(
                Error::text("unexpected UDP associate in DNS-over-TCP"),
            ),
        }
    }

    fn failed(e: Error) -> (r: QueryAction<T>)
        ensures
            r@ == (QueryActionView::<T>::Return {
                result: Err(e@),
                notify: seq![],
                stop_reader: false,
            }),
    {
        let none: Vec<T> = Vec::new();
        assert(none@ =~= seq![]);
        QueryAction::Return { result: Err(e), notify: none, stop_reader: false }
    }

    /// What the event `event` leads to for the query `raw_query`, which holds no length.
    pub fn query(&mut self, raw_query: &[u8], event: QueryEvent<T>) -> (action: QueryAction<T>)
        ensures
            final(self)@.wf(),
            (final(self)@, action@) == old(self)@.query(raw_query@, event@),
    {
        proof {
            use_type_invariant(&*self);
        }
        if raw_query.len() < 2 {
            return Self::failed(Error::text("DNS query too short"));
        }
        let txn_id: u16 = raw_query[0] as u16 * 256 + raw_query[1] as u16;
        match event {
            QueryEvent::Begin { reader_finished } => match self.ensure_connected(reader_finished) {
                Some((notify, error)) => QueryAction::Connect { notify, error },
                None => QueryAction::Register,
            },
            QueryEvent::Connected(Ok(_)) => {
                self.writer = true;
                self.reader = true;
                QueryAction::Register
            },
            QueryEvent::Connected(Err(e)) => {
                self.writer = false;
                self.reader = false;
                Self::failed(e)
            },
            QueryEvent::Register(t) => {
                // A query with the same identifier may be under way: the operating system
                // sends one query from several ports. Then its answer serves this one too.
                if !self.register(txn_id, t) {
                    return QueryAction::Wait;
                }
                if raw_query.len() > 65535 {
                    return Self::failed(
                        Error::text("out of range integral type conversion attempted"),
                    );
                }
                QueryAction::Write(tcp_frame(raw_query))
            },
            QueryEvent::Written => QueryAction::Wait,
            QueryEvent::WriteFailed(e) => {
                self.take(txn_id);
                self.writer = false;
                Self::failed(e)
            },
            QueryEvent::WriteTimedOut => {
                self.take(txn_id);
                self.writer = false;
                let stop_reader: bool = self.reader;
                self.reader = false;
                let none: Vec<T> = Vec::new();
                assert(none@ =~= seq![]);
                QueryAction::Return {
                    result: Err(Error::text("DNS TCP write timed out")),
                    notify: none,
                    stop_reader,
                }
            },
            QueryEvent::Answered(result) => {
                let none: Vec<T> = Vec::new();
                assert(none@ =~= seq![]);
                QueryAction::Return { result, notify: none, stop_reader: false }
            },
            QueryEvent::Lost => Self::failed(
                Error::text("DNS TCP connection lost while waiting for response"),
            ),
            QueryEvent::TimedOut => {
                let notify: Vec<T> = self.take(txn_id);
                self.force_reconnect = true;
                QueryAction::Return {
                    result: Err(Error::text("DNS query timed out")),
                    notify,
                    stop_reader: false,
                }
            },
        }
    }

    /// What the event `event` leads to in the task that reads answers. Those whose answers
    /// have not come when it ends still wait.
    pub fn reader_loop(&mut self, event: ReaderEvent) -> (action: ReaderAction<T>)
        ensures
            final(self)@.wf(),
            (final(self)@, action@) == old(self)@.reader_step(event),
    {
        proof {
            use_type_invariant(&*self);
        }
        match event {
            ReaderEvent::Length(high, low) => {
                let len: usize = high as usize * 256 + low as usize;
                if len == 0 {
                    return ReaderAction::Stop(Error::text("DNS TCP: zero-length message"));
                }
                ReaderAction::ReadMessage(len)
            },
            ReaderEvent::Message(message) => {
                if message.len() < 2 {
                    let none: Vec<T> = Vec::new();
                    assert(none@ =~= seq![]);
                    return ReaderAction::Deliver { to: none, message };
                }
                let txn_id: u16 = message[0] as u16 * 256 + message[1] as u16;
                let to: Vec<T> = self.take(txn_id);
                ReaderAction::Deliver { to, message }
            },
            ReaderEvent::Failed(e) => ReaderAction::Stop(e),
        }
    }

    /// The end of the task that reads answers: those who still wait are returned with the
    /// error that they are to be sent.
    pub fn reader_ended(&mut self) -> (r: (Vec<T>, Error))
        ensures
            final(self)@.wf(),
            final(self)@ == old(self)@.drained(),
            (r.0@, r.1@) == old(self)@.closing_notice(),
            r.0@ == all_waiting(old(self)@.pending),
            r.1@ == ErrorView::Text("DNS TCP connection closed"@),
    {
        let notify: Vec<T> = self.take_all();
        (notify, Error::text("DNS TCP connection closed"))
    }
}

impl<T> ClientView<T> {
    /// Every event keeps the transaction identifiers apart.
    pub proof fn law_identifiers_stay_apart(
        self,
        raw: Seq<u8>,
        event: QueryEventView<T>,
        read: ReaderEvent,
    )
        requires
            self.wf(),
        ensures
            self.query(raw, event).0.wf(),
            self.reader_step(read).0.wf(),
            self.drained().wf(),
    {
        let id = be_u16(raw[0], raw[1]) as u16;
        lemma_without(self.pending, id);
        if let QueryEventView::Register(t) = event {
            lemma_put(self.pending, id, waiting_for(self.pending, id).push(t));
        }
        if let ReaderEvent::Message(msg) = read {
            lemma_without(self.pending, be_u16(msg@[0], msg@[1]) as u16);
        }
    }

    /// A query that has been registered gets the next message with its identifier, and so
    /// does everyone else who waits for that identifier; after that nobody waits for it, and
    /// those who wait for other identifiers still do.
    pub proof fn law_answer_reaches_those_who_wait(
        self,
        raw: Seq<u8>,
        t: T,
        message: Vec<u8>,
        other: u16,
    )
        requires
            self.wf(),
            raw.len() >= 2,
            message@.len() >= 2,
            message@.take(2) == raw.take(2),
            other != be_u16(raw[0], raw[1]) as u16,
        ensures
            ({
                let id = be_u16(raw[0], raw[1]) as u16;
                let c = self.query(raw, QueryEventView::Register(t)).0;
                let (after, action) = c.reader_step(ReaderEvent::Message(message));
                &&& action == (ReaderActionView::Deliver {
                    to: waiting_for(self.pending, id).push(t),
                    message: message@,
                })
                &&& !has_key(after.pending, id)
                &&& after.reader_step(ReaderEvent::Message(message)).1 == (
                ReaderActionView::<T>::Deliver { to: seq![], message: message@ })
                &&& waiting_for(after.pending, other) == waiting_for(self.pending, other)
            }),
    {
        let id = be_u16(raw[0], raw[1]) as u16;
        assert(message@[0] == message@.take(2)[0] && raw[0] == raw.take(2)[0]);
        assert(message@[1] == message@.take(2)[1] && raw[1] == raw.take(2)[1]);
        let list = waiting_for(self.pending, id).push(t);
        lemma_put(self.pending, id, list);
        let c = self.query(raw, QueryEventView::Register(t)).0;
        lemma_without(c.pending, id);
        let after = c.reader_step(ReaderEvent::Message(message)).0;
        assert(get(after.pending, id) is None);
    }

    /// Of several queries with one identifier only the first is written.
    pub proof fn law_queries_share_an_answer(self, raw: Seq<u8>, first: T, second: T)
        requires
            self.wf(),
            2 <= raw.len() <= 65535,
            !has_key(self.pending, be_u16(raw[0], raw[1]) as u16),
        ensures
            ({
                let (c, action) = self.query(raw, QueryEventView::Register(first));
                let (d, again) = c.query(raw, QueryEventView::Register(second));
                &&& action == QueryActionView::<T>::Write(framed(raw))
                &&& again == QueryActionView::<T>::Wait
                &&& waiting_for(d.pending, be_u16(raw[0], raw[1]) as u16) == seq![first, second]
            }),
    {
        let id = be_u16(raw[0], raw[1]) as u16;
        let c = self.query(raw, QueryEventView::Register(first)).0;
        let one = waiting_for(self.pending, id).push(first);
        lemma_put(self.pending, id, one);
        assert(get(c.pending, id) == Some(one));
        lemma_put(c.pending, id, one.push(second));
        assert(one.push(second) =~= seq![first, second]);
    }

    /// A query that has taken too long leaves nothing behind: its identifier is free, the
    /// others who waited for it are told, and the next query opens a new connection.
    pub proof fn law_timeout_frees_identifier(self, raw: Seq<u8>, next: Seq<u8>, reader_finished: bool)
        requires
            self.wf(),
            raw.len() >= 2,
            next.len() >= 2,
        ensures
            ({
                let (c, action) = self.query(raw, QueryEventView::TimedOut);
                let id = be_u16(raw[0], raw[1]) as u16;
                &&& !has_key(c.pending, id)
                &&& action == (QueryActionView::Return {
                    result: Err::<Seq<u8>, ErrorView>(ErrorView::Text("DNS query timed out"@)),
                    notify: waiting_for(self.pending, id),
                    stop_reader: false,
                })
                &&& c.query(next, QueryEventView::Begin { reader_finished }).1 is Connect
                &&& c.query(next, QueryEventView::Begin { reader_finished }).0.pending.len() == 0
            }),
    {
        let id = be_u16(raw[0], raw[1]) as u16;
        lemma_without(self.pending, id);
        let c = self.query(raw, QueryEventView::TimedOut).0;
        assert(get(c.pending, id) is None);
    }

    /// Where the connection ends, whoever has no answer yet still waits when the reading is
    /// over. Everyone who waits is among those to be told, at the end of the reading task or
    /// by the query that opens the next connection; after that nobody waits.
    pub proof fn law_nobody_waits_for_a_dead_connection(
        self,
        end: ReaderEvent,
        raw: Seq<u8>,
        reader_finished: bool,
        txn_id: u16,
        t: T,
    )
        requires
            self.wf(),
            waiting_for(self.pending, txn_id).contains(t),
        ensures
            end is Failed || end == ReaderEvent::Length(0, 0) ==> self.reader_step(end).0 == self
                && self.reader_step(end).1 is Stop,
            all_waiting(self.pending).contains(t),
            self.drained().pending.len() == 0,
            raw.len() >= 2 && self.needs_connection(reader_finished) ==> ({
                let (c, action) = self.query(raw, QueryEventView::Begin { reader_finished });
                &&& action matches QueryActionView::Connect { notify, error } && notify == all_waiting(
                    self.pending,
                ) && error == ErrorView::Text("DNS TCP connection reset"@)
                &&& c.pending.len() == 0
            }),
    {
        let i = row(self.pending, txn_id);
        assert(is_row(self.pending, txn_id, i));
        lemma_row(self.pending, txn_id, i);
        lemma_waits(self.pending, i, t);
    }
}

/// A message that goes over TCP is preceded by its length in two bytes, the more significant
/// one first, and follows unchanged.
pub proof fn law_frame(msg: Seq<u8>)
    requires
        msg.len() <= 65535,
    ensures
        framed(msg).len() == msg.len() + 2,
        framed(msg)[0] * 256 + framed(msg)[1] == msg.len(),
        framed(msg).skip(2) == msg,
{
    assert(framed(msg).skip(2) =~= msg);
}

/// What follows a message behind its frame does not matter to its reader, and a frame that is
/// cut off is no message.
pub proof fn law_frame_is_whole(msg: Seq<u8>, more: Seq<u8>, k: int)
    requires
        msg.len() <= 65535,
        0 <= k < msg.len() + 2,
    ensures
        parsed(framed(msg) + more, true) == parsed(msg, false),
        parsed(framed(msg).take(k), true) == Err::<MessageView, Seq<char>>("invalid dns data"@),
{
    let frame = framed(msg) + more;
    assert(be_u16(frame[0], frame[1]) == msg.len());
    assert(frame.subrange(2, msg.len() as int + 2) =~= msg);
    let cut = framed(msg).take(k);
    if k >= 2 {
        assert(cut[0] == framed(msg)[0] && cut[1] == framed(msg)[1]);
        assert(be_u16(cut[0], cut[1]) == msg.len());
    }
}

/// All who wait are those of the first rows and then those of the others; those of one row
/// are its own.
pub proof fn law_all_waiting<T>(first: Seq<(u16, Seq<T>)>, second: Seq<(u16, Seq<T>)>)
    ensures
        all_waiting(first + second) == all_waiting(first) + all_waiting(second),
        first.len() == 1 ==> all_waiting(first) == first[0].1,
        first.len() == 0 ==> all_waiting(first).len() == 0,
    decreases first.len(),
{
    if first.len() == 0 {
        assert(first + second =~= second);
        assert(all_waiting(first) + all_waiting(second) =~= all_waiting(second));
    } else {
        law_all_waiting(first.drop_first(), second);
        assert((first + second).drop_first() =~= first.drop_first() + second);
        assert(all_waiting(first + second) =~= all_waiting(first) + all_waiting(second));
        if first.len() == 1 {
            assert(first.drop_first() =~= seq![]);
            assert(all_waiting(first) =~= first[0].1);
        }
    }
}

impl<T> ClientView<T> {
    /// The length in front of a message makes the reading task read exactly that message, and
    /// leaves the client as it was; an empty message ends the task, with everyone still
    /// waiting.
    pub proof fn law_reader_reads_whole_messages(self, msg: Seq<u8>)
        requires
            msg.len() <= 65535,
        ensures
            ({
                let frame = framed(msg);
                let (c, action) = self.reader_step(ReaderEvent::Length(frame[0], frame[1]));
                &&& c == self
                &&& msg.len() > 0 ==> action == ReaderActionView::<T>::ReadMessage(msg.len())
                &&& msg.len() == 0 ==> action == ReaderActionView::<T>::Stop(
                    ErrorView::Text("DNS TCP: zero-length message"@),
                )
            }),
    {
    }

    /// A message reaches exactly those who wait for the identifier in its first two bytes,
    /// unchanged, and is the end of their waiting and of nobody else's; one that is too short
    /// for an identifier reaches nobody.
    pub proof fn law_message_reaches_its_queries(self, message: Vec<u8>, id: u16)
        requires
            self.wf(),
        ensures
            ({
                let (c, action) = self.reader_step(ReaderEvent::Message(message));
                let own = message@.len() >= 2 && id == message@[0] * 256 + message@[1];
                &&& action matches ReaderActionView::Deliver { to, message: m } && m == message@ && (
                own ==> to == waiting_for(self.pending, id)) && (message@.len() < 2 ==> to.len() == 0)
                &&& waiting_for(c.pending, id) == (if own {
                    Seq::<T>::empty()
                } else {
                    waiting_for(self.pending, id)
                })
                &&& c.writer == self.writer && c.reader == self.reader && c.force_reconnect
                    == self.force_reconnect && c.dns_addr == self.dns_addr
            }),
    {
        if message@.len() >= 2 {
            let own = be_u16(message@[0], message@[1]) as u16;
            lemma_without(self.pending, own);
            let c = self.reader_step(ReaderEvent::Message(message)).0;
            assert(id != own ==> get(c.pending, id) == get(self.pending, id));
        }
    }

    /// A reading task that has failed ends with its error, and leaves everything as it was.
    pub proof fn law_reader_failure(self, error: Error)
        ensures
            self.reader_step(ReaderEvent::Failed(error)) == (self, ReaderActionView::<T>::Stop(error@)),
    {
    }

    /// A query begins on the connection that stands. It opens a new one exactly where there
    /// is none to write to or to read from, the reading has ended, or an earlier query has
    /// waited in vain; then nobody waits on the old one any more, and all who did are told
    /// that it was reset.
    pub proof fn law_query_begins(self, raw: Seq<u8>, reader_finished: bool)
        requires
            raw.len() >= 2,
        ensures
            ({
                let (c, action) = self.query(raw, QueryEventView::Begin { reader_finished });
                if self.writer && self.reader && !reader_finished && !self.force_reconnect {
                    c == self && action is Register
                } else {
                    &&& c.pending.len() == 0
                    &&& !c.writer && !c.reader && !c.force_reconnect
                    &&& c.dns_addr == self.dns_addr
                    &&& action == (QueryActionView::Connect {
                        notify: all_waiting(self.pending),
                        error: ErrorView::Text("DNS TCP connection reset"@),
                    })
                }
            }),
    {
    }

    /// A connection that was opened is used for the query; where it could not be, the query
    /// fails with the error, and there is none.
    pub proof fn law_query_connects(self, raw: Seq<u8>, error: ErrorView)
        requires
            raw.len() >= 2,
        ensures
            ({
                let (c, action) = self.query(raw, QueryEventView::Connected(Ok(())));
                &&& action is Register
                &&& c.writer && c.reader
                &&& c.pending == self.pending && c.force_reconnect == self.force_reconnect
            }),
            ({
                let (c, action) = self.query(raw, QueryEventView::Connected(Err(error)));
                &&& action == (QueryActionView::<T>::Return {
                    result: Err(error),
                    notify: seq![],
                    stop_reader: false,
                })
                &&& !c.writer && !c.reader
                &&& c.pending == self.pending && c.force_reconnect == self.force_reconnect
            }),
    {
    }

    /// A query waits under the identifier in its first two bytes, behind those who already
    /// wait there; the first of them is written, with its length in front, the others are
    /// not. One that is too long to be written fails.
    pub proof fn law_query_registers(self, raw: Seq<u8>, t: T, id: u16)
        requires
            self.wf(),
            raw.len() >= 2,
        ensures
            ({
                let (c, action) = self.query(raw, QueryEventView::Register(t));
                let own = id == raw[0] * 256 + raw[1];
                &&& waiting_for(c.pending, id) == (if own {
                    waiting_for(self.pending, id).push(t)
                } else {
                    waiting_for(self.pending, id)
                })
                &&& own ==> has_key(c.pending, id)
                &&& own ==> (if has_key(self.pending, id) {
                    action is Wait
                } else if raw.len() > 65535 {
                    action == (QueryActionView::<T>::Return {
                        result: Err(
                            ErrorView::Text("out of range integral type conversion attempted"@),
                        ),
                        notify: seq![],
                        stop_reader: false,
                    })
                } else {
                    action matches QueryActionView::Write(bytes) && bytes.skip(2) == raw && bytes[0]
                        * 256 + bytes[1] == raw.len() && bytes.len() == raw.len() + 2
                })
                &&& c.writer == self.writer && c.reader == self.reader && c.force_reconnect
                    == self.force_reconnect
            }),
    {
        let own = be_u16(raw[0], raw[1]) as u16;
        lemma_put(self.pending, own, waiting_for(self.pending, own).push(t));
        let c = self.query(raw, QueryEventView::Register(t)).0;
        assert(id != own ==> get(c.pending, id) == get(self.pending, id));
        if raw.len() <= 65535 {
            law_frame(raw);
        }
        if id == own {
            assert(get(c.pending, id) is Some);
        }
    }

    /// A query that has been written waits. One that could not be written fails with the
    /// error, and nobody waits for it any more; the connection is not written to again. Where
    /// writing took too long, the reading ends too.
    pub proof fn law_query_is_written(self, raw: Seq<u8>, error: ErrorView, id: u16)
        requires
            self.wf(),
            raw.len() >= 2,
        ensures
            self.query(raw, QueryEventView::Written) == (self, QueryActionView::<T>::Wait),
            ({
                let (c, action) = self.query(raw, QueryEventView::WriteFailed(error));
                let own = id == raw[0] * 256 + raw[1];
                &&& action == (QueryActionView::<T>::Return {
                    result: Err(error),
                    notify: seq![],
                    stop_reader: false,
                })
                &&& !c.writer && c.reader == self.reader && c.force_reconnect == self.force_reconnect
                &&& waiting_for(c.pending, id) == (if own {
                    Seq::<T>::empty()
                } else {
                    waiting_for(self.pending, id)
                })
            }),
            ({
                let (c, action) = self.query(raw, QueryEventView::WriteTimedOut);
                let own = id == raw[0] * 256 + raw[1];
                &&& action == (QueryActionView::<T>::Return {
                    result: Err(ErrorView::Text("DNS TCP write timed out"@)),
                    notify: seq![],
                    stop_reader: self.reader,
                })
                &&& !c.writer && !c.reader && c.force_reconnect == self.force_reconnect
                &&& waiting_for(c.pending, id) == (if own {
                    Seq::<T>::empty()
                } else {
                    waiting_for(self.pending, id)
                })
            }),
    {
        let own = be_u16(raw[0], raw[1]) as u16;
        lemma_without(self.pending, own);
        let c = without(self.pending, own);
        assert(id != own ==> get(c, id) == get(self.pending, id));
    }

    /// A query returns what has come for it, an answer or an error, unchanged; without either
    /// the connection was lost. Both leave the client as it was.
    pub proof fn law_query_is_answered(self, raw: Seq<u8>, result: Result<Seq<u8>, ErrorView>)
        requires
            raw.len() >= 2,
        ensures
            self.query(raw, QueryEventView::Answered(result)) == (
                self,
                QueryActionView::<T>::Return { result, notify: seq![], stop_reader: false },
            ),
            self.query(raw, QueryEventView::Lost) == (
                self,
                QueryActionView::<T>::Return {
                    result: Err(
                        ErrorView::Text("DNS TCP connection lost while waiting for response"@),
                    ),
                    notify: seq![],
                    stop_reader: false,
                },
            ),
    {
    }

    /// A query that is too short to have an identifier fails at once, whatever happens, and
    /// changes nothing.
    pub proof fn law_short_query(self, raw: Seq<u8>, event: QueryEventView<T>)
        requires
            raw.len() < 2,
        ensures
            self.query(raw, event) == (
                self,
                QueryActionView::<T>::Return {
                    result: Err(ErrorView::Text("DNS query too short"@)),
                    notify: seq![],
                    stop_reader: false,
                },
            ),
    {
    }

    /// The session for which the connection to the server is opened.
    pub open spec fn ends(self) -> SessionInfo {
        SessionInfo {
            src: SocketAddr::spec_new(IpAddr::V4(Ipv4Addr { bits: 0 }), 0),
            dst: self.dns_addr,
            protocol: IpProtocol::Tcp,
        }
    }

    /// Who is told what when the reading ends.
    pub open spec fn closing_notice(self) -> (Seq<T>, ErrorView) {
        (all_waiting(self.pending), ErrorView::Text("DNS TCP connection closed"@))
    }

    /// Who is told what where a query needs a new connection.
    pub open spec fn reset_notice(self, reader_finished: bool) -> Option<(Seq<T>, ErrorView)> {
        if self.needs_connection(reader_finished) {
            Some((all_waiting(self.pending), ErrorView::Text("DNS TCP connection reset"@)))
        } else {
            None
        }
    }

    /// The connection goes from no address in particular to the server, over TCP. Everyone who
    /// waits is told once when it ends: that it was closed where the reading has ended, and
    /// that it was reset where a query needs a new one. Where none is needed nobody is told
    /// anything and nothing changes.
    pub proof fn law_connection(self, raw: Seq<u8>, reader_finished: bool)
        requires
            raw.len() >= 2,
        ensures
            self.ends().src.spec_ip() == IpAddr::V4(Ipv4Addr { bits: 0 }),
            self.ends().src.spec_port() == 0,
            self.ends().dst == self.dns_addr,
            self.ends().protocol == IpProtocol::Tcp,
            self.closing_notice() == (
                all_waiting(self.pending),
                ErrorView::Text("DNS TCP connection closed"@),
            ),
            self.reset_notice(reader_finished) is Some <==> !self.writer || !self.reader
                || reader_finished || self.force_reconnect,
            match self.reset_notice(reader_finished) {
                Some((notify, error)) => self.query(
                    raw,
                    QueryEventView::Begin { reader_finished },
                ).1 == (QueryActionView::Connect { notify, error }) && self.ensured(
                    reader_finished,
                ).pending.len() == 0,
                None => self.ensured(reader_finished) == self,
            },
    {
    }

    /// A client stays with its server. The end of the reading tells everyone who waits, leaves
    /// nobody waiting, and changes nothing else.
    pub proof fn law_server_stays(self, raw: Seq<u8>, event: QueryEventView<T>, read: ReaderEvent)
        ensures
            self.query(raw, event).0.dns_addr == self.dns_addr,
            self.reader_step(read).0.dns_addr == self.dns_addr,
            self.drained().dns_addr == self.dns_addr,
            self.drained().pending.len() == 0,
            self.drained().writer == self.writer,
            self.drained().reader == self.reader,
            self.drained().force_reconnect == self.force_reconnect,
    {
    }

    /// A query that has waited too long fails, and those who wait with it are told.
    pub proof fn law_timed_out(self, raw: Seq<u8>, id: u16)
        requires
            self.wf(),
            raw.len() >= 2,
            id == raw[0] * 256 + raw[1],
        ensures
            ({
                let (c, action) = self.query(raw, QueryEventView::TimedOut);
                &&& action == (QueryActionView::<T>::Return {
                    result: Err(ErrorView::Text("DNS query timed out"@)),
                    notify: waiting_for(self.pending, id),
                    stop_reader: false,
                })
                &&& waiting_for(c.pending, id) == Seq::<T>::empty()
            }),
    {
        lemma_without(self.pending, id);
    }

    /// A query that has waited too long takes those who wait with it along, and nobody else,
    /// and makes the next query open a new connection.
    pub proof fn law_timeout_is_local(self, raw: Seq<u8>, id: u16)
        requires
            self.wf(),
            raw.len() >= 2,
            id != raw[0] * 256 + raw[1],
        ensures
            ({
                let c = self.query(raw, QueryEventView::TimedOut).0;
                &&& waiting_for(c.pending, id) == waiting_for(self.pending, id)
                &&& c.force_reconnect
                &&& c.writer == self.writer && c.reader == self.reader
            }),
    {
        let own = be_u16(raw[0], raw[1]) as u16;
        lemma_without(self.pending, own);
        let c = without(self.pending, own);
        assert(get(c, id) == get(self.pending, id));
    }
}

proof fn lemma_waits<T>(pending: Seq<(u16, Seq<T>)>, i: int, t: T)
    requires
        0 <= i < pending.len(),
        pending[i].1.contains(t),
    ensures
        all_waiting(pending).contains(t),
    decreases pending.len(),
{
    let rest = all_waiting(pending.drop_first());
    if i == 0 {
        let k = choose|k: int| 0 <= k < pending[0].1.len() && pending[0].1[k] == t;
        assert(all_waiting(pending)[k] == t);
    } else {
        assert(pending.drop_first()[i - 1] == pending[i]);
        lemma_waits(pending.drop_first(), i - 1, t);
        let k = choose|k: int| 0 <= k < rest.len() && rest[k] == t;
        assert(all_waiting(pending)[pending[0].1.len() + k] == t);
    }
}

/// The name for which the query `data` asks.
pub open spec fn asked_domain(data: Seq<u8>) -> Result<Seq<char>, Seq<char>> {
    match parsed(data, false) {
        Ok(m) => m.domain(),
        Err(e) => Err(e),
    }
}

/// The name for which the query `data` asks.
pub fn query_domain(data: &[u8]) -> (r: Result<String, String>)
    ensures
        match r {
            Ok(name) => asked_domain(data@) == Ok::<Seq<char>, Seq<char>>(name@),
            Err(e) => asked_domain(data@) == Err::<Seq<char>, Seq<char>>(e@),
        },
{
    match parse_data_to_dns_message(data, false) {
        Ok(m) => extract_domain_from_dns_message(&m),
        Err(e) => Err(e),
    }
}

/// The cache once the response `response` to a query for `domain` has come in at `now`: the
/// addresses in it are taken in, where there are any.
pub open spec fn snooped(cache: CacheView, domain: Seq<char>, response: Seq<u8>, now: nat) -> CacheView {
    match parsed(response, false) {
        Ok(m) => if m.dated_addresses().len() > 0 {
            cache.insert(domain, pair_records(m.dated_addresses()), now)
        } else {
            cache
        },
        Err(_) => cache,
    }
}

/// The message that is handed on for the response `response`: itself, without IPv6 addresses
/// where those are not wanted.
pub open spec fn handed_message(response: Seq<u8>, ipv6_enabled: bool) -> Option<MessageView> {
    match parsed(response, false) {
        Ok(m) => Some(if ipv6_enabled { m } else { m.without_ipv6() }),
        Err(_) => None,
    }
}

/// Whether `r` is what is handed on for the response `response`: the bytes of the message.
/// Where it holds one question and nothing beyond answers that are known, they read as it
/// unless they were cut off.
pub open spec fn handed_on(response: Seq<u8>, ipv6_enabled: bool, r: Option<Seq<u8>>) -> bool {
    match handed_message(response, ipv6_enabled) {
        Some(m) => match r {
            Some(bytes) => m.encoding() == Ok::<Seq<u8>, Seq<char>>(bytes) && (one_question(response)
                && known_answers(m.answers) && is_whole(bytes) ==> reads_as(bytes, m)),
            None => m.encoding() is Err && !(one_question(response) && known_answers(m.answers)),
        },
        None => r is None,
    }
}

/// Takes in the response `response` to a query for `domain` at the present moment: what it
/// says goes into the cache, and the bytes to be handed on come back.
pub fn take_response(
    response: &[u8],
    domain: &str,
    ipv6_enabled: bool,
    cache: &mut DnsCache,
) -> (r: Option<Vec<u8>>)
    ensures
        final(cache).origin() == old(cache).origin(),
        exists|now: nat| now <= LATEST && final(cache)@ == #[trigger] snooped(
            old(cache)@,
            domain@,
            response@,
            now,
        ),
        handed_on(response@, ipv6_enabled, bytes_view(r)),
{
    let now: u128 = cache.now();
    take_response_at(response, domain, ipv6_enabled, cache, now)
}

/// Takes in the response `response` to a query for `domain` at `now`: what it says goes into
/// the cache, and the bytes to be handed on come back.
pub fn take_response_at(
    response: &[u8],
    domain: &str,
    ipv6_enabled: bool,
    cache: &mut DnsCache,
    now: u128,
) -> (r: Option<Vec<u8>>)
    requires
        now <= LATEST,
    ensures
        final(cache).origin() == old(cache).origin(),
        final(cache)@ == snooped(old(cache)@, domain@, response@, now as nat),
        handed_on(response@, ipv6_enabled, bytes_view(r)),
{
    let mut message: DnsMessage = match parse_data_to_dns_message(response, false) {
        Ok(m) => m,
        Err(_) => {
            return None;
        },
    };
    let pairs: Vec<(IpAddr, u32)> = extract_ip_ttl_pairs_from_dns_message(&message);
    if pairs.len() > 0 {
        let records: Vec<DnsRecord> = records_from_pairs(pairs.as_slice());
        cache.insert_at(domain, records.as_slice(), now);
    }
    if !ipv6_enabled {
        remove_ipv6_entries(&mut message);
    }
    match message.to_vec() {
        Ok(bytes) => Some(bytes),
        Err(_) => None,
    }
}

/// What has happened in a session that sends DNS packets.
#[derive(Clone, Copy, PartialEq, Eq, Structural, Debug)]
pub enum SessionEvent {
    /// The first packet has come. The cache has no answer to it.
    FirstPacket,
    /// A packet of this length has come; none is left where the length is zero.
    Packet(usize),
    /// Reading has failed.
    ReadFailed,
    /// The cache has been asked: it had an answer, it had none, or the packet could not be
    /// read.
    CacheAsked(Option<bool>),
    /// The packet has been forwarded.
    Forwarded,
}

/// What is to be done in a session that sends DNS packets.
#[derive(Clone, Copy, PartialEq, Eq, Structural, Debug)]
pub enum SessionAction {
    /// Read the next packet.
    Read,
    /// Ask the cache for an answer to the packet.
    AskCache,
    /// Forward the packet over the shared connection.
    Forward,
    /// The session is over.
    End,
}

/// What the event `event` leads to in a session that sends DNS packets.
pub open spec fn session_step(event: SessionEvent) -> SessionAction {
    match event {
        SessionEvent::FirstPacket => SessionAction::Forward,
        SessionEvent::Packet(len) => if len == 0 {
            SessionAction::End
        } else {
            SessionAction::AskCache
        },
        SessionEvent::ReadFailed => SessionAction::End,
        SessionEvent::CacheAsked(Some(false)) => SessionAction::Forward,
        SessionEvent::CacheAsked(_) => SessionAction::Read,
        SessionEvent::Forwarded => SessionAction::Read,
    }
}

/// A packet is forwarded exactly where it is the first one, or the cache has said that it
/// has no answer to it. The session goes on after every packet, and ends with the last one
/// or where reading fails. The cache is asked about every packet but the first.
pub proof fn law_dns_session(event: SessionEvent)
    ensures
        session_step(event) is Forward <==> event is FirstPacket || event == SessionEvent::CacheAsked(
            Some(false),
        ),
        session_step(event) is End <==> event is ReadFailed || event == SessionEvent::Packet(0),
        session_step(event) is AskCache <==> (event matches SessionEvent::Packet(n) && n > 0),
        session_step(event) is Read <==> event is Forwarded || event == SessionEvent::CacheAsked(
            Some(true),
        ) || event == SessionEvent::CacheAsked(None),
{
}

/// What the event `event` leads to in a session that sends DNS packets.
pub fn handle_dns_over_tcp_session(event: SessionEvent) -> (action: SessionAction)
    ensures
        action == session_step(event),
        action == (match event {
            SessionEvent::FirstPacket => SessionAction::Forward,
            SessionEvent::Packet(len) => if len == 0 {
                SessionAction::End
            } else {
                SessionAction::AskCache
            },
            SessionEvent::ReadFailed => SessionAction::End,
            SessionEvent::CacheAsked(Some(false)) => SessionAction::Forward,
            SessionEvent::CacheAsked(_) => SessionAction::Read,
            SessionEvent::Forwarded => SessionAction::Read,
        }),
{
    match event {
        SessionEvent::FirstPacket => SessionAction::Forward,
        SessionEvent::Packet(len) => {
            if len == 0 {
                SessionAction::End
            } else {
                SessionAction::AskCache
            }
        },
        SessionEvent::ReadFailed => SessionAction::End,
        SessionEvent::CacheAsked(Some(false)) => SessionAction::Forward,
        SessionEvent::CacheAsked(_) => SessionAction::Read,
        SessionEvent::Forwarded => SessionAction::Read,
    }
}

/// What is done with the connection after the handshake with the proxy: another one to the
/// given address takes its place where there is one.
pub open spec fn connection_after(result: ProxyResult) -> Result<Option<SocketAddr>, ErrorView> {
    match result {
        ProxyResult::Established => Ok(None),
        ProxyResult::Bypass(addr) => Ok(Some(addr)),
        ProxyResult::UdpAssociate(_) => Err(
            ErrorView::Text("unexpected UDP associate in DNS-over-TCP"@),
        ),
    }
}

/// The connection is used where it stands, and replaced by one to the destination exactly
/// where the proxy is to be left out; a way for UDP packets is of no use to it.
pub proof fn law_connection_after(addr: SocketAddr)
    ensures
        connection_after(ProxyResult::Established) == Ok::<Option<SocketAddr>, ErrorView>(None),
        connection_after(ProxyResult::Bypass(addr)) == Ok::<Option<SocketAddr>, ErrorView>(
            Some(addr),
        ),
        connection_after(ProxyResult::UdpAssociate(addr)) == Err::<Option<SocketAddr>, ErrorView>(
            ErrorView::Text("unexpected UDP associate in DNS-over-TCP"@),
        ),
{
}

impl<T> ClientView<T> {
    /// A client of the server at `dns_addr`, without a connection.
    pub open spec fn fresh(dns_addr: SocketAddr) -> ClientView<T> {
        ClientView { dns_addr, pending: seq![], writer: false, reader: false, force_reconnect: false }
    }

    /// In a new client nobody waits, and the first query opens a connection.
    pub proof fn law_fresh(dns_addr: SocketAddr, raw: Seq<u8>, reader_finished: bool)
        requires
            raw.len() >= 2,
        ensures
            ({
                let c = ClientView::<T>::fresh(dns_addr);
                &&& c.wf()
                &&& c.dns_addr == dns_addr
                &&& all_waiting(c.pending) == Seq::<T>::empty()
                &&& c.needs_connection(reader_finished)
                &&& c.query(raw, QueryEventView::Begin { reader_finished }).1 is Connect
            }),
    {
    }
}

/// The name for which a query asks is the name in its first question; without a question there
/// is none, and of what cannot be read the error is told.
pub proof fn law_asked_domain(data: Seq<u8>)
    ensures
        match dns_message(data) {
            Err(e) => asked_domain(data) == Err::<Seq<char>, Seq<char>>(e),
            Ok(m) => if m.queries.len() > 0 {
                asked_domain(data) == Ok::<Seq<char>, Seq<char>>(m.queries[0].name)
            } else {
                asked_domain(data) == Err::<Seq<char>, Seq<char>>("DnsRequest no query body"@)
            },
        },
{
}

/// A response is remembered under the name that was asked for, with all of its addresses, in
/// their order and with the time that each of them has left; it does not matter which of them
/// are handed on. A response without addresses, and one that cannot be read, leaves the cache
/// as it is.
pub proof fn law_response_is_remembered(
    cache: CacheView,
    domain: Seq<char>,
    response: Seq<u8>,
    now: nat,
    query: Seq<char>,
    t: nat,
)
    requires
        cache.wf(),
        normal_domain(query) == normal_domain(domain),
    ensures
        match dns_message(response) {
            Err(_) => snooped(cache, domain, response, now) == cache,
            Ok(m) => if m.dated_addresses().len() == 0 {
                snooped(cache, domain, response, now) == cache
            } else {
                all_hold(pair_records(m.dated_addresses()), now, t) ==> snooped(
                    cache,
                    domain,
                    response,
                    now,
                ).records(query, t) == Some(aged(pair_records(m.dated_addresses()), now, t))
            },
        },
{
    if let Ok(m) = dns_message(response) {
        let records = pair_records(m.dated_addresses());
        if m.dated_addresses().len() > 0 && all_hold(records, now, t) {
            assert(gives_address(records[0]));
            assert(has_address(records));
            cache.law_insert_then_lookup(domain, records, now, query, t);
        }
    }
}

/// The message that is handed on for a response is the response itself where IPv6 addresses
/// are wanted, and the response without them otherwise, with all else as it was.
pub proof fn law_handed_message(response: Seq<u8>, ipv6_enabled: bool)
    ensures
        match dns_message(response) {
            Err(_) => handed_message(response, ipv6_enabled) is None,
            Ok(m) => handed_message(response, ipv6_enabled) matches Some(h) && (ipv6_enabled ==> h
                == m) && h.answers == (if ipv6_enabled {
                m.answers
            } else {
                m.without_ipv6().answers
            }) && h == (MessageView { answers: h.answers, ..m }),
        },
{
}

/// A bare message has twelve bytes, of which the first two are its identifier and the others
/// are zero.
pub proof fn law_bare_message(id: u16, i: int)
    ensures
        bare_message(id).len() == 12,
        bare_message(id)[0] * 256 + bare_message(id)[1] == id,
        2 <= i < 12 ==> bare_message(id)[i] == 0,
{
}

} // verus!
