//! The HTTP CONNECT handshake with a proxy, as a state machine over bytes.
//!
//! The machine works on what it is given until it is done, has failed, or needs its
//! authenticator. In the last case the caller asks the authenticator and hands the answer
//! back.

use std::sync::Arc;

use vstd::prelude::*;
use vstd::utf8::encode_utf8;

use crate::directions::{
    DataEvent, IncomingDataEvent, IncomingDirection, OutgoingDataEvent, OutgoingDirection,
};
use crate::error::{Error, ErrorView};
use crate::http_auth::{auth_header_views, AuthHeader, AuthResult};
use crate::http_response::{
    announced_length, ascii_names, content_length, eq_ignore_case, equal_ignoring_case,
    find_header, head_of, last_value, read_head, status_error, status_message, ResponseHead, ResponseHeadView,
};
use crate::net::SocketAddr;
use crate::session_info::{IpProtocol, SessionInfo};
use crate::text::{decimal, push_numeral};

verus! {

/// Where the handshake stands.
#[derive(Clone, Copy, PartialEq, Eq, Structural, Debug)]
pub enum HttpState {
    SendRequest,
    ExpectResponseHeaders,
    ExpectResponse,
    Reset,
    Established,
}

/// What follows once a request has been written.
#[derive(Clone, Copy, PartialEq, Eq, Structural, Debug)]
pub enum After {
    /// The handshake begins.
    Start,
    /// The connection to the proxy is to be opened anew.
    Reset,
    /// The next response is expected on the same connection.
    NextResponse,
}

/// The answer of the authenticator for which the machine waits.
#[derive(Debug)]
pub enum Awaiting {
    Nothing,
    /// Header fields for the request that is being written.
    AuthHeaders(After),
    /// The verdict on a refusal.
    Verdict(ResponseHead),
}

/// What the machine waits for, in mathematical terms.
pub enum AwaitingView {
    Nothing,
    AuthHeaders(After),
    Verdict(ResponseHeadView),
}

impl View for Awaiting {
    type V = AwaitingView;

    open spec fn view(&self) -> AwaitingView {
        match self {
            Awaiting::Nothing => AwaitingView::Nothing,
            Awaiting::AuthHeaders(after) => AwaitingView::AuthHeaders(*after),
            Awaiting::Verdict(head) => AwaitingView::Verdict(head@),
        }
    }
}

/// What the machine wants next.
#[derive(Debug)]
pub enum Step {
    /// Nothing: all that was given has been worked on.
    Done,
    /// The handshake has failed.
    Failed(Error),
    /// The header fields that authenticate a request for `uri`.
    GenerateAuthHeaders { uri: String },
    /// The verdict on a refusal, whose head [`HttpConnection::refusal`] shows.
    HandleFailure { is_retry: bool },
    /// A response that this client does not implement.
    Unsupported(String),
}

/// What the machine wants next, in mathematical terms.
pub enum StepView {
    Done,
    Failed(ErrorView),
    GenerateAuthHeaders { uri: Seq<char> },
    HandleFailure { is_retry: bool },
    Unsupported(Seq<char>),
}

impl View for Step {
    type V = StepView;

    open spec fn view(&self) -> StepView {
        match self {
            Step::Done => StepView::Done,
            Step::Failed(e) => StepView::Failed(e@),
            Step::GenerateAuthHeaders { uri } => StepView::GenerateAuthHeaders { uri: uri@ },
            Step::HandleFailure { is_retry } => StepView::HandleFailure { is_retry: *is_retry },
            Step::Unsupported(s) => StepView::Unsupported(s@),
        }
    }
}

/// The search for the end of a head, from the byte at index `i` on, where `newlines` line
/// feeds have come in a row with at most carriage returns between them: where it stops, and
/// the line feeds in a row there. It stops behind the second line feed in a row.
pub open spec fn scan(buf: Seq<u8>, i: nat, newlines: nat) -> (nat, nat)
    decreases buf.len() - i,
{
    if i >= buf.len() {
        (i, newlines)
    } else {
        let n: nat = if buf[i as int] == 10 {
            newlines + 1
        } else if buf[i as int] != 13 {
            0
        } else {
            newlines
        };
        if n == 2 {
            (i + 1, n)
        } else {
            scan(buf, i + 1, n)
        }
    }
}

/// The search for the end of a head does not depend on how the bytes arrive: where the
/// first `k` bytes do not hold the end, the search over all bytes is the search that goes on
/// from byte `k`.
pub proof fn law_scan_resumes(buf: Seq<u8>, k: nat, i: nat, newlines: nat)
    requires
        i <= k <= buf.len(),
        newlines < 2,
        scan(buf.take(k as int), i, newlines).1 < 2,
    ensures
        scan(buf.take(k as int), i, newlines).0 == k,
        scan(buf, i, newlines) == scan(buf, k, scan(buf.take(k as int), i, newlines).1),
    decreases k - i,
{
    if i < k {
        let n: nat = if buf[i as int] == 10 {
            newlines + 1
        } else if buf[i as int] != 13 {
            0
        } else {
            newlines
        };
        assert(buf.take(k as int)[i as int] == buf[i as int]);
        law_scan_resumes(buf, k, i + 1, n);
    }
}

/// The header lines of a request.
pub open spec fn header_lines(headers: Seq<(Seq<char>, Seq<char>)>) -> Seq<char>
    decreases headers.len(),
{
    if headers.len() == 0 {
        seq![]
    } else {
        header_lines(headers.drop_last()) + headers.last().0 + ": "@ + headers.last().1 + "\r\n"@
    }
}

/// A connection to a proxy, in mathematical terms.
#[verifier::reject_recursive_types(A)]
pub struct ConnectionView<A> {
    pub server_addr: SocketAddr,
    pub state: HttpState,
    pub client_in: Seq<u8>,
    pub server_in: Seq<u8>,
    pub client_out: Seq<u8>,
    pub server_out: Seq<u8>,
    pub newlines: nat,
    pub counter: nat,
    pub skip: nat,
    pub authenticator: Option<Arc<A>>,
    pub before: bool,
    pub info: SessionInfo,
    pub domain: Option<Seq<char>>,
    pub awaiting: AwaitingView,
}

impl<A> ConnectionView<A> {
    /// What holds of every connection: it is consistent, and a tunnel that stands holds
    /// nothing back.
    pub open spec fn wf(self) -> bool {
        &&& self.consistent()
        &&& self.state == HttpState::Established ==> self.client_in.len() == 0
            && self.server_in.len() == 0
    }

    /// What holds of a connection even while it works on what has come in: the search for
    /// the end of a head has not found it in the bytes that it has passed; nothing is
    /// searched but in the state that expects a head; nothing is asked of an authenticator
    /// that is not there; and the head on which it is to judge names its fields in ASCII.
    pub open spec fn consistent(self) -> bool {
        &&& self.newlines < 2
        &&& self.counter <= self.server_in.len()
        &&& self.skip <= usize::MAX
        &&& scan(self.server_in.take(self.counter as int), 0, 0) == (self.counter, self.newlines)
        &&& self.state != HttpState::ExpectResponseHeaders || self.awaiting !is Nothing
            ==> self.counter == 0
        &&& self.state == HttpState::ExpectResponse || self.awaiting !is Nothing
            ==> self.authenticator is Some
        &&& self.awaiting matches AwaitingView::AuthHeaders(after) ==> if after
            == After::NextResponse {
            self.state == HttpState::ExpectResponse
        } else {
            self.state == HttpState::ExpectResponseHeaders
        }
        &&& self.awaiting matches AwaitingView::Verdict(head) ==> self.state
            == HttpState::ExpectResponseHeaders && head.len <= self.server_in.len() && ascii_names(
            head.headers,
        )
    }

    /// What the connection waits for.
    pub open spec fn question(self) -> StepView {
        match self.awaiting {
            AwaitingView::Nothing => StepView::Done,
            AwaitingView::AuthHeaders(_) => StepView::GenerateAuthHeaders { uri: self.host() },
            AwaitingView::Verdict(_) => StepView::HandleFailure { is_retry: self.before },
        }
    }

    /// A connection on which nothing has been sent or received.
    pub open spec fn fresh(
        server_addr: SocketAddr,
        info: SessionInfo,
        domain: Option<Seq<char>>,
        authenticator: Option<Arc<A>>,
    ) -> Self {
        ConnectionView {
            server_addr,
            state: HttpState::ExpectResponseHeaders,
            client_in: seq![],
            server_in: seq![],
            client_out: seq![],
            server_out: seq![],
            newlines: 0,
            counter: 0,
            skip: 0,
            authenticator,
            before: false,
            info,
            domain,
            awaiting: AwaitingView::Nothing,
        }
    }

    /// The destination as the request names it: the domain name, where it is known, or the
    /// address, with the port.
    pub open spec fn host(self) -> Seq<char> {
        match self.domain {
            Some(domain) => domain + ":"@ + decimal(self.info.dst.spec_port() as nat),
            None => self.info.dst.spec_text(),
        }
    }

    /// The request up to the header fields that authenticate it.
    pub open spec fn request_start(self) -> Seq<u8> {
        encode_utf8(
            "CONNECT "@ + self.host() + " HTTP/1.1\r\nHost: "@ + self.host() + "\r\n"@,
        )
    }

    /// Writes a request, as far as that is possible without the authenticator.
    pub open spec fn begin_request(self, after: After) -> (Self, StepView) {
        let c = ConnectionView { server_out: self.server_out + self.request_start(), ..self };
        if self.authenticator is Some {
            (
                ConnectionView { awaiting: AwaitingView::AuthHeaders(after), ..c },
                StepView::GenerateAuthHeaders { uri: self.host() },
            )
        } else {
            c.end_request(seq![], after)
        }
    }

    /// Writes the rest of a request, with the header fields that authenticate it.
    pub open spec fn end_request(self, headers: Seq<(Seq<char>, Seq<char>)>, after: After) -> (
        Self,
        StepView,
    ) {
        let c = ConnectionView {
            server_out: self.server_out + encode_utf8(header_lines(headers) + "\r\n"@),
            awaiting: AwaitingView::Nothing,
            ..self
        };
        match after {
            After::Start => (c, StepView::Done),
            After::Reset => (ConnectionView { state: HttpState::Reset, ..c }, StepView::Done),
            After::NextResponse => ConnectionView {
                state: HttpState::ExpectResponseHeaders,
                ..c
            }.read_response(),
        }
    }

    /// Hands on what has come in, both ways.
    pub open spec fn pass_through(self) -> Self {
        ConnectionView {
            client_out: self.client_out + self.server_in,
            server_out: self.server_out + self.client_in,
            server_in: seq![],
            client_in: seq![],
            ..self
        }
    }

    /// Looks for the end of a head, and reads the head where it is complete. With the status
    /// 200 the tunnel stands, and what follows the head belongs to it. Any other status is
    /// for the authenticator to judge.
    pub open spec fn read_response(self) -> (Self, StepView) {
        let (end, newlines) = scan(self.server_in, self.counter, self.newlines);
        if newlines != 2 {
            (ConnectionView { counter: end, newlines, ..self }, StepView::Done)
        } else {
            let c = ConnectionView { counter: 0, newlines: 0, ..self };
            match head_of(self.server_in) {
                Err(e) => (c, StepView::Failed(e)),
                Ok(None) => (c, StepView::Done),
                Ok(Some(head)) => if head.code == 200 {
                    (
                        ConnectionView {
                            state: HttpState::Established,
                            server_in: self.server_in.skip(end as int),
                            ..c
                        }.pass_through(),
                        StepView::Done,
                    )
                } else if self.authenticator is None {
                    (c, StepView::Failed(ErrorView::Text(status_message(head.code, head.reason))))
                } else {
                    (
                        ConnectionView { awaiting: AwaitingView::Verdict(head), ..c },
                        StepView::HandleFailure { is_retry: self.before },
                    )
                },
            }
        }
    }

    /// Drops what is left of a refused response, and sends the next request once all of it
    /// has been dropped.
    pub open spec fn skip_response(self) -> (Self, StepView) {
        let n: nat = if self.skip < self.server_in.len() { self.skip } else { self.server_in.len() };
        let c = ConnectionView {
            server_in: self.server_in.skip(n as int),
            skip: (self.skip - n) as nat,
            ..self
        };
        if c.skip == 0 {
            c.begin_request(After::NextResponse)
        } else {
            (c, StepView::Done)
        }
    }

    /// Prepares the request for a new connection to the proxy.
    pub open spec fn restart(self) -> (Self, StepView) {
        ConnectionView { server_in: seq![], server_out: seq![], ..self }.begin_request(After::Reset)
    }

    /// Goes on after a refusal: on a new connection where this one ends with the response or
    /// the length of the response is not known, and on this one otherwise.
    pub open spec fn after_refusal(self, head: ResponseHeadView) -> (Self, StepView) {
        let closed = match last_value(head.headers, "Connection"@) {
            Some(value) => equal_ignoring_case(value, encode_utf8("close"@)),
            None => false,
        };
        if closed || head.version == 0 {
            self.restart()
        } else if last_value(head.headers, "Transfer-Encoding"@) is Some {
            (self, StepView::Unsupported("Header Transfer-Encoding not supported"@))
        } else {
            match last_value(head.headers, "Content-Length"@) {
                None => self.restart(),
                Some(value) => match announced_length(value) {
                    Err(e) => (self, StepView::Failed(e)),
                    Ok(n) => if n + head.len > usize::MAX {
                        (self, StepView::Unsupported("Response too long"@))
                    } else {
                        ConnectionView {
                            state: HttpState::ExpectResponse,
                            skip: n + head.len,
                            ..self
                        }.skip_response()
                    },
                },
            }
        }
    }

    /// Works on what has come in.
    pub open spec fn advance(self) -> (Self, StepView) {
        match self.state {
            HttpState::SendRequest => (self, StepView::Done),
            HttpState::ExpectResponseHeaders => self.read_response(),
            HttpState::ExpectResponse => self.skip_response(),
            HttpState::Reset => ConnectionView {
                state: HttpState::ExpectResponseHeaders,
                ..self
            }.read_response(),
            HttpState::Established => (self.pass_through(), StepView::Done),
        }
    }

    /// The connection once `data` has come in, before anything is done about it.
    pub open spec fn received(self, direction: IncomingDirection, data: Seq<u8>) -> Self {
        match direction {
            IncomingDirection::FromServer => ConnectionView {
                server_in: self.server_in + data,
                ..self
            },
            IncomingDirection::FromClient => ConnectionView {
                client_in: self.client_in + data,
                ..self
            },
        }
    }

    /// Takes `data` in and works on it.
    pub open spec fn push(self, direction: IncomingDirection, data: Seq<u8>) -> (Self, StepView) {
        self.received(direction, data).advance()
    }

    /// Goes on with the header fields that the authenticator has given, or fails as it did.
    pub open spec fn headers_given(
        self,
        answer: Result<Seq<(Seq<char>, Seq<char>)>, ErrorView>,
        after: After,
    ) -> (Self, StepView) {
        match answer {
            Ok(headers) => self.end_request(headers, after),
            Err(e) => (
                ConnectionView { awaiting: AwaitingView::Nothing, ..self },
                StepView::Failed(e),
            ),
        }
    }

    /// Goes on with the verdict of the authenticator on a refusal with the head `head`.
    pub open spec fn verdict_given(
        self,
        verdict: Result<AuthResult<A>, ErrorView>,
        head: ResponseHeadView,
    ) -> (Self, StepView) {
        let c = ConnectionView { awaiting: AwaitingView::Nothing, ..self };
        match verdict {
            Err(e) => (c, StepView::Failed(e)),
            Ok(AuthResult::Abort) => (
                c,
                StepView::Failed(ErrorView::Text(status_message(head.code, head.reason))),
            ),
            Ok(AuthResult::Bypass) => (
                ConnectionView {
                    server_in: seq![],
                    server_out: seq![],
                    client_in: seq![],
                    client_out: seq![],
                    server_addr: self.info.dst,
                    state: HttpState::Established,
                    ..c
                },
                StepView::Done,
            ),
            Ok(AuthResult::Retry) => ConnectionView { before: true, ..c }.after_refusal(head),
            Ok(AuthResult::RetryWith(a)) => ConnectionView {
                authenticator: Some(a),
                before: true,
                ..c
            }.after_refusal(head),
        }
    }
}

impl<A> ConnectionView<A> {
    /// A tunnel that stands hands every byte on, in order and unchanged, and does nothing
    /// else.
    pub proof fn law_established_forwards(self, data: Seq<u8>)
        requires
            self.wf(),
            self.state == HttpState::Established,
        ensures
            self.push(IncomingDirection::FromServer, data) == (
                ConnectionView { client_out: self.client_out + data, ..self },
                StepView::Done,
            ),
            self.push(IncomingDirection::FromClient, data) == (
                ConnectionView { server_out: self.server_out + data, ..self },
                StepView::Done,
            ),
    {
        assert(self.server_in =~= seq![] && self.client_in =~= seq![]);
        assert(self.server_in + data =~= data);
        assert(self.client_in + data =~= data);
        assert(self.client_out + Seq::<u8>::empty() =~= self.client_out);
        assert(self.server_out + Seq::<u8>::empty() =~= self.server_out);
    }

    /// Incoming data makes the tunnel stand only where the proxy's response has the status
    /// 200.
    pub proof fn law_established_by_success(self, direction: IncomingDirection, data: Seq<u8>)
        requires
            self.wf(),
            self.awaiting is Nothing,
            self.state != HttpState::Established,
            self.push(direction, data).0.state == HttpState::Established,
        ensures
            head_of(self.received(direction, data).server_in) matches Ok(Some(head)) && head.code
                == 200,
            self.push(direction, data).1 is Done,
            self.push(direction, data).0.server_addr == self.server_addr,
    {
    }

    /// A complete response with the status 200 makes the tunnel stand. What the server has
    /// sent behind its head is for the client, and what the client has sent meanwhile is for
    /// the server; nothing of either is lost.
    pub proof fn law_success_establishes(self, data: Seq<u8>, head: ResponseHeadView)
        requires
            self.wf(),
            self.awaiting is Nothing,
            self.state == HttpState::ExpectResponseHeaders || self.state == HttpState::Reset,
            scan(self.server_in + data, self.counter, self.newlines).1 == 2,
            head_of(self.server_in + data) == Ok::<Option<ResponseHeadView>, ErrorView>(Some(head)),
            head.code == 200,
        ensures
            ({
                let (c, step) = self.push(IncomingDirection::FromServer, data);
                let end = scan(self.server_in + data, self.counter, self.newlines).0;
                &&& step is Done
                &&& c.state == HttpState::Established
                &&& c.client_out == self.client_out + (self.server_in + data).skip(end as int)
                &&& c.server_out == self.server_out + self.client_in
                &&& c.server_addr == self.server_addr
            }),
    {
    }

    /// The verdict on a refusal makes the tunnel stand only where it leaves the proxy out;
    /// the bytes for the server then go to the destination, and nothing that was exchanged
    /// with the proxy is left.
    pub proof fn law_bypass(self, verdict: Result<AuthResult<A>, ErrorView>, head: ResponseHeadView)
        requires
            self.wf(),
            self.awaiting == AwaitingView::Verdict(head),
        ensures
            self.verdict_given(verdict, head).0.state == HttpState::Established <==> verdict
                matches Ok(AuthResult::Bypass),
            verdict matches Ok(AuthResult::Bypass) ==> {
                let c = self.verdict_given(verdict, head).0;
                &&& self.verdict_given(verdict, head).1 is Done
                &&& c.server_addr == self.info.dst
                &&& c.server_in.len() == 0
                &&& c.server_out.len() == 0
                &&& c.client_in.len() == 0
                &&& c.client_out.len() == 0
            },
    {
    }

    /// No byte of the client is lost or reordered: it waits while the handshake lasts, and
    /// follows the request once the tunnel stands.
    pub proof fn law_client_bytes_kept(self, direction: IncomingDirection, data: Seq<u8>)
        requires
            self.wf(),
            self.awaiting is Nothing,
            self.state != HttpState::Established,
        ensures
            ({
                let given = if direction == IncomingDirection::FromClient {
                    self.client_in + data
                } else {
                    self.client_in
                };
                let c = self.push(direction, data).0;
                if c.state == HttpState::Established {
                    c.server_out == self.server_out + given
                } else {
                    c.client_in == given && c.client_out == self.client_out
                }
            }),
    {
    }

    /// A refusal is a repeated one from the first retry on.
    pub proof fn law_retry_is_remembered(
        self,
        verdict: Result<AuthResult<A>, ErrorView>,
        head: ResponseHeadView,
        direction: IncomingDirection,
        data: Seq<u8>,
    )
        requires
            self.wf(),
        ensures
            self.before ==> self.push(direction, data).0.before,
            self.push(direction, data).1 matches StepView::HandleFailure { is_retry } ==> is_retry
                == self.before,
            self.before ==> self.verdict_given(verdict, head).0.before,
            verdict matches Ok(AuthResult::Retry) ==> self.verdict_given(verdict, head).0.before,
            verdict matches Ok(AuthResult::RetryWith(a)) ==> self.verdict_given(
                verdict,
                head,
            ).0.before && self.verdict_given(verdict, head).0.authenticator == Some(a),
    {
    }

    /// A request is written once: its first part, the header fields that the authenticator
    /// gives, and the line that ends it.
    pub proof fn law_request(self, after: After, headers: Seq<(Seq<char>, Seq<char>)>)
        requires
            self.authenticator is Some,
        ensures
            self.begin_request(after).1 == (StepView::GenerateAuthHeaders { uri: self.host() }),
            after != After::NextResponse ==> {
                let c = self.begin_request(after).0.headers_given(
                    Ok::<Seq<(Seq<char>, Seq<char>)>, ErrorView>(headers),
                    after,
                );
                &&& c.0.server_out == self.server_out + self.request_start() + encode_utf8(
                    header_lines(headers) + "\r\n"@,
                )
                &&& c.0.client_out == self.client_out
                &&& c.1 is Done
                &&& c.0.awaiting is Nothing
            },
    {
    }

    /// A refusal after which the authenticator wants another try leads to another request for
    /// the same destination: at once, on this connection or a new one, or when the rest of the
    /// refused response has come. Only a length that cannot be read, or a transfer that is not
    /// supported, stands in the way.
    pub proof fn law_refused_request_is_repeated(self, head: ResponseHeadView)
        requires
            self.wf(),
            self.awaiting == AwaitingView::Verdict(head),
        ensures
            ({
                let (c, step) = self.verdict_given(Ok::<AuthResult<A>, ErrorView>(AuthResult::Retry), head);
                match step {
                    StepView::GenerateAuthHeaders { uri } => {
                        &&& uri == self.host()
                        &&& c.server_out == self.server_out + self.request_start() || c.server_out
                            == Seq::<u8>::empty() + self.request_start()
                    },
                    StepView::Done => {
                        &&& c.state == HttpState::ExpectResponse
                        &&& c.skip > 0
                        &&& c.server_in.len() == 0
                        &&& c.server_out == self.server_out
                    },
                    StepView::Failed(e) => announced_length(
                        last_value(head.headers, "Content-Length"@).unwrap(),
                    ) == Err::<nat, ErrorView>(e),
                    StepView::Unsupported(_) => last_value(
                        head.headers,
                        "Transfer-Encoding"@,
                    ) is Some || last_value(head.headers, "Content-Length"@) is Some,
                    StepView::HandleFailure { .. } => false,
                }
            }),
    {
    }

    /// While a head is not complete, it does not matter in how many pieces it comes.
    pub proof fn law_pieces_of_a_head(self, first: Seq<u8>, second: Seq<u8>)
        requires
            self.wf(),
            self.state == HttpState::ExpectResponseHeaders,
            self.awaiting is Nothing,
            scan(self.server_in + first, self.counter, self.newlines).1 < 2,
        ensures
            self.push(IncomingDirection::FromServer, first).1 is Done,
            self.push(IncomingDirection::FromServer, first).0.push(
                IncomingDirection::FromServer,
                second,
            ) == self.push(IncomingDirection::FromServer, first + second),
    {
        let buf = self.server_in + first;
        let all = self.server_in + (first + second);
        assert(buf + second =~= all);
        assert(all.take(buf.len() as int) =~= buf);
        law_scan_resumes(all, buf.len(), self.counter, self.newlines);
    }

    /// While a refused response is not complete, it does not matter in how many pieces it
    /// comes.
    pub proof fn law_pieces_of_a_refused_response(self, first: Seq<u8>, second: Seq<u8>)
        requires
            self.wf(),
            self.state == HttpState::ExpectResponse,
            self.awaiting is Nothing,
            self.server_in.len() + first.len() < self.skip,
        ensures
            self.push(IncomingDirection::FromServer, first).1 is Done,
            self.push(IncomingDirection::FromServer, first).0.push(
                IncomingDirection::FromServer,
                second,
            ) == self.push(IncomingDirection::FromServer, first + second),
    {
        let buf = self.server_in + first;
        let all = self.server_in + (first + second);
        assert(buf.skip(buf.len() as int) =~= seq![]);
        assert(Seq::<u8>::empty() + second =~= second);
        assert(all =~= buf + second);
        let rest: int = self.skip - buf.len();
        if rest <= second.len() {
            assert(second.skip(rest) =~= all.skip(self.skip as int));
        } else {
            assert(second.skip(second.len() as int) =~= all.skip(all.len() as int));
        }
    }
}

/// Whether `head` is a complete head with the status 200: it ends with its first empty line,
/// and so it is read, whatever follows.
pub open spec fn success_head(head: Seq<u8>) -> bool {
    &&& scan(head, 0, 0) == (head.len(), 2nat)
    &&& forall|more: Seq<u8>|
        (#[trigger] head_of(head + more)) matches Ok(Some(h)) && h.code == 200
}

/// The bytes that have come from the direction `direction` among the pieces.
pub open spec fn bytes_from(
    pieces: Seq<(IncomingDirection, Seq<u8>)>,
    direction: IncomingDirection,
) -> Seq<u8>
    decreases pieces.len(),
{
    if pieces.len() == 0 {
        seq![]
    } else {
        let before = bytes_from(pieces.drop_last(), direction);
        if pieces.last().0 == direction {
            before + pieces.last().1
        } else {
            before
        }
    }
}

/// A search that ends within the first bytes ends there whatever follows.
proof fn lemma_scan_prefix(buf: Seq<u8>, k: nat, i: nat, newlines: nat)
    requires
        i <= k <= buf.len(),
        newlines < 2,
        scan(buf.take(k as int), i, newlines).1 == 2,
    ensures
        scan(buf, i, newlines) == scan(buf.take(k as int), i, newlines),
        scan(buf, i, newlines).0 <= k,
    decreases k - i,
{
    if i < k {
        assert(buf.take(k as int)[i as int] == buf[i as int]);
        let n: nat = if buf[i as int] == 10 {
            newlines + 1
        } else if buf[i as int] != 13 {
            0
        } else {
            newlines
        };
        if n != 2 {
            lemma_scan_prefix(buf, k, i + 1, n);
        }
    }
}

proof fn lemma_scan_bound(buf: Seq<u8>, i: nat, newlines: nat)
    requires
        newlines < 2,
    ensures
        scan(buf, i, newlines).1 <= 2,
    decreases buf.len() - i,
{
    if i < buf.len() {
        let n: nat = if buf[i as int] == 10 {
            newlines + 1
        } else if buf[i as int] != 13 {
            0
        } else {
            newlines
        };
        if n != 2 {
            lemma_scan_bound(buf, i + 1, n);
        }
    }
}

impl<A> ConnectionView<A> {
    /// The connection once the pieces have come in, one after the other.
    pub open spec fn after(self, pieces: Seq<(IncomingDirection, Seq<u8>)>) -> Self
        decreases pieces.len(),
    {
        if pieces.len() == 0 {
            self
        } else {
            self.after(pieces.drop_last()).push(pieces.last().0, pieces.last().1).0
        }
    }

    /// Whether every one of the pieces is worked on without an error or a question.
    pub open spec fn takes(self, pieces: Seq<(IncomingDirection, Seq<u8>)>) -> bool
        decreases pieces.len(),
    {
        pieces.len() > 0 ==> self.takes(pieces.drop_last()) && self.after(pieces.drop_last()).push(
            pieces.last().0,
            pieces.last().1,
        ).1 is Done
    }

    /// Whether the connection waits for a response of which nothing has come yet.
    pub open spec fn at_start(self) -> bool {
        &&& self.wf()
        &&& self.awaiting is Nothing
        &&& self.state == HttpState::ExpectResponseHeaders || self.state == HttpState::Reset
        &&& self.server_in.len() == 0
        &&& self.client_in.len() == 0
    }

    /// A response with the status 200 makes the tunnel stand with the last byte of its head,
    /// and not before. What follows the head is for the client, and what the client sends,
    /// before or after, is for the server, once the tunnel stands. In how many pieces the
    /// bytes come, and in which order those of the two sides, does not matter.
    pub proof fn law_tunnel_in_pieces(
        self,
        head: Seq<u8>,
        pieces: Seq<(IncomingDirection, Seq<u8>)>,
    )
        requires
            self.at_start(),
            success_head(head),
            ({
                let response = bytes_from(pieces, IncomingDirection::FromServer);
                if response.len() < head.len() {
                    response == head.take(response.len() as int)
                } else {
                    response.take(head.len() as int) == head
                }
            }),
        ensures
            self.takes(pieces),
            ({
                let response = bytes_from(pieces, IncomingDirection::FromServer);
                let sent = bytes_from(pieces, IncomingDirection::FromClient);
                let c = self.after(pieces);
                if response.len() < head.len() {
                    &&& c.state != HttpState::Established
                    &&& c.client_out == self.client_out
                    &&& c.server_out == self.server_out
                } else {
                    &&& c.state == HttpState::Established
                    &&& c.client_out == self.client_out + response.skip(head.len() as int)
                    &&& c.server_out == self.server_out + sent
                }
            }),
    {
        self.lemma_tunnel(head, pieces);
    }

    /// Where the connection stands after the pieces.
    spec fn stands(self, head: Seq<u8>, pieces: Seq<(IncomingDirection, Seq<u8>)>) -> bool {
        let response = bytes_from(pieces, IncomingDirection::FromServer);
        let sent = bytes_from(pieces, IncomingDirection::FromClient);
        let c = self.after(pieces);
        &&& c.awaiting is Nothing
        &&& if response.len() < head.len() {
            &&& c.state == HttpState::ExpectResponseHeaders || c.state == HttpState::Reset
            &&& c.server_in == response
            &&& c.client_in == sent
            &&& c.client_out == self.client_out
            &&& c.server_out == self.server_out
            &&& c.newlines < 2
            &&& c.counter <= response.len()
            &&& scan(response.take(c.counter as int), 0, 0) == (c.counter, c.newlines)
        } else {
            &&& c.state == HttpState::Established
            &&& c.server_in.len() == 0
            &&& c.client_in.len() == 0
            &&& c.client_out == self.client_out + response.skip(head.len() as int)
            &&& c.server_out == self.server_out + sent
        }
    }

    proof fn lemma_tunnel(self, head: Seq<u8>, pieces: Seq<(IncomingDirection, Seq<u8>)>)
        requires
            self.at_start(),
            success_head(head),
            ({
                let response = bytes_from(pieces, IncomingDirection::FromServer);
                if response.len() < head.len() {
                    response == head.take(response.len() as int)
                } else {
                    response.take(head.len() as int) == head
                }
            }),
        ensures
            self.takes(pieces),
            self.stands(head, pieces),
        decreases pieces.len(),
    {
        let response = bytes_from(pieces, IncomingDirection::FromServer);
        let sent = bytes_from(pieces, IncomingDirection::FromClient);
        if pieces.len() == 0 {
            assert(head.len() > 0);
            assert(self.server_in =~= seq![]);
            assert(self.client_in =~= seq![]);
        } else {
            let before = pieces.drop_last();
            let (direction, data) = pieces.last();
            let old_response = bytes_from(before, IncomingDirection::FromServer);
            let old_sent = bytes_from(before, IncomingDirection::FromClient);
            if direction == IncomingDirection::FromServer {
                assert(response.take(old_response.len() as int) =~= old_response);
            }
            if old_response.len() < head.len() {
                assert(old_response =~= head.take(old_response.len() as int)) by {
                    assert forall|i: int| 0 <= i < old_response.len() implies old_response[i] == head[i] by {
                        assert(old_response[i] == response[i]);
                        if response.len() >= head.len() {
                            assert(response.take(head.len() as int)[i] == response[i]);
                        }
                    }
                }
            } else {
                assert(old_response.take(head.len() as int) =~= response.take(head.len() as int));
            }
            self.lemma_tunnel(head, before);
            let c = self.after(before);
            if old_response.len() < head.len() {
                let buf = c.received(direction, data).server_in;
                assert(buf =~= response);
                assert(c.received(direction, data).client_in =~= sent);
                assert(buf.take(c.counter as int) =~= old_response.take(c.counter as int));
                law_scan_resumes(buf, c.counter, 0, 0);
                lemma_scan_bound(buf, 0, 0);
                if response.len() < head.len() {
                    if scan(buf, 0, 0).1 == 2 {
                        lemma_scan_prefix(head, buf.len(), 0, 0);
                    }
                    assert(buf.take(buf.len() as int) =~= buf);
                    law_scan_resumes(buf, buf.len(), 0, 0);
                } else {
                    lemma_scan_prefix(buf, head.len(), 0, 0);
                    assert(head + response.skip(head.len() as int) =~= response);
                    assert(head_of(head + response.skip(head.len() as int)) is Ok);
                }
            } else {
                assert(c.server_in =~= seq![] && c.client_in =~= seq![]);
                assert(Seq::<u8>::empty() + data =~= data);
                assert(c.client_out + Seq::<u8>::empty() =~= c.client_out);
                assert(c.server_out + Seq::<u8>::empty() =~= c.server_out);
                if direction == IncomingDirection::FromServer {
                    assert(response.skip(head.len() as int) =~= old_response.skip(head.len() as int) + data);
                    assert(self.client_out + old_response.skip(head.len() as int) + data =~= self.client_out + (
                    old_response.skip(head.len() as int) + data));
                } else {
                    assert(self.server_out + old_sent + data =~= self.server_out + (old_sent + data));
                }
            }
        }
    }
}

/// Whether `end` is a place behind an empty line of `buf`: a line feed, with nothing but
/// carriage returns between it and the line feed before.
pub open spec fn behind_empty_line(buf: Seq<u8>, end: nat) -> bool {
    &&& 0 < end <= buf.len()
    &&& buf[end - 1] == 10
    &&& exists|j: int| 0 <= j < end - 1 && (#[trigger] buf[j]) == 10 && only_returns(buf, j + 1, end - 1)
}

/// Whether there are only carriage returns in `buf` from `from` to `to`.
pub open spec fn only_returns(buf: Seq<u8>, from: int, to: int) -> bool {
    forall|i: int| from <= i < to ==> (#[trigger] buf[i]) == 13
}

/// A head ends behind the first empty line, and is not complete where there is none.
pub proof fn law_head_ends_with_empty_line(buf: Seq<u8>)
    ensures
        scan(buf, 0, 0).1 == 2 <==> exists|e: nat| behind_empty_line(buf, e),
        scan(buf, 0, 0).1 == 2 ==> behind_empty_line(buf, scan(buf, 0, 0).0) && forall|e: nat|
            behind_empty_line(buf, e) ==> scan(buf, 0, 0).0 <= e,
{
    lemma_scan_finds(buf, 0, 0);
}

/// Whether a line feed stands in front of `i`, with only carriage returns between.
spec fn line_ended(buf: Seq<u8>, i: nat) -> bool {
    exists|j: int| 0 <= j < i && (#[trigger] buf[j]) == 10 && only_returns(buf, j + 1, i as int)
}

proof fn lemma_scan_finds(buf: Seq<u8>, i: nat, newlines: nat)
    requires
        i <= buf.len(),
        newlines < 2,
        newlines == 1 <==> line_ended(buf, i),
        forall|e: nat| e <= i ==> !behind_empty_line(buf, e),
    ensures
        scan(buf, i, newlines).1 == 2 <==> exists|e: nat| behind_empty_line(buf, e),
        scan(buf, i, newlines).1 == 2 ==> behind_empty_line(buf, scan(buf, i, newlines).0) && forall|
            e: nat,
        | behind_empty_line(buf, e) ==> scan(buf, i, newlines).0 <= e,
    decreases buf.len() - i,
{
    if i < buf.len() {
        let b = buf[i as int];
        let n: nat = if b == 10 {
            newlines + 1
        } else if b != 13 {
            0
        } else {
            newlines
        };
        if line_ended(buf, i) {
            let j = choose|j: int|
                0 <= j < i && (#[trigger] buf[j]) == 10 && only_returns(buf, j + 1, i as int);
            if b == 10 {
                assert(behind_empty_line(buf, i + 1));
            }
            if b == 13 {
                assert(only_returns(buf, j + 1, i as int + 1));
                assert(line_ended(buf, i + 1));
            }
        }
        if b == 10 {
            assert(only_returns(buf, i as int + 1, i as int + 1));
            assert(line_ended(buf, i + 1));
        }
        if n == 2 {
            assert forall|e: nat| behind_empty_line(buf, e) implies i + 1 <= e by {}
        } else {
            if behind_empty_line(buf, i + 1) {
                let j = choose|j: int|
                    0 <= j < i && (#[trigger] buf[j]) == 10 && only_returns(buf, j + 1, i as int);
                assert(line_ended(buf, i));
            }
            if line_ended(buf, i + 1) {
                let j = choose|j: int|
                    0 <= j < i + 1 && (#[trigger] buf[j]) == 10 && only_returns(buf, j + 1, i as int + 1);
                if j < i {
                    assert(buf[i as int] == 13);
                    assert(only_returns(buf, j + 1, i as int));
                    assert(line_ended(buf, i));
                }
            }
            lemma_scan_finds(buf, i + 1, n);
        }
    } else {
        assert forall|e: nat| !behind_empty_line(buf, e) by {}
    }
}

/// The header lines of a request stand one behind the other, each with a colon and a space
/// between name and value and a line end behind it.
pub proof fn law_header_lines(first: Seq<(Seq<char>, Seq<char>)>, second: Seq<(Seq<char>, Seq<char>)>)
    ensures
        header_lines(first + second) == header_lines(first) + header_lines(second),
        second.len() == 1 ==> header_lines(second) == second[0].0 + ": "@ + second[0].1 + "\r\n"@,
    decreases second.len(),
{
    if second.len() == 0 {
        assert(first + second =~= first);
        assert(header_lines(first) + header_lines(second) =~= header_lines(first));
    } else {
        let before = second.drop_last();
        law_header_lines(first, before);
        assert((first + second).drop_last() =~= first + before);
        assert(header_lines(first + second) =~= header_lines(first) + header_lines(second));
        if second.len() == 1 {
            assert(before =~= seq![]);
            assert(header_lines(before) =~= seq![]);
            assert(header_lines(second) =~= second[0].0 + ": "@ + second[0].1 + "\r\n"@);
        }
    }
}

/// The authority that a request for the session `info` names: the domain name, where it is
/// known, or the address, with the port behind a colon.
pub open spec fn authority(info: SessionInfo, domain: Option<Seq<char>>) -> Seq<char> {
    match domain {
        Some(name) => name + ":"@ + decimal(info.dst.spec_port() as nat),
        None => info.dst.spec_text(),
    }
}

/// The bytes of a `CONNECT` request for `authority` with the given header fields.
pub open spec fn connect_request(authority: Seq<char>, headers: Seq<(Seq<char>, Seq<char>)>) -> Seq<u8> {
    encode_utf8("CONNECT "@ + authority + " HTTP/1.1\r\nHost: "@ + authority + "\r\n"@)
        + encode_utf8(header_lines(headers) + "\r\n"@)
}

impl<A> ConnectionView<A> {
    /// The first thing that a connection sends is a `CONNECT` request for the session's
    /// destination, with the header fields that its authenticator gives; without an
    /// authenticator there are none. It then waits for the response.
    pub proof fn law_first_request(
        server_addr: SocketAddr,
        info: SessionInfo,
        domain: Option<Seq<char>>,
        authenticator: Option<Arc<A>>,
        headers: Seq<(Seq<char>, Seq<char>)>,
    )
        ensures
            ({
                let (c, step) = ConnectionView::fresh(server_addr, info, domain, authenticator).begin_request(
                    After::Start,
                );
                if authenticator is None {
                    &&& step is Done
                    &&& c.server_out == connect_request(authority(info, domain), seq![])
                    &&& c.at_start()
                    &&& c.state == HttpState::ExpectResponseHeaders
                } else {
                    let (d, done) = c.headers_given(
                        Ok::<Seq<(Seq<char>, Seq<char>)>, ErrorView>(headers),
                        After::Start,
                    );
                    &&& step == (StepView::GenerateAuthHeaders { uri: authority(info, domain) })
                    &&& c.awaiting == AwaitingView::AuthHeaders(After::Start)
                    &&& done is Done
                    &&& d.server_out == connect_request(authority(info, domain), headers)
                    &&& d.at_start()
                    &&& d.state == HttpState::ExpectResponseHeaders
                }
            }),
    {
        let f = ConnectionView::fresh(server_addr, info, domain, authenticator);
        assert(f.server_in.take(0) =~= seq![]);
        let start = encode_utf8(
            "CONNECT "@ + authority(info, domain) + " HTTP/1.1\r\nHost: "@ + authority(info, domain)
                + "\r\n"@,
        );
        assert(f.server_out + start =~= start);
    }

    /// An authenticator that has no header fields to give makes the handshake fail with its
    /// error.
    pub proof fn law_failed_authenticator(self, error: ErrorView, after: After)
        ensures
            self.headers_given(Err::<Seq<(Seq<char>, Seq<char>)>, ErrorView>(error), after).1
                == StepView::Failed(error),
    {
    }

    /// A complete response with another status than 200 does not make the tunnel stand.
    /// Without an authenticator the handshake fails with the status; with one, that is asked
    /// for its verdict, and told whether this is a repeated refusal. Nothing is sent, and
    /// nothing that came in is dropped.
    pub proof fn law_refusal(self, data: Seq<u8>, head: ResponseHeadView)
        requires
            self.wf(),
            self.awaiting is Nothing,
            self.state == HttpState::ExpectResponseHeaders || self.state == HttpState::Reset,
            exists|e: nat| behind_empty_line(self.server_in + data, e),
            head_of(self.server_in + data) == Ok::<Option<ResponseHeadView>, ErrorView>(Some(head)),
            head.code != 200,
        ensures
            ({
                let (c, step) = self.push(IncomingDirection::FromServer, data);
                &&& c.state != HttpState::Established
                &&& c.server_in == self.server_in + data
                &&& c.server_out == self.server_out
                &&& c.client_in == self.client_in
                &&& c.client_out == self.client_out
                &&& if self.authenticator is None {
                    step == StepView::Failed(
                        ErrorView::Text(
                            "HTTP "@ + decimal(head.code as nat) + " ["@ + head.reason + "]"@,
                        ),
                    )
                } else {
                    &&& step == (StepView::HandleFailure { is_retry: self.before })
                    &&& c.awaiting == AwaitingView::Verdict(head)
                }
            }),
    {
        self.lemma_scan_from_start(data);
    }

    /// What cannot be read as a response makes the handshake fail with the error of the
    /// parser; what the parser takes for an incomplete head is kept, and searched again from
    /// its first byte when more has come.
    pub proof fn law_unreadable_response(self, data: Seq<u8>)
        requires
            self.wf(),
            self.awaiting is Nothing,
            self.state == HttpState::ExpectResponseHeaders || self.state == HttpState::Reset,
            exists|e: nat| behind_empty_line(self.server_in + data, e),
        ensures
            ({
                let (c, step) = self.push(IncomingDirection::FromServer, data);
                &&& head_of(self.server_in + data) matches Err(e) ==> step == StepView::Failed(e)
                    && c.state != HttpState::Established
                &&& head_of(self.server_in + data) matches Ok(None) ==> step is Done && c.state
                    == HttpState::ExpectResponseHeaders && c.counter == 0 && c.server_in
                    == self.server_in + data && c.server_out == self.server_out && c.client_out
                    == self.client_out
            }),
    {
        self.lemma_scan_from_start(data);
    }

    proof fn lemma_scan_from_start(self, data: Seq<u8>)
        requires
            self.wf(),
        ensures
            scan(self.server_in + data, self.counter, self.newlines) == scan(
                self.server_in + data,
                0,
                0,
            ),
            scan(self.server_in + data, 0, 0).1 == 2 <==> exists|e: nat|
                behind_empty_line(self.server_in + data, e),
    {
        let buf = self.server_in + data;
        assert(buf.take(self.counter as int) =~= self.server_in.take(self.counter as int));
        law_scan_resumes(buf, self.counter, 0, 0);
        law_head_ends_with_empty_line(buf);
    }

    /// An authenticator that gives up makes the handshake fail with the status of the
    /// refusal, one that fails with its own error; neither sends anything.
    pub proof fn law_refusal_accepted(self, head: ResponseHeadView, error: ErrorView)
        requires
            self.awaiting == AwaitingView::Verdict(head),
        ensures
            ({
                let (c, step) = self.verdict_given(
                    Ok::<AuthResult<A>, ErrorView>(AuthResult::Abort),
                    head,
                );
                &&& step == StepView::Failed(
                    ErrorView::Text(
                        "HTTP "@ + decimal(head.code as nat) + " ["@ + head.reason + "]"@,
                    ),
                )
                &&& c.server_out == self.server_out
            }),
            self.verdict_given(Err::<AuthResult<A>, ErrorView>(error), head).1 == StepView::Failed(error),
            self.verdict_given(Err::<AuthResult<A>, ErrorView>(error), head).0.server_out
                == self.server_out,
    {
    }

    /// After a refusal that is to be followed by another request, the connection is opened
    /// anew exactly where the proxy says that it closes it, speaks the old version, or does
    /// not say how long the response is; all that came or was to be sent is then dropped, and
    /// the new request is all that is sent. Otherwise the connection stays: exactly the head
    /// and the announced length are dropped of what comes, the next request is written once
    /// all of it has come, and what follows is kept. A length that cannot be read is an
    /// error, and a transfer encoding is not supported.
    pub proof fn law_connection_after_refusal(
        self,
        verdict: AuthResult<A>,
        head: ResponseHeadView,
    )
        requires
            self.wf(),
            self.awaiting == AwaitingView::Verdict(head),
            verdict is Retry || verdict is RetryWith,
        ensures
            ({
                let (c, step) = self.verdict_given(Ok::<AuthResult<A>, ErrorView>(verdict), head);
                let closes = last_value(head.headers, "Connection"@) matches Some(v)
                    && equal_ignoring_case(v, encode_utf8("close"@));
                let encoded = last_value(head.headers, "Transfer-Encoding"@) is Some;
                let length = last_value(head.headers, "Content-Length"@);
                let host = authority(self.info, self.domain);
                let start = encode_utf8(
                    "CONNECT "@ + host + " HTTP/1.1\r\nHost: "@ + host + "\r\n"@,
                );
                &&& c.before
                &&& verdict is Retry ==> c.authenticator == self.authenticator
                &&& verdict matches AuthResult::RetryWith(a) ==> c.authenticator == Some(a)
                &&& c.info == self.info
                &&& c.domain == self.domain
                &&& c.client_in == self.client_in
                &&& c.client_out == self.client_out
                &&& c.server_addr == self.server_addr
                &&& c.state != HttpState::Established && c.state != HttpState::Reset
                &&& c.awaiting == AwaitingView::AuthHeaders(After::Reset) <==> (closes
                    || head.version == 0 || (!encoded && length is None))
                &&& if closes || head.version == 0 || (!encoded && length is None) {
                    &&& step == (StepView::GenerateAuthHeaders { uri: host })
                    &&& c.server_in.len() == 0
                    &&& c.server_out == start
                } else if encoded {
                    step == StepView::Unsupported("Header Transfer-Encoding not supported"@)
                        && c.server_out == self.server_out
                } else {
                    match announced_length(length.unwrap()) {
                        Err(e) => step == StepView::Failed(e) && c.server_out == self.server_out,
                        Ok(n) => {
                            let total = n + head.len;
                            if total > usize::MAX {
                                step == StepView::Unsupported("Response too long"@) && c.server_out
                                    == self.server_out
                            } else if self.server_in.len() < total {
                                &&& step is Done
                                &&& c.state == HttpState::ExpectResponse
                                &&& c.awaiting is Nothing
                                &&& c.server_in.len() == 0
                                &&& c.skip == total - self.server_in.len()
                                &&& c.server_out == self.server_out
                            } else {
                                &&& step == (StepView::GenerateAuthHeaders { uri: host })
                                &&& c.awaiting == AwaitingView::AuthHeaders(After::NextResponse)
                                &&& c.server_in == self.server_in.skip(total as int)
                                &&& c.server_out == self.server_out + start
                            }
                        },
                    }
                }
            }),
    {
        let host = authority(self.info, self.domain);
        let start = encode_utf8("CONNECT "@ + host + " HTTP/1.1\r\nHost: "@ + host + "\r\n"@);
        assert(Seq::<u8>::empty() + start =~= start);
    }

    /// While the rest of a refused response comes, in whatever pieces and with whatever the
    /// client sends between them, nothing is sent. With the piece that completes it the next
    /// request goes out on the same connection; what is behind the response is kept.
    pub proof fn law_refused_response_is_dropped(
        self,
        pieces: Seq<(IncomingDirection, Seq<u8>)>,
        last: Seq<u8>,
    )
        requires
            self.wf(),
            self.awaiting is Nothing,
            self.state == HttpState::ExpectResponse,
            self.server_in.len() == 0,
            bytes_from(pieces, IncomingDirection::FromServer).len() < self.skip,
        ensures
            self.takes(pieces),
            self.after(pieces).server_out == self.server_out,
            self.after(pieces).client_out == self.client_out,
            self.after(pieces).state == HttpState::ExpectResponse,
            bytes_from(pieces, IncomingDirection::FromServer).len() + last.len() >= self.skip ==> {
                let (c, step) = self.after(pieces).push(IncomingDirection::FromServer, last);
                let rest = self.skip - bytes_from(pieces, IncomingDirection::FromServer).len();
                let host = authority(self.info, self.domain);
                &&& step == (StepView::GenerateAuthHeaders { uri: host })
                &&& c.awaiting == AwaitingView::AuthHeaders(After::NextResponse)
                &&& c.server_in == last.skip(rest)
                &&& c.server_out == self.server_out + encode_utf8(
                    "CONNECT "@ + host + " HTTP/1.1\r\nHost: "@ + host + "\r\n"@,
                )
                &&& c.client_in == self.client_in + bytes_from(pieces, IncomingDirection::FromClient)
            },
    {
        self.lemma_dropping(pieces);
        let c = self.after(pieces);
        assert(c.server_in =~= seq![]);
        assert(c.server_in + last =~= last);
    }

    proof fn lemma_dropping(self, pieces: Seq<(IncomingDirection, Seq<u8>)>)
        requires
            self.wf(),
            self.awaiting is Nothing,
            self.state == HttpState::ExpectResponse,
            self.server_in.len() == 0,
            bytes_from(pieces, IncomingDirection::FromServer).len() < self.skip,
        ensures
            self.takes(pieces),
            self.after(pieces) == (ConnectionView {
                skip: (self.skip - bytes_from(pieces, IncomingDirection::FromServer).len()) as nat,
                client_in: self.client_in + bytes_from(pieces, IncomingDirection::FromClient),
                ..self
            }),
        decreases pieces.len(),
    {
        assert(self.server_in =~= seq![]);
        if pieces.len() == 0 {
            assert(self.client_in + Seq::<u8>::empty() =~= self.client_in);
        } else {
            let before = pieces.drop_last();
            let (direction, data) = pieces.last();
            self.lemma_dropping(before);
            let c = self.after(before);
            assert(c.server_in =~= seq![]);
            assert(Seq::<u8>::empty() + data =~= data);
            assert(data.skip(data.len() as int) =~= seq![]);
            assert(Seq::<u8>::empty().skip(0) =~= seq![]);
            let sent = bytes_from(before, IncomingDirection::FromClient);
            assert(self.client_in + sent + data =~= self.client_in + (sent + data));
            let d = self.after(pieces);
            assert(d.server_in =~= self.server_in);
        }
    }

    /// What came behind a refused response is read as the next response, just as if it came
    /// once the request has been written.
    pub proof fn law_next_response(self, headers: Seq<(Seq<char>, Seq<char>)>)
        requires
            self.wf(),
            self.awaiting == AwaitingView::AuthHeaders(After::NextResponse),
        ensures
            self.headers_given(
                Ok::<Seq<(Seq<char>, Seq<char>)>, ErrorView>(headers),
                After::NextResponse,
            ) == (ConnectionView {
                state: HttpState::ExpectResponseHeaders,
                server_in: seq![],
                server_out: self.server_out + encode_utf8(header_lines(headers) + "\r\n"@),
                awaiting: AwaitingView::Nothing,
                ..self
            }).push(IncomingDirection::FromServer, self.server_in),
    {
        assert(Seq::<u8>::empty() + self.server_in =~= self.server_in);
    }

    /// Where the connection is to be opened anew, the request that was prepared for it is all
    /// that is to be sent, and what comes over the new connection is read as a response.
    pub proof fn law_new_connection(
        self,
        headers: Seq<(Seq<char>, Seq<char>)>,
        direction: IncomingDirection,
        data: Seq<u8>,
    )
        requires
            self.awaiting == AwaitingView::AuthHeaders(After::Reset),
        ensures
            ({
                let (c, step) = self.headers_given(
                    Ok::<Seq<(Seq<char>, Seq<char>)>, ErrorView>(headers),
                    After::Reset,
                );
                &&& step is Done
                &&& c.state == HttpState::Reset
                &&& c.awaiting is Nothing
                &&& c.server_in == self.server_in
                &&& c.server_out == self.server_out + encode_utf8(header_lines(headers) + "\r\n"@)
                &&& c.push(direction, data) == (ConnectionView {
                    state: HttpState::ExpectResponseHeaders,
                    ..c
                }).push(direction, data)
                &&& c.push(direction, data).0.state != HttpState::Reset
            }),
    {
    }

    /// A connection stays with its session: whatever comes in, its ends, the name, its server
    /// and its authenticator stay.
    pub proof fn law_session_stays(self, direction: IncomingDirection, data: Seq<u8>)
        requires
            self.wf(),
        ensures
            ({
                let c = self.push(direction, data).0;
                &&& c.info == self.info
                &&& c.domain == self.domain
                &&& c.server_addr == self.server_addr
                &&& c.authenticator == self.authenticator
            }),
    {
    }

    /// The header fields that the authenticator gives change neither the session of a
    /// connection nor its server nor its authenticator.
    pub proof fn law_headers_keep_session(
        self,
        answer: Result<Seq<(Seq<char>, Seq<char>)>, ErrorView>,
        after: After,
    )
        requires
            self.wf(),
        ensures
            ({
                let c = self.headers_given(answer, after).0;
                &&& c.info == self.info
                &&& c.domain == self.domain
                &&& c.server_addr == self.server_addr
                &&& c.authenticator == self.authenticator
            }),
    {
    }

    /// No verdict changes the session of a connection. The connection stays with its server
    /// unless the verdict leaves the proxy out, and with its authenticator unless the verdict
    /// names another one.
    pub proof fn law_verdict_keeps_session(
        self,
        verdict: Result<AuthResult<A>, ErrorView>,
        head: ResponseHeadView,
    )
        requires
            self.wf(),
        ensures
            ({
                let c = self.verdict_given(verdict, head).0;
                &&& c.info == self.info
                &&& c.domain == self.domain
                &&& !(verdict matches Ok(AuthResult::Bypass)) ==> c.server_addr == self.server_addr
                &&& !(verdict matches Ok(AuthResult::RetryWith(_))) ==> c.authenticator
                    == self.authenticator
            }),
    {
    }

    /// A connection that has asked something of its authenticator is the one that waits for
    /// it: what it waits for is what it has just asked, and it waits for nothing otherwise.
    pub proof fn law_question(self, direction: IncomingDirection, data: Seq<u8>)
        requires
            self.wf(),
            self.awaiting is Nothing,
        ensures
            ({
                let (c, step) = self.push(direction, data);
                &&& c.question() is Done <==> c.awaiting is Nothing
                &&& c.awaiting !is Nothing ==> step == c.question()
                &&& c.awaiting is Nothing ==> step is Done || step is Failed
            }),
    {
    }

    /// The bytes that wait to be sent in the direction `dir`.
    pub open spec fn waiting(self, dir: OutgoingDirection) -> Seq<u8> {
        match dir {
            OutgoingDirection::ToServer => self.server_out,
            OutgoingDirection::ToClient => self.client_out,
        }
    }

    /// The connection once the first `size` of the bytes that wait in the direction `dir` have
    /// been sent.
    pub open spec fn consumed(self, dir: OutgoingDirection, size: nat) -> Self {
        match dir {
            OutgoingDirection::ToServer => ConnectionView {
                server_out: self.server_out.skip(size as int),
                ..self
            },
            OutgoingDirection::ToClient => ConnectionView {
                client_out: self.client_out.skip(size as int),
                ..self
            },
        }
    }

    /// What has been sent is gone, and nothing else is: the bytes that wait are those sent
    /// followed by those that still wait, those of the other direction are untouched, and it
    /// does not matter in how many pieces they are sent.
    pub proof fn law_consume(self, dir: OutgoingDirection, other: OutgoingDirection, n: nat, m: nat)
        requires
            n + m <= self.waiting(dir).len(),
            other != dir,
        ensures
            self.waiting(dir) == self.waiting(dir).take(n as int) + self.consumed(dir, n).waiting(dir),
            self.consumed(dir, n).waiting(other) == self.waiting(other),
            self.consumed(dir, n).consumed(dir, m) == self.consumed(dir, n + m),
            self.consumed(dir, 0) == self,
            self.consumed(dir, n).client_in == self.client_in,
            self.consumed(dir, n).server_in == self.server_in,
            self.consumed(dir, n).state == self.state,
            self.consumed(dir, n).question() == self.question(),
            dir == OutgoingDirection::ToServer ==> self.waiting(dir) == self.server_out,
            dir == OutgoingDirection::ToClient ==> self.waiting(dir) == self.client_out,
    {
        let w = self.waiting(dir);
        assert(w =~= w.take(n as int) + w.skip(n as int));
        assert(w.skip(n as int).skip(m as int) =~= w.skip((n + m) as int));
        assert(w.skip(0) =~= w);
    }
}

/// The authenticator of later connections once a verdict has been given.
pub open spec fn shared_after<A>(
    shared: Option<Arc<A>>,
    verdict: Result<AuthResult<A>, Error>,
) -> Option<Arc<A>> {
    match verdict {
        Ok(AuthResult::RetryWith(a)) => Some(a),
        _ => shared,
    }
}

/// An authenticator that takes over on one connection takes over for all that follow, with
/// the very first request that they send; no other verdict changes theirs.
pub proof fn law_replacement_is_shared<A>(
    c: ConnectionView<A>,
    shared: Option<Arc<A>>,
    verdict: Result<AuthResult<A>, Error>,
    head: ResponseHeadView,
    a: Arc<A>,
)
    requires
        c.wf(),
        c.awaiting == AwaitingView::Verdict(head),
    ensures
        ({
            let replaced = Ok::<AuthResult<A>, ErrorView>(AuthResult::RetryWith(a));
            &&& shared_after(shared, Ok(AuthResult::RetryWith(a))) == Some(a)
            &&& c.verdict_given(replaced, head).0.authenticator == shared_after(
                shared,
                Ok(AuthResult::RetryWith(a)),
            )
        }),
        !(verdict matches Ok(AuthResult::RetryWith(_))) ==> shared_after(shared, verdict) == shared,
{
}

/// The state of a connection while it is worked on.
#[verifier::reject_recursive_types(A)]
struct Exchange<A> {
    server_addr: SocketAddr,
    state: HttpState,
    client_inbuf: Vec<u8>,
    server_inbuf: Vec<u8>,
    client_outbuf: Vec<u8>,
    server_outbuf: Vec<u8>,
    crlf_state: u8,
    counter: usize,
    skip: usize,
    authenticator: Option<Arc<A>>,
    before: bool,
    info: SessionInfo,
    domain_name: Option<String>,
    awaiting: Awaiting,
}

impl<A> View for Exchange<A> {
    type V = ConnectionView<A>;

    closed spec fn view(&self) -> ConnectionView<A> {
        ConnectionView {
            server_addr: self.server_addr,
            state: self.state,
            client_in: self.client_inbuf@,
            server_in: self.server_inbuf@,
            client_out: self.client_outbuf@,
            server_out: self.server_outbuf@,
            newlines: self.crlf_state as nat,
            counter: self.counter as nat,
            skip: self.skip as nat,
            authenticator: self.authenticator,
            before: self.before,
            info: self.info,
            domain: match self.domain_name {
                Some(s) => Some(s@),
                None => None,
            },
            awaiting: self.awaiting@,
        }
    }
}

impl<A> Exchange<A> {
    /// The state of a connection on which nothing has been sent or received.
    fn fresh(
        server_addr: SocketAddr,
        info: SessionInfo,
        domain_name: Option<String>,
        authenticator: Option<Arc<A>>,
    ) -> (r: Exchange<A>)
        ensures
            r@ == ConnectionView::fresh(
                server_addr,
                info,
                match domain_name {
                    Some(s) => Some(s@),
                    None => None,
                },
                authenticator,
            ),
            r@.wf(),
    {
        let r: Exchange<A> = Exchange {
            server_addr,
            state: HttpState::ExpectResponseHeaders,
            client_inbuf: Vec::new(),
            server_inbuf: Vec::new(),
            client_outbuf: Vec::new(),
            server_outbuf: Vec::new(),
            crlf_state: 0,
            counter: 0,
            skip: 0,
            authenticator,
            before: false,
            info,
            domain_name,
            awaiting: Awaiting::Nothing,
        };
        assert(r@ =~= ConnectionView::fresh(
            server_addr,
            info,
            match domain_name {
                Some(s) => Some(s@),
                None => None,
            },
            authenticator,
        ));
        r
    }

    fn host(&self) -> (r: String)
        ensures
            r@ == self@.host(),
    {
        match &self.domain_name {
            Some(domain) => {
                let mut s: String = domain.clone();
                s.append(":");
                push_numeral(&mut s, self.info.dst.port() as u32, 10);
                s
            },
            None => self.info.dst.to_text(),
        }
    }

    fn send_tunnel_request(&mut self, after: After) -> (step: Step)
        requires
            old(self)@.awaiting is Nothing,
            old(self)@.counter == 0,
            old(self)@.wf(),
            after == After::NextResponse ==> old(self)@.state == HttpState::ExpectResponse,
            after != After::NextResponse ==> old(self)@.state == HttpState::ExpectResponseHeaders,
        ensures
            (final(self)@, step@) == old(self)@.begin_request(after),
            final(self)@.wf(),
    {
        let host: String = self.host();
        let mut text: String = "CONNECT ".to_owned();
        text.append(host.as_str());
        text.append(" HTTP/1.1\r\nHost: ");
        text.append(host.as_str());
        text.append("\r\n");
        self.server_outbuf.extend_from_slice(text.as_str().as_bytes());
        assert(self.server_outbuf@ =~= old(self)@.server_out + old(self)@.request_start());
        if self.authenticator.is_some() {
            self.awaiting = Awaiting::AuthHeaders(after);
            Step::GenerateAuthHeaders { uri: host }
        } else {
            let none: Vec<AuthHeader> = Vec::new();
            assert(auth_header_views(none@) =~= seq![]);
            self.finish_request(none, after)
        }
    }

    fn finish_request(&mut self, headers: Vec<AuthHeader>, after: After) -> (step: Step)
        requires
            old(self)@.wf(),
            old(self)@.counter == 0,
            after == After::NextResponse ==> old(self)@.state == HttpState::ExpectResponse,
            after != After::NextResponse ==> old(self)@.state == HttpState::ExpectResponseHeaders,
        ensures
            (final(self)@, step@) == old(self)@.end_request(auth_header_views(headers@), after),
            final(self)@.wf(),
    {
        let mut text: String = String::new();
        let ghost views = auth_header_views(headers@);
        let mut i: usize = 0;
        assert(views.take(0) =~= seq![]);
        while i < headers.len()
            invariant
                i <= headers@.len(),
                views == auth_header_views(headers@),
                text@ == header_lines(views.take(i as int)),
            decreases headers@.len() - i,
        {
            assert(views.take(i + 1).drop_last() =~= views.take(i as int));
            text.append(headers[i].0.as_str());
            text.append(": ");
            text.append(headers[i].1.as_str());
            text.append("\r\n");
            i = i + 1;
        }
        assert(views.take(views.len() as int) =~= views);
        text.append("\r\n");
        self.server_outbuf.extend_from_slice(text.as_str().as_bytes());
        self.awaiting = Awaiting::Nothing;
        assert(self.server_outbuf@ =~= old(self)@.server_out + encode_utf8(
            header_lines(views) + "\r\n"@,
        ));
        match after {
            After::Start => Step::Done,
            After::Reset => {
                self.state = HttpState::Reset;
                Step::Done
            },
            After::NextResponse => {
                self.state = HttpState::ExpectResponseHeaders;
                self.read_response()
            },
        }
    }

    fn read_response(&mut self) -> (step: Step)
        requires
            old(self)@.wf(),
            old(self)@.state == HttpState::ExpectResponseHeaders,
            old(self)@.awaiting is Nothing,
        ensures
            (final(self)@, step@) == old(self)@.read_response(),
            final(self)@.wf(),
    {
        let ghost before = self@;
        let ghost buf = self.server_inbuf@;
        while self.counter < self.server_inbuf.len() && self.crlf_state != 2
            invariant
                buf == self.server_inbuf@,
                self.counter <= buf.len(),
                self.crlf_state <= 2,
                scan(buf, before.counter, before.newlines) == (if self.crlf_state == 2 {
                    (self.counter as nat, 2nat)
                } else {
                    scan(buf, self.counter as nat, self.crlf_state as nat)
                }),
                self@ == (ConnectionView {
                    counter: self.counter as nat,
                    newlines: self.crlf_state as nat,
                    ..before
                }),
            decreases buf.len() - self.counter,
        {
            let b: u8 = self.server_inbuf[self.counter];
            if b == 10 {
                self.crlf_state = self.crlf_state + 1;
            } else if b != 13 {
                self.crlf_state = 0;
            }
            self.counter = self.counter + 1;
        }
        if self.crlf_state != 2 {
            proof {
                law_scan_resumes(buf, before.counter, 0, 0);
                assert(buf.take(self.counter as int) =~= buf);
            }
            return Step::Done;
        }
        let header_size: usize = self.counter;
        self.counter = 0;
        self.crlf_state = 0;
        assert(buf.take(0) =~= seq![]);
        let head: ResponseHead = match read_head(self.server_inbuf.as_slice()) {
            Ok(Some(head)) => head,
            Ok(None) => {
                return Step::Done;
            },
            Err(e) => {
                return Step::Failed(e);
            },
        };
        if head.code == 200 {
            self.state = HttpState::Established;
            let rest: Vec<u8> = self.server_inbuf.split_off(header_size);
            assert(rest@ =~= buf.skip(header_size as int));
            self.server_inbuf = rest;
            self.pass_through();
            return Step::Done;
        }
        if self.authenticator.is_none() {
            return Step::Failed(status_error(head.code, head.reason.as_str()));
        }
        self.awaiting = Awaiting::Verdict(head);
        Step::HandleFailure { is_retry: self.before }
    }

    fn pass_through(&mut self)
        ensures
            final(self)@ == old(self)@.pass_through(),
    {
        self.client_outbuf.append(&mut self.server_inbuf);
        self.server_outbuf.append(&mut self.client_inbuf);
    }

    fn skip_response(&mut self) -> (step: Step)
        requires
            old(self)@.wf(),
            old(self)@.state == HttpState::ExpectResponse,
            old(self)@.awaiting is Nothing,
        ensures
            (final(self)@, step@) == old(self)@.skip_response(),
            final(self)@.wf(),
    {
        let ghost buf = self.server_inbuf@;
        let n: usize = if self.skip < self.server_inbuf.len() {
            self.skip
        } else {
            self.server_inbuf.len()
        };
        let rest: Vec<u8> = self.server_inbuf.split_off(n);
        assert(rest@ =~= buf.skip(n as int));
        self.server_inbuf = rest;
        self.skip = self.skip - n;
        assert(self.server_inbuf@.take(0) =~= seq![]);
        if self.skip == 0 {
            self.send_tunnel_request(After::NextResponse)
        } else {
            Step::Done
        }
    }

    fn restart(&mut self) -> (step: Step)
        requires
            old(self)@.wf(),
            old(self)@.counter == 0,
            old(self)@.state == HttpState::ExpectResponseHeaders,
            old(self)@.awaiting is Nothing,
        ensures
            (final(self)@, step@) == old(self)@.restart(),
            final(self)@.wf(),
    {
        self.server_inbuf.clear();
        self.server_outbuf.clear();
        assert(self.server_inbuf@.take(0) =~= seq![]);
        self.send_tunnel_request(After::Reset)
    }

    fn after_refusal(&mut self, head: &ResponseHead) -> (step: Step)
        requires
            old(self)@.wf(),
            old(self)@.counter == 0,
            old(self)@.state == HttpState::ExpectResponseHeaders,
            old(self)@.awaiting is Nothing,
            old(self)@.authenticator is Some,
        ensures
            (final(self)@, step@) == old(self)@.after_refusal(head@),
            final(self)@.wf(),
    {
        let closed: bool = match find_header(&head.headers, "Connection") {
            Some(value) => {
                assert(value@.take(value@.len() as int) =~= value@);
                eq_ignore_case(value, value.len(), "close".as_bytes())
            },
            None => false,
        };
        if closed || head.version == 0 {
            return self.restart();
        }
        if find_header(&head.headers, "Transfer-Encoding").is_some() {
            return Step::Unsupported("Header Transfer-Encoding not supported".to_owned());
        }
        let n: usize = match find_header(&head.headers, "Content-Length") {
            None => {
                return self.restart();
            },
            Some(value) => match content_length(value) {
                Ok(n) => n,
                Err(e) => {
                    return Step::Failed(e);
                },
            },
        };
        if n > usize::MAX - head.len {
            return Step::Unsupported("Response too long".to_owned());
        }
        self.state = HttpState::ExpectResponse;
        self.skip = n + head.len;
        self.skip_response()
    }

    fn advance(&mut self) -> (step: Step)
        requires
            old(self)@.consistent(),
            old(self)@.awaiting is Nothing,
        ensures
            (final(self)@, step@) == old(self)@.advance(),
            final(self)@.wf(),
    {
        match self.state {
            HttpState::SendRequest => Step::Done,
            HttpState::ExpectResponseHeaders => self.read_response(),
            HttpState::ExpectResponse => self.skip_response(),
            HttpState::Reset => {
                self.state = HttpState::ExpectResponseHeaders;
                self.read_response()
            },
            HttpState::Established => {
                self.pass_through();
                assert(self.server_inbuf@.take(0) =~= seq![]);
                Step::Done
            },
        }
    }

    fn push_data(&mut self, event: IncomingDataEvent<'_>) -> (step: Step)
        requires
            old(self)@.wf(),
            old(self)@.awaiting is Nothing,
        ensures
            (final(self)@, step@) == old(self)@.push(event.direction, event.buffer@),
            final(self)@.wf(),
    {
        let ghost buf = self.server_inbuf@;
        match event.direction {
            IncomingDirection::FromServer => {
                self.server_inbuf.extend_from_slice(event.buffer);
                assert(self.server_inbuf@ =~= buf + event.buffer@);
                assert(self.server_inbuf@.take(self.counter as int) =~= buf.take(self.counter as int));
            },
            IncomingDirection::FromClient => {
                let ghost sent = self.client_inbuf@;
                self.client_inbuf.extend_from_slice(event.buffer);
                assert(self.client_inbuf@ =~= sent + event.buffer@);
            },
        }
        self.advance()
    }

    fn auth_headers_generated(&mut self, answer: Result<Vec<AuthHeader>, Error>) -> (step: Step)
        requires
            old(self)@.wf(),
            old(self)@.awaiting is AuthHeaders,
        ensures
            (final(self)@, step@) == old(self)@.headers_given(
                match answer {
                    Ok(headers) => Ok(auth_header_views(headers@)),
                    Err(e) => Err(e@),
                },
                old(self)@.awaiting->AuthHeaders_0,
            ),
            final(self)@.wf(),
    {
        let after: After = match &self.awaiting {
            Awaiting::AuthHeaders(after) => *after,
            _ => After::Start,
        };
        match answer {
            Ok(headers) => self.finish_request(headers, after),
            Err(e) => {
                self.awaiting = Awaiting::Nothing;
                Step::Failed(e)
            },
        }
    }

    fn failure_handled(
        &mut self,
        verdict: Result<AuthResult<A>, Error>,
        shared: &mut Option<Arc<A>>,
    ) -> (step: Step)
        requires
            old(self)@.wf(),
            old(self)@.awaiting is Verdict,
        ensures
            (final(self)@, step@) == old(self)@.verdict_given(
                match verdict {
                    Ok(v) => Ok(v),
                    Err(e) => Err(e@),
                },
                old(self)@.awaiting->Verdict_0,
            ),
            final(self)@.wf(),
            *final(shared) == (match verdict {
                Ok(AuthResult::RetryWith(a)) => Some(a),
                _ => *old(shared),
            }),
    {
        let mut awaiting: Awaiting = Awaiting::Nothing;
        std::mem::swap(&mut awaiting, &mut self.awaiting);
        if let Awaiting::Verdict(head) = awaiting {
            match verdict {
                Err(e) => {
                    return Step::Failed(e);
                },
                Ok(AuthResult::Abort) => {
                    return Step::Failed(status_error(head.code, head.reason.as_str()));
                },
                Ok(AuthResult::Bypass) => {
                    self.server_inbuf.clear();
                    self.server_outbuf.clear();
                    self.client_inbuf.clear();
                    self.client_outbuf.clear();
                    self.server_addr = self.info.dst;
                    self.state = HttpState::Established;
                    assert(self.server_inbuf@.take(0) =~= seq![]);
                    return Step::Done;
                },
                Ok(AuthResult::Retry) => {},
                Ok(AuthResult::RetryWith(a)) => {
                    self.authenticator = Some(a.clone());
                    *shared = Some(a);
                },
            }
            self.before = true;
            self.after_refusal(&head)
        } else {
            Step::Done
        }
    }
}

/// A connection to an HTTP proxy. `A` is the type of the authenticator.
#[verifier::reject_recursive_types(A)]
pub struct HttpConnection<A> {
    exchange: Exchange<A>,
}

impl<A> View for HttpConnection<A> {
    type V = ConnectionView<A>;

    closed spec fn view(&self) -> ConnectionView<A> {
        self.exchange@
    }
}

impl<A> HttpConnection<A> {
    #[verifier::type_invariant]
    spec fn inv(self) -> bool {
        self.exchange@.wf()
    }

    /// Takes the state of the connection out, to be worked on.
    fn begin_work(&mut self) -> (r: Exchange<A>)
        ensures
            r@ == old(self)@,
            r@.wf(),
    {
        proof {
            use_type_invariant(&*self);
        }
        let mut r: Exchange<A> = Exchange::fresh(
            self.exchange.server_addr,
            self.exchange.info,
            None,
            None,
        );
        std::mem::swap(&mut r, &mut self.exchange);
        r
    }

    /// A connection to the proxy at `server_addr` for the session `info`, with the first
    /// request written as far as that is possible without the authenticator.
    pub fn new(
        server_addr: SocketAddr,
        info: SessionInfo,
        domain_name: Option<String>,
        authenticator: Option<Arc<A>>,
    ) -> (r: (HttpConnection<A>, Step))
        ensures
            r.0@.wf(),
            (r.0@, r.1@) == ConnectionView::fresh(
                server_addr,
                info,
                match domain_name {
                    Some(s) => Some(s@),
                    None => None,
                },
                authenticator,
            ).begin_request(After::Start),
    {
        let mut exchange: Exchange<A> = Exchange::fresh(
            server_addr,
            info,
            domain_name,
            authenticator,
        );
        let step: Step = exchange.send_tunnel_request(After::Start);
        (HttpConnection { exchange }, step)
    }

    /// Takes the data of `event` in and works on it.
    pub fn push_data(&mut self, event: IncomingDataEvent<'_>) -> (step: Step)
        requires
            old(self)@.awaiting is Nothing,
        ensures
            (final(self)@, step@) == old(self)@.push(event.direction, event.buffer@),
            final(self)@.wf(),
    {
        let mut exchange: Exchange<A> = self.begin_work();
        let step: Step = exchange.push_data(event);
        self.exchange = exchange;
        step
    }

    /// Goes on with what the authenticator gave for the request that is being written.
    pub fn auth_headers_generated(&mut self, answer: Result<Vec<AuthHeader>, Error>) -> (step: Step)
        requires
            old(self)@.awaiting is AuthHeaders,
        ensures
            (final(self)@, step@) == old(self)@.headers_given(
                match answer {
                    Ok(headers) => Ok(auth_header_views(headers@)),
                    Err(e) => Err(e@),
                },
                old(self)@.awaiting->AuthHeaders_0,
            ),
            final(self)@.wf(),
    {
        let mut exchange: Exchange<A> = self.begin_work();
        let step: Step = exchange.auth_headers_generated(answer);
        self.exchange = exchange;
        step
    }

    /// Goes on with the verdict of the authenticator on a refusal. An authenticator that
    /// replaces the old one is put into `shared` as well, for later connections.
    pub fn failure_handled(
        &mut self,
        verdict: Result<AuthResult<A>, Error>,
        shared: &mut Option<Arc<A>>,
    ) -> (step: Step)
        requires
            old(self)@.awaiting is Verdict,
        ensures
            (final(self)@, step@) == old(self)@.verdict_given(
                match verdict {
                    Ok(v) => Ok(v),
                    Err(e) => Err(e@),
                },
                old(self)@.awaiting->Verdict_0,
            ),
            final(self)@.wf(),
            *final(shared) == shared_after(*old(shared), verdict),
            *final(shared) == (match verdict {
                Ok(AuthResult::RetryWith(a)) => Some(a),
                _ => *old(shared),
            }),
    {
        let mut exchange: Exchange<A> = self.begin_work();
        let step: Step = exchange.failure_handled(verdict, shared);
        self.exchange = exchange;
        step
    }

    /// The head of the refusal that waits for a verdict.
    pub fn refusal(&self) -> (r: Option<&ResponseHead>)
        ensures
            match r {
                Some(head) => self@.awaiting == AwaitingView::Verdict(head@) && ascii_names(
                    head@.headers,
                ),
                None => self@.awaiting !is Verdict,
            },
    {
        proof {
            use_type_invariant(self);
        }
        match &self.exchange.awaiting {
            Awaiting::Verdict(head) => Some(head),
            _ => None,
        }
    }

    /// What the connection waits for: nothing, or the answer of its authenticator.
    pub fn question(&self) -> (r: Step)
        ensures
            r@ == self@.question(),
    {
        match &self.exchange.awaiting {
            Awaiting::Nothing => Step::Done,
            Awaiting::AuthHeaders(_) => Step::GenerateAuthHeaders { uri: self.exchange.host() },
            Awaiting::Verdict(_) => Step::HandleFailure { is_retry: self.exchange.before },
        }
    }

    /// The authenticator in use.
    pub fn authenticator(&self) -> (r: Option<Arc<A>>)
        ensures
            r == self@.authenticator,
    {
        match &self.exchange.authenticator {
            Some(a) => Some(a.clone()),
            None => None,
        }
    }

    /// Where the bytes for the server go: to the proxy, or to the destination where the
    /// proxy is left out.
    pub fn get_server_addr(&self) -> (r: SocketAddr)
        ensures
            r == self@.server_addr,
    {
        self.exchange.server_addr
    }

    /// The session for which the connection was made.
    pub fn get_session_info(&self) -> (r: SessionInfo)
        ensures
            r == self@.info,
    {
        self.exchange.info
    }

    /// The domain name of the destination, where it is known.
    pub fn get_domain_name(&self) -> (r: Option<String>)
        ensures
            match r {
                Some(s) => self@.domain == Some(s@),
                None => self@.domain is None,
            },
    {
        match &self.exchange.domain_name {
            Some(s) => Some(s.clone()),
            None => None,
        }
    }

    /// The bytes that wait to be sent in the direction `dir`.
    pub open spec fn outgoing(self, dir: OutgoingDirection) -> Seq<u8> {
        match dir {
            OutgoingDirection::ToServer => self@.server_out,
            OutgoingDirection::ToClient => self@.client_out,
        }
    }

    /// Drops the first `size` of the bytes that wait to be sent in the direction `dir`.
    pub fn consume_data(&mut self, dir: OutgoingDirection, size: usize)
        requires
            size <= old(self).outgoing(dir).len(),
        ensures
            final(self)@.wf(),
            final(self)@ == old(self)@.consumed(dir, size as nat),
            final(self)@ == (match dir {
                OutgoingDirection::ToServer => ConnectionView {
                    server_out: old(self)@.server_out.skip(size as int),
                    ..old(self)@
                },
                OutgoingDirection::ToClient => ConnectionView {
                    client_out: old(self)@.client_out.skip(size as int),
                    ..old(self)@
                },
            }),
    {
        let mut exchange: Exchange<A> = self.begin_work();
        match dir {
            OutgoingDirection::ToServer => {
                let rest: Vec<u8> = exchange.server_outbuf.split_off(size);
                assert(rest@ =~= old(self)@.server_out.skip(size as int));
                exchange.server_outbuf = rest;
            },
            OutgoingDirection::ToClient => {
                let rest: Vec<u8> = exchange.client_outbuf.split_off(size);
                assert(rest@ =~= old(self)@.client_out.skip(size as int));
                exchange.client_outbuf = rest;
            },
        }
        self.exchange = exchange;
    }

    /// The bytes that wait to be sent in the direction `dir`.
    pub fn peek_data(&self, dir: OutgoingDirection) -> (r: OutgoingDataEvent<'_>)
        ensures
            r.direction == dir,
            r.buffer@ == self@.waiting(dir),
            r.buffer@ == self.outgoing(dir),
    {
        match dir {
            OutgoingDirection::ToServer => DataEvent {
                direction: dir,
                buffer: self.exchange.server_outbuf.as_slice(),
            },
            OutgoingDirection::ToClient => DataEvent {
                direction: dir,
                buffer: self.exchange.client_outbuf.as_slice(),
            },
        }
    }

    /// Whether the tunnel stands.
    pub fn connection_established(&self) -> (r: bool)
        ensures
            r == (self@.state == HttpState::Established),
    {
        self.exchange.state == HttpState::Established
    }

    /// How many bytes wait to be sent in the direction `dir`.
    pub fn data_len(&self, dir: OutgoingDirection) -> (r: usize)
        ensures
            r == self@.waiting(dir).len(),
            r == self.outgoing(dir).len(),
    {
        match dir {
            OutgoingDirection::ToServer => self.exchange.server_outbuf.len(),
            OutgoingDirection::ToClient => self.exchange.client_outbuf.len(),
        }
    }

    /// Whether the connection to the proxy is to be opened anew.
    pub fn reset_connection(&self) -> (r: bool)
        ensures
            r == (self@.state == HttpState::Reset),
    {
        self.exchange.state == HttpState::Reset
    }

    /// The address for UDP packets, which an HTTP proxy does not have.
    pub fn get_udp_associate(&self) -> (r: Option<SocketAddr>)
        ensures
            r is None,
    {
        None
    }
}

/// Makes connections to one HTTP proxy, which share an authenticator.
#[verifier::reject_recursive_types(A)]
pub struct HttpManager<A> {
    pub server: SocketAddr,
    pub authenticator: Option<Arc<A>>,
}

impl<A> HttpManager<A> {
    /// The manager for the proxy at `server`.
    pub fn new(server: SocketAddr, authenticator: Option<Arc<A>>) -> (r: HttpManager<A>)
        ensures
            r == (HttpManager { server, authenticator }),
    {
        HttpManager { server, authenticator }
    }

    /// What a connection for the session `info` begins with. Only TCP goes through an HTTP
    /// proxy.
    pub open spec fn handler(self, info: SessionInfo, domain: Option<Seq<char>>) -> Result<
        (ConnectionView<A>, StepView),
        ErrorView,
    > {
        if info.protocol == IpProtocol::Tcp {
            Ok(
                ConnectionView::fresh(self.server, info, domain, self.authenticator).begin_request(
                    After::Start,
                ),
            )
        } else {
            Err(ErrorView::Text("Protocol not supported by HTTP proxy"@))
        }
    }

    /// Every TCP session gets a connection to the proxy of the manager, for its own ends, with
    /// its name and with the authenticator of the manager; no other session gets one.
    pub proof fn law_handler(
        self,
        src: SocketAddr,
        dst: SocketAddr,
        domain: Option<Seq<char>>,
        other: IpProtocol,
    )
        ensures
            ({
                let info = SessionInfo { src, dst, protocol: IpProtocol::Tcp };
                &&& self.handler(info, domain) matches Ok(p)
                &&& p.0.server_addr == self.server
                &&& p.0.info == info
                &&& p.0.domain == domain
                &&& p.0.authenticator == self.authenticator
                &&& !p.0.before
                &&& p.0.client_in.len() == 0 && p.0.client_out.len() == 0 && p.0.server_in.len() == 0
                &&& p.0.server_out.len() >= p.0.request_start().len()
                &&& p.0.server_out.take(p.0.request_start().len() as int) == p.0.request_start()
            }),
            other != IpProtocol::Tcp ==> self.handler(
                SessionInfo { src, dst, protocol: other },
                domain,
            ) == Err::<(ConnectionView<A>, StepView), ErrorView>(
                ErrorView::Text("Protocol not supported by HTTP proxy"@),
            ),
    {
        let info = SessionInfo { src, dst, protocol: IpProtocol::Tcp };
        let f = ConnectionView::fresh(self.server, info, domain, self.authenticator);
        let c = f.begin_request(After::Start).0;
        assert(c.server_out.take(f.request_start().len() as int) =~= f.request_start());
    }

    /// A connection for the session `info`, with the first request written as far as that is
    /// possible without the authenticator. Only TCP goes through an HTTP proxy.
    pub fn new_proxy_handler(
        &self,
        info: SessionInfo,
        domain_name: Option<String>,
        _udp_associate: bool,
    ) -> (r: Result<(HttpConnection<A>, Step), Error>)
        ensures
            match r {
                Ok(p) => self.handler(
                    info,
                    match domain_name {
                        Some(s) => Some(s@),
                        None => None,
                    },
                ) == Ok::<
                    (ConnectionView<A>, StepView),
                    ErrorView,
                >((p.0@, p.1@)),
                Err(e) => self.handler(
                    info,
                    match domain_name {
                        Some(s) => Some(s@),
                        None => None,
                    },
                ) == Err::<
                    (ConnectionView<A>, StepView),
                    ErrorView,
                >(e@),
            },
            info.protocol != IpProtocol::Tcp ==> {
                &&& r matches Err(e)
                &&& e@ == ErrorView::Text("Protocol not supported by HTTP proxy"@)
            },
            info.protocol == IpProtocol::Tcp ==> {
                &&& r matches Ok(p)
                &&& p.0@.wf()
                &&& (p.0@, p.1@) == ConnectionView::fresh(
                    self.server,
                    info,
                    match domain_name {
                        Some(s) => Some(s@),
                        None => None,
                    },
                    self.authenticator,
                ).begin_request(After::Start)
            },
    {
        if info.protocol != IpProtocol::Tcp {
            return Err(Error::text("Protocol not supported by HTTP proxy"));
        }
        let authenticator: Option<Arc<A>> = match &self.authenticator {
            Some(a) => Some(a.clone()),
            None => None,
        };
        Ok(HttpConnection::new(self.server, info, domain_name, authenticator))
    }
}

} // verus!
