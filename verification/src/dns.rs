//! DNS messages: building queries and answers, and reading what a message says.

use std::str::FromStr;

use hickory_proto::op;
use hickory_proto::op::{Message, MessageType as Kind};
use hickory_proto::rr::rdata::{A, AAAA};
use hickory_proto::rr::{Name, RData, Record};
use vstd::prelude::*;

use crate::dns_mapping::{record_views, CacheView, DnsCache, DnsRecord, DnsRecordView, LATEST};
use crate::net::{IpAddr, Ipv4Addr, Ipv6Addr};
use crate::text::lower;

verus! {

/// The port on which DNS is spoken.
pub const DNS_PORT: u16 = 53;

/// The record type of IPv4 addresses.
pub const TYPE_A: u16 = 1;

/// The operation code of a standard query.
pub const OP_QUERY: u8 = 0;

/// The response code of success.
pub const NO_ERROR: u16 = 0;

/// Whether a message asks or answers.
#[derive(Clone, Copy, PartialEq, Eq, Structural, Debug)]
pub enum MessageType {
    Query,
    Response,
}

/// A question: the name and the record type that are asked for.
#[derive(Debug)]
pub struct Question {
    pub name: String,
    pub query_type: u16,
}

/// A question, in mathematical terms.
pub struct QuestionView {
    pub name: Seq<char>,
    pub query_type: u16,
}

impl View for Question {
    type V = QuestionView;

    open spec fn view(&self) -> QuestionView {
        QuestionView { name: self.name@, query_type: self.query_type }
    }
}

/// Questions, in mathematical terms.
pub open spec fn question_views(questions: Seq<Question>) -> Seq<QuestionView> {
    Seq::new(questions.len(), |i: int| questions[i]@)
}

/// What a record says, as far as this library looks into it.
#[derive(Debug)]
pub enum RecordData {
    A(Ipv4Addr),
    AAAA(Ipv6Addr),
    Cname(String),
    Other,
}

/// What a record says, in mathematical terms.
pub enum RecordDataView {
    A(Ipv4Addr),
    AAAA(Ipv6Addr),
    Cname(Seq<char>),
    Other,
}

impl View for RecordData {
    type V = RecordDataView;

    open spec fn view(&self) -> RecordDataView {
        match self {
            RecordData::A(addr) => RecordDataView::A(*addr),
            RecordData::AAAA(addr) => RecordDataView::AAAA(*addr),
            RecordData::Cname(name) => RecordDataView::Cname(name@),
            RecordData::Other => RecordDataView::Other,
        }
    }
}

/// An answer of a message that was received, with its place among the answers there, or one
/// that was added since.
#[derive(Debug)]
pub enum Answer {
    Received { index: usize, ttl: u32, data: RecordData },
    Added { name: String, ttl: u32, ip: IpAddr },
}

/// An answer, in mathematical terms.
pub enum AnswerView {
    Received { index: nat, ttl: u32, data: RecordDataView },
    Added { name: Seq<char>, ttl: u32, ip: IpAddr },
}

impl View for Answer {
    type V = AnswerView;

    open spec fn view(&self) -> AnswerView {
        match self {
            Answer::Received { index, ttl, data } => AnswerView::Received {
                index: *index as nat,
                ttl: *ttl,
                data: data@,
            },
            Answer::Added { name, ttl, ip } => AnswerView::Added {
                name: name@,
                ttl: *ttl,
                ip: *ip,
            },
        }
    }
}

impl AnswerView {
    /// The address that the answer gives.
    pub open spec fn address(self) -> Option<IpAddr> {
        match self {
            AnswerView::Received { data: RecordDataView::A(addr), .. } => Some(IpAddr::V4(addr)),
            AnswerView::Received { data: RecordDataView::AAAA(addr), .. } => Some(IpAddr::V6(addr)),
            AnswerView::Added { ip, .. } => Some(ip),
            _ => None,
        }
    }

    /// The name for which the answer declares an alias.
    pub open spec fn alias_target(self) -> Option<Seq<char>> {
        match self {
            AnswerView::Received { data: RecordDataView::Cname(name), .. } => Some(name),
            _ => None,
        }
    }

    /// What the answer says.
    pub open spec fn data(self) -> RecordDataView {
        match self {
            AnswerView::Received { data, .. } => data,
            AnswerView::Added { ip: IpAddr::V4(addr), .. } => RecordDataView::A(addr),
            AnswerView::Added { ip: IpAddr::V6(addr), .. } => RecordDataView::AAAA(addr),
        }
    }

    /// The time to live of the answer.
    pub open spec fn ttl(self) -> u32 {
        match self {
            AnswerView::Received { ttl, .. } => ttl,
            AnswerView::Added { ttl, .. } => ttl,
        }
    }
}

/// Answers, in mathematical terms.
pub open spec fn answer_views(answers: Seq<Answer>) -> Seq<AnswerView> {
    Seq::new(answers.len(), |i: int| answers[i]@)
}

/// What the bytes of a message say before its answers: the fields of the header, and the
/// questions.
struct Head {
    id: u16,
    message_type: MessageType,
    op_code: u8,
    recursion_desired: bool,
    response_code: u16,
    queries: Vec<Question>,
}

/// The header and the questions of a message, in mathematical terms.
pub struct HeadView {
    pub id: u16,
    pub message_type: MessageType,
    pub op_code: u8,
    pub recursion_desired: bool,
    pub response_code: u16,
    pub queries: Seq<QuestionView>,
}

impl View for Head {
    type V = HeadView;

    closed spec fn view(&self) -> HeadView {
        HeadView {
            id: self.id,
            message_type: self.message_type,
            op_code: self.op_code,
            recursion_desired: self.recursion_desired,
            response_code: self.response_code,
            queries: question_views(self.queries@),
        }
    }
}

/// A DNS message: the bytes in which it was received, what they say, and the answers that it
/// holds now.
#[derive(Debug)]
pub struct DnsMessage {
    wire: Vec<u8>,
    id: u16,
    message_type: MessageType,
    op_code: u8,
    recursion_desired: bool,
    response_code: u16,
    queries: Vec<Question>,
    answers: Vec<Answer>,
}

/// A DNS message, in mathematical terms.
pub struct MessageView {
    pub wire: Seq<u8>,
    pub id: u16,
    pub message_type: MessageType,
    pub op_code: u8,
    pub recursion_desired: bool,
    pub response_code: u16,
    pub queries: Seq<QuestionView>,
    pub answers: Seq<AnswerView>,
}

impl View for DnsMessage {
    type V = MessageView;

    closed spec fn view(&self) -> MessageView {
        MessageView {
            wire: self.wire@,
            id: self.id,
            message_type: self.message_type,
            op_code: self.op_code,
            recursion_desired: self.recursion_desired,
            response_code: self.response_code,
            queries: question_views(self.queries@),
            answers: answer_views(self.answers@),
        }
    }
}

/// What `hickory_proto::op::Message::from_vec` makes of `wire`, but for the records: the
/// header and the questions, or the text of the error.
pub uninterp spec fn dns_head(wire: Seq<u8>) -> Result<HeadView, Seq<char>>;

/// The answers of the message that `hickory_proto::op::Message::from_vec` makes of `wire`.
pub uninterp spec fn dns_answers(wire: Seq<u8>) -> Seq<AnswerView>;

/// The message that `wire` holds, or the text of the error.
pub open spec fn dns_message(wire: Seq<u8>) -> Result<MessageView, Seq<char>> {
    match dns_head(wire) {
        Ok(h) => Ok(
            MessageView {
                wire,
                id: h.id,
                message_type: h.message_type,
                op_code: h.op_code,
                recursion_desired: h.recursion_desired,
                response_code: h.response_code,
                queries: h.queries,
                answers: dns_answers(wire),
            },
        ),
        Err(e) => Err(e),
    }
}

/// Whether every answer that was received is in its place.
pub open spec fn in_place(answers: Seq<AnswerView>) -> bool {
    forall|i: int|
        0 <= i < answers.len() ==> ((#[trigger] answers[i]) matches AnswerView::Received { index, .. }
            && index == i)
}

/// `hickory_proto::op::Message::from_vec`: reads the header and the questions of a message.
///
/// The first two bytes hold the identifier, and the first bit of the third tells an answer
/// from a question.
#[verifier::external_body]
fn read_head(wire: &[u8]) -> (r: Result<Head, String>)
    ensures
        match r {
            Ok(h) => {
                &&& dns_head(wire@) == Ok::<HeadView, Seq<char>>(h@)
                &&& wire@.len() >= 12
                &&& h@.id == wire@[0] * 256 + wire@[1]
                &&& h@.message_type == if wire@[2] >= 128 {
                    MessageType::Response
                } else {
                    MessageType::Query
                }
            },
            Err(e) => dns_head(wire@) == Err::<HeadView, Seq<char>>(e@),
        },
{
    let m = Message::from_vec(wire)?;
    let question = |q: &op::Query| Question { name: q.name().to_string(), query_type: q.query_type().into() };
    let queries = m.queries().iter().map(question).collect();
    let message_type = match m.message_type() {
        Kind::Query => MessageType::Query,
        Kind::Response => MessageType::Response,
    };
    let (op_code, response_code) = (m.op_code().into(), m.response_code().into());
    let (id, recursion_desired) = (m.id(), m.recursion_desired());
    Ok(Head { id, message_type, op_code, recursion_desired, response_code, queries })
}

/// `hickory_proto::op::Message::answers` on the message that was read from `wire`: its
/// answers, each with its place among them.
#[verifier::external_body]
fn read_answers(wire: &[u8]) -> (r: Vec<Answer>)
    requires
        dns_head(wire@) is Ok,
    ensures
        answer_views(r@) == dns_answers(wire@),
        in_place(answer_views(r@)),
{
    let m = Message::from_vec(wire).unwrap_or_default();
    m.answers().iter().enumerate().map(|(index, a)| Answer::Received { index, ttl: a.ttl(), data: match a.data() {
        RData::A(x) => RecordData::A(Ipv4Addr { bits: x.0.into() }),
        RData::AAAA(x) => RecordData::AAAA(Ipv6Addr { bits: x.0.into() }),
        RData::CNAME(name) => RecordData::Cname(name.to_utf8()),
        _ => RecordData::Other,
    } }).collect()
}

fn read_message(wire: &[u8]) -> (r: Result<DnsMessage, String>)
    ensures
        match r {
            Ok(m) => dns_message(wire@) == Ok::<MessageView, Seq<char>>(m@),
            Err(e) => dns_message(wire@) == Err::<MessageView, Seq<char>>(e@),
        },
{
    let head: Head = match read_head(wire) {
        Ok(h) => h,
        Err(e) => {
            return Err(e);
        },
    };
    let answers: Vec<Answer> = read_answers(wire);
    let mut bytes: Vec<u8> = Vec::new();
    bytes.extend_from_slice(wire);
    assert(bytes@ =~= wire@);
    Ok(
        DnsMessage {
            wire: bytes,
            id: head.id,
            message_type: head.message_type,
            op_code: head.op_code,
            recursion_desired: head.recursion_desired,
            response_code: head.response_code,
            queries: head.queries,
            answers,
        },
    )
}

/// What `hickory_proto::op::Message::to_vec` makes of the message that was read from `wire`,
/// with the type `message_type` and the answers `answers` in place of its own.
pub uninterp spec fn dns_encoding(
    wire: Seq<u8>,
    message_type: MessageType,
    answers: Seq<AnswerView>,
) -> Result<Seq<u8>, Seq<char>>;

/// Whether each of the answers that were received is the one that `wire` holds in its place.
pub open spec fn answers_of(wire: Seq<u8>, answers: Seq<AnswerView>) -> bool {
    &&& dns_message(wire) matches Ok(m)
    &&& forall|i: int|
        0 <= i < answers.len() ==> ((#[trigger] answers[i]) matches AnswerView::Received { index, .. }
            ==> index < m.answers.len() && answers[i] == m.answers[index as int])
}

/// Whether `wire` holds one question, and neither name servers nor additional records.
pub open spec fn one_question(wire: Seq<u8>) -> bool {
    &&& wire.len() >= 12
    &&& wire[4] == 0
    &&& wire[5] == 1
    &&& wire[8] == 0
    &&& wire[9] == 0
    &&& wire[10] == 0
    &&& wire[11] == 0
}

/// Whether every answer gives an address or an alias, and those that were added have domain
/// names.
pub open spec fn known_answers(answers: Seq<AnswerView>) -> bool {
    forall|i: int|
        0 <= i < answers.len() ==> match #[trigger] answers[i] {
            AnswerView::Received { data, .. } => !(data is Other),
            AnswerView::Added { name, .. } => name_error(name) is None,
        }
}

/// Whether the message `bytes` says that nothing was cut off from it.
pub open spec fn is_whole(bytes: Seq<u8>) -> bool {
    (bytes[2] / 2) % 2 == 0
}

/// The answers `answers` as they are received.
pub open spec fn received(answers: Seq<AnswerView>) -> Seq<AnswerView> {
    Seq::new(
        answers.len(),
        |i: int|
            AnswerView::Received { index: i as nat, ttl: answers[i].ttl(), data: answers[i].data() },
    )
}

/// `hickory_proto::op::Message::to_vec` on the message that was read from `wire`, with the
/// type `message_type` and the answers `answers` in place of its own. An answer that was
/// added is made by `hickory_proto::rr::Record::from_rdata`; one that was received is the
/// record in its place, and `answers` must give it as it was received.
///
/// The identifier is that of `wire`, and the first bit of the third byte tells an answer
/// from a question. A message that is too long for one packet loses answers, and says so.
/// Where there is one question, no other records than the answers, and every answer gives an
/// address or an alias, writing succeeds, and what was written reads back unless it was cut
/// off. Of messages with other records nothing more is said: they may be written in another
/// form than they were read in.
#[verifier::external_body]
fn encode_message(
    wire: &[u8],
    message_type: MessageType,
    answers: &[Answer],
) -> (r: Result<Vec<u8>, String>)
    requires
        answers_of(wire@, answer_views(answers@)),
    ensures
        match r {
            Ok(bytes) => {
                &&& dns_encoding(wire@, message_type, answer_views(answers@)) == Ok::<
                    Seq<u8>,
                    Seq<char>,
                >(bytes@)
                &&& bytes@.len() >= 12
                &&& bytes@[0] == wire@[0]
                &&& bytes@[1] == wire@[1]
                &&& bytes@[2] >= 128 <==> message_type == MessageType::Response
                &&& one_question(wire@) && known_answers(answer_views(answers@)) && is_whole(bytes@)
                    ==> dns_message(bytes@) == Ok::<MessageView, Seq<char>>(
                    MessageView {
                        wire: bytes@,
                        message_type,
                        answers: received(answer_views(answers@)),
                        ..dns_message(wire@)->Ok_0
                    },
                )
            },
            Err(e) => {
                &&& dns_encoding(wire@, message_type, answer_views(answers@)) == Err::<
                    Seq<u8>,
                    Seq<char>,
                >(e@)
                &&& !(one_question(wire@) && known_answers(answer_views(answers@)))
            },
        },
{
    let mut m = Message::from_vec(wire)?;
    m.set_message_type(match message_type { MessageType::Query => Kind::Query, MessageType::Response => Kind::Response });
    let old = m.take_answers();
    for a in answers {
        m.add_answer(match a {
            Answer::Received { index, .. } => old[*index].clone(),
            Answer::Added { name, ttl, ip: IpAddr::V4(x) } => Record::from_rdata(Name::from_str(name)?, *ttl, RData::A(A(x.bits.into()))),
            Answer::Added { name, ttl, ip: IpAddr::V6(x) } => Record::from_rdata(Name::from_str(name)?, *ttl, RData::AAAA(AAAA(x.bits.into()))),
        });
    }
    Ok(m.to_vec()?)
}

/// What `hickory_proto` makes of a message with one question and nothing else, whose header
/// holds the values given.
pub uninterp spec fn dns_query_encoding(
    domain: Seq<char>,
    query_type: u16,
    id: u16,
    message_type: MessageType,
    op_code: u8,
    recursion_desired: bool,
) -> Result<Seq<u8>, Seq<char>>;

/// Whether `c` is a small letter or a digit.
pub open spec fn is_plain_char(c: char) -> bool {
    ('a' <= c && c <= 'z') || ('0' <= c && c <= '9')
}

/// Whether `s` is a domain name of small letters and digits, with single hyphens between
/// them, in parts of at most 63 characters.
pub open spec fn plain_name(s: Seq<char>) -> bool {
    &&& 0 < s.len() <= 253
    &&& is_plain_char(s.first())
    &&& is_plain_char(s.last())
    &&& forall|i: int|
        0 <= i < s.len() ==> is_plain_char(#[trigger] s[i]) || s[i] == '.' || s[i] == '-'
    &&& forall|i: int, j: int|
        0 <= i && j == i + 1 && j < s.len() ==> is_plain_char(#[trigger] s[i]) || is_plain_char(
            #[trigger] s[j],
        )
    &&& forall|i: int|
        0 <= i && i + 64 <= s.len() ==> (#[trigger] s.subrange(i, i + 64)).contains('.')
}

/// `domain` in small letters, without the full stop at its end.
pub open spec fn relative_name(domain: Seq<char>) -> Seq<char> {
    lower(
        if domain.len() > 0 && domain.last() == '.' {
            domain.drop_last()
        } else {
            domain
        },
    )
}

/// `hickory_proto::op::Message::to_vec` on a new message with one question for `domain`,
/// which `hickory_proto::rr::Name::from_str` reads; it fails exactly where that does.
///
/// What was written reads back: the identifier, the type, the operation code and the flag
/// are those given, there is one question of the given type, and there is no answer. A
/// plain name, in whatever letters, is read, and the question is for it in small letters,
/// with a full stop at its end. Of other names, such as those in other scripts, it is not
/// said how they read back.
#[verifier::external_body]
fn encode_query(
    domain: &str,
    query_type: u16,
    id: u16,
    message_type: MessageType,
    op_code: u8,
    recursion_desired: bool,
) -> (r: Result<Vec<u8>, String>)
    requires
        op_code < 16,
    ensures
        match r {
            Ok(bytes) => {
                &&& dns_query_encoding(
                    domain@,
                    query_type,
                    id,
                    message_type,
                    op_code,
                    recursion_desired,
                ) == Ok::<Seq<u8>, Seq<char>>(bytes@)
                &&& dns_message(bytes@) matches Ok(m)
                &&& m.id == id
                &&& m.message_type == message_type
                &&& m.op_code == op_code
                &&& m.recursion_desired == recursion_desired
                &&& m.response_code == 0
                &&& m.queries.len() == 1
                &&& m.queries[0].query_type == query_type
                &&& m.answers.len() == 0
                &&& one_question(bytes@)
                &&& name_error(domain@) is None
                &&& plain_name(relative_name(domain@)) ==> m.queries[0].name == relative_name(
                    domain@,
                ).push('.') && name_error(m.queries[0].name) is None
            },
            Err(e) => {
                &&& dns_query_encoding(
                    domain@,
                    query_type,
                    id,
                    message_type,
                    op_code,
                    recursion_desired,
                ) == Err::<Seq<u8>, Seq<char>>(e@)
                &&& name_error(domain@) == Some(e@)
                &&& !plain_name(relative_name(domain@))
            },
        },
{
    let mut m = Message::new();
    m.set_id(id);
    m.set_message_type(match message_type { MessageType::Query => Kind::Query, MessageType::Response => Kind::Response });
    m.set_op_code(op::OpCode::from_u8(op_code));
    m.set_recursion_desired(recursion_desired);
    m.add_query(op::Query::query(Name::from_str(domain)?, query_type.into()));
    Ok(m.to_vec()?)
}

/// The text of the error with which `hickory_proto::rr::Name::from_str` refuses `domain`.
pub uninterp spec fn name_error(domain: Seq<char>) -> Option<Seq<char>>;

/// `hickory_proto::rr::Name::from_str`: whether `domain` is a domain name, and the text of
/// the error where it is none.
#[verifier::external_body]
fn check_name(domain: &str) -> (r: Result<(), String>)
    ensures
        match r {
            Ok(_) => name_error(domain@) is None,
            Err(e) => name_error(domain@) == Some(e@),
        },
{
    Name::from_str(domain).map(|_| ()).map_err(|e| e.to_string())
}

/// The `Debug` form of the `hickory_proto::op::ResponseCode` with the number `code`.
pub uninterp spec fn response_code_text(code: u16) -> Seq<char>;

/// The `Debug` form of the `hickory_proto::op::ResponseCode` with the number `code`.
#[verifier::external_body]
fn show_response_code(code: u16) -> (r: String)
    ensures
        r@ == response_code_text(code),
{
    let code: op::ResponseCode = code.into();
    format!("{:?}", code)
}

/// The `Debug` form of the answers with the places `kept` in the message that `wire` holds.
pub uninterp spec fn answers_text(wire: Seq<u8>, kept: Seq<usize>) -> Seq<char>;

/// The `Debug` form of the `hickory_proto::rr::Record`s with the places `kept` among the
/// answers that `wire` holds.
#[verifier::external_body]
fn show_answers(wire: &[u8], kept: &[usize]) -> (r: String)
    requires
        dns_message(wire@) matches Ok(m) && forall|i: int|
            0 <= i < kept@.len() ==> (#[trigger] kept@[i]) < m.answers.len(),
    ensures
        r@ == answers_text(wire@, kept@),
{
    let old = Message::from_vec(wire).map(|mut m| m.take_answers()).unwrap_or_default();
    format!("{:?}", kept.iter().map(|i| &old[*i]).collect::<Vec<_>>())
}

impl MessageView {
    /// Whether the message is what was read from its bytes, but for its type and its
    /// answers, and every answer that was received is still what it was.
    pub open spec fn wf(self) -> bool {
        &&& dns_message(self.wire) matches Ok(m)
        &&& self.wire.len() >= 12
        &&& self.id == self.wire[0] * 256 + self.wire[1]
        &&& self == MessageView {
            message_type: self.message_type,
            answers: self.answers,
            ..m
        }
        &&& in_place(m.answers)
        &&& forall|i: int|
            0 <= i < self.answers.len() ==> ((#[trigger] self.answers[i]) matches AnswerView::Received {
                index,
                ..
            } ==> index < m.answers.len() && self.answers[i] == m.answers[index as int])
    }

    /// The message as an answer, with the address `ip` for `domain` added.
    pub open spec fn answered(self, domain: Seq<char>, ip: IpAddr, ttl: u32) -> MessageView {
        MessageView {
            message_type: MessageType::Response,
            answers: self.answers.push(AnswerView::Added { name: domain, ttl, ip }),
            ..self
        }
    }

    /// The message as an answer, with the addresses `entries` for `domain` added.
    pub open spec fn answered_from(self, domain: Seq<char>, entries: Seq<(IpAddr, u32)>) -> MessageView {
        MessageView {
            message_type: MessageType::Response,
            answers: self.answers + Seq::new(
                entries.len(),
                |i: int| AnswerView::Added { name: domain, ttl: entries[i].1, ip: entries[i].0 },
            ),
            ..self
        }
    }

    /// The message without the answers that give IPv6 addresses.
    pub open spec fn without_ipv6(self) -> MessageView {
        MessageView { answers: self.answers.filter(not_ipv6()), ..self }
    }

    /// The addresses in the answers, in their order.
    pub open spec fn addresses(self) -> Seq<IpAddr> {
        self.answers.filter_map(|a: AnswerView| a.address())
    }

    /// The addresses in the answers with their times to live, in their order.
    pub open spec fn dated_addresses(self) -> Seq<(IpAddr, u32)> {
        self.answers.filter_map(dated_address())
    }

    /// The address that the message answers with, or why there is none: the response code,
    /// the name to which the last alias leads, or the answers.
    pub open spec fn address(self) -> Result<IpAddr, Seq<char>> {
        if self.response_code != NO_ERROR {
            Err(response_code_text(self.response_code))
        } else {
            match first_address(self.answers) {
                Some(ip) => Ok(ip),
                None => match last_alias(self.answers) {
                    Some(name) => Err(name),
                    None => Err(answers_text(self.wire, places(self.answers))),
                },
            }
        }
    }

    /// The name for which the message asks.
    pub open spec fn domain(self) -> Result<Seq<char>, Seq<char>> {
        if self.queries.len() == 0 {
            Err("DnsRequest no query body"@)
        } else {
            Ok(self.queries[0].name)
        }
    }

    /// The bytes of the message.
    pub open spec fn encoding(self) -> Result<Seq<u8>, Seq<char>> {
        dns_encoding(self.wire, self.message_type, self.answers)
    }
}

/// Whether `bytes` reads as the message `m`.
pub open spec fn reads_as(bytes: Seq<u8>, m: MessageView) -> bool {
    dns_message(bytes) == Ok::<MessageView, Seq<char>>(
        MessageView { wire: bytes, answers: received(m.answers), ..m },
    )
}

/// The predicate that holds of the answers that give no IPv6 address.
pub open spec fn not_ipv6() -> spec_fn(AnswerView) -> bool {
    |a: AnswerView| !(a.address() matches Some(IpAddr::V6(_)))
}

/// Takes an answer to the address that it gives and its time to live.
pub open spec fn dated_address() -> spec_fn(AnswerView) -> Option<(IpAddr, u32)> {
    |a: AnswerView|
        match a.address() {
            Some(ip) => Some((ip, a.ttl())),
            None => None,
        }
}

/// The first address among the answers.
pub open spec fn first_address(answers: Seq<AnswerView>) -> Option<IpAddr>
    decreases answers.len(),
{
    if answers.len() == 0 {
        None
    } else {
        match answers.first().address() {
            Some(ip) => Some(ip),
            None => first_address(answers.drop_first()),
        }
    }
}

/// The name to which the last alias among the answers leads.
pub open spec fn last_alias(answers: Seq<AnswerView>) -> Option<Seq<char>>
    decreases answers.len(),
{
    if answers.len() == 0 {
        None
    } else {
        match answers.last().alias_target() {
            Some(name) => Some(name),
            None => last_alias(answers.drop_last()),
        }
    }
}

/// The places that the answers had when they were received.
pub open spec fn places(answers: Seq<AnswerView>) -> Seq<usize> {
    Seq::new(
        answers.len(),
        |i: int|
            match answers[i] {
                AnswerView::Received { index, .. } => index as usize,
                _ => 0,
            },
    )
}

/// The number that two bytes write, the first being the more significant one.
pub open spec fn be_u16(high: u8, low: u8) -> nat {
    (high * 256 + low) as nat
}

/// What [`parse_data_to_dns_message`] makes of `data`.
pub open spec fn parsed(data: Seq<u8>, used_by_tcp: bool) -> Result<MessageView, Seq<char>> {
    if used_by_tcp {
        if data.len() < 2 || be_u16(data[0], data[1]) + 2 > data.len() {
            Err("invalid dns data"@)
        } else {
            dns_message(data.subrange(2, be_u16(data[0], data[1]) as int + 2))
        }
    } else {
        dns_message(data)
    }
}

fn answer_address(answer: &Answer) -> (r: Option<IpAddr>)
    ensures
        r == answer@.address(),
{
    match answer {
        Answer::Received { data: RecordData::A(addr), .. } => Some(IpAddr::V4(*addr)),
        Answer::Received { data: RecordData::AAAA(addr), .. } => Some(IpAddr::V6(*addr)),
        Answer::Added { ip, .. } => Some(*ip),
        _ => None,
    }
}

fn answer_ttl(answer: &Answer) -> (r: u32)
    ensures
        r == answer@.ttl(),
{
    match answer {
        Answer::Received { ttl, .. } => *ttl,
        Answer::Added { ttl, .. } => *ttl,
    }
}

impl DnsMessage {
    #[verifier::type_invariant]
    spec fn wf(self) -> bool {
        self@.wf()
    }

    /// The identifier of the message.
    pub fn id(&self) -> (r: u16)
        ensures
            r == self@.id,
    {
        self.id
    }

    /// Whether the message asks or answers.
    pub fn message_type(&self) -> (r: MessageType)
        ensures
            r == self@.message_type,
    {
        self.message_type
    }

    /// The operation code of the message.
    pub fn op_code(&self) -> (r: u8)
        ensures
            r == self@.op_code,
    {
        self.op_code
    }

    /// Whether the message asks the server to ask others.
    pub fn recursion_desired(&self) -> (r: bool)
        ensures
            r == self@.recursion_desired,
    {
        self.recursion_desired
    }

    /// The response code of the message.
    pub fn response_code(&self) -> (r: u16)
        ensures
            r == self@.response_code,
    {
        self.response_code
    }

    /// The questions of the message.
    pub fn queries(&self) -> (r: &Vec<Question>)
        ensures
            question_views(r@) == self@.queries,
    {
        &self.queries
    }

    /// The answers of the message.
    pub fn answers(&self) -> (r: &Vec<Answer>)
        ensures
            answer_views(r@) == self@.answers,
    {
        &self.answers
    }

    /// The bytes of the message.
    pub fn to_vec(&self) -> (r: Result<Vec<u8>, String>)
        ensures
            match r {
                Ok(bytes) => {
                    &&& self@.encoding() == Ok::<Seq<u8>, Seq<char>>(bytes@)
                    &&& bytes@.len() >= 12
                    &&& self@.id == be_u16(bytes@[0], bytes@[1])
                    &&& bytes@[2] >= 128 <==> self@.message_type == MessageType::Response
                    &&& one_question(self@.wire) && known_answers(self@.answers) && is_whole(bytes@)
                        ==> reads_as(bytes@, self@)
                },
                Err(e) => {
                    &&& self@.encoding() == Err::<Seq<u8>, Seq<char>>(e@)
                    &&& !(one_question(self@.wire) && known_answers(self@.answers))
                },
            },
    {
        proof {
            use_type_invariant(self);
        }
        encode_message(self.wire.as_slice(), self.message_type, self.answers.as_slice())
    }
}

/// What [`build_dns_query`] returns: the bytes of a standard query for the IPv4 addresses of
/// `domain`.
pub open spec fn query_bytes(domain: Seq<char>, id: u16) -> Result<Seq<u8>, Seq<char>> {
    dns_query_encoding(domain, TYPE_A, id, MessageType::Query, OP_QUERY, true)
}

/// Whether `m` is a standard query with the identifier `id` for IPv4 addresses: one question,
/// no answer, and the wish that the server asks others.
pub open spec fn standard_query(m: MessageView, id: u16) -> bool {
    &&& m.id == id
    &&& m.message_type == MessageType::Query
    &&& m.op_code == OP_QUERY
    &&& m.recursion_desired
    &&& m.response_code == NO_ERROR
    &&& m.queries.len() == 1
    &&& m.queries[0].query_type == TYPE_A
    &&& m.answers.len() == 0
}

/// The bytes of a standard query for the IPv4 addresses of `domain`.
pub fn build_dns_query(domain: &str, id: u16) -> (r: Result<Vec<u8>, String>)
    ensures
        match r {
            Ok(bytes) => {
                &&& query_bytes(domain@, id) == Ok::<Seq<u8>, Seq<char>>(bytes@)
                &&& parsed(bytes@, false) matches Ok(m)
                &&& standard_query(m, id)
                &&& m.id == id
                &&& m.message_type == MessageType::Query
                &&& m.op_code == OP_QUERY
                &&& m.recursion_desired
                &&& m.response_code == NO_ERROR
                &&& m.queries.len() == 1
                &&& m.queries[0].query_type == TYPE_A
                &&& m.answers.len() == 0
                &&& one_question(bytes@)
                &&& name_error(domain@) is None
                &&& plain_name(relative_name(domain@)) ==> m.domain() == Ok::<Seq<char>, Seq<char>>(
                    relative_name(domain@).push('.'),
                ) && name_error(relative_name(domain@).push('.')) is None
            },
            Err(e) => {
                &&& query_bytes(domain@, id) == Err::<Seq<u8>, Seq<char>>(e@)
                &&& name_error(domain@) == Some(e@)
                &&& !plain_name(relative_name(domain@))
            },
        },
{
    encode_query(domain, TYPE_A, id, MessageType::Query, OP_QUERY, true)
}

/// Turns `request` into an answer that gives the address `ip` for `domain`.
pub fn build_dns_response(
    request: DnsMessage,
    domain: &str,
    ip: IpAddr,
    ttl: u32,
) -> (r: Result<DnsMessage, String>)
    ensures
        match r {
            Ok(m) => name_error(domain@) is None && m@ == request@.answered(domain@, ip, ttl),
            Err(e) => name_error(domain@) == Some(e@),
        },
{
    match check_name(domain) {
        Ok(_) => {},
        Err(e) => {
            return Err(e);
        },
    }
    proof {
        use_type_invariant(&request);
    }
    let mut m: DnsMessage = request;
    // A message that does not say that it is an answer may not be taken for one.
    m.message_type = MessageType::Response;
    let mut answers: Vec<Answer> = Vec::new();
    std::mem::swap(&mut answers, &mut m.answers);
    answers.push(Answer::Added { name: domain.to_owned(), ttl, ip });
    assert(answer_views(answers@) =~= request@.answered(domain@, ip, ttl).answers);
    m.answers = answers;
    Ok(m)
}

/// Turns `request` into an answer that gives the addresses `entries` for `domain`.
pub fn build_dns_response_from_cache(
    request: DnsMessage,
    domain: &str,
    entries: &[(IpAddr, u32)],
) -> (r: Result<DnsMessage, String>)
    ensures
        match r {
            Ok(m) => name_error(domain@) is None && m@ == request@.answered_from(domain@, entries@),
            Err(e) => name_error(domain@) == Some(e@),
        },
{
    match check_name(domain) {
        Ok(_) => {},
        Err(e) => {
            return Err(e);
        },
    }
    proof {
        use_type_invariant(&request);
    }
    let mut m: DnsMessage = request;
    m.message_type = MessageType::Response;
    let mut answers: Vec<Answer> = Vec::new();
    std::mem::swap(&mut answers, &mut m.answers);
    let mut i: usize = 0;
    assert(answer_views(answers@) =~= request@.answered_from(domain@, entries@.take(0)).answers);
    while i < entries.len()
        invariant
            i <= entries@.len(),
            answer_views(answers@) == request@.answered_from(domain@, entries@.take(i as int)).answers,
        decreases entries@.len() - i,
    {
        let ghost before = answer_views(answers@);
        answers.push(
            Answer::Added { name: domain.to_owned(), ttl: entries[i].1, ip: entries[i].0 },
        );
        assert(answer_views(answers@) =~= before.push(
            AnswerView::Added { name: domain@, ttl: entries@[i as int].1, ip: entries@[i as int].0 },
        ));
        assert(answer_views(answers@) =~= request@.answered_from(domain@, entries@.take(i + 1)).answers);
        i = i + 1;
    }
    assert(entries@.take(entries@.len() as int) =~= entries@);
    m.answers = answers;
    Ok(m)
}

/// Drops the answers that give IPv6 addresses.
pub fn remove_ipv6_entries(message: &mut DnsMessage)
    ensures
        final(message)@ == old(message)@.without_ipv6(),
{
    proof {
        use_type_invariant(&*message);
    }
    let ghost all = message@.answers;
    let mut answers: Vec<Answer> = Vec::new();
    std::mem::swap(&mut answers, &mut message.answers);
    let ghost mut seen: int = 0;
    let mut i: usize = 0;
    reveal(Seq::filter);
    assert(answer_views(answers@) =~= all.take(0).filter(not_ipv6()) + all.skip(0));
    while i < answers.len()
        invariant
            0 <= seen <= all.len(),
            i == all.take(seen).filter(not_ipv6()).len(),
            answer_views(answers@) == all.take(seen).filter(not_ipv6()) + all.skip(seen),
        decreases all.len() - seen,
    {
        reveal(Seq::filter);
        let ghost before = answer_views(answers@);
        assert(seen < all.len());
        assert(all.take(seen + 1).drop_last() =~= all.take(seen));
        assert(all.take(seen + 1).last() == all[seen]);
        assert(before[i as int] == all[seen]);
        let ipv6: bool = match answer_address(&answers[i]) {
            Some(IpAddr::V6(_)) => true,
            _ => false,
        };
        assert(ipv6 == !not_ipv6()(all[seen]));
        if ipv6 {
            answers.remove(i);
            assert(answer_views(answers@) =~= before.remove(i as int));
            assert(answer_views(answers@) =~= all.take(seen + 1).filter(not_ipv6()) + all.skip(
                seen + 1,
            ));
        } else {
            i = i + 1;
            assert(before =~= all.take(seen + 1).filter(not_ipv6()) + all.skip(seen + 1));
        }
        proof {
            seen = seen + 1;
        }
    }
    assert(all.take(all.len() as int) =~= all);
    assert(answer_views(answers@) =~= all.filter(not_ipv6()));
    proof {
        let kept = answer_views(answers@);
        assert forall|k: int| 0 <= k < kept.len() implies exists|j: int|
            0 <= j < all.len() && all[j] == #[trigger] kept[k] by {
            all.lemma_filter_contains_rev(not_ipv6(), kept[k]);
        }
    }
    message.answers = answers;
}

/// The address that the message answers with, or the reason why there is none.
pub fn extract_ipaddr_from_dns_message(message: &DnsMessage) -> (r: Result<IpAddr, String>)
    ensures
        match r {
            Ok(ip) => message@.address() == Ok::<IpAddr, Seq<char>>(ip),
            Err(e) => message@.address() == Err::<IpAddr, Seq<char>>(e@),
        },
{
    proof {
        use_type_invariant(message);
    }
    if message.response_code != NO_ERROR {
        return Err(show_response_code(message.response_code));
    }
    let ghost all = message@.answers;
    let mut cname: Option<String> = None;
    let mut kept: Vec<usize> = Vec::new();
    let mut i: usize = 0;
    assert(all.skip(0) =~= all);
    assert(all.take(0) =~= seq![]);
    while i < message.answers.len()
        invariant
            i <= all.len(),
            message@.wf(),
            all == message@.answers,
            all == answer_views(message.answers@),
            first_address(all) == first_address(all.skip(i as int)),
            message@.response_code == NO_ERROR,
            match cname {
                Some(name) => last_alias(all.take(i as int)) == Some(name@),
                None => last_alias(all.take(i as int)) is None,
            },
            kept@ == places(all.take(i as int)),
            dns_message(message@.wire) matches Ok(m) && forall|k: int|
                0 <= k < i ==> (#[trigger] kept@[k]) < m.answers.len(),
        decreases all.len() - i,
    {
        assert(all.skip(i as int).first() == all[i as int]);
        assert(all.skip(i as int).drop_first() =~= all.skip(i + 1));
        assert(all.take(i + 1).last() == all[i as int]);
        assert(all.take(i + 1).drop_last() =~= all.take(i as int));
        let answer: &Answer = &message.answers[i];
        if let Some(ip) = answer_address(answer) {
            return Ok(ip);
        }
        if let Answer::Received { index, data, .. } = answer {
            if let RecordData::Cname(name) = data {
                cname = Some(name.clone());
            }
            kept.push(*index);
            assert(kept@ =~= places(all.take(i + 1)));
        }
        i = i + 1;
    }
    assert(all.take(all.len() as int) =~= all);
    if let Some(name) = cname {
        return Err(name);
    }
    Err(show_answers(message.wire.as_slice(), kept.as_slice()))
}

/// The addresses in the answers with their times to live, in their order.
pub fn extract_ip_ttl_pairs_from_dns_message(message: &DnsMessage) -> (r: Vec<(IpAddr, u32)>)
    ensures
        r@ == message@.dated_addresses(),
{
    let ghost all = message@.answers;
    let mut r: Vec<(IpAddr, u32)> = Vec::new();
    let mut i: usize = 0;
    assert(r@ =~= all.take(0).filter_map(dated_address()));
    while i < message.answers.len()
        invariant
            i <= all.len(),
            all == answer_views(message.answers@),
            r@ == all.take(i as int).filter_map(dated_address()),
        decreases all.len() - i,
    {
        let ghost before = r@;
        assert(all.take(i + 1).last() == all[i as int]);
        assert(all.take(i + 1).drop_last() =~= all.take(i as int));
        if let Some(ip) = answer_address(&message.answers[i]) {
            let ttl: u32 = answer_ttl(&message.answers[i]);
            r.push((ip, ttl));
            assert(r@ =~= before + seq![(ip, ttl)]);
        }
        i = i + 1;
    }
    assert(all.take(all.len() as int) =~= all);
    r
}

/// The addresses in the answers, in their order.
pub fn extract_all_ipaddrs_from_dns_message(message: &DnsMessage) -> (r: Vec<IpAddr>)
    ensures
        r@ == message@.addresses(),
{
    let ghost all = message@.answers;
    let ghost address = |a: AnswerView| a.address();
    let mut r: Vec<IpAddr> = Vec::new();
    let mut i: usize = 0;
    assert(r@ =~= all.take(0).filter_map(address));
    while i < message.answers.len()
        invariant
            i <= all.len(),
            all == answer_views(message.answers@),
            address == (|a: AnswerView| a.address()),
            r@ == all.take(i as int).filter_map(address),
        decreases all.len() - i,
    {
        let ghost before = r@;
        assert(all.take(i + 1).last() == all[i as int]);
        assert(all.take(i + 1).drop_last() =~= all.take(i as int));
        if let Some(ip) = answer_address(&message.answers[i]) {
            r.push(ip);
            assert(r@ =~= before + seq![ip]);
        }
        i = i + 1;
    }
    assert(all.take(all.len() as int) =~= all);
    r
}

/// The name for which the message asks.
pub fn extract_domain_from_dns_message(message: &DnsMessage) -> (r: Result<String, String>)
    ensures
        match r {
            Ok(name) => message@.domain() == Ok::<Seq<char>, Seq<char>>(name@),
            Err(e) => message@.domain() == Err::<Seq<char>, Seq<char>>(e@),
        },
{
    if message.queries.len() == 0 {
        return Err("DnsRequest no query body".to_owned());
    }
    Ok(message.queries[0].name.clone())
}

/// Reads a message, which is preceded by its length where it came over TCP.
pub fn parse_data_to_dns_message(data: &[u8], used_by_tcp: bool) -> (r: Result<DnsMessage, String>)
    ensures
        match r {
            Ok(m) => parsed(data@, used_by_tcp) == Ok::<MessageView, Seq<char>>(m@),
            Err(e) => parsed(data@, used_by_tcp) == Err::<MessageView, Seq<char>>(e@),
        },
{
    if used_by_tcp {
        if data.len() < 2 {
            return Err("invalid dns data".to_owned());
        }
        let len: usize = data[0] as usize * 256 + data[1] as usize;
        if len + 2 > data.len() {
            return Err("invalid dns data".to_owned());
        }
        return read_message(vstd::slice::slice_subrange(data, 2, len + 2));
    }
    read_message(data)
}

/// The addresses among the records, with their times to live.
pub open spec fn address_pairs(records: Seq<DnsRecordView>) -> Seq<(IpAddr, u32)> {
    records.filter_map(
        |r: DnsRecordView|
            match r {
                DnsRecordView::A(addr, ttl) => Some((IpAddr::V4(addr), ttl)),
                DnsRecordView::AAAA(addr, ttl) => Some((IpAddr::V6(addr), ttl)),
                DnsRecordView::Cname(_, _, _) => None,
            },
    )
}

/// Records that give the addresses `pairs`, with their times to live.
pub open spec fn pair_records(pairs: Seq<(IpAddr, u32)>) -> Seq<DnsRecordView> {
    Seq::new(
        pairs.len(),
        |i: int|
            match pairs[i].0 {
                IpAddr::V4(addr) => DnsRecordView::A(addr, pairs[i].1),
                IpAddr::V6(addr) => DnsRecordView::AAAA(addr, pairs[i].1),
            },
    )
}

fn addresses_in(records: &Vec<DnsRecord>) -> (r: Vec<(IpAddr, u32)>)
    ensures
        r@ == address_pairs(record_views(records@)),
{
    let ghost all = record_views(records@);
    let mut r: Vec<(IpAddr, u32)> = Vec::new();
    let mut i: usize = 0;
    assert(r@ =~= address_pairs(all.take(0)));
    while i < records.len()
        invariant
            i <= records@.len(),
            all == record_views(records@),
            r@ == address_pairs(all.take(i as int)),
        decreases records@.len() - i,
    {
        let ghost before = r@;
        assert(all.take(i + 1).last() == records@[i as int]@);
        assert(all.take(i + 1).drop_last() =~= all.take(i as int));
        match &records[i] {
            DnsRecord::A(addr, ttl) => {
                r.push((IpAddr::V4(*addr), *ttl));
                assert(r@ =~= before + seq![(IpAddr::V4(*addr), *ttl)]);
            },
            DnsRecord::AAAA(addr, ttl) => {
                r.push((IpAddr::V6(*addr), *ttl));
                assert(r@ =~= before + seq![(IpAddr::V6(*addr), *ttl)]);
            },
            DnsRecord::Cname(_, _, _) => {},
        }
        i = i + 1;
    }
    assert(all.take(all.len() as int) =~= all);
    r
}

/// Records that give the addresses `pairs`, with their times to live.
pub fn records_from_pairs(pairs: &[(IpAddr, u32)]) -> (r: Vec<DnsRecord>)
    ensures
        record_views(r@) == pair_records(pairs@),
{
    let mut r: Vec<DnsRecord> = Vec::new();
    let mut i: usize = 0;
    while i < pairs.len()
        invariant
            i <= pairs@.len(),
            r@.len() == i,
            forall|j: int| 0 <= j < i ==> (#[trigger] r@[j])@ == pair_records(pairs@)[j],
        decreases pairs@.len() - i,
    {
        r.push(
            match pairs[i].0 {
                IpAddr::V4(addr) => DnsRecord::A(addr, pairs[i].1),
                IpAddr::V6(addr) => DnsRecord::AAAA(addr, pairs[i].1),
            },
        );
        i = i + 1;
    }
    assert(record_views(r@) =~= pair_records(pairs@));
    r
}

/// The message that answers `query` from `cache` at `now`: with the addresses that the cache
/// holds for the name in question, without IPv6 addresses where those are not wanted.
pub open spec fn cached_answer(
    query: Seq<u8>,
    cache: CacheView,
    ipv6_enabled: bool,
    now: nat,
) -> Option<MessageView> {
    match dns_message(query) {
        Err(_) => None,
        Ok(m) => match m.domain() {
            Err(_) => None,
            Ok(domain) => match cache.records(domain, now) {
                None => None,
                Some(records) => if name_error(domain) is Some {
                    None
                } else {
                    let full = m.answered_from(domain, address_pairs(records));
                    let answer = if ipv6_enabled { full } else { full.without_ipv6() };
                    if answer.answers.len() == 0 {
                        None
                    } else {
                        Some(answer)
                    }
                },
            },
        },
    }
}

/// The bytes that answer `query` from `cache` at `now`.
pub open spec fn cached_answer_bytes(
    query: Seq<u8>,
    cache: CacheView,
    ipv6_enabled: bool,
    now: nat,
) -> Option<Seq<u8>> {
    match cached_answer(query, cache, ipv6_enabled, now) {
        None => None,
        Some(m) => match m.encoding() {
            Ok(bytes) => Some(bytes),
            Err(_) => None,
        },
    }
}

/// Whether `bytes` says that it answers `query`: it has the identifier of `query`, and it is
/// marked as an answer.
pub open spec fn answers_query(bytes: Seq<u8>, query: Seq<u8>) -> bool {
    &&& bytes.len() >= 12
    &&& query.len() >= 12
    &&& bytes[0] == query[0]
    &&& bytes[1] == query[1]
    &&& bytes[2] >= 128
}

/// Whether `r` is what `query` is answered with from `cache` at `now`: the bytes of the answer,
/// which say that they answer the query. Where the query holds one question and nothing
/// beyond answers that are known, there are bytes whenever there is an answer, and they read
/// as it unless they were cut off.
pub open spec fn resolves(
    query: Seq<u8>,
    cache: CacheView,
    ipv6_enabled: bool,
    now: nat,
    r: Option<Seq<u8>>,
) -> bool {
    &&& r == cached_answer_bytes(query, cache, ipv6_enabled, now)
    &&& match (cached_answer(query, cache, ipv6_enabled, now), r) {
        (Some(m), Some(bytes)) => answers_query(bytes, query) && (one_question(query)
            && known_answers(m.answers) && is_whole(bytes) ==> reads_as(bytes, m)),
        (Some(m), None) => !(one_question(query) && known_answers(m.answers)),
        (None, _) => r is None,
    }
}

/// Bytes, in mathematical terms.
pub open spec fn bytes_view(bytes: Option<Vec<u8>>) -> Option<Seq<u8>> {
    match bytes {
        Some(b) => Some(b@),
        None => None,
    }
}

/// Answers `query` from `cache` at the present moment, where the cache holds an address that
/// may be given.
pub fn try_resolve_from_cache(
    query: &[u8],
    cache: &DnsCache,
    ipv6_enabled: bool,
) -> (r: Option<Vec<u8>>)
    ensures
        exists|now: nat|
            now <= LATEST && #[trigger] resolves(query@, cache@, ipv6_enabled, now, bytes_view(r)),
{
    let now: u128 = cache.now();
    try_resolve_from_cache_at(query, cache, ipv6_enabled, now)
}

/// Answers `query` from `cache` at `now`, where the cache holds an address that may be
/// given.
pub fn try_resolve_from_cache_at(
    query: &[u8],
    cache: &DnsCache,
    ipv6_enabled: bool,
    now: u128,
) -> (r: Option<Vec<u8>>)
    ensures
        resolves(query@, cache@, ipv6_enabled, now as nat, bytes_view(r)),
{
    let request: DnsMessage = match parse_data_to_dns_message(query, false) {
        Ok(m) => m,
        Err(_) => {
            return None;
        },
    };
    proof {
        use_type_invariant(&request);
    }
    let domain: String = match extract_domain_from_dns_message(&request) {
        Ok(d) => d,
        Err(_) => {
            return None;
        },
    };
    let records: Vec<DnsRecord> = match cache.lookup_with_ttl_at(domain.as_str(), now) {
        Some(r) => r,
        None => {
            return None;
        },
    };
    let pairs: Vec<(IpAddr, u32)> = addresses_in(&records);
    let mut answer: DnsMessage = match build_dns_response_from_cache(
        request,
        domain.as_str(),
        pairs.as_slice(),
    ) {
        Ok(m) => m,
        Err(_) => {
            return None;
        },
    };
    if !ipv6_enabled {
        remove_ipv6_entries(&mut answer);
    }
    if answer.answers.len() == 0 {
        return None;
    }
    match answer.to_vec() {
        Ok(bytes) => Some(bytes),
        Err(_) => None,
    }
}

} // verus!
