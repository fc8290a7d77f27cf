//! What DNS messages promise over several operations.

use vstd::prelude::*;

use crate::cache_laws::{aged, all_hold};
use crate::dns::{
    address_pairs, answers_text, cached_answer, dated_address, dns_message, first_address, is_whole,
    known_answers, last_alias, name_error, not_ipv6, one_question, pair_records, parsed, places,
    plain_name, reads_as, received, relative_name, resolves, response_code_text, standard_query,
    AnswerView, MessageType, MessageView, RecordDataView,
};
use crate::dns_mapping::{
    cached, given_out, gives_address, has_address, remaining, CacheView, DnsRecordView,
};
use crate::dns_over_tcp::{handed_message, handed_on};
use crate::net::{IpAddr, Ipv4Addr, Ipv6Addr};
use crate::text::{is_dot, lower, lower_char, normal_domain, strip_end};

verus! {

/// The addresses of `pairs` that may be given: all, or the IPv4 ones.
pub open spec fn allowed(pairs: Seq<(IpAddr, u32)>, ipv6_enabled: bool) -> Seq<IpAddr> {
    pairs.filter_map(
        |p: (IpAddr, u32)|
            if ipv6_enabled || p.0 is V4 {
                Some(p.0)
            } else {
                None
            },
    )
}

impl MessageView {
    /// An answer keeps the identifier and the questions of the query, and says that it is an
    /// answer; the addresses that were added come last, in their order and with their times
    /// to live.
    pub proof fn law_answer_keeps_question(self, domain: Seq<char>, entries: Seq<(IpAddr, u32)>)
        ensures
            self.answered_from(domain, entries).id == self.id,
            self.answered_from(domain, entries).queries == self.queries,
            self.answered_from(domain, entries).message_type == MessageType::Response,
            self.answered_from(domain, entries).dated_addresses() == self.dated_addresses()
                + entries,
        decreases entries.len(),
    {
        let a = self.answered_from(domain, entries);
        if entries.len() == 0 {
            assert(a.answers =~= self.answers);
            assert(self.dated_addresses() + entries =~= self.dated_addresses());
        } else {
            let before = self.answered_from(domain, entries.drop_last());
            self.law_answer_keeps_question(domain, entries.drop_last());
            assert(a.answers.drop_last() =~= before.answers);
            assert(a.answers.last() == (AnswerView::Added {
                name: domain,
                ttl: entries.last().1,
                ip: entries.last().0,
            }));
            assert(entries =~= entries.drop_last() + seq![entries.last()]);
            assert((self.dated_addresses() + entries.drop_last()) + seq![entries.last()]
                =~= self.dated_addresses() + entries);
        }
    }

    /// One address is added as a list of one.
    pub proof fn law_one_answer(self, domain: Seq<char>, ip: IpAddr, ttl: u32)
        ensures
            self.answered(domain, ip, ttl) == self.answered_from(domain, seq![(ip, ttl)]),
    {
        assert(self.answered(domain, ip, ttl).answers =~= self.answered_from(
            domain,
            seq![(ip, ttl)],
        ).answers);
    }

    /// Without IPv6 addresses a message gives the IPv4 addresses that it gave, in their order,
    /// and no other; to drop them once more changes nothing.
    pub proof fn law_without_ipv6(self)
        ensures
            self.without_ipv6().dated_addresses() == self.dated_addresses().filter(
                |p: (IpAddr, u32)| p.0 is V4,
            ),
            self.without_ipv6().without_ipv6() == self.without_ipv6(),
            self.without_ipv6().answers.len() <= self.answers.len(),
        decreases self.answers.len(),
    {
        reveal(Seq::filter);
        lemma_filter_twice(self.answers);
        self.answers.lemma_filter_len(not_ipv6());
        lemma_filter_pairs(self.answers);
    }

    /// The address that a message answers with is the first of its addresses.
    pub proof fn law_address_is_first(self)
        requires
            self.response_code == 0,
        ensures
            self.addresses().len() > 0 ==> self.address() == Ok::<IpAddr, Seq<char>>(
                self.addresses()[0],
            ),
            self.addresses().len() == 0 ==> self.address() is Err,
    {
        lemma_first_address(self.answers);
    }

    /// An answer that was added names the domain, and gives the address and the time to live
    /// that were to be added; all else in the message is as it was.
    pub proof fn law_added_answers(
        self,
        domain: Seq<char>,
        entries: Seq<(IpAddr, u32)>,
        i: int,
    )
        ensures
            ({
                let a = self.answered_from(domain, entries);
                let old = self.answers.len() as int;
                &&& a.answers.len() == old + entries.len()
                &&& 0 <= i < old ==> a.answers[i] == self.answers[i]
                &&& old <= i < a.answers.len() ==> a.answers[i] == (AnswerView::Added {
                    name: domain,
                    ttl: entries[i - old].1,
                    ip: entries[i - old].0,
                })
                &&& a.message_type == MessageType::Response
                &&& a.wire == self.wire
                &&& a.id == self.id
                &&& a.op_code == self.op_code
                &&& a.recursion_desired == self.recursion_desired
                &&& a.response_code == self.response_code
                &&& a.queries == self.queries
            }),
    {
    }

    /// Whether every answer that is not one of `other` was added, and names `name`.
    pub open spec fn adds_only(self, other: MessageView, name: Seq<char>) -> bool {
        forall|i: int|
            0 <= i < self.answers.len() ==> other.answers.contains(#[trigger] self.answers[i]) || (
            self.answers[i] matches AnswerView::Added { name: n, .. } && n == name)
    }

    /// A message without answers gives no address, and keeps its answers as they are.
    pub proof fn law_no_answers(self)
        requires
            self.answers.len() == 0,
        ensures
            self.addresses().len() == 0,
            self.dated_addresses().len() == 0,
            self.without_ipv6() == self,
            self.response_code == 0 ==> self.address() == Err::<IpAddr, Seq<char>>(
                answers_text(self.wire, seq![]),
            ),
    {
        reveal(Seq::filter);
        assert(self.without_ipv6().answers =~= self.answers);
        assert(places(self.answers) =~= seq![]);
    }

    /// What one more answer changes. The addresses of A and AAAA records, and those that were
    /// added, come behind those before, with the time to live of their answer; aliases and
    /// other records give none. Exactly the answers that give an IPv6 address are dropped. The
    /// address that the message answers with is the first one, and without one the name of the
    /// latest alias is told.
    pub proof fn law_one_more_answer(self, a: AnswerView)
        ensures
            ({
                let more = MessageView { answers: self.answers.push(a), ..self };
                let ip = match a {
                    AnswerView::Received { data: RecordDataView::A(v4), .. } => Some(IpAddr::V4(v4)),
                    AnswerView::Received { data: RecordDataView::AAAA(v6), .. } => Some(
                        IpAddr::V6(v6),
                    ),
                    AnswerView::Received { .. } => None,
                    AnswerView::Added { ip, .. } => Some(ip),
                };
                let ttl = match a {
                    AnswerView::Received { ttl, .. } => ttl,
                    AnswerView::Added { ttl, .. } => ttl,
                };
                &&& more.addresses() == (if ip is Some {
                    self.addresses().push(ip->0)
                } else {
                    self.addresses()
                })
                &&& more.dated_addresses() == (if ip is Some {
                    self.dated_addresses().push((ip->0, ttl))
                } else {
                    self.dated_addresses()
                })
                &&& more.without_ipv6() == (MessageView {
                    answers: if ip is Some && ip->0 is V6 {
                        self.without_ipv6().answers
                    } else {
                        self.without_ipv6().answers.push(a)
                    },
                    ..self
                })
                &&& self.response_code == 0 ==> {
                    &&& self.address() is Ok ==> more.address() == self.address()
                    &&& self.address() is Err && ip is Some ==> more.address() == Ok::<
                        IpAddr,
                        Seq<char>,
                    >(ip->0)
                    &&& self.address() is Err && ip is None ==> more.address() is Err
                    &&& self.address() is Err ==> (a matches AnswerView::Received {
                        data: RecordDataView::Cname(name),
                        ..
                    } ==> more.address() == Err::<IpAddr, Seq<char>>(name))
                    &&& self.address() is Err && ip is None && last_alias(self.answers) is Some && !(
                    a matches AnswerView::Received { data: RecordDataView::Cname(name), .. })
                        ==> more.address() == self.address()
                }
            }),
    {
        reveal(Seq::filter);
        let more = MessageView { answers: self.answers.push(a), ..self };
        assert(more.answers.drop_last() =~= self.answers);
        lemma_first_push(self.answers, a);
        match a.address() {
            Some(ip) => {
                assert(self.addresses() + seq![ip] =~= self.addresses().push(ip));
                assert(self.dated_addresses() + seq![(ip, a.ttl())] =~= self.dated_addresses().push(
                    (ip, a.ttl()),
                ));
            },
            None => {},
        }
    }

    /// A message with an error code answers with no address, whatever its answers give: the
    /// code is told.
    pub proof fn law_error_code(self)
        requires
            self.response_code != 0,
        ensures
            self.address() == Err::<IpAddr, Seq<char>>(response_code_text(self.response_code)),
    {
    }

    /// A message with neither addresses nor aliases tells its answers, each by its place in
    /// the bytes of the message.
    pub proof fn law_other_answers(self)
        requires
            self.response_code == 0,
            forall|i: int|
                0 <= i < self.answers.len() ==> (#[trigger] self.answers[i]).address() is None
                    && self.answers[i].alias_target() is None,
        ensures
            self.address() == Err::<IpAddr, Seq<char>>(
                answers_text(
                    self.wire,
                    Seq::new(
                        self.answers.len(),
                        |i: int| self.answers[i]->Received_index as usize,
                    ),
                ),
            ),
    {
        lemma_neither(self.answers);
        assert(places(self.answers) =~= Seq::new(
            self.answers.len(),
            |i: int| self.answers[i]->Received_index as usize,
        ));
    }
}

proof fn lemma_neither(answers: Seq<AnswerView>)
    requires
        forall|i: int|
            0 <= i < answers.len() ==> (#[trigger] answers[i]).address() is None
                && answers[i].alias_target() is None,
    ensures
        first_address(answers) is None,
        last_alias(answers) is None,
    decreases answers.len(),
{
    if answers.len() > 0 {
        let before = answers.drop_last();
        assert forall|i: int| 0 <= i < before.len() implies (#[trigger] before[i]).address() is None
            && before[i].alias_target() is None by {
            assert(before[i] == answers[i]);
        }
        lemma_neither(before);
        lemma_first_push(before, answers.last());
        assert(before.push(answers.last()) =~= answers);
        assert(answers[answers.len() - 1].address() is None);
    }
}

/// A message over TCP comes behind its length, and is the same message as over UDP, whatever
/// follows it. With fewer bytes than the length says there is no message.
pub proof fn law_parsed(msg: Seq<u8>, more: Seq<u8>, high: u8, low: u8, data: Seq<u8>)
    requires
        msg.len() == high * 256 + low,
    ensures
        parsed(seq![high, low] + msg + more, true) == dns_message(msg),
        parsed(msg, false) == dns_message(msg),
        data.len() < msg.len() ==> parsed(seq![high, low] + data, true) == Err::<
            MessageView,
            Seq<char>,
        >("invalid dns data"@),
        data.len() < 2 ==> parsed(data, true) == Err::<MessageView, Seq<char>>("invalid dns data"@),
{
    let all = seq![high, low] + msg + more;
    assert(all.subrange(2, msg.len() as int + 2) =~= msg);
}

/// Records of addresses are taken to their addresses and times to live, in their order, and
/// aliases are left out.
pub proof fn law_address_pairs(
    records: Seq<DnsRecordView>,
    v4: Ipv4Addr,
    v6: Ipv6Addr,
    alias: DnsRecordView,
    ttl: u32,
)
    requires
        alias is Cname,
    ensures
        address_pairs(Seq::<DnsRecordView>::empty()) == Seq::<(IpAddr, u32)>::empty(),
        address_pairs(records.push(DnsRecordView::A(v4, ttl))) == address_pairs(records).push(
            (IpAddr::V4(v4), ttl),
        ),
        address_pairs(records.push(DnsRecordView::AAAA(v6, ttl))) == address_pairs(records).push(
            (IpAddr::V6(v6), ttl),
        ),
        address_pairs(records.push(alias)) == address_pairs(records),
{
    assert(records.push(DnsRecordView::A(v4, ttl)).drop_last() =~= records);
    assert(records.push(DnsRecordView::AAAA(v6, ttl)).drop_last() =~= records);
    assert(records.push(alias).drop_last() =~= records);
    assert(address_pairs(records) + seq![(IpAddr::V4(v4), ttl)] =~= address_pairs(records).push(
        (IpAddr::V4(v4), ttl),
    ));
    assert(address_pairs(records) + seq![(IpAddr::V6(v6), ttl)] =~= address_pairs(records).push(
        (IpAddr::V6(v6), ttl),
    ));
}

/// Addresses that were written into records are found there again, with their times to live
/// and in their order, one record each.
pub proof fn law_pair_records(pairs: Seq<(IpAddr, u32)>)
    ensures
        pair_records(pairs).len() == pairs.len(),
        address_pairs(pair_records(pairs)) == pairs,
    decreases pairs.len(),
{
    let records = pair_records(pairs);
    if pairs.len() > 0 {
        law_pair_records(pairs.drop_last());
        assert(records.drop_last() =~= pair_records(pairs.drop_last()));
        assert(pairs =~= pairs.drop_last() + seq![pairs.last()]);
    } else {
        assert(address_pairs(records) =~= pairs);
    }
}

/// A query is answered from the cache exactly with the addresses that the cache holds then for
/// the name in its first question, with the times that they have left, behind what it gave
/// already; without IPv6 addresses where those are not wanted. All else in it stays as it
/// was, but that it is an answer now, and what was added names that name. There is no answer
/// to what cannot be read, has no question, asks for what is no name or for a name that the
/// cache does not hold, or would give no answer at all.
pub proof fn law_cached_answer(query: Seq<u8>, cache: CacheView, ipv6_enabled: bool, now: nat)
    ensures
        ({
            let r = cached_answer(query, cache, ipv6_enabled, now);
            &&& dns_message(query) is Err ==> r is None
            &&& dns_message(query) matches Ok(m) ==> {
                let name = m.queries[0].name;
                let held = cache.records(name, now);
                &&& m.queries.len() == 0 ==> r is None
                &&& m.queries.len() > 0 && (name_error(name) is Some || held is None) ==> r is None
                &&& m.queries.len() > 0 && name_error(name) is None && held is Some ==> {
                    let pairs = address_pairs(held->0);
                    let all = m.dated_addresses() + pairs;
                    &&& m.answers.len() == 0 ==> (r is None <==> allowed(pairs, ipv6_enabled).len()
                        == 0)
                    &&& m.answers.len() > 0 && r is None ==> !ipv6_enabled && all.filter(
                        |p: (IpAddr, u32)| p.0 is V4,
                    ).len() == 0
                    &&& r matches Some(a) ==> {
                        &&& a.dated_addresses() == (if ipv6_enabled {
                            all
                        } else {
                            all.filter(|p: (IpAddr, u32)| p.0 is V4)
                        })
                        &&& a == (MessageView {
                            message_type: MessageType::Response,
                            answers: a.answers,
                            ..m
                        })
                        &&& a.adds_only(m, name)
                    }
                }
            }
        }),
{
    if let Ok(m) = dns_message(query) {
        let name = m.queries[0].name;
        if m.queries.len() > 0 && name_error(name) is None && cache.records(name, now) is Some {
            lemma_full_answer(m, name, address_pairs(cache.records(name, now)->0), ipv6_enabled);
        }
    }
}

proof fn lemma_full_answer(
    m: MessageView,
    name: Seq<char>,
    pairs: Seq<(IpAddr, u32)>,
    ipv6_enabled: bool,
)
    ensures
        ({
            let full = m.answered_from(name, pairs);
            let answer = if ipv6_enabled { full } else { full.without_ipv6() };
            let all = m.dated_addresses() + pairs;
            &&& m.answers.len() == 0 ==> answer.answers.len() == allowed(pairs, ipv6_enabled).len()
            &&& answer.answers.len() == 0 ==> answer.dated_addresses().len() == 0
            &&& ipv6_enabled ==> answer.answers.len() == m.answers.len() + pairs.len()
            &&& answer.dated_addresses() == (if ipv6_enabled {
                all
            } else {
                all.filter(|p: (IpAddr, u32)| p.0 is V4)
            })
            &&& answer.adds_only(m, name)
        }),
{
    let full = m.answered_from(name, pairs);
    let answer = if ipv6_enabled { full } else { full.without_ipv6() };
    m.law_answer_keeps_question(name, pairs);
    full.law_without_ipv6();
    if m.answers.len() == 0 {
        lemma_added_addresses(m, name, pairs, ipv6_enabled);
    }
    if answer.answers.len() == 0 {
        answer.law_no_answers();
    }
    assert forall|i: int| 0 <= i < full.answers.len() implies m.answers.contains(
        #[trigger] full.answers[i],
    ) || (full.answers[i] matches AnswerView::Added { name: n, .. } && n == name) by {
        if i < m.answers.len() {
            assert(full.answers[i] == m.answers[i]);
        }
    }
    assert forall|i: int| 0 <= i < answer.answers.len() implies m.answers.contains(
        #[trigger] answer.answers[i],
    ) || (answer.answers[i] matches AnswerView::Added { name: n, .. } && n == name) by {
        if !ipv6_enabled {
            full.answers.lemma_filter_contains_rev(not_ipv6(), answer.answers[i]);
            let j = choose|j: int| 0 <= j < full.answers.len() && full.answers[j] == answer.answers[i];
            assert(full.answers[j] == answer.answers[i]);
        }
    }
}

proof fn lemma_first_address(answers: Seq<AnswerView>)
    ensures
        ({
            let ips = answers.filter_map(|a: AnswerView| a.address());
            first_address(answers) == (if ips.len() > 0 {
                Some(ips[0])
            } else {
                None
            })
        }),
    decreases answers.len(),
{
    if answers.len() > 0 {
        lemma_first_address(answers.drop_last());
        lemma_first_push(answers.drop_last(), answers.last());
        assert(answers.drop_last().push(answers.last()) =~= answers);
    }
}

proof fn lemma_first_push(answers: Seq<AnswerView>, a: AnswerView)
    ensures
        first_address(answers.push(a)) == (match first_address(answers) {
            Some(ip) => Some(ip),
            None => a.address(),
        }),
    decreases answers.len(),
{
    if answers.len() > 0 {
        lemma_first_push(answers.drop_first(), a);
        assert(answers.push(a).drop_first() =~= answers.drop_first().push(a));
    } else {
        assert(answers.push(a).drop_first() =~= seq![]);
        assert(first_address(Seq::<AnswerView>::empty()) is None);
    }
}

proof fn lemma_filter_twice(answers: Seq<AnswerView>)
    ensures
        answers.filter(not_ipv6()).filter(not_ipv6()) == answers.filter(not_ipv6()),
    decreases answers.len(),
{
    reveal(Seq::filter);
    if answers.len() > 0 {
        lemma_filter_twice(answers.drop_last());
        let kept = answers.drop_last().filter(not_ipv6());
        assert(kept.push(answers.last()).drop_last() =~= kept);
    }
}

proof fn lemma_filter_pairs(answers: Seq<AnswerView>)
    ensures
        answers.filter(not_ipv6()).filter_map(dated_address()) == answers.filter_map(
            dated_address(),
        ).filter(|p: (IpAddr, u32)| p.0 is V4),
    decreases answers.len(),
{
    reveal(Seq::filter);
    let v4 = |p: (IpAddr, u32)| p.0 is V4;
    if answers.len() > 0 {
        lemma_filter_pairs(answers.drop_last());
        let last = answers.last();
        let kept = answers.drop_last().filter(not_ipv6());
        let pairs = answers.drop_last().filter_map(dated_address());
        assert(kept.push(last).drop_last() =~= kept);
        match last.address() {
            Some(ip) => {
                let p = (ip, last.ttl());
                assert(pairs + seq![p] =~= pairs.push(p));
                assert(pairs.push(p).drop_last() =~= pairs);
                assert(pairs.filter(v4) + seq![p] =~= pairs.filter(v4).push(p));
            },
            None => {},
        }
    }
}

/// The addresses of `pairs` with other times to live.
spec fn redated(pairs: Seq<(IpAddr, u32)>, now: nat, t: nat) -> Seq<(IpAddr, u32)> {
    Seq::new(
        pairs.len(),
        |i: int| (pairs[i].0, remaining(cached(pair_records(pairs)[i], now).expiry, t)),
    )
}

proof fn lemma_aged_pairs(pairs: Seq<(IpAddr, u32)>, now: nat, t: nat)
    ensures
        address_pairs(aged(pair_records(pairs), now, t)) == redated(pairs, now, t),
    decreases pairs.len(),
{
    let a = aged(pair_records(pairs), now, t);
    if pairs.len() > 0 {
        lemma_aged_pairs(pairs.drop_last(), now, t);
        assert(a.drop_last() =~= aged(pair_records(pairs.drop_last()), now, t)) by {
            assert forall|i: int| 0 <= i < a.len() - 1 implies a[i] == aged(
                pair_records(pairs.drop_last()),
                now,
                t,
            )[i] by {
                assert(pair_records(pairs)[i] == pair_records(pairs.drop_last())[i]);
            }
        }
        assert(a.last() == given_out(cached(pair_records(pairs).last(), now), t));
        assert(redated(pairs, now, t) =~= redated(pairs.drop_last(), now, t) + seq![
            (
                pairs.last().0,
                remaining(cached(pair_records(pairs)[pairs.len() - 1], now).expiry, t),
            ),
        ]);
    } else {
        assert(address_pairs(a) =~= redated(pairs, now, t));
    }
}

proof fn lemma_allowed_redated(
    pairs: Seq<(IpAddr, u32)>,
    other: Seq<(IpAddr, u32)>,
    ipv6_enabled: bool,
)
    requires
        pairs.len() == other.len(),
        forall|i: int| 0 <= i < pairs.len() ==> (#[trigger] pairs[i]).0 == other[i].0,
    ensures
        allowed(pairs, ipv6_enabled) == allowed(other, ipv6_enabled),
    decreases pairs.len(),
{
    if pairs.len() > 0 {
        assert forall|i: int| 0 <= i < pairs.drop_last().len() implies (
        #[trigger] pairs.drop_last()[i]).0 == other.drop_last()[i].0 by {
            assert(pairs[i].0 == other[i].0);
        }
        lemma_allowed_redated(pairs.drop_last(), other.drop_last(), ipv6_enabled);
        assert(pairs[pairs.len() - 1].0 == other[other.len() - 1].0);
    }
}

proof fn lemma_added_addresses(
    m: MessageView,
    domain: Seq<char>,
    entries: Seq<(IpAddr, u32)>,
    ipv6_enabled: bool,
)
    requires
        m.answers.len() == 0,
    ensures
        ({
            let full = m.answered_from(domain, entries);
            let answer = if ipv6_enabled { full } else { full.without_ipv6() };
            answer.addresses() == allowed(entries, ipv6_enabled) && answer.answers.len() == allowed(
                entries,
                ipv6_enabled,
            ).len()
        }),
    decreases entries.len(),
{
    reveal(Seq::filter);
    let full = m.answered_from(domain, entries);
    if entries.len() == 0 {
        assert(full.answers =~= seq![]);
        assert(full.without_ipv6().answers =~= seq![]);
        assert(full.addresses() =~= allowed(entries, ipv6_enabled));
        assert(full.without_ipv6().addresses() =~= allowed(entries, ipv6_enabled));
    } else {
        lemma_added_addresses(m, domain, entries.drop_last(), ipv6_enabled);
        let before = m.answered_from(domain, entries.drop_last());
        let last = AnswerView::Added { name: domain, ttl: entries.last().1, ip: entries.last().0 };
        assert(full.answers =~= before.answers.push(last));
        assert(full.answers.drop_last() =~= before.answers);
        let kept = before.answers.filter(not_ipv6());
        assert(kept.push(last).drop_last() =~= kept);
    }
}

/// What was taken into the cache for a name answers the next query for it, under every way
/// to write the name: with the addresses that may be given, in their order, and with the
/// identifier and the question of the query.
pub proof fn law_cache_answers_query(
    query: Seq<u8>,
    m: MessageView,
    asked: Seq<char>,
    cache: CacheView,
    domain: Seq<char>,
    pairs: Seq<(IpAddr, u32)>,
    now: nat,
    ipv6_enabled: bool,
    t: nat,
)
    requires
        dns_message(query) == Ok::<MessageView, Seq<char>>(m),
        m.answers.len() == 0,
        m.domain() == Ok::<Seq<char>, Seq<char>>(asked),
        name_error(asked) is None,
        normal_domain(asked) == normal_domain(domain),
        cache.wf(),
        pairs.len() > 0,
        all_hold(pair_records(pairs), now, t),
    ensures
        ({
            let r = cached_answer(
                query,
                cache.insert(domain, pair_records(pairs), now),
                ipv6_enabled,
                t,
            );
            &&& r is None <==> allowed(pairs, ipv6_enabled).len() == 0
            &&& r matches Some(a) ==> {
                &&& a.addresses() == allowed(pairs, ipv6_enabled)
                &&& a.id == m.id
                &&& a.queries == m.queries
                &&& a.message_type == MessageType::Response
            }
        }),
{
    let records = pair_records(pairs);
    assert(gives_address(records[0]));
    assert(has_address(records));
    cache.law_insert_then_lookup(domain, records, now, asked, t);
    lemma_aged_pairs(pairs, now, t);
    lemma_allowed_redated(pairs, redated(pairs, now, t), ipv6_enabled);
    lemma_added_addresses(m, asked, redated(pairs, now, t), ipv6_enabled);
}

/// What reads as a message gives the addresses of that message, with their times to live.
pub proof fn law_reading_keeps_addresses(bytes: Seq<u8>, m: MessageView)
    requires
        reads_as(bytes, m),
    ensures
        dns_message(bytes) matches Ok(read) && read.id == m.id && read.message_type
            == m.message_type && read.queries == m.queries && read.dated_addresses()
            == m.dated_addresses() && read.addresses() == m.addresses(),
{
    lemma_received(m.answers);
}

proof fn lemma_received(answers: Seq<AnswerView>)
    ensures
        received(answers).filter_map(dated_address()) == answers.filter_map(dated_address()),
        received(answers).filter_map(|a: AnswerView| a.address()) == answers.filter_map(
            |a: AnswerView| a.address(),
        ),
    decreases answers.len(),
{
    if answers.len() > 0 {
        lemma_received(answers.drop_last());
        assert(received(answers).drop_last() =~= received(answers.drop_last()));
        assert(received(answers).last().address() == answers.last().address());
    } else {
        assert(received(answers) =~= answers);
    }
}

proof fn lemma_known(m: MessageView, domain: Seq<char>, entries: Seq<(IpAddr, u32)>)
    requires
        m.answers.len() == 0,
        name_error(domain) is None,
    ensures
        known_answers(m.answered_from(domain, entries).answers),
        known_answers(m.answered_from(domain, entries).without_ipv6().answers),
{
    let all = m.answered_from(domain, entries).answers;
    let kept = all.filter(not_ipv6());
    assert forall|i: int| 0 <= i < kept.len() implies all.contains(#[trigger] kept[i]) by {
        all.lemma_filter_contains_rev(not_ipv6(), kept[i]);
    }
}

/// What a query is answered with from the cache reads as an answer to it that gives the
/// addresses that were taken in and may be given, in their order; and a query is answered
/// whenever there is such an address.
pub proof fn law_cached_answer_is_read(
    query: Seq<u8>,
    m: MessageView,
    asked: Seq<char>,
    cache: CacheView,
    domain: Seq<char>,
    pairs: Seq<(IpAddr, u32)>,
    now: nat,
    ipv6_enabled: bool,
    t: nat,
    r: Option<Seq<u8>>,
)
    requires
        dns_message(query) == Ok::<MessageView, Seq<char>>(m),
        one_question(query),
        m.answers.len() == 0,
        m.domain() == Ok::<Seq<char>, Seq<char>>(asked),
        name_error(asked) is None,
        normal_domain(asked) == normal_domain(domain),
        cache.wf(),
        pairs.len() > 0,
        all_hold(pair_records(pairs), now, t),
        resolves(query, cache.insert(domain, pair_records(pairs), now), ipv6_enabled, t, r),
    ensures
        r is None <==> allowed(pairs, ipv6_enabled).len() == 0,
        r matches Some(bytes) ==> is_whole(bytes) ==> (dns_message(bytes) matches Ok(read)
            && read.addresses() == allowed(pairs, ipv6_enabled) && read.id == m.id && read.queries
            == m.queries && read.message_type == MessageType::Response),
{
    let records = pair_records(pairs);
    let filled = cache.insert(domain, records, now);
    law_cache_answers_query(query, m, asked, cache, domain, pairs, now, ipv6_enabled, t);
    if let Some(found) = filled.records(asked, t) {
        lemma_known(m, asked, address_pairs(found));
    }
    if let (Some(a), Some(bytes)) = (cached_answer(query, filled, ipv6_enabled, t), r) {
        if is_whole(bytes) {
            law_reading_keeps_addresses(bytes, a);
        }
    }
}

/// The name for which a query asks that was built for a plain name is that name, to the cache.
pub proof fn law_query_asks_for_its_name(domain: Seq<char>)
    requires
        plain_name(relative_name(domain)),
    ensures
        normal_domain(relative_name(domain).push('.')) == normal_domain(domain),
{
    let n = if domain.len() > 0 && domain.last() == '.' {
        domain.drop_last()
    } else {
        domain
    };
    let low = lower(n);
    assert(low.last() == lower_char(n.last()));
    assert(n.last() != '.');
    assert(low.push('.').drop_last() =~= low);
    assert(strip_end(n, is_dot()) == n);
    assert(strip_end(domain, is_dot()) == n);
    assert(strip_end(low, is_dot()) == low);
    assert(strip_end(low.push('.'), is_dot()) == low);
    assert(lower(low) =~= low);
}

/// A response is handed on with the addresses that it gives, or with the IPv4 ones among
/// them, in their order and with their times to live.
pub proof fn law_response_keeps_addresses(
    response: Seq<u8>,
    m: MessageView,
    ipv6_enabled: bool,
    r: Option<Seq<u8>>,
)
    requires
        dns_message(response) == Ok::<MessageView, Seq<char>>(m),
        one_question(response),
        known_answers(m.answers),
        handed_on(response, ipv6_enabled, r),
    ensures
        r matches Some(bytes) && (is_whole(bytes) ==> (dns_message(bytes) matches Ok(read)
            && read.id == m.id && read.queries == m.queries && read.dated_addresses() == (
        if ipv6_enabled {
            m.dated_addresses()
        } else {
            m.dated_addresses().filter(|p: (IpAddr, u32)| p.0 is V4)
        }))),
{
    let all = m.answers;
    let kept = all.filter(not_ipv6());
    assert forall|i: int| 0 <= i < kept.len() implies all.contains(#[trigger] kept[i]) by {
        all.lemma_filter_contains_rev(not_ipv6(), kept[i]);
    }
    m.law_without_ipv6();
    let handed = handed_message(response, ipv6_enabled)->0;
    assert(known_answers(handed.answers));
    if let Some(bytes) = r {
        if is_whole(bytes) {
            law_reading_keeps_addresses(bytes, handed);
        }
    }
}

/// A standard query has the operation code and the response code zero, and asks one question,
/// of the record type one, of a server that may ask others; it answers nothing.
pub proof fn law_standard_query(m: MessageView, id: u16)
    requires
        standard_query(m, id),
    ensures
        m.id == id,
        m.message_type is Query,
        m.op_code == 0,
        m.recursion_desired,
        m.response_code == 0,
        m.queries.len() == 1 && m.queries[0].query_type == 1,
        m.addresses().len() == 0,
        m.domain() == Ok::<Seq<char>, Seq<char>>(m.queries[0].name),
{
    m.law_no_answers();
}

/// What a query is answered with from the cache is the encoding of the answer. It begins with
/// the two bytes with which the query begins, and its first flag says that it is an answer.
/// There is nothing where there is no answer or it cannot be encoded.
pub proof fn law_resolved_bytes(
    query: Seq<u8>,
    cache: CacheView,
    ipv6_enabled: bool,
    now: nat,
    r: Option<Seq<u8>>,
)
    requires
        resolves(query, cache, ipv6_enabled, now, r),
    ensures
        match cached_answer(query, cache, ipv6_enabled, now) {
            None => r is None,
            Some(m) => match m.encoding() {
                Ok(bytes) => r == Some(bytes) && bytes.len() >= 12 && bytes.take(2) == query.take(2)
                    && bytes[2] >= 128,
                Err(_) => r is None,
            },
        },
{
    if let Some(bytes) = r {
        assert(bytes.take(2) =~= query.take(2));
    }
}

} // verus!
