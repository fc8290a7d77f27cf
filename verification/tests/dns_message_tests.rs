use std::str::FromStr;

use hickory_proto::op::{Message, MessageType, Query, ResponseCode};
use hickory_proto::rr::rdata::{A, AAAA, CNAME, TXT};
use hickory_proto::rr::{Name, RData, Record, RecordType};
use tun2proxy::dns;
use tun2proxy::dns::{Answer, DnsMessage};
use tun2proxy::dns_mapping::{DnsCache, DnsRecord, SECOND};
use tun2proxy::net::{IpAddr, Ipv4Addr, Ipv6Addr};

const V4: IpAddr = IpAddr::V4(Ipv4Addr { bits: 0x01020304 });
const V6: IpAddr = IpAddr::V6(Ipv6Addr { bits: 0x20010db8000000000000000000000001 });

fn read(data: &[u8]) -> DnsMessage {
    dns::parse_data_to_dns_message(data, false).unwrap()
}

fn bytes_with(code: ResponseCode, answers: Vec<RData>) -> Vec<u8> {
    let name = Name::from_str("example.com").unwrap();
    let mut m = Message::new();
    m.set_id(7).set_message_type(MessageType::Response).set_response_code(code);
    m.add_query(Query::query(name.clone(), RecordType::A));
    for data in answers {
        m.add_answer(Record::from_rdata(name.clone(), 60, data));
    }
    m.to_vec().unwrap()
}

fn a() -> RData {
    RData::A(A(0x01020304u32.into()))
}

fn aaaa() -> RData {
    RData::AAAA(AAAA(0x20010db8000000000000000000000001u128.into()))
}

fn cname(target: &str) -> RData {
    RData::CNAME(CNAME(Name::from_str(target).unwrap()))
}

fn txt() -> RData {
    RData::TXT(TXT::new(vec!["hello".to_string()]))
}

#[test]
fn query_reads_back() {
    let bytes = dns::build_dns_query("Example.COM", 0x1234).unwrap();
    let m = read(&bytes);
    assert_eq!(m.id(), 0x1234);
    assert_eq!(m.message_type(), dns::MessageType::Query);
    assert_eq!(m.op_code(), dns::OP_QUERY);
    assert!(m.recursion_desired());
    assert_eq!(m.response_code(), dns::NO_ERROR);
    assert_eq!(m.queries().len(), 1);
    assert_eq!(m.queries()[0].name, "example.com.");
    assert_eq!(m.queries()[0].query_type, dns::TYPE_A);
    assert!(m.answers().is_empty());
    // One question, and nothing else.
    assert_eq!(&bytes[4..12], &[0, 1, 0, 0, 0, 0, 0, 0]);
}

#[test]
fn plain_names_are_asked_for() {
    let long = format!("{}.{}.{}.{}", "a".repeat(63), "b".repeat(63), "c".repeat(63), "d".repeat(61));
    assert_eq!(long.len(), 253);
    for (domain, asked) in [
        ("a", "a."),
        ("x-1.y-2.org", "x-1.y-2.org."),
        ("UPPER.Org.", "upper.org."),
        ("1.2.3", "1.2.3."),
        (long.as_str(), &format!("{long}.")),
    ] {
        let bytes = dns::build_dns_query(domain, 1).unwrap();
        assert_eq!(dns::extract_domain_from_dns_message(&read(&bytes)).unwrap(), asked);
        // The name that is asked for is a name again.
        assert!(dns::build_dns_query(asked, 1).is_ok());
    }
}

#[test]
fn bad_names_are_refused() {
    let long = "a".repeat(64);
    for domain in ["a..b", long.as_str(), "with space"] {
        let error = dns::build_dns_query(domain, 1).unwrap_err();
        let request = read(&dns::build_dns_query("example.com", 1).unwrap());
        assert_eq!(dns::build_dns_response(request, domain, V4, 60).unwrap_err(), error);
        let request = read(&dns::build_dns_query("example.com", 1).unwrap());
        assert_eq!(dns::build_dns_response_from_cache(request, domain, &[(V4, 60)]).unwrap_err(), error);
    }
}

#[test]
fn one_answer_is_a_list_of_one() {
    let query = dns::build_dns_query("example.com", 9).unwrap();
    let one = dns::build_dns_response(read(&query), "example.com", V4, 77).unwrap();
    let list = dns::build_dns_response_from_cache(read(&query), "example.com", &[(V4, 77)]).unwrap();
    assert_eq!(one.to_vec().unwrap(), list.to_vec().unwrap());
    assert_eq!(one.message_type(), dns::MessageType::Response);
    match &one.answers()[0] {
        Answer::Added { name, ttl, ip } => {
            assert_eq!(name, "example.com");
            assert_eq!(*ttl, 77);
            assert_eq!(*ip, V4);
        }
        _ => panic!("an answer should have been added"),
    }
}

#[test]
fn answer_reads_back() {
    let query = dns::build_dns_query("example.com", 9).unwrap();
    let pairs = [(V4, 77), (V6, u32::MAX), (V4, 0)];
    let m = dns::build_dns_response_from_cache(read(&query), "other.example.com.", &pairs).unwrap();
    let bytes = m.to_vec().unwrap();
    let back = read(&bytes);
    assert_eq!(back.id(), 9);
    assert_eq!(back.message_type(), dns::MessageType::Response);
    assert_eq!(back.queries()[0].name, "example.com.");
    assert_eq!(dns::extract_ip_ttl_pairs_from_dns_message(&back), pairs);
    // The bytes are those that the other side of the library would write.
    let theirs = Message::from_vec(&bytes).unwrap();
    assert_eq!(theirs.answers()[0].name().to_string(), "other.example.com.");
    assert!(!theirs.truncated());
}

#[test]
fn too_many_answers_are_cut_off() {
    let query = dns::build_dns_query("example.com", 9).unwrap();
    let pairs = vec![(V6, 60); 3000];
    let m = dns::build_dns_response_from_cache(read(&query), "example.com", &pairs).unwrap();
    let bytes = m.to_vec().unwrap();
    assert!(bytes.len() <= 65535);
    // The message says so.
    assert_eq!(bytes[2] & 2, 2);
    assert!(read(&bytes).answers().len() < 3000);
}

#[test]
fn dropping_ipv6_keeps_the_rest() {
    let data = bytes_with(ResponseCode::NoError, vec![cname("b.example."), aaaa(), a(), txt(), aaaa()]);
    let mut m = read(&data);
    dns::remove_ipv6_entries(&mut m);
    assert_eq!(m.answers().len(), 3);
    let back = read(&m.to_vec().unwrap());
    assert_eq!(dns::extract_all_ipaddrs_from_dns_message(&back), vec![V4]);
    let once = m.to_vec().unwrap();
    dns::remove_ipv6_entries(&mut m);
    assert_eq!(m.to_vec().unwrap(), once);
}

#[test]
fn address_is_the_first() {
    let m = read(&bytes_with(ResponseCode::NoError, vec![cname("b.example."), aaaa(), a()]));
    assert_eq!(dns::extract_ipaddr_from_dns_message(&m), Ok(V6));
    assert_eq!(dns::extract_all_ipaddrs_from_dns_message(&m), vec![V6, V4]);
    assert_eq!(dns::extract_ip_ttl_pairs_from_dns_message(&m), vec![(V6, 60), (V4, 60)]);
}

#[test]
fn missing_address_has_a_reason() {
    let refused = read(&bytes_with(ResponseCode::NXDomain, vec![a()]));
    assert_eq!(dns::extract_ipaddr_from_dns_message(&refused), Err("NXDomain".to_string()));

    let alias = read(&bytes_with(ResponseCode::NoError, vec![cname("b.example."), cname("c.example.")]));
    assert_eq!(dns::extract_ipaddr_from_dns_message(&alias), Err("c.example.".to_string()));

    let empty = read(&bytes_with(ResponseCode::NoError, vec![]));
    assert_eq!(dns::extract_ipaddr_from_dns_message(&empty), Err("[]".to_string()));

    let data = bytes_with(ResponseCode::NoError, vec![txt()]);
    let theirs = Message::from_vec(&data).unwrap();
    assert_eq!(
        dns::extract_ipaddr_from_dns_message(&read(&data)),
        Err(format!("{:?}", theirs.answers()))
    );
}

#[test]
fn message_without_question_has_no_domain() {
    let m = read(&[0, 1, 0x80, 0, 0, 0, 0, 0, 0, 0, 0, 0]);
    assert_eq!(dns::extract_domain_from_dns_message(&m), Err("DnsRequest no query body".to_string()));
}

#[test]
fn tcp_length_is_checked() {
    let query = dns::build_dns_query("example.com", 9).unwrap();
    let mut framed = vec![0, query.len() as u8];
    framed.extend_from_slice(&query);
    assert_eq!(dns::parse_data_to_dns_message(&framed, true).unwrap().id(), 9);
    // What follows the message does not matter.
    framed.push(1);
    assert_eq!(dns::parse_data_to_dns_message(&framed, true).unwrap().id(), 9);
    for short in [&framed[..0], &framed[..1], &framed[..5]] {
        assert_eq!(dns::parse_data_to_dns_message(short, true).unwrap_err(), "invalid dns data");
    }
    assert!(dns::parse_data_to_dns_message(&query[..11], false).is_err());
}

#[test]
fn cached_answer_ages() {
    let mut cache = DnsCache::new();
    cache.insert_at("Example.com.", &[DnsRecord::A(Ipv4Addr::new(1, 2, 3, 4), 100)], 0);
    let query = dns::build_dns_query("example.com", 5).unwrap();
    let at = |now: u128| {
        dns::try_resolve_from_cache_at(&query, &cache, true, now)
            .map(|bytes| dns::extract_ip_ttl_pairs_from_dns_message(&read(&bytes)))
    };
    assert_eq!(at(0), Some(vec![(V4, 100)]));
    assert_eq!(at(40 * SECOND), Some(vec![(V4, 60)]));
    assert_eq!(at(100 * SECOND), Some(vec![(V4, 0)]));
    assert_eq!(at(100 * SECOND + 1), None);
}

#[test]
fn cached_answer_follows_aliases() {
    let mut cache = DnsCache::new();
    cache.insert_at(
        "a.example",
        &[
            DnsRecord::Cname("a.example".to_string(), "b.example".to_string(), 50),
            DnsRecord::A(Ipv4Addr::new(1, 2, 3, 4), 100),
        ],
        0,
    );
    let query = dns::build_dns_query("a.example", 5).unwrap();
    let bytes = dns::try_resolve_from_cache_at(&query, &cache, true, 0).unwrap();
    assert_eq!(dns::extract_all_ipaddrs_from_dns_message(&read(&bytes)), vec![V4]);
}

#[test]
fn records_hold_their_pairs() {
    match dns::records_from_pairs(&[(V4, 1), (V6, 2)]).as_slice() {
        [DnsRecord::A(x, 1), DnsRecord::AAAA(y, 2)] => {
            assert_eq!(IpAddr::V4(*x), V4);
            assert_eq!(IpAddr::V6(*y), V6);
        }
        _ => panic!("one record of each kind"),
    }
}
