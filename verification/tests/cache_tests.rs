use tun2proxy::dns_mapping::{clamp_ttl, DnsCache, DnsRecord, MAX_CNAME_CHAIN, MAX_TTL, MIN_TTL, SECOND};
use tun2proxy::net::{IpAddr, Ipv4Addr};

fn a(last: u8, ttl: u32) -> DnsRecord {
    DnsRecord::A(Ipv4Addr::new(1, 1, 1, last), ttl)
}

fn ip(last: u8) -> IpAddr {
    IpAddr::V4(Ipv4Addr::new(1, 1, 1, last))
}

fn alias(from: &str, to: &str, ttl: u32) -> DnsRecord {
    DnsRecord::Cname(from.to_string(), to.to_string(), ttl)
}

const S: u128 = SECOND;

#[test]
fn times_are_brought_into_range() {
    assert_eq!(clamp_ttl(0), MIN_TTL);
    assert_eq!(clamp_ttl(9), 10);
    assert_eq!(clamp_ttl(11), 11);
    assert_eq!(clamp_ttl(3601), MAX_TTL);
    assert_eq!(clamp_ttl(u32::MAX), 3600);
}

#[test]
fn names_are_normalized() {
    let mut cache = DnsCache::new();
    cache.insert_at("WWW.Example.com...", &[a(1, 60)], 0);
    for name in ["www.example.com", "www.EXAMPLE.com.", "WWW.example.com.."] {
        assert_eq!(cache.lookup_ips_at(name, 0), Some(vec![ip(1)]));
    }
    assert_eq!(cache.lookup_domains_at(&ip(1), 0), Some(vec!["www.example.com"]));
    // Only ASCII letters have two cases.
    assert_eq!(cache.lookup_ips_at("www.example.coM\u{c9}", 0), None);
}

#[test]
fn addresses_hold_their_time() {
    let mut cache = DnsCache::new();
    cache.insert_at("example.com", &[a(1, 100), a(2, 5), a(3, 50)], 7 * S);
    assert_eq!(cache.lookup_ips_at("example.com", 17 * S), Some(vec![ip(1), ip(2), ip(3)]));
    assert_eq!(cache.lookup_ips_at("example.com", 17 * S + 1), Some(vec![ip(1), ip(3)]));
    assert_eq!(cache.lookup_ips_at("example.com", 58 * S), Some(vec![ip(1)]));
    assert_eq!(cache.lookup_ips_at("example.com", 107 * S), Some(vec![ip(1)]));
    assert_eq!(cache.lookup_ips_at("example.com", 107 * S + 1), None);
}

#[test]
fn times_count_down() {
    let mut cache = DnsCache::new();
    cache.insert_at("example.com", &[a(1, 100), alias("example.com", "b.com", 4000)], 0);
    let at = |now: u128| cache.lookup_with_ttl_at("example.com", now);
    assert_eq!(at(0), Some(vec![a(1, 100), alias("example.com", "b.com", 3600)]));
    assert_eq!(at(1), Some(vec![a(1, 99), alias("example.com", "b.com", 3599)]));
    assert_eq!(at(99 * S + 1), Some(vec![a(1, 0), alias("example.com", "b.com", 3500)]));
    // Without the address the alias leads nowhere.
    assert_eq!(at(100 * S + 1), None);
}

#[test]
fn new_records_replace_old_ones() {
    let mut cache = DnsCache::new();
    cache.insert_at("example.com", &[a(1, 60), a(2, 60)], 0);
    cache.insert_at("other.com", &[a(9, 60)], 0);
    cache.insert_at("example.com", &[a(3, 60)], 0);
    assert_eq!(cache.lookup_ips_at("example.com", 0), Some(vec![ip(3)]));
    assert_eq!(cache.lookup_ips_at("other.com", 0), Some(vec![ip(9)]));
    // The table from addresses to names keeps what it had.
    assert_eq!(cache.lookup_domains_at(&ip(1), 0), Some(vec!["example.com"]));
}

#[test]
fn aliases_resolve_over_a_path() {
    for length in 1..12 {
        let mut cache = DnsCache::new();
        for i in 0..length {
            let (from, to) = (format!("n{i}"), format!("n{}", i + 1));
            cache.insert_at(&from, &[alias(&from, &to, 60)], 0);
        }
        cache.insert_at(&format!("n{length}"), &[a(1, 60)], 0);
        let found = cache.lookup_ips_at("n0", 0);
        let records = cache.lookup_with_ttl_at("n0", 0);
        if length + 1 <= MAX_CNAME_CHAIN {
            assert_eq!(found, Some(vec![ip(1)]));
            let records = records.unwrap();
            assert_eq!(records.len(), length + 1);
            assert_eq!(records[0], alias("n0", "n1", 60));
            assert_eq!(records[length], a(1, 60));
        } else {
            assert_eq!(found, None);
            assert_eq!(records, None);
        }
    }
}

#[test]
fn alias_cycles_have_no_end() {
    let mut cache = DnsCache::new();
    cache.insert_at("a", &[alias("a", "b", 60)], 0);
    cache.insert_at("b", &[alias("b", "a", 60)], 0);
    cache.insert_at("c", &[alias("c", "c", 60)], 0);
    for name in ["a", "b", "c"] {
        assert_eq!(cache.lookup_ips_at(name, 0), None);
        assert_eq!(cache.lookup_with_ttl_at(name, 0), None);
    }
}

#[test]
fn alias_to_nowhere_resolves_to_nothing() {
    let mut cache = DnsCache::new();
    cache.insert_at("a", &[alias("a", "b", 60)], 0);
    assert_eq!(cache.lookup_ips_at("a", 0), None);
    cache.insert_at("b", &[], 0);
    assert_eq!(cache.lookup_ips_at("a", 0), None);
    assert_eq!(cache.lookup_with_ttl_at("a", 0), None);
}

#[test]
fn names_behind_an_address() {
    let mut cache = DnsCache::new();
    cache.insert_at("shop.example", &[alias("shop.example", "cdn.example", 60)], 0);
    cache.insert_at("cdn.example", &[alias("mid.example", "cdn.example", 60), a(1, 60)], 0);
    let mut names = cache.lookup_domains_at(&ip(1), 0).unwrap();
    names.sort();
    assert_eq!(names, vec!["cdn.example", "mid.example", "shop.example"]);
}

#[test]
fn newest_name_comes_first() {
    let mut cache = DnsCache::new();
    cache.insert_at("a", &[a(1, 60)], 0);
    cache.insert_at("b", &[a(1, 60)], 0);
    assert_eq!(cache.lookup_domains_at(&ip(1), 0), Some(vec!["b", "a"]));
    cache.insert_at("a", &[a(1, 30)], 1);
    assert_eq!(cache.lookup_domains_at(&ip(1), 1), Some(vec!["a", "b"]));
    assert_eq!(cache.lookup_domains_at(&ip(1), 40 * S), Some(vec!["b"]));
    assert_eq!(cache.lookup_domains_at(&ip(1), 61 * S), None);
    assert_eq!(cache.lookup_domains_at(&ip(2), 0), None);
}

#[test]
fn eviction_cannot_be_noticed() {
    let build = || {
        let mut cache = DnsCache::new();
        cache.insert_at("a", &[a(1, 20), a(2, 40)], 0);
        cache.insert_at("b", &[alias("b", "a", 30)], 0);
        cache.insert_at("c", &[a(1, 50)], 0);
        cache.insert_at("d", &[a(3, 10)], 0);
        cache
    };
    for now in [0, 10, 11, 25, 35, 45, 60] {
        let kept = build();
        let mut evicted = build();
        evicted.evict_expired_at(now * S);
        for t in now..70 {
            for name in ["a", "b", "c", "d"] {
                assert_eq!(evicted.lookup_ips_at(name, t * S), kept.lookup_ips_at(name, t * S));
                assert_eq!(evicted.lookup_with_ttl_at(name, t * S), kept.lookup_with_ttl_at(name, t * S));
            }
            for last in 1..4 {
                assert_eq!(evicted.lookup_domains_at(&ip(last), t * S), kept.lookup_domains_at(&ip(last), t * S));
            }
        }
    }
}

#[test]
fn clock_moves_forward() {
    let mut cache = DnsCache::new();
    let before = cache.now();
    cache.insert("example.com", &[a(1, 60)]);
    let after = cache.now();
    assert!(before <= after);
    // Less than a minute has passed since the cache was made.
    assert!(after < 60 * S);
    assert_eq!(cache.lookup_ips_at("example.com", before + 60 * S), Some(vec![ip(1)]));
    assert_eq!(cache.lookup_ips_at("example.com", after + 61 * S), None);
    cache.evict_expired();
    assert_eq!(cache.lookup_ips("example.com"), Some(vec![ip(1)]));
    assert_eq!(cache.lookup_domains(&ip(1)), Some(vec!["example.com"]));
}

fn behind(cache: &DnsCache, last: u8, t: u128) -> Vec<String> {
    let mut names: Vec<String> =
        cache.lookup_domains_at(&ip(last), t).unwrap_or_default().iter().map(|s| s.to_string()).collect();
    names.sort();
    names
}

#[test]
fn names_behind_an_address_are_old_and_new_ones() {
    let mut cache = DnsCache::new();
    cache.insert_at("old.com", &[a(1, 60)], 0);
    cache.insert_at("far.com", &[alias("far.com", "near.com", 60)], 0);
    cache.insert_at("near.com", &[alias("near.com", "target.com", 60)], 0);
    assert_eq!(behind(&cache, 1, 0), ["old.com"]);
    // The name itself, the alias among the records, and the name known to lead there; not
    // the target of the alias, nor the name that leads to a name that leads there.
    cache.insert_at("Target.com.", &[alias("side.com", "other.com", 60), a(1, 30)], 5 * S);
    assert_eq!(behind(&cache, 1, 5 * S), ["near.com", "old.com", "side.com", "target.com"]);
    assert_eq!(behind(&cache, 1, 15 * S), ["near.com", "old.com", "side.com", "target.com"]);
}

#[test]
fn names_stand_once() {
    let mut cache = DnsCache::new();
    cache.insert_at("x.com", &[alias("www.com", "x.com", 60)], 0);
    for round in 0..3u128 {
        cache.insert_at("x.com", &[a(1, 60), alias("www.com", "x.com", 60), a(1, 20), alias("b.com", "x.com", 9)], round * S);
        cache.insert_at("www.com", &[alias("www.com", "x.com", 60), a(1, 60)], round * S);
        assert_eq!(behind(&cache, 1, round * S), ["b.com", "www.com", "x.com"]);
        cache.evict_expired_at(round * S);
        assert_eq!(behind(&cache, 1, round * S), ["b.com", "www.com", "x.com"]);
    }
    // Two records that make one name an alias put it there twice.
    let mut cache = DnsCache::new();
    cache.insert_at("x.com", &[alias("w.com", "x.com", 60), alias("W.com.", "y.com", 60), a(1, 60)], 0);
    assert_eq!(behind(&cache, 1, 0), ["w.com", "w.com", "x.com"]);
}

#[test]
fn name_leaves_with_the_last_record_of_its_address() {
    let mut cache = DnsCache::new();
    let records = [alias("w.com", "x.com", 3600), a(1, 300), a(2, 3600), a(1, 20)];
    cache.insert_at("x.com", &records, 0);
    // Neither other addresses nor evictions change anything.
    cache.insert_at("x.com", &[a(2, 40)], S);
    cache.evict_expired_at(20 * S);
    assert_eq!(behind(&cache, 1, 20 * S), ["w.com", "x.com"]);
    assert_eq!(cache.lookup_domains_at(&ip(1), 20 * S + 1), None);
}
