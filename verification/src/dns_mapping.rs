//! The DNS cache: what has been resolved, for as long as it holds, and which domain names
//! stand behind an address.

use std::time::Instant;

use vstd::prelude::*;

pub use crate::bypass::{BypassMatcher, BypassPattern};
use crate::net::{IpAddr, Ipv4Addr, Ipv6Addr};
use crate::table::{
    get, has_key, is_row, keys_unique, lemma_filter_rows, lemma_no_row, lemma_put, lemma_row, put, row,
};
use crate::text::{normal_domain, normalize_domain};

verus! {

/// The shortest time for which a record is kept, in seconds.
pub const MIN_TTL: u64 = 10;

/// The longest time for which a record is kept, in seconds.
pub const MAX_TTL: u64 = 3600;

/// How many aliases are followed, one after the other.
pub const MAX_CNAME_CHAIN: usize = 8;

/// Nanoseconds in a second.
pub const SECOND: u128 = 1_000_000_000;

/// The latest moment that the clock can show, in nanoseconds.
pub const LATEST: u128 = 18_446_744_073_709_551_615_999_999_999;

/// A record with its time to live in seconds, as the cache takes it in and gives it out.
#[derive(Debug, Clone, PartialEq)]
pub enum DnsRecord {
    A(Ipv4Addr, u32),
    AAAA(Ipv6Addr, u32),
    /// An alias: the name, the name that it stands for, and the time to live.
    Cname(String, String, u32),
}

/// A record with its time to live, in mathematical terms.
pub enum DnsRecordView {
    A(Ipv4Addr, u32),
    AAAA(Ipv6Addr, u32),
    Cname(Seq<char>, Seq<char>, u32),
}

impl View for DnsRecord {
    type V = DnsRecordView;

    open spec fn view(&self) -> DnsRecordView {
        match self {
            DnsRecord::A(addr, ttl) => DnsRecordView::A(*addr, *ttl),
            DnsRecord::AAAA(addr, ttl) => DnsRecordView::AAAA(*addr, *ttl),
            DnsRecord::Cname(from, to, ttl) => DnsRecordView::Cname(from@, to@, *ttl),
        }
    }
}

/// Records, in mathematical terms.
pub open spec fn record_views(records: Seq<DnsRecord>) -> Seq<DnsRecordView> {
    Seq::new(records.len(), |i: int| records[i]@)
}

/// A record as the cache holds it.
#[derive(Debug)]
pub enum CachedRecord {
    A(Ipv4Addr),
    AAAA(Ipv6Addr),
    Cname(String, String),
}

/// A record as the cache holds it, in mathematical terms.
pub enum CachedRecordView {
    A(Ipv4Addr),
    AAAA(Ipv6Addr),
    Cname(Seq<char>, Seq<char>),
}

impl View for CachedRecord {
    type V = CachedRecordView;

    open spec fn view(&self) -> CachedRecordView {
        match self {
            CachedRecord::A(addr) => CachedRecordView::A(*addr),
            CachedRecord::AAAA(addr) => CachedRecordView::AAAA(*addr),
            CachedRecord::Cname(from, to) => CachedRecordView::Cname(from@, to@),
        }
    }
}

impl CachedRecordView {
    /// The address that the record gives.
    pub open spec fn address(self) -> Option<IpAddr> {
        match self {
            CachedRecordView::A(addr) => Some(IpAddr::V4(addr)),
            CachedRecordView::AAAA(addr) => Some(IpAddr::V6(addr)),
            CachedRecordView::Cname(_, _) => None,
        }
    }

    /// The name that the record declares to be an alias.
    pub open spec fn alias(self) -> Option<Seq<char>> {
        match self {
            CachedRecordView::Cname(from, _) => Some(from),
            _ => None,
        }
    }
}

/// A record in the cache, with the moment up to which it holds, in nanoseconds.
#[derive(Debug)]
pub struct CachedEntry {
    pub record: CachedRecord,
    pub expiry: u128,
}

/// A record in the cache, in mathematical terms.
pub struct EntryView {
    pub record: CachedRecordView,
    pub expiry: nat,
}

impl View for CachedEntry {
    type V = EntryView;

    open spec fn view(&self) -> EntryView {
        EntryView { record: self.record@, expiry: self.expiry as nat }
    }
}

/// Cached records, in mathematical terms.
pub open spec fn entry_views(entries: Seq<CachedEntry>) -> Seq<EntryView> {
    Seq::new(entries.len(), |i: int| entries[i]@)
}

/// Names, in mathematical terms.
pub open spec fn name_views(names: Seq<String>) -> Seq<Seq<char>> {
    Seq::new(names.len(), |i: int| names[i]@)
}

/// Names with the moments up to which they hold, in mathematical terms.
pub open spec fn dated_views(names: Seq<(String, u128)>) -> Seq<(Seq<char>, nat)> {
    Seq::new(names.len(), |i: int| (names[i].0@, names[i].1 as nat))
}

/// The rows of the table from names to records, in mathematical terms.
pub open spec fn forward_views(rows: Seq<(String, Vec<CachedEntry>)>) -> Seq<
    (Seq<char>, Seq<EntryView>),
> {
    Seq::new(rows.len(), |i: int| (rows[i].0@, entry_views(rows[i].1@)))
}

/// The rows of the table from addresses to names, in mathematical terms.
pub open spec fn reverse_views(rows: Seq<(IpAddr, Vec<(String, u128)>)>) -> Seq<
    (IpAddr, Seq<(Seq<char>, nat)>),
> {
    Seq::new(rows.len(), |i: int| (rows[i].0, dated_views(rows[i].1@)))
}

/// A time to live in seconds, brought into the range in which the cache keeps records.
pub open spec fn clamped(ttl: u32) -> u64 {
    if ttl < MIN_TTL {
        MIN_TTL
    } else if ttl > MAX_TTL {
        MAX_TTL
    } else {
        ttl as u64
    }
}

/// A time to live in seconds, brought into the range in which the cache keeps records.
pub fn clamp_ttl(ttl_secs: u32) -> (r: u64)
    ensures
        r == clamped(ttl_secs),
        MIN_TTL <= r <= MAX_TTL,
{
    if (ttl_secs as u64) < MIN_TTL {
        MIN_TTL
    } else if ttl_secs as u64 > MAX_TTL {
        MAX_TTL
    } else {
        ttl_secs as u64
    }
}

/// The moment up to which a record holds that comes in at `now`.
pub open spec fn expiry_of(ttl: u32, now: nat) -> nat {
    now + clamped(ttl) as nat * SECOND as nat
}

/// The record in the form in which the cache holds it from `now` on.
pub open spec fn cached(record: DnsRecordView, now: nat) -> EntryView {
    match record {
        DnsRecordView::A(addr, ttl) => EntryView {
            record: CachedRecordView::A(addr),
            expiry: expiry_of(ttl, now),
        },
        DnsRecordView::AAAA(addr, ttl) => EntryView {
            record: CachedRecordView::AAAA(addr),
            expiry: expiry_of(ttl, now),
        },
        DnsRecordView::Cname(from, to, ttl) => EntryView {
            record: CachedRecordView::Cname(normal_domain(from), normal_domain(to)),
            expiry: expiry_of(ttl, now),
        },
    }
}

/// The records in the form in which the cache holds them from `now` on.
pub open spec fn cached_all(records: Seq<DnsRecordView>, now: nat) -> Seq<EntryView> {
    Seq::new(records.len(), |i: int| cached(records[i], now))
}

/// The names that the records declare to be aliases.
pub open spec fn aliases(entries: Seq<EntryView>) -> Seq<Seq<char>> {
    entries.filter_map(|e: EntryView| e.record.alias())
}

/// The list of names `list` once the address has been resolved for `domain`, for which the
/// names `froms` are aliases: `domain` and the aliases come last, all up to `expiry`.
pub open spec fn credited(
    list: Seq<(Seq<char>, nat)>,
    domain: Seq<char>,
    froms: Seq<Seq<char>>,
    expiry: nat,
) -> Seq<(Seq<char>, nat)> {
    list.filter(none_of(domain, froms)).push((domain, expiry)) + froms.filter_map(
        dated_unless(domain, expiry),
    )
}

/// The predicate that holds of every dated name but `domain` and `froms`.
pub open spec fn none_of(domain: Seq<char>, froms: Seq<Seq<char>>) -> spec_fn(
    (Seq<char>, nat),
) -> bool {
    |p: (Seq<char>, nat)| p.0 != domain && !froms.contains(p.0)
}

/// Dates every name but `domain` up to `expiry`.
pub open spec fn dated_unless(domain: Seq<char>, expiry: nat) -> spec_fn(Seq<char>) -> Option<
    (Seq<char>, nat),
> {
    |f: Seq<char>|
        if f != domain {
            Some((f, expiry))
        } else {
            None
        }
}

/// The names that `reverse` holds for the address `ip`.
pub open spec fn names_of(reverse: Seq<(IpAddr, Seq<(Seq<char>, nat)>)>, ip: IpAddr) -> Seq<
    (Seq<char>, nat),
> {
    match get(reverse, ip) {
        Some(list) => list,
        None => seq![],
    }
}

/// The table from addresses to names once the records `entries` have come in for `domain`.
pub open spec fn after_direct(
    reverse: Seq<(IpAddr, Seq<(Seq<char>, nat)>)>,
    entries: Seq<EntryView>,
    domain: Seq<char>,
    froms: Seq<Seq<char>>,
) -> Seq<(IpAddr, Seq<(Seq<char>, nat)>)>
    decreases entries.len(),
{
    if entries.len() == 0 {
        reverse
    } else {
        let r = after_direct(reverse, entries.drop_last(), domain, froms);
        match entries.last().record.address() {
            None => r,
            Some(ip) => put(
                r,
                ip,
                credited(names_of(r, ip), domain, froms, entries.last().expiry),
            ),
        }
    }
}

/// Whether one of the records makes its name an alias for `domain`.
pub open spec fn points_to(entries: Seq<EntryView>, domain: Seq<char>) -> bool {
    exists|i: int|
        0 <= i < entries.len() && ((#[trigger] entries[i]).record matches CachedRecordView::Cname(_, to)
            && to == domain)
}

/// The names whose records make them aliases for `domain`.
pub open spec fn referring(forward: Seq<(Seq<char>, Seq<EntryView>)>, domain: Seq<char>) -> Seq<
    Seq<char>,
> {
    forward.filter_map(
        |r: (Seq<char>, Seq<EntryView>)|
            if points_to(r.1, domain) {
                Some(r.0)
            } else {
                None
            },
    )
}

/// The predicate that holds of every dated name but `name`.
pub open spec fn other_than(name: Seq<char>) -> spec_fn((Seq<char>, nat)) -> bool {
    |p: (Seq<char>, nat)| p.0 != name
}

/// The list of names `list` with the names `names` moved to its end, all up to `expiry`.
pub open spec fn moved_up(list: Seq<(Seq<char>, nat)>, names: Seq<Seq<char>>, expiry: nat) -> Seq<
    (Seq<char>, nat),
>
    decreases names.len(),
{
    if names.len() == 0 {
        list
    } else {
        let l = moved_up(list, names.drop_last(), expiry);
        let name = names.last();
        l.filter(other_than(name)).push((name, expiry))
    }
}

/// The table from addresses to names once the names `names` are known to be aliases of the
/// name for which the records `entries` have come in.
pub open spec fn after_referring(
    reverse: Seq<(IpAddr, Seq<(Seq<char>, nat)>)>,
    entries: Seq<EntryView>,
    names: Seq<Seq<char>>,
) -> Seq<(IpAddr, Seq<(Seq<char>, nat)>)>
    decreases entries.len(),
{
    if entries.len() == 0 {
        reverse
    } else {
        let r = after_referring(reverse, entries.drop_last(), names);
        match entries.last().record.address() {
            None => r,
            Some(ip) => put(r, ip, moved_up(names_of(r, ip), names, entries.last().expiry)),
        }
    }
}

/// The cache, in mathematical terms: the table from names to records, and the table from
/// addresses to names, the newest of which come last.
pub struct CacheView {
    pub forward: Seq<(Seq<char>, Seq<EntryView>)>,
    pub reverse: Seq<(IpAddr, Seq<(Seq<char>, nat)>)>,
}

/// The seconds that are left of a record at `now`.
pub open spec fn remaining(expiry: nat, now: nat) -> u32 {
    ((expiry - now) / (SECOND as int)) as u32
}

/// The record as the cache gives it out at `now`.
pub open spec fn given_out(entry: EntryView, now: nat) -> DnsRecordView {
    match entry.record {
        CachedRecordView::A(addr) => DnsRecordView::A(addr, remaining(entry.expiry, now)),
        CachedRecordView::AAAA(addr) => DnsRecordView::AAAA(addr, remaining(entry.expiry, now)),
        CachedRecordView::Cname(from, to) => DnsRecordView::Cname(
            from,
            to,
            remaining(entry.expiry, now),
        ),
    }
}

/// The first of the records that is an alias and holds at `now`.
pub open spec fn live_alias(entries: Seq<EntryView>, now: nat) -> Option<EntryView>
    decreases entries.len(),
{
    if entries.len() == 0 {
        None
    } else if now <= entries.first().expiry && entries.first().record is Cname {
        Some(entries.first())
    } else {
        live_alias(entries.drop_first(), now)
    }
}

impl CacheView {
    /// Whether no name and no address occurs twice as a key.
    pub open spec fn wf(self) -> bool {
        keys_unique(self.forward) && keys_unique(self.reverse)
    }

    /// The cache once `records` have come in for `domain` at `now`.
    pub open spec fn insert(self, domain: Seq<char>, records: Seq<DnsRecordView>, now: nat) -> CacheView {
        let name = normal_domain(domain);
        let entries = cached_all(records, now);
        CacheView {
            forward: put(self.forward, name, entries),
            reverse: after_referring(
                after_direct(self.reverse, entries, name, aliases(entries)),
                entries,
                referring(self.forward, name),
            ),
        }
    }

    /// The name at which the aliases end that begin with `name`, and the aliases on the way.
    /// There is none where a name on the way is not in the cache, nor where the end is not
    /// reached within `fuel` names.
    pub open spec fn chain(self, name: Seq<char>, now: nat, fuel: nat) -> Option<
        (Seq<char>, Seq<DnsRecordView>),
    >
        decreases fuel,
    {
        if fuel == 0 {
            None
        } else {
            match get(self.forward, name) {
                None => None,
                Some(entries) => match live_alias(entries, now) {
                    None => Some((name, seq![])),
                    Some(e) => match self.chain(e.record->Cname_1, now, (fuel - 1) as nat) {
                        None => None,
                        Some((target, records)) => Some(
                            (target, seq![given_out(e, now)] + records),
                        ),
                    },
                },
            }
        }
    }

    /// The addresses that the cache holds at `now` for `name` itself.
    pub open spec fn direct_ips(self, name: Seq<char>, now: nat) -> Option<Seq<IpAddr>> {
        match get(self.forward, name) {
            None => None,
            Some(entries) => {
                let ips = live_ips(entries, now);
                if ips.len() == 0 {
                    None
                } else {
                    Some(ips)
                }
            },
        }
    }

    /// The addresses that the cache holds at `now` for `domain`, or for the name at which
    /// its aliases end.
    pub open spec fn ips(self, domain: Seq<char>, now: nat) -> Option<Seq<IpAddr>> {
        let name = normal_domain(domain);
        match self.direct_ips(name, now) {
            Some(ips) => Some(ips),
            None => match self.chain(name, now, MAX_CNAME_CHAIN as nat) {
                None => None,
                Some((target, _)) => if target == name {
                    None
                } else {
                    self.direct_ips(target, now)
                },
            },
        }
    }

    /// The records that the cache holds at `now` for `name` itself.
    pub open spec fn direct_records(self, name: Seq<char>, now: nat) -> Option<Seq<DnsRecordView>> {
        match get(self.forward, name) {
            None => None,
            Some(entries) => Some(live_records(entries, now)),
        }
    }

    /// The records that the cache holds at `now` for `domain`: its own, where an address is
    /// among them, or the aliases and the addresses at which they end.
    pub open spec fn records(self, domain: Seq<char>, now: nat) -> Option<Seq<DnsRecordView>> {
        let name = normal_domain(domain);
        match self.direct_records(name, now) {
            Some(records) if has_address(records) => Some(records),
            _ => match self.chain(name, now, MAX_CNAME_CHAIN as nat) {
                None => None,
                Some((target, on_the_way)) => if on_the_way.len() == 0 {
                    None
                } else {
                    match self.direct_records(target, now) {
                        None => None,
                        Some(records) => if has_address(records) {
                            Some(on_the_way + addresses_among(records))
                        } else {
                            None
                        },
                    }
                },
            },
        }
    }

    /// The names that the cache holds at `now` for the address `ip`, the newest first.
    pub open spec fn domains(self, ip: IpAddr, now: nat) -> Option<Seq<Seq<char>>> {
        match get(self.reverse, ip) {
            None => None,
            Some(list) => {
                let names = live_names(list, now).reverse();
                if names.len() == 0 {
                    None
                } else {
                    Some(names)
                }
            },
        }
    }

    /// The cache without what no longer holds at `now`.
    pub open spec fn evict(self, now: nat) -> CacheView {
        CacheView {
            forward: self.forward.filter_map(live_forward_row(now)),
            reverse: self.reverse.filter_map(live_reverse_row(now)),
        }
    }
}

/// The addresses that hold at `now`.
pub open spec fn live_ips(entries: Seq<EntryView>, now: nat) -> Seq<IpAddr> {
    entries.filter_map(
        |e: EntryView|
            if now <= e.expiry {
                e.record.address()
            } else {
                None
            },
    )
}

/// The records that hold at `now`, as the cache gives them out.
pub open spec fn live_records(entries: Seq<EntryView>, now: nat) -> Seq<DnsRecordView> {
    entries.filter_map(
        |e: EntryView|
            if now <= e.expiry {
                Some(given_out(e, now))
            } else {
                None
            },
    )
}

/// The names that hold at `now`.
pub open spec fn live_names(list: Seq<(Seq<char>, nat)>, now: nat) -> Seq<Seq<char>> {
    list.filter_map(
        |p: (Seq<char>, nat)|
            if now <= p.1 {
                Some(p.0)
            } else {
                None
            },
    )
}

/// The predicate that holds of the records that hold at `now`.
pub open spec fn live_entry(now: nat) -> spec_fn(EntryView) -> bool {
    |e: EntryView| now <= e.expiry
}

/// The predicate that holds of the names that hold at `now`.
pub open spec fn live_name(now: nat) -> spec_fn((Seq<char>, nat)) -> bool {
    |p: (Seq<char>, nat)| now <= p.1
}

/// Takes a row of the table from names to records to what is left of it at `now`.
pub open spec fn live_forward_row(now: nat) -> spec_fn((Seq<char>, Seq<EntryView>)) -> Option<
    (Seq<char>, Seq<EntryView>),
> {
    |r: (Seq<char>, Seq<EntryView>)|
        if r.1.filter(live_entry(now)).len() == 0 {
            None
        } else {
            Some((r.0, r.1.filter(live_entry(now))))
        }
}

/// Takes a row of the table from addresses to names to what is left of it at `now`.
pub open spec fn live_reverse_row(now: nat) -> spec_fn((IpAddr, Seq<(Seq<char>, nat)>)) -> Option<
    (IpAddr, Seq<(Seq<char>, nat)>),
> {
    |r: (IpAddr, Seq<(Seq<char>, nat)>)|
        if r.1.filter(live_name(now)).len() == 0 {
            None
        } else {
            Some((r.0, r.1.filter(live_name(now))))
        }
}

/// Whether the record gives an address.
pub open spec fn gives_address(record: DnsRecordView) -> bool {
    !(record is Cname)
}

/// Whether one of the records gives an address.
pub open spec fn has_address(records: Seq<DnsRecordView>) -> bool {
    exists|i: int| 0 <= i < records.len() && gives_address(#[trigger] records[i])
}

/// The records that give an address.
pub open spec fn addresses_among(records: Seq<DnsRecordView>) -> Seq<DnsRecordView> {
    records.filter(|r: DnsRecordView| gives_address(r))
}

/// The table from addresses to names keeps its keys apart while records come in.
proof fn lemma_reverse_unique(
    reverse: Seq<(IpAddr, Seq<(Seq<char>, nat)>)>,
    entries: Seq<EntryView>,
    domain: Seq<char>,
    froms: Seq<Seq<char>>,
    names: Seq<Seq<char>>,
)
    requires
        keys_unique(reverse),
    ensures
        keys_unique(after_direct(reverse, entries, domain, froms)),
        keys_unique(after_referring(reverse, entries, names)),
    decreases entries.len(),
{
    if entries.len() > 0 {
        lemma_reverse_unique(reverse, entries.drop_last(), domain, froms, names);
        let r = after_direct(reverse, entries.drop_last(), domain, froms);
        let q = after_referring(reverse, entries.drop_last(), names);
        match entries.last().record.address() {
            None => {},
            Some(ip) => {
                lemma_put(r, ip, credited(names_of(r, ip), domain, froms, entries.last().expiry));
                lemma_put(q, ip, moved_up(names_of(q, ip), names, entries.last().expiry));
            },
        }
    }
}

/// The clock of the standard library.
#[verifier::external_type_specification]
#[verifier::external_body]
pub struct ExInstant(std::time::Instant);

/// `std::time::Instant::now`: the present moment, of which nothing is known.
#[verifier::external_body]
fn present() -> (r: Instant) {
    Instant::now()
}

/// `std::time::Instant::elapsed`: the time since `start`, in nanoseconds. It fits into a
/// `Duration`.
#[verifier::external_body]
fn elapsed(start: &Instant) -> (r: u128)
    ensures
        r <= LATEST,
{
    start.elapsed().as_nanos()
}

/// The DNS cache.
pub struct DnsCache {
    forward: Vec<(String, Vec<CachedEntry>)>,
    reverse: Vec<(IpAddr, Vec<(String, u128)>)>,
    start: Instant,
}

impl View for DnsCache {
    type V = CacheView;

    closed spec fn view(&self) -> CacheView {
        CacheView {
            forward: forward_views(self.forward@),
            reverse: reverse_views(self.reverse@),
        }
    }
}

fn make_entry(record: &DnsRecord, now: u128) -> (r: CachedEntry)
    requires
        now <= LATEST,
    ensures
        r@ == cached(record@, now as nat),
{
    match record {
        DnsRecord::A(addr, ttl) => CachedEntry {
            record: CachedRecord::A(*addr),
            expiry: now + clamp_ttl(*ttl) as u128 * SECOND,
        },
        DnsRecord::AAAA(addr, ttl) => CachedEntry {
            record: CachedRecord::AAAA(*addr),
            expiry: now + clamp_ttl(*ttl) as u128 * SECOND,
        },
        DnsRecord::Cname(from, to, ttl) => CachedEntry {
            record: CachedRecord::Cname(
                normalize_domain(from.as_str()),
                normalize_domain(to.as_str()),
            ),
            expiry: now + clamp_ttl(*ttl) as u128 * SECOND,
        },
    }
}

fn make_entries(records: &[DnsRecord], now: u128) -> (r: Vec<CachedEntry>)
    requires
        now <= LATEST,
    ensures
        entry_views(r@) == cached_all(record_views(records@), now as nat),
{
    let mut r: Vec<CachedEntry> = Vec::new();
    let mut i: usize = 0;
    while i < records.len()
        invariant
            i <= records@.len(),
            now <= LATEST,
            r@.len() == i,
            forall|j: int| 0 <= j < i ==> (#[trigger] r@[j])@ == cached(records@[j]@, now as nat),
        decreases records@.len() - i,
    {
        r.push(make_entry(&records[i], now));
        i = i + 1;
    }
    assert(entry_views(r@) =~= cached_all(record_views(records@), now as nat));
    r
}

fn alias_names(entries: &Vec<CachedEntry>) -> (r: Vec<String>)
    ensures
        name_views(r@) == aliases(entry_views(entries@)),
{
    let mut r: Vec<String> = Vec::new();
    let ghost all = entry_views(entries@);
    let mut i: usize = 0;
    assert(name_views(r@) =~= aliases(all.take(0)));
    while i < entries.len()
        invariant
            i <= entries@.len(),
            all == entry_views(entries@),
            name_views(r@) == aliases(all.take(i as int)),
        decreases entries@.len() - i,
    {
        let ghost before = name_views(r@);
        assert(all.take(i + 1).drop_last() =~= all.take(i as int));
        assert(all.take(i + 1).last() == entries@[i as int]@);
        if let CachedRecord::Cname(from, _) = &entries[i].record {
            r.push(from.clone());
            assert(name_views(r@) =~= before + seq![from@]);
        }
        i = i + 1;
    }
    assert(all.take(all.len() as int) =~= all);
    r
}

fn contains_name(names: &Vec<String>, name: &String) -> (r: bool)
    ensures
        r == name_views(names@).contains(name@),
{
    let mut i: usize = 0;
    while i < names.len()
        invariant
            i <= names@.len(),
            forall|j: int| 0 <= j < i ==> name_views(names@)[j] != name@,
        decreases names@.len() - i,
    {
        if names[i] == *name {
            assert(name_views(names@)[i as int] == name@);
            return true;
        }
        i = i + 1;
    }
    false
}

/// The row of `ip`, which is made where there is none.
fn reverse_row(reverse: &mut Vec<(IpAddr, Vec<(String, u128)>)>, ip: IpAddr) -> (r: usize)
    requires
        keys_unique(reverse_views(old(reverse)@)),
    ensures
        r < final(reverse)@.len(),
        final(reverse)@[r as int].0 == ip,
        dated_views(final(reverse)@[r as int].1@) == names_of(reverse_views(old(reverse)@), ip),
        forall|list: Seq<(Seq<char>, nat)>|
            #[trigger] reverse_views(final(reverse)@).update(r as int, (ip, list)) == put(
                reverse_views(old(reverse)@),
                ip,
                list,
            ),
{
    let ghost view = reverse_views(reverse@);
    let mut i: usize = 0;
    while i < reverse.len()
        invariant
            i <= reverse@.len(),
            reverse@ == old(reverse)@,
            view == reverse_views(reverse@),
            keys_unique(view),
            forall|j: int| 0 <= j < i ==> (#[trigger] view[j]).0 != ip,
        decreases reverse@.len() - i,
    {
        if reverse[i].0 == ip {
            proof {
                assert(is_row(view, ip, i as int));
                lemma_row(view, ip, i as int);
            }
            return i;
        }
        i = i + 1;
    }
    proof {
        lemma_no_row(view, ip);
    }
    let none: Vec<(String, u128)> = Vec::new();
    reverse.push((ip, none));
    proof {
        assert(dated_views(none@) =~= seq![]);
        assert forall|list: Seq<(Seq<char>, nat)>|
            #[trigger] reverse_views(reverse@).update(i as int, (ip, list)) == put(view, ip, list) by {
            assert(reverse_views(reverse@).update(i as int, (ip, list)) =~= view.push((ip, list)));
        }
    }
    i
}

fn credit(list: Vec<(String, u128)>, domain: &String, froms: &Vec<String>, expiry: u128) -> (r: Vec<
    (String, u128),
>)
    ensures
        dated_views(r@) == credited(
            dated_views(list@),
            domain@,
            name_views(froms@),
            expiry as nat,
        ),
{
    let ghost all = dated_views(list@);
    let ghost names = name_views(froms@);
    let ghost kept = none_of(domain@, names);
    let mut r: Vec<(String, u128)> = Vec::new();
    let mut i: usize = 0;
    reveal(Seq::filter);
    assert(dated_views(r@) =~= all.take(0).filter(kept));
    while i < list.len()
        invariant
            i <= list@.len(),
            all == dated_views(list@),
            names == name_views(froms@),
            kept == none_of(domain@, names),
            dated_views(r@) == all.take(i as int).filter(kept),
        decreases list@.len() - i,
    {
        let ghost before = dated_views(r@);
        reveal(Seq::filter);
        assert(all.take(i + 1).drop_last() =~= all.take(i as int));
        assert(all.take(i + 1).last() == all[i as int]);
        let keep: bool = list[i].0 != *domain && !contains_name(froms, &list[i].0);
        assert(keep == kept(all[i as int]));
        if keep {
            r.push((list[i].0.clone(), list[i].1));
            assert(dated_views(r@) =~= before.push(all[i as int]));
        }
        i = i + 1;
    }
    assert(all.take(all.len() as int) =~= all);
    let ghost first = dated_views(r@);
    r.push((domain.clone(), expiry));
    let ghost second = first.push((domain@, expiry as nat));
    assert(dated_views(r@) =~= second);
    let ghost others = dated_unless(domain@, expiry as nat);
    let mut k: usize = 0;
    assert(names.take(0).filter_map(others) =~= seq![]);
    assert(second + Seq::<(Seq<char>, nat)>::empty() =~= second);
    while k < froms.len()
        invariant
            k <= froms@.len(),
            names == name_views(froms@),
            others == dated_unless(domain@, expiry as nat),
            dated_views(r@) == second + names.take(k as int).filter_map(others),
        decreases froms@.len() - k,
    {
        let ghost before = dated_views(r@);
        assert(names.take(k + 1).drop_last() =~= names.take(k as int));
        assert(names.take(k + 1).last() == names[k as int]);
        if froms[k] != *domain {
            r.push((froms[k].clone(), expiry));
            assert(dated_views(r@) =~= before.push((names[k as int], expiry as nat)));
            assert(dated_views(r@) =~= second + (names.take(k as int).filter_map(others) + seq![
                (names[k as int], expiry as nat),
            ]));
        }
        k = k + 1;
    }
    assert(names.take(names.len() as int) =~= names);
    r
}

/// `list` without the name `name`.
fn drop_name(list: Vec<(String, u128)>, name: &String) -> (r: Vec<(String, u128)>)
    ensures
        dated_views(r@) == dated_views(list@).filter(other_than(name@)),
{
    let ghost all = dated_views(list@);
    let ghost kept = other_than(name@);
    let mut r: Vec<(String, u128)> = Vec::new();
    let mut i: usize = 0;
    reveal(Seq::filter);
    assert(dated_views(r@) =~= all.take(0).filter(kept));
    while i < list.len()
        invariant
            i <= list@.len(),
            all == dated_views(list@),
            kept == other_than(name@),
            dated_views(r@) == all.take(i as int).filter(kept),
        decreases list@.len() - i,
    {
        let ghost before = dated_views(r@);
        reveal(Seq::filter);
        assert(all.take(i + 1).drop_last() =~= all.take(i as int));
        assert(all.take(i + 1).last() == all[i as int]);
        if list[i].0 != *name {
            r.push((list[i].0.clone(), list[i].1));
            assert(dated_views(r@) =~= before.push(all[i as int]));
        }
        i = i + 1;
    }
    assert(all.take(all.len() as int) =~= all);
    r
}

fn move_up(list: Vec<(String, u128)>, names: &Vec<String>, expiry: u128) -> (r: Vec<(String, u128)>)
    ensures
        dated_views(r@) == moved_up(dated_views(list@), name_views(names@), expiry as nat),
{
    let ghost all = name_views(names@);
    let ghost start = dated_views(list@);
    let mut r: Vec<(String, u128)> = list;
    let mut i: usize = 0;
    assert(all.take(0) =~= seq![]);
    while i < names.len()
        invariant
            i <= names@.len(),
            all == name_views(names@),
            dated_views(r@) == moved_up(start, all.take(i as int), expiry as nat),
        decreases names@.len() - i,
    {
        assert(all.take(i + 1).drop_last() =~= all.take(i as int));
        assert(all.take(i + 1).last() == names@[i as int]@);
        r = drop_name(r, &names[i]);
        let ghost before = dated_views(r@);
        r.push((names[i].clone(), expiry));
        assert(dated_views(r@) =~= before.push((names@[i as int]@, expiry as nat)));
        i = i + 1;
    }
    assert(all.take(all.len() as int) =~= all);
    r
}

fn address_of(record: &CachedRecord) -> (r: Option<IpAddr>)
    ensures
        r == record@.address(),
{
    match record {
        CachedRecord::A(addr) => Some(IpAddr::V4(*addr)),
        CachedRecord::AAAA(addr) => Some(IpAddr::V6(*addr)),
        CachedRecord::Cname(_, _) => None,
    }
}

/// Takes the names in the row `i` out of the table.
fn take_names(reverse: &mut Vec<(IpAddr, Vec<(String, u128)>)>, i: usize) -> (r: Vec<(String, u128)>)
    requires
        i < old(reverse)@.len(),
    ensures
        r@ == old(reverse)@[i as int].1@,
        final(reverse)@.len() == old(reverse)@.len(),
        forall|list: Vec<(String, u128)>|
            #[trigger] reverse_views(
                final(reverse)@.update(i as int, (old(reverse)@[i as int].0, list)),
            ) == reverse_views(old(reverse)@).update(
                i as int,
                (old(reverse)@[i as int].0, dated_views(list@)),
            ),
{
    let ghost before = reverse@;
    let mut names: Vec<(String, u128)> = Vec::new();
    std::mem::swap(&mut reverse[i].1, &mut names);
    assert forall|list: Vec<(String, u128)>|
        #[trigger] reverse_views(reverse@.update(i as int, (before[i as int].0, list)))
            == reverse_views(before).update(i as int, (before[i as int].0, dated_views(list@))) by {
        assert(reverse_views(reverse@.update(i as int, (before[i as int].0, list)))
            =~= reverse_views(before).update(i as int, (before[i as int].0, dated_views(list@))));
    }
    names
}

fn any_points_to(entries: &Vec<CachedEntry>, domain: &String) -> (r: bool)
    ensures
        r == points_to(entry_views(entries@), domain@),
{
    let ghost all = entry_views(entries@);
    let mut i: usize = 0;
    while i < entries.len()
        invariant
            i <= entries@.len(),
            all == entry_views(entries@),
            forall|j: int|
                0 <= j < i ==> !((#[trigger] all[j]).record matches CachedRecordView::Cname(_, to) && to
                    == domain@),
        decreases entries@.len() - i,
    {
        assert(all[i as int] == entries@[i as int]@);
        if let CachedRecord::Cname(_, to) = &entries[i].record {
            if *to == *domain {
                return true;
            }
        }
        i = i + 1;
    }
    false
}

fn referring_names(forward: &Vec<(String, Vec<CachedEntry>)>, domain: &String) -> (r: Vec<String>)
    ensures
        name_views(r@) == referring(forward_views(forward@), domain@),
{
    let mut r: Vec<String> = Vec::new();
    let ghost all = forward_views(forward@);
    let mut i: usize = 0;
    assert(name_views(r@) =~= referring(all.take(0), domain@));
    while i < forward.len()
        invariant
            i <= forward@.len(),
            all == forward_views(forward@),
            name_views(r@) == referring(all.take(i as int), domain@),
        decreases forward@.len() - i,
    {
        let ghost before = name_views(r@);
        assert(all.take(i + 1).drop_last() =~= all.take(i as int));
        assert(all.take(i + 1).last() == all[i as int]);
        if any_points_to(&forward[i].1, domain) {
            r.push(forward[i].0.clone());
            assert(name_views(r@) =~= before + seq![all[i as int].0]);
        }
        i = i + 1;
    }
    assert(all.take(all.len() as int) =~= all);
    r
}

fn forward_row(forward: &Vec<(String, Vec<CachedEntry>)>, name: &String) -> (r: Option<usize>)
    requires
        keys_unique(forward_views(forward@)),
    ensures
        match r {
            Some(i) => is_row(forward_views(forward@), name@, i as int) && get(
                forward_views(forward@),
                name@,
            ) == Some(entry_views(forward@[i as int].1@)) && row(forward_views(forward@), name@) == i,
            None => !has_key(forward_views(forward@), name@) && get(
                forward_views(forward@),
                name@,
            ) is None,
        },
{
    let ghost view = forward_views(forward@);
    let mut i: usize = 0;
    while i < forward.len()
        invariant
            i <= forward@.len(),
            view == forward_views(forward@),
            keys_unique(view),
            forall|j: int| 0 <= j < i ==> (#[trigger] view[j]).0 != name@,
        decreases forward@.len() - i,
    {
        if forward[i].0 == *name {
            proof {
                assert(is_row(view, name@, i as int));
                lemma_row(view, name@, i as int);
            }
            return Some(i);
        }
        i = i + 1;
    }
    proof {
        lemma_no_row(view, name@);
    }
    None
}

fn give_out(entry: &CachedEntry, now: u128) -> (r: DnsRecord)
    requires
        now <= entry.expiry,
    ensures
        r@ == given_out(entry@, now as nat),
{
    let left: u32 = ((entry.expiry - now) / SECOND) as u32;
    match &entry.record {
        CachedRecord::A(addr) => DnsRecord::A(*addr, left),
        CachedRecord::AAAA(addr) => DnsRecord::AAAA(*addr, left),
        CachedRecord::Cname(from, to) => DnsRecord::Cname(from.clone(), to.clone(), left),
    }
}

/// Texts, in mathematical terms.
pub open spec fn str_views(names: Seq<&str>) -> Seq<Seq<char>> {
    Seq::new(names.len(), |i: int| names[i]@)
}

/// Drops the records that no longer hold.
fn retain_entries(entries: &mut Vec<CachedEntry>, now: u128)
    ensures
        entry_views(final(entries)@) == entry_views(old(entries)@).filter(
            live_entry(now as nat),
        ),
{
    let ghost all = entry_views(entries@);
    let ghost live = live_entry(now as nat);
    let ghost mut seen: int = 0;
    let mut i: usize = 0;
    reveal(Seq::filter);
    assert(entry_views(entries@) =~= all.take(0).filter(live) + all.skip(0));
    while i < entries.len()
        invariant
            0 <= seen <= all.len(),
            live == live_entry(now as nat),
            i == all.take(seen).filter(live).len(),
            entry_views(entries@) == all.take(seen).filter(live) + all.skip(seen),
        decreases all.len() - seen,
    {
        reveal(Seq::filter);
        let ghost before = entry_views(entries@);
        assert(seen < all.len());
        assert(all.take(seen + 1).drop_last() =~= all.take(seen));
        assert(all.take(seen + 1).last() == all[seen]);
        assert(before[i as int] == all[seen]);
        assert(entries@[i as int]@ == before[i as int]);
        if now <= entries[i].expiry {
            i = i + 1;
            assert(before =~= all.take(seen + 1).filter(live) + all.skip(seen + 1));
        } else {
            entries.remove(i);
            assert(entry_views(entries@) =~= before.remove(i as int));
            assert(entry_views(entries@) =~= all.take(seen + 1).filter(live) + all.skip(seen + 1));
        }
        proof {
            seen = seen + 1;
        }
    }
    assert(seen == all.len());
    assert(all.take(seen) =~= all);
    assert(entry_views(entries@) =~= all.filter(live));
}

/// Drops the names that no longer hold.
fn retain_names(names: &mut Vec<(String, u128)>, now: u128)
    ensures
        dated_views(final(names)@) == dated_views(old(names)@).filter(live_name(now as nat)),
{
    let ghost all = dated_views(names@);
    let ghost live = live_name(now as nat);
    let ghost mut seen: int = 0;
    let mut i: usize = 0;
    reveal(Seq::filter);
    assert(dated_views(names@) =~= all.take(0).filter(live) + all.skip(0));
    while i < names.len()
        invariant
            0 <= seen <= all.len(),
            live == live_name(now as nat),
            i == all.take(seen).filter(live).len(),
            dated_views(names@) == all.take(seen).filter(live) + all.skip(seen),
        decreases all.len() - seen,
    {
        reveal(Seq::filter);
        let ghost before = dated_views(names@);
        assert(seen < all.len());
        assert(all.take(seen + 1).drop_last() =~= all.take(seen));
        assert(all.take(seen + 1).last() == all[seen]);
        assert(before[i as int] == all[seen]);
        if now <= names[i].1 {
            i = i + 1;
            assert(before =~= all.take(seen + 1).filter(live) + all.skip(seen + 1));
        } else {
            names.remove(i);
            assert(dated_views(names@) =~= before.remove(i as int));
            assert(dated_views(names@) =~= all.take(seen + 1).filter(live) + all.skip(seen + 1));
        }
        proof {
            seen = seen + 1;
        }
    }
    assert(seen == all.len());
    assert(all.take(seen) =~= all);
    assert(dated_views(names@) =~= all.filter(live));
}

impl DnsCache {
    #[verifier::type_invariant]
    spec fn inv(self) -> bool {
        self@.wf()
    }

    /// The moment from which the times in the cache are counted.
    pub closed spec fn origin(self) -> Instant {
        self.start
    }

    /// An empty cache.
    pub fn new() -> (r: DnsCache)
        ensures
            r@.wf(),
            r@.forward.len() == 0,
            r@.reverse.len() == 0,
    {
        DnsCache { forward: Vec::new(), reverse: Vec::new(), start: present() }
    }

    /// The time since the cache was made, in nanoseconds.
    pub fn now(&self) -> (r: u128)
        ensures
            r <= LATEST,
    {
        elapsed(&self.start)
    }

    /// Takes in the records that have come for `domain`, at the present moment.
    pub fn insert(&mut self, domain: &str, records: &[DnsRecord])
        ensures
            final(self)@.wf(),
            final(self).origin() == old(self).origin(),
            exists|now: nat| now <= LATEST && final(self)@ == #[trigger] old(self)@.insert(
                domain@,
                record_views(records@),
                now,
            ),
    {
        let now: u128 = self.now();
        self.insert_at(domain, records, now);
    }

    /// Takes in the records that have come for `domain` at `now`.
    ///
    /// They replace what the cache held for `domain`. Every address among them is linked to
    /// `domain`, to the aliases among the records, and to the names that the cache already
    /// knows to be aliases of `domain`.
    pub fn insert_at(&mut self, domain: &str, records: &[DnsRecord], now: u128)
        requires
            now <= LATEST,
        ensures
            final(self)@.wf(),
            final(self).origin() == old(self).origin(),
            final(self)@ == old(self)@.insert(domain@, record_views(records@), now as nat),
    {
        proof {
            use_type_invariant(&*self);
        }
        let name: String = normalize_domain(domain);
        let entries: Vec<CachedEntry> = make_entries(records, now);
        let froms: Vec<String> = alias_names(&entries);
        let ghost views = entry_views(entries@);
        let mut forward: Vec<(String, Vec<CachedEntry>)> = Vec::new();
        let mut reverse: Vec<(IpAddr, Vec<(String, u128)>)> = Vec::new();
        std::mem::swap(&mut forward, &mut self.forward);
        std::mem::swap(&mut reverse, &mut self.reverse);
        let ghost start = reverse_views(reverse@);
        let mut i: usize = 0;
        assert(views.take(0) =~= seq![]);
        while i < entries.len()
            invariant
                i <= entries@.len(),
                views == entry_views(entries@),
                keys_unique(start),
                reverse_views(reverse@) == after_direct(
                    start,
                    views.take(i as int),
                    name@,
                    name_views(froms@),
                ),
            decreases entries@.len() - i,
        {
            proof {
                lemma_reverse_unique(
                    start,
                    views.take(i as int),
                    name@,
                    name_views(froms@),
                    seq![],
                );
            }
            assert(views.take(i + 1).drop_last() =~= views.take(i as int));
            assert(views.take(i + 1).last() == entries@[i as int]@);
            if let Some(ip) = address_of(&entries[i].record) {
                let r: usize = reverse_row(&mut reverse, ip);
                let list: Vec<(String, u128)> = take_names(&mut reverse, r);
                reverse[r] = (ip, credit(list, &name, &froms, entries[i].expiry));
            }
            i = i + 1;
        }
        assert(views.take(views.len() as int) =~= views);
        let names: Vec<String> = referring_names(&forward, &name);
        let ghost middle = reverse_views(reverse@);
        proof {
            lemma_reverse_unique(start, views, name@, name_views(froms@), seq![]);
        }
        i = 0;
        while i < entries.len()
            invariant
                i <= entries@.len(),
                views == entry_views(entries@),
                keys_unique(middle),
                reverse_views(reverse@) == after_referring(middle, views.take(i as int), name_views(names@)),
            decreases entries@.len() - i,
        {
            proof {
                lemma_reverse_unique(
                    middle,
                    views.take(i as int),
                    name@,
                    name_views(froms@),
                    name_views(names@),
                );
            }
            assert(views.take(i + 1).drop_last() =~= views.take(i as int));
            assert(views.take(i + 1).last() == entries@[i as int]@);
            if let Some(ip) = address_of(&entries[i].record) {
                let r: usize = reverse_row(&mut reverse, ip);
                let list: Vec<(String, u128)> = take_names(&mut reverse, r);
                reverse[r] = (ip, move_up(list, &names, entries[i].expiry));
            }
            i = i + 1;
        }
        proof {
            lemma_reverse_unique(middle, views, name@, name_views(froms@), name_views(names@));
            lemma_put(forward_views(forward@), name@, views);
        }
        match forward_row(&forward, &name) {
            Some(r) => {
                let ghost before = forward@;
                forward[r] = (name, entries);
                assert(forward_views(forward@) =~= forward_views(before).update(
                    r as int,
                    (name@, views),
                ));
            },
            None => {
                let ghost before = forward@;
                forward.push((name, entries));
                assert(forward_views(forward@) =~= forward_views(before).push((name@, views)));
            },
        }
        self.forward = forward;
        self.reverse = reverse;
    }

    /// Follows the aliases that begin with `domain`: the name at which they end, and the
    /// aliases on the way.
    fn follow_cname_chain(&self, domain: &String, now: u128) -> (r: Option<(String, Vec<DnsRecord>)>)
        ensures
            match r {
                Some((target, records)) => self@.chain(domain@, now as nat, MAX_CNAME_CHAIN as nat)
                    == Some((target@, record_views(records@))),
                None => self@.chain(domain@, now as nat, MAX_CNAME_CHAIN as nat) is None,
            },
    {
        proof {
            use_type_invariant(self);
        }
        let mut current: String = domain.clone();
        let mut records: Vec<DnsRecord> = Vec::new();
        let mut fuel: usize = MAX_CNAME_CHAIN;
        let ghost whole = self@.chain(domain@, now as nat, MAX_CNAME_CHAIN as nat);
        assert(record_views(records@) =~= seq![]);
        assert(whole matches Some(p) ==> Seq::<DnsRecordView>::empty() + p.1 =~= p.1);
        while fuel > 0
            invariant
                self@.wf(),
                whole == self@.chain(domain@, now as nat, MAX_CNAME_CHAIN as nat),
                whole == (match self@.chain(current@, now as nat, fuel as nat) {
                    None => None,
                    Some((target, rest)) => Some((target, record_views(records@) + rest)),
                }),
            decreases fuel,
        {
            match forward_row(&self.forward, &current) {
                None => {
                    return None;
                },
                Some(r) => {
                    match find_alias(&self.forward[r].1, now) {
                        None => {
                            assert(record_views(records@) + Seq::<DnsRecordView>::empty()
                                =~= record_views(records@));
                            return Some((current, records));
                        },
                        Some(k) => {
                            let ghost before = record_views(records@);
                            let entry: &CachedEntry = &self.forward[r].1[k];
                            records.push(give_out(entry, now));
                            assert(record_views(records@) =~= before + seq![
                                given_out(entry@, now as nat),
                            ]);
                            if let CachedRecord::Cname(_, to) = &entry.record {
                                current = to.clone();
                            }
                            fuel = fuel - 1;
                            assert(self@.chain(current@, now as nat, fuel as nat) matches Some(p)
                                ==> before + (seq![given_out(entry@, now as nat)] + p.1)
                                =~= record_views(records@) + p.1);
                        },
                    }
                },
            }
        }
        None
    }

    /// The addresses for `domain` at the present moment.
    pub fn lookup_ips(&self, domain: &str) -> (r: Option<Vec<IpAddr>>)
        ensures
            exists|now: nat| now <= LATEST && (match r {
                Some(ips) => #[trigger] self@.ips(domain@, now) == Some(ips@),
                None => self@.ips(domain@, now) is None,
            }),
    {
        let now: u128 = self.now();
        self.lookup_ips_at(domain, now)
    }

    /// The addresses for `domain` at `now`: its own, or those of the name at which its
    /// aliases end.
    pub fn lookup_ips_at(&self, domain: &str, now: u128) -> (r: Option<Vec<IpAddr>>)
        ensures
            match r {
                Some(ips) => self@.ips(domain@, now as nat) == Some(ips@),
                None => self@.ips(domain@, now as nat) is None,
            },
    {
        let name: String = normalize_domain(domain);
        if let Some(ips) = self.lookup_ips_direct(&name, now) {
            return Some(ips);
        }
        match self.follow_cname_chain(&name, now) {
            None => None,
            Some((target, _)) => {
                if target == name {
                    None
                } else {
                    self.lookup_ips_direct(&target, now)
                }
            },
        }
    }

    fn lookup_ips_direct(&self, name: &String, now: u128) -> (r: Option<Vec<IpAddr>>)
        ensures
            match r {
                Some(ips) => self@.direct_ips(name@, now as nat) == Some(ips@),
                None => self@.direct_ips(name@, now as nat) is None,
            },
    {
        proof {
            use_type_invariant(self);
        }
        match forward_row(&self.forward, name) {
            None => None,
            Some(r) => {
                let entries: &Vec<CachedEntry> = &self.forward[r].1;
                let ghost all = entry_views(entries@);
                let mut ips: Vec<IpAddr> = Vec::new();
                let mut i: usize = 0;
                assert(ips@ =~= live_ips(all.take(0), now as nat));
                while i < entries.len()
                    invariant
                        i <= entries@.len(),
                        all == entry_views(entries@),
                        ips@ == live_ips(all.take(i as int), now as nat),
                    decreases entries@.len() - i,
                {
                    let ghost before = ips@;
                    assert(all.take(i + 1).drop_last() =~= all.take(i as int));
                    assert(all.take(i + 1).last() == entries@[i as int]@);
                    if now <= entries[i].expiry {
                        if let Some(ip) = address_of(&entries[i].record) {
                            ips.push(ip);
                            assert(ips@ =~= before + seq![ip]);
                        }
                    }
                    i = i + 1;
                }
                assert(all.take(all.len() as int) =~= all);
                if ips.len() == 0 {
                    None
                } else {
                    Some(ips)
                }
            },
        }
    }

    /// The names that stand behind `ip` at the present moment, the newest first.
    pub fn lookup_domains(&self, ip: &IpAddr) -> (r: Option<Vec<&str>>)
        ensures
            exists|now: nat| now <= LATEST && (match r {
                Some(names) => #[trigger] self@.domains(*ip, now) == Some(str_views(names@)),
                None => self@.domains(*ip, now) is None,
            }),
    {
        let now: u128 = self.now();
        self.lookup_domains_at(ip, now)
    }

    /// The names that stand behind `ip` at `now`, the newest first.
    pub fn lookup_domains_at(&self, ip: &IpAddr, now: u128) -> (r: Option<Vec<&str>>)
        ensures
            match r {
                Some(names) => self@.domains(*ip, now as nat) == Some(str_views(names@)),
                None => self@.domains(*ip, now as nat) is None,
            },
    {
        proof {
            use_type_invariant(self);
        }
        let ghost view = self@.reverse;
        let mut r: usize = 0;
        while r < self.reverse.len() && self.reverse[r].0 != *ip
            invariant
                r <= self.reverse@.len(),
                view == reverse_views(self.reverse@),
                forall|j: int| 0 <= j < r ==> (#[trigger] view[j]).0 != *ip,
            decreases self.reverse@.len() - r,
        {
            r = r + 1;
        }
        if r == self.reverse.len() {
            proof {
                lemma_no_row(view, *ip);
            }
            return None;
        }
        proof {
            assert(is_row(view, *ip, r as int));
            lemma_row(view, *ip, r as int);
        }
        let list: &Vec<(String, u128)> = &self.reverse[r].1;
        let ghost all = dated_views(list@);
        let mut names: Vec<&str> = Vec::new();
        let mut i: usize = list.len();
        assert(all.take(all.len() as int) =~= all);
        assert(str_views(names@) + live_names(all, now as nat).reverse() =~= live_names(
            all,
            now as nat,
        ).reverse());
        while i > 0
            invariant
                i <= list@.len(),
                all == dated_views(list@),
                live_names(all, now as nat).reverse() == str_views(names@) + live_names(
                    all.take(i as int),
                    now as nat,
                ).reverse(),
            decreases i,
        {
            i = i - 1;
            let ghost before = str_views(names@);
            let ghost rest = live_names(all.take(i as int), now as nat);
            assert(all.take(i + 1).drop_last() =~= all.take(i as int));
            assert(all.take(i + 1).last() == all[i as int]);
            if now <= list[i].1 {
                names.push(list[i].0.as_str());
                assert(str_views(names@) =~= before + seq![all[i as int].0]);
                assert((rest + seq![all[i as int].0]).reverse() =~= seq![all[i as int].0]
                    + rest.reverse());
                assert(before + (seq![all[i as int].0] + rest.reverse()) =~= str_views(names@)
                    + rest.reverse());
            }
        }
        assert(live_names(all.take(0), now as nat).reverse() =~= seq![]);
        assert(str_views(names@) =~= live_names(all, now as nat).reverse());
        if names.len() == 0 {
            None
        } else {
            Some(names)
        }
    }

    /// The records for `domain` at the present moment, with the seconds that are left of
    /// each.
    pub fn lookup_with_ttl(&self, domain: &str) -> (r: Option<Vec<DnsRecord>>)
        ensures
            exists|now: nat| now <= LATEST && (match r {
                Some(records) => #[trigger] self@.records(domain@, now) == Some(
                    record_views(records@),
                ),
                None => self@.records(domain@, now) is None,
            }),
    {
        let now: u128 = self.now();
        self.lookup_with_ttl_at(domain, now)
    }

    /// The records for `domain` at `now`, with the seconds that are left of each: its own,
    /// where an address is among them, or the aliases and the addresses at which they end.
    pub fn lookup_with_ttl_at(&self, domain: &str, now: u128) -> (r: Option<Vec<DnsRecord>>)
        ensures
            match r {
                Some(records) => self@.records(domain@, now as nat) == Some(record_views(records@)),
                None => self@.records(domain@, now as nat) is None,
            },
    {
        let name: String = normalize_domain(domain);
        if let Some(records) = self.lookup_with_ttl_direct(&name, now) {
            if any_address(&records) {
                return Some(records);
            }
        }
        let (target, on_the_way) = match self.follow_cname_chain(&name, now) {
            Some(p) => p,
            None => {
                return None;
            },
        };
        if on_the_way.len() == 0 {
            return None;
        }
        let records: Vec<DnsRecord> = match self.lookup_with_ttl_direct(&target, now) {
            Some(records) => records,
            None => {
                return None;
            },
        };
        if !any_address(&records) {
            return None;
        }
        let ghost first = record_views(on_the_way@);
        let mut combined: Vec<DnsRecord> = on_the_way;
        let mut addresses: Vec<DnsRecord> = keep_addresses(records);
        let ghost second = record_views(addresses@);
        combined.append(&mut addresses);
        assert(record_views(combined@) =~= first + second);
        Some(combined)
    }

    fn lookup_with_ttl_direct(&self, name: &String, now: u128) -> (r: Option<Vec<DnsRecord>>)
        ensures
            match r {
                Some(records) => self@.direct_records(name@, now as nat) == Some(
                    record_views(records@),
                ),
                None => self@.direct_records(name@, now as nat) is None,
            },
    {
        proof {
            use_type_invariant(self);
        }
        match forward_row(&self.forward, name) {
            None => None,
            Some(r) => {
                let entries: &Vec<CachedEntry> = &self.forward[r].1;
                let ghost all = entry_views(entries@);
                let mut records: Vec<DnsRecord> = Vec::new();
                let mut i: usize = 0;
                assert(record_views(records@) =~= live_records(all.take(0), now as nat));
                while i < entries.len()
                    invariant
                        i <= entries@.len(),
                        all == entry_views(entries@),
                        record_views(records@) == live_records(all.take(i as int), now as nat),
                    decreases entries@.len() - i,
                {
                    let ghost before = record_views(records@);
                    assert(all.take(i + 1).drop_last() =~= all.take(i as int));
                    assert(all.take(i + 1).last() == entries@[i as int]@);
                    if now <= entries[i].expiry {
                        records.push(give_out(&entries[i], now));
                        assert(record_views(records@) =~= before + seq![
                            given_out(all[i as int], now as nat),
                        ]);
                    }
                    i = i + 1;
                }
                assert(all.take(all.len() as int) =~= all);
                Some(records)
            },
        }
    }

    /// Drops what no longer holds at the present moment.
    pub fn evict_expired(&mut self)
        ensures
            final(self)@.wf(),
            final(self).origin() == old(self).origin(),
            exists|now: nat| now <= LATEST && final(self)@ == #[trigger] old(self)@.evict(now),
    {
        let now: u128 = self.now();
        self.evict_expired_at(now);
    }

    /// Drops what no longer holds at `now`.
    pub fn evict_expired_at(&mut self, now: u128)
        ensures
            final(self)@.wf(),
            final(self).origin() == old(self).origin(),
            final(self)@ == old(self)@.evict(now as nat),
    {
        proof {
            use_type_invariant(&*self);
            lemma_filter_rows(self@.forward, live_forward_row(now as nat));
            lemma_filter_rows(self@.reverse, live_reverse_row(now as nat));
        }
        let mut forward: Vec<(String, Vec<CachedEntry>)> = Vec::new();
        let mut reverse: Vec<(IpAddr, Vec<(String, u128)>)> = Vec::new();
        std::mem::swap(&mut forward, &mut self.forward);
        std::mem::swap(&mut reverse, &mut self.reverse);
        evict_forward(&mut forward, now);
        evict_reverse(&mut reverse, now);
        self.forward = forward;
        self.reverse = reverse;
    }
}

/// Drops the records that no longer hold, and the names without records.
fn evict_forward(rows: &mut Vec<(String, Vec<CachedEntry>)>, now: u128)
    ensures
        forward_views(final(rows)@) == forward_views(old(rows)@).filter_map(
            live_forward_row(now as nat),
        ),
{
    let ghost all = forward_views(rows@);
    let ghost live = live_forward_row(now as nat);
    let ghost mut seen: int = 0;
    let mut i: usize = 0;
    assert(forward_views(rows@) =~= all.take(0).filter_map(live) + all.skip(0));
    while i < rows.len()
        invariant
            0 <= seen <= all.len(),
            live == live_forward_row(now as nat),
            i == all.take(seen).filter_map(live).len(),
            forward_views(rows@) == all.take(seen).filter_map(live) + all.skip(seen),
        decreases all.len() - seen,
    {
        let ghost before = forward_views(rows@);
        let ghost kept = all.take(seen).filter_map(live);
        assert(seen < all.len());
        assert(all.take(seen + 1).drop_last() =~= all.take(seen));
        assert(all.take(seen + 1).last() == all[seen]);
        assert(before[i as int] == all[seen]);
        retain_entries(&mut rows[i].1, now);
        let ghost left = all[seen].1.filter(live_entry(now as nat));
        assert(entry_views(rows@[i as int].1@) == left);
        assert(forward_views(rows@) =~= before.update(i as int, (all[seen].0, left)));
        if rows[i].1.len() > 0 {
            assert(left.len() > 0);
            assert(all.take(seen + 1).filter_map(live) =~= kept + seq![(all[seen].0, left)]);
            i = i + 1;
            assert(forward_views(rows@) =~= all.take(seen + 1).filter_map(live) + all.skip(seen + 1));
        } else {
            assert(left.len() == 0);
            assert(all.take(seen + 1).filter_map(live) =~= kept);
            rows.remove(i);
            assert(forward_views(rows@) =~= before.remove(i as int));
            assert(forward_views(rows@) =~= all.take(seen + 1).filter_map(live) + all.skip(seen + 1));
        }
        proof {
            seen = seen + 1;
        }
    }
    assert(all.take(all.len() as int) =~= all);
    assert(forward_views(rows@) =~= all.filter_map(live));
}

/// Drops the names that no longer hold, and the addresses without names.
fn evict_reverse(rows: &mut Vec<(IpAddr, Vec<(String, u128)>)>, now: u128)
    ensures
        reverse_views(final(rows)@) == reverse_views(old(rows)@).filter_map(
            live_reverse_row(now as nat),
        ),
{
    let ghost all = reverse_views(rows@);
    let ghost live = live_reverse_row(now as nat);
    let ghost mut seen: int = 0;
    let mut i: usize = 0;
    assert(reverse_views(rows@) =~= all.take(0).filter_map(live) + all.skip(0));
    while i < rows.len()
        invariant
            0 <= seen <= all.len(),
            live == live_reverse_row(now as nat),
            i == all.take(seen).filter_map(live).len(),
            reverse_views(rows@) == all.take(seen).filter_map(live) + all.skip(seen),
        decreases all.len() - seen,
    {
        let ghost before = reverse_views(rows@);
        let ghost kept = all.take(seen).filter_map(live);
        assert(seen < all.len());
        assert(all.take(seen + 1).drop_last() =~= all.take(seen));
        assert(all.take(seen + 1).last() == all[seen]);
        assert(before[i as int] == all[seen]);
        retain_names(&mut rows[i].1, now);
        let ghost left = all[seen].1.filter(live_name(now as nat));
        assert(dated_views(rows@[i as int].1@) == left);
        assert(reverse_views(rows@) =~= before.update(i as int, (all[seen].0, left)));
        if rows[i].1.len() > 0 {
            assert(left.len() > 0);
            assert(all.take(seen + 1).filter_map(live) =~= kept + seq![(all[seen].0, left)]);
            i = i + 1;
            assert(reverse_views(rows@) =~= all.take(seen + 1).filter_map(live) + all.skip(seen + 1));
        } else {
            assert(left.len() == 0);
            assert(all.take(seen + 1).filter_map(live) =~= kept);
            rows.remove(i);
            assert(reverse_views(rows@) =~= before.remove(i as int));
            assert(reverse_views(rows@) =~= all.take(seen + 1).filter_map(live) + all.skip(seen + 1));
        }
        proof {
            seen = seen + 1;
        }
    }
    assert(all.take(all.len() as int) =~= all);
    assert(reverse_views(rows@) =~= all.filter_map(live));
}

fn find_alias(entries: &Vec<CachedEntry>, now: u128) -> (r: Option<usize>)
    ensures
        match r {
            Some(i) => i < entries@.len() && entries@[i as int].expiry >= now
                && entries@[i as int].record is Cname && live_alias(
                entry_views(entries@),
                now as nat,
            ) == Some(entries@[i as int]@),
            None => live_alias(entry_views(entries@), now as nat) is None,
        },
{
    let ghost all = entry_views(entries@);
    let mut i: usize = 0;
    assert(all.skip(0) =~= all);
    while i < entries.len()
        invariant
            i <= entries@.len(),
            all == entry_views(entries@),
            live_alias(all, now as nat) == live_alias(all.skip(i as int), now as nat),
        decreases entries@.len() - i,
    {
        assert(all.skip(i as int).first() == entries@[i as int]@);
        assert(all.skip(i as int).drop_first() =~= all.skip(i + 1));
        let alias: bool = match &entries[i].record {
            CachedRecord::Cname(_, _) => true,
            _ => false,
        };
        if now <= entries[i].expiry && alias {
            return Some(i);
        }
        i = i + 1;
    }
    None
}

fn any_address(records: &Vec<DnsRecord>) -> (r: bool)
    ensures
        r == has_address(record_views(records@)),
{
    let ghost all = record_views(records@);
    let mut i: usize = 0;
    while i < records.len()
        invariant
            i <= records@.len(),
            all == record_views(records@),
            forall|j: int| 0 <= j < i ==> !gives_address(#[trigger] all[j]),
        decreases records@.len() - i,
    {
        assert(all[i as int] == records@[i as int]@);
        match &records[i] {
            DnsRecord::Cname(_, _, _) => {},
            _ => {
                assert(gives_address(all[i as int]));
                return true;
            },
        }
        i = i + 1;
    }
    false
}

fn keep_addresses(records: Vec<DnsRecord>) -> (r: Vec<DnsRecord>)
    ensures
        record_views(r@) == addresses_among(record_views(records@)),
{
    let ghost all = record_views(records@);
    let mut r: Vec<DnsRecord> = Vec::new();
    let mut i: usize = 0;
    reveal(Seq::filter);
    assert(record_views(r@) =~= addresses_among(all.take(0)));
    while i < records.len()
        invariant
            i <= records@.len(),
            all == record_views(records@),
            record_views(r@) == addresses_among(all.take(i as int)),
        decreases records@.len() - i,
    {
        reveal(Seq::filter);
        let ghost before = record_views(r@);
        assert(all.take(i + 1).drop_last() =~= all.take(i as int));
        assert(all.take(i + 1).last() == records@[i as int]@);
        match &records[i] {
            DnsRecord::A(addr, ttl) => {
                r.push(DnsRecord::A(*addr, *ttl));
                assert(record_views(r@) =~= before.push(all[i as int]));
            },
            DnsRecord::AAAA(addr, ttl) => {
                r.push(DnsRecord::AAAA(*addr, *ttl));
                assert(record_views(r@) =~= before.push(all[i as int]));
            },
            DnsRecord::Cname(_, _, _) => {},
        }
        i = i + 1;
    }
    assert(all.take(all.len() as int) =~= all);
    r
}

/// The cache that the sessions of a bridge share, empty. The bridge puts it behind a lock.
pub fn make_shared_dns_cache() -> (r: DnsCache)
    ensures
        r@.wf(),
        r@.forward.len() == 0,
        r@.reverse.len() == 0,
{
    DnsCache::new()
}

} // verus!
