//! What the DNS cache promises over several operations.

use vstd::prelude::*;

use crate::dns_mapping::{
    addresses_among, after_direct, after_referring, aliases, cached, cached_all, clamped, credited,
    expiry_of, given_out, gives_address, has_address, live_alias, live_entry,
    live_forward_row, live_ips, live_name, live_names, live_records, live_reverse_row,
    moved_up, names_of, referring, remaining, CacheView, DnsRecordView, EntryView,
    MAX_CNAME_CHAIN, MAX_TTL, MIN_TTL, SECOND,
};
use crate::net::IpAddr;
use crate::table::{get, keys_unique, lemma_filter_rows, lemma_put};
use crate::text::{is_dot, lower, lower_char, normal_domain, strip_end};

verus! {

/// The addresses that the records give.
pub open spec fn all_ips(records: Seq<DnsRecordView>) -> Seq<IpAddr> {
    records.filter_map(
        |r: DnsRecordView|
            match r {
                DnsRecordView::A(addr, _) => Some(IpAddr::V4(addr)),
                DnsRecordView::AAAA(addr, _) => Some(IpAddr::V6(addr)),
                DnsRecordView::Cname(_, _, _) => None,
            },
    )
}

/// A full stop at the end of a name does not matter.
pub proof fn law_normal_trailing_dot(name: Seq<char>)
    ensures
        normal_domain(name.push('.')) == normal_domain(name),
{
    assert(name.push('.').drop_last() =~= name);
}

proof fn lemma_lower_char_idempotent(c: char)
    ensures
        lower_char(lower_char(c)) == lower_char(c),
        lower_char(c) == '.' <==> c == '.',
{
}

proof fn lemma_strip_lower(name: Seq<char>)
    ensures
        strip_end(lower(name), is_dot()) == lower(strip_end(name, is_dot())),
    decreases name.len(),
{
    if name.len() > 0 {
        lemma_lower_char_idempotent(name.last());
        assert(lower(name).last() == lower_char(name.last()));
        assert(lower(name).drop_last() =~= lower(name.drop_last()));
        if name.last() == '.' {
            lemma_strip_lower(name.drop_last());
        }
    }
}

/// The case of letters in a name does not matter.
pub proof fn law_normal_case(name: Seq<char>)
    ensures
        normal_domain(lower(name)) == normal_domain(name),
{
    lemma_strip_lower(name);
    let s = strip_end(name, is_dot());
    assert(lower(lower(s)) =~= lower(s)) by {
        assert forall|i: int| 0 <= i < s.len() implies lower(lower(s))[i] == lower(s)[i] by {
            lemma_lower_char_idempotent(s[i]);
        }
    }
}

proof fn lemma_strip_ends(s: Seq<char>)
    ensures
        strip_end(s, is_dot()).len() > 0 ==> strip_end(s, is_dot()).last() != '.',
    decreases s.len(),
{
    if s.len() > 0 && s.last() == '.' {
        lemma_strip_ends(s.drop_last());
    }
}

/// The normal form of a normal form is that form.
pub proof fn law_normal_idempotent(name: Seq<char>)
    ensures
        normal_domain(normal_domain(name)) == normal_domain(name),
{
    let s = strip_end(name, is_dot());
    lemma_strip_ends(name);
    lemma_strip_lower(s);
    assert(strip_end(s, is_dot()) == s);
    assert(lower(lower(s)) =~= lower(s)) by {
        assert forall|i: int| 0 <= i < s.len() implies lower(lower(s))[i] == lower(s)[i] by {
            lemma_lower_char_idempotent(s[i]);
        }
    }
}

/// A record is kept for at least the shortest and at most the longest time.
pub proof fn law_expiry_in_range(record: DnsRecordView, now: nat)
    ensures
        now + MIN_TTL * SECOND <= cached(record, now).expiry <= now + MAX_TTL * SECOND,
{
    let ttl = match record {
        DnsRecordView::A(_, ttl) => ttl,
        DnsRecordView::AAAA(_, ttl) => ttl,
        DnsRecordView::Cname(_, _, ttl) => ttl,
    };
    assert(MIN_TTL <= clamped(ttl) <= MAX_TTL);
    assert(cached(record, now).expiry == now + clamped(ttl) * SECOND);
}

/// The time to live with which a record comes out is at most the time for which it was taken
/// in, and all of it at the moment at which it was taken in.
pub proof fn law_ttl_counts_down(ttl: u32, now: nat, t: nat)
    requires
        now <= t <= expiry_of(ttl, now),
    ensures
        remaining(expiry_of(ttl, now), t) <= clamped(ttl),
        t == now ==> remaining(expiry_of(ttl, now), t) == clamped(ttl),
        t > now ==> remaining(expiry_of(ttl, now), t) < clamped(ttl),
{
    let c = clamped(ttl) as int;
    let d = SECOND as int;
    let left = expiry_of(ttl, now) - t;
    assert(left <= c * d);
    assert(0 <= left / d <= c) by (nonlinear_arith)
        requires
            0 <= left <= c * d,
            d == 1_000_000_000,
    ;
    assert(remaining(expiry_of(ttl, now), t) == left / d);
    if t == now {
        assert(left / d == c) by (nonlinear_arith)
            requires
                left == c * d,
                d == 1_000_000_000,
        ;
    } else {
        assert(left / d < c) by (nonlinear_arith)
            requires
                0 <= left < c * d,
                d == 1_000_000_000,
        ;
    }
}

/// Whether all of the records hold at `t` when they were taken in at `now`: no time to live,
/// brought into its range, has passed.
pub open spec fn all_hold(records: Seq<DnsRecordView>, now: nat, t: nat) -> bool {
    forall|i: int| 0 <= i < records.len() ==> t <= (#[trigger] cached(records[i], now)).expiry
}

/// All records hold for the shortest time.
pub proof fn law_records_hold(records: Seq<DnsRecordView>, now: nat, t: nat)
    requires
        t <= now + MIN_TTL * SECOND,
    ensures
        all_hold(records, now, t),
{
    assert forall|i: int| 0 <= i < records.len() implies t <= (#[trigger] cached(
        records[i],
        now,
    )).expiry by {
        law_expiry_in_range(records[i], now);
    }
}

proof fn lemma_hold_before(records: Seq<DnsRecordView>, now: nat, t: nat)
    requires
        records.len() > 0,
        all_hold(records, now, t),
    ensures
        all_hold(records.drop_last(), now, t),
        t <= cached(records.last(), now).expiry,
{
    assert forall|i: int| 0 <= i < records.len() - 1 implies t <= (#[trigger] cached(
        records.drop_last()[i],
        now,
    )).expiry by {
        assert(cached(records[i], now).expiry >= t);
    }
    assert(cached(records[records.len() - 1], now).expiry >= t);
}

proof fn lemma_all_live_ips(records: Seq<DnsRecordView>, now: nat, t: nat)
    requires
        all_hold(records, now, t),
    ensures
        live_ips(cached_all(records, now), t) == all_ips(records),
    decreases records.len(),
{
    let entries = cached_all(records, now);
    if records.len() > 0 {
        lemma_hold_before(records, now, t);
        lemma_all_live_ips(records.drop_last(), now, t);
        assert(entries.drop_last() =~= cached_all(records.drop_last(), now));
        assert(entries.last() == cached(records.last(), now));
    }
}

proof fn lemma_some_ips(records: Seq<DnsRecordView>)
    requires
        has_address(records),
    ensures
        all_ips(records).len() > 0,
    decreases records.len(),
{
    let i = choose|i: int| 0 <= i < records.len() && gives_address(#[trigger] records[i]);
    if i < records.len() - 1 {
        assert(records.drop_last()[i] == records[i]);
        lemma_some_ips(records.drop_last());
    }
}

/// The records as they come out at `t` when they were taken in at `now`.
pub open spec fn aged(records: Seq<DnsRecordView>, now: nat, t: nat) -> Seq<DnsRecordView> {
    Seq::new(records.len(), |i: int| given_out(cached(records[i], now), t))
}

proof fn lemma_all_live_records(records: Seq<DnsRecordView>, now: nat, t: nat)
    requires
        all_hold(records, now, t),
    ensures
        live_records(cached_all(records, now), t) == aged(records, now, t),
    decreases records.len(),
{
    let entries = cached_all(records, now);
    if records.len() > 0 {
        lemma_hold_before(records, now, t);
        lemma_all_live_records(records.drop_last(), now, t);
        assert(entries.drop_last() =~= cached_all(records.drop_last(), now));
        assert(entries.last() == cached(records.last(), now));
        assert(aged(records, now, t) =~= aged(records.drop_last(), now, t) + seq![
            given_out(cached(records.last(), now), t),
        ]);
    } else {
        assert(live_records(entries, t) =~= aged(records, now, t));
    }
}

proof fn lemma_live_given(entries: Seq<EntryView>, i: int, ip: IpAddr, t: nat)
    requires
        0 <= i < entries.len(),
        entries[i].record.address() == Some(ip),
        t <= entries[i].expiry,
    ensures
        live_ips(entries, t).contains(ip),
        live_records(entries, t).contains(given_out(entries[i], t)),
    decreases entries.len(),
{
    let before = entries.drop_last();
    let ips = live_ips(before, t);
    let records = live_records(before, t);
    if i < entries.len() - 1 {
        assert(before[i] == entries[i]);
        lemma_live_given(before, i, ip, t);
        let j = choose|j: int| 0 <= j < ips.len() && ips[j] == ip;
        assert(live_ips(entries, t)[j] == ip);
        let k = choose|k: int| 0 <= k < records.len() && records[k] == given_out(entries[i], t);
        assert(live_records(entries, t)[k] == given_out(entries[i], t));
    } else {
        assert(live_ips(entries, t)[ips.len() as int] == ip);
        assert(live_records(entries, t)[records.len() as int] == given_out(entries[i], t));
    }
}

proof fn lemma_none_live(entries: Seq<EntryView>, t: nat)
    requires
        forall|i: int| 0 <= i < entries.len() ==> (#[trigger] entries[i]).expiry < t,
    ensures
        live_ips(entries, t).len() == 0,
        live_records(entries, t).len() == 0,
        live_alias(entries, t) is None,
    decreases entries.len(),
{
    if entries.len() > 0 {
        assert forall|i: int| 0 <= i < entries.drop_last().len() implies (
        #[trigger] entries.drop_last()[i]).expiry < t by {
            assert(entries.drop_last()[i] == entries[i]);
        }
        assert forall|i: int| 0 <= i < entries.drop_first().len() implies (
        #[trigger] entries.drop_first()[i]).expiry < t by {
            assert(entries.drop_first()[i] == entries[i + 1]);
        }
        lemma_none_live(entries.drop_last(), t);
        lemma_none_live(entries.drop_first(), t);
        assert(entries.last() == entries[entries.len() - 1]);
        assert(entries.first() == entries[0]);
    }
}

impl CacheView {
    /// What was taken in for a name can be read back while it holds, under every way to write
    /// the name: all addresses, and all records with what is left of their times to live.
    pub proof fn law_insert_then_lookup(
        self,
        domain: Seq<char>,
        records: Seq<DnsRecordView>,
        now: nat,
        query: Seq<char>,
        t: nat,
    )
        requires
            self.wf(),
            normal_domain(query) == normal_domain(domain),
            all_hold(records, now, t),
            has_address(records),
        ensures
            self.insert(domain, records, now).ips(query, t) == Some(all_ips(records)),
            self.insert(domain, records, now).records(query, t) == Some(aged(records, now, t)),
    {
        let name = normal_domain(domain);
        let entries = cached_all(records, now);
        lemma_put(self.forward, name, entries);
        lemma_all_live_ips(records, now, t);
        lemma_some_ips(records);
        lemma_all_live_records(records, now, t);
        let i = choose|i: int| 0 <= i < records.len() && gives_address(#[trigger] records[i]);
        assert(gives_address(aged(records, now, t)[i]));
    }

    /// An address is given out for its whole time to live, whatever has become of the others
    /// that came with it, and with what is left of that time.
    pub proof fn law_address_holds_its_time(
        self,
        domain: Seq<char>,
        records: Seq<DnsRecordView>,
        now: nat,
        query: Seq<char>,
        t: nat,
        i: int,
        ip: IpAddr,
    )
        requires
            self.wf(),
            normal_domain(query) == normal_domain(domain),
            0 <= i < records.len(),
            cached(records[i], now).record.address() == Some(ip),
            t <= cached(records[i], now).expiry,
        ensures
            self.insert(domain, records, now).ips(query, t) matches Some(ips) && ips.contains(ip),
            self.insert(domain, records, now).records(query, t) matches Some(all) && all.contains(
                given_out(cached(records[i], now), t),
            ),
    {
        let entries = cached_all(records, now);
        lemma_put(self.forward, normal_domain(domain), entries);
        lemma_live_given(entries, i, ip, t);
        let all = live_records(entries, t);
        let k = choose|k: int| 0 <= k < all.len() && all[k] == given_out(entries[i], t);
        assert(gives_address(all[k]));
    }

    /// What was taken in for a name is not given out once the longest time has passed.
    pub proof fn law_records_expire(
        self,
        domain: Seq<char>,
        records: Seq<DnsRecordView>,
        now: nat,
        query: Seq<char>,
        t: nat,
    )
        requires
            self.wf(),
            normal_domain(query) == normal_domain(domain),
            now + MAX_TTL * SECOND < t,
        ensures
            self.insert(domain, records, now).ips(query, t) is None,
            self.insert(domain, records, now).records(query, t) is None,
    {
        let name = normal_domain(domain);
        let entries = cached_all(records, now);
        lemma_put(self.forward, name, entries);
        assert forall|i: int| 0 <= i < entries.len() implies (#[trigger] entries[i]).expiry < t by {
            law_expiry_in_range(records[i], now);
        }
        lemma_none_live(entries, t);
    }

    /// Taking in records for one name leaves what is known of every other name alone.
    pub proof fn law_insert_is_local(
        self,
        domain: Seq<char>,
        records: Seq<DnsRecordView>,
        now: nat,
        other: Seq<char>,
        t: nat,
    )
        requires
            self.wf(),
            other != normal_domain(domain),
        ensures
            self.insert(domain, records, now).direct_ips(other, t) == self.direct_ips(other, t),
            self.insert(domain, records, now).direct_records(other, t) == self.direct_records(
                other,
                t,
            ),
    {
        lemma_put(self.forward, normal_domain(domain), cached_all(records, now));
    }

    /// Taking records in keeps every name and every address at one place.
    pub proof fn law_insert_keeps_keys_apart(
        self,
        domain: Seq<char>,
        records: Seq<DnsRecordView>,
        now: nat,
    )
        requires
            self.wf(),
        ensures
            self.insert(domain, records, now).wf(),
    {
        let name = normal_domain(domain);
        let entries = cached_all(records, now);
        lemma_put(self.forward, name, entries);
        lemma_direct_unique(self.reverse, entries, name, aliases(entries));
        lemma_referring_unique(
            after_direct(self.reverse, entries, name, aliases(entries)),
            entries,
            referring(self.forward, name),
        );
    }

    /// Whether the cache holds at `t` that `name` is an alias for `target`.
    pub open spec fn leads(self, name: Seq<char>, target: Seq<char>, t: nat) -> bool {
        get(self.forward, name) matches Some(entries) && live_alias(entries, t) matches Some(e)
            && e.record->Cname_1 == target
    }

    /// Whether every name of `path` but the last is an alias for the next one, and the last
    /// is known and is no alias.
    pub open spec fn alias_path(self, path: Seq<Seq<char>>, t: nat) -> bool {
        &&& path.len() > 0
        &&& forall|i: int, j: int|
            0 <= i && j == i + 1 && j < path.len() ==> self.leads(
                #[trigger] path[i],
                #[trigger] path[j],
                t,
            )
        &&& get(self.forward, path.last()) matches Some(entries) && live_alias(entries, t) is None
    }

    proof fn lemma_path_ends(self, path: Seq<Seq<char>>, t: nat, fuel: nat)
        requires
            self.alias_path(path, t),
        ensures
            match self.chain(path.first(), t, fuel) {
                Some((target, records)) => fuel >= path.len() && target == path.last()
                    && records.len() == path.len() - 1,
                None => fuel < path.len(),
            },
        decreases path.len(),
    {
        if fuel > 0 && path.len() > 1 {
            let rest = path.drop_first();
            assert(self.leads(path[0], path[1], t));
            assert forall|i: int, j: int| 0 <= i && j == i + 1 && j < rest.len() implies self.leads(
                #[trigger] rest[i],
                #[trigger] rest[j],
                t,
            ) by {
                assert(self.leads(path[i + 1], path[j + 1], t));
            }
            self.lemma_path_ends(rest, t, (fuel - 1) as nat);
        }
    }

    /// A name without addresses of its own has those of the name at which its aliases end,
    /// also where they came in separate responses; there are none where the way is too long.
    pub proof fn law_aliases_resolve(self, domain: Seq<char>, path: Seq<Seq<char>>, t: nat)
        requires
            self.alias_path(path, t),
            path.first() == normal_domain(domain),
            path.last() != path.first(),
            self.direct_ips(path.first(), t) is None,
        ensures
            self.ips(domain, t) == (if path.len() <= 8 {
                self.direct_ips(path.last(), t)
            } else {
                None
            }),
    {
        self.lemma_path_ends(path, t, MAX_CNAME_CHAIN as nat);
    }

    /// Aliases that lead nowhere but to each other have no end: where every name of a set is
    /// an alias for a name of the set, no name of the set resolves through its alias.
    pub proof fn law_cycles_have_no_end(self, names: Set<Seq<char>>, name: Seq<char>, t: nat, fuel: nat)
        requires
            names.contains(name),
            forall|n: Seq<char>| #[trigger] names.contains(n) ==> (get(self.forward, n) matches Some(
                entries,
            ) && live_alias(entries, t) matches Some(e) && names.contains(e.record->Cname_1)),
        ensures
            self.chain(name, t, fuel) is None,
        decreases fuel,
    {
        if fuel > 0 {
            let e = live_alias(get(self.forward, name).unwrap(), t).unwrap();
            self.law_cycles_have_no_end(names, e.record->Cname_1, t, (fuel - 1) as nat);
        }
    }

    /// Dropping what no longer holds cannot be noticed: every later lookup gives what it
    /// would have given.
    pub proof fn law_eviction_is_invisible(self, now: nat, domain: Seq<char>, ip: IpAddr, t: nat)
        requires
            self.wf(),
            now <= t,
        ensures
            self.evict(now).wf(),
            self.evict(now).ips(domain, t) == self.ips(domain, t),
            self.evict(now).records(domain, t) == self.records(domain, t),
            self.evict(now).domains(ip, t) == self.domains(ip, t),
    {
        lemma_filter_rows(self.forward, live_forward_row(now));
        lemma_filter_rows(self.reverse, live_reverse_row(now));
        let name = normal_domain(domain);
        self.lemma_evict_direct(now, name, t);
        self.lemma_evict_chain(now, name, t, MAX_CNAME_CHAIN as nat);
        if let Some((target, _)) = self.chain(name, t, MAX_CNAME_CHAIN as nat) {
            self.lemma_evict_direct(now, target, t);
        }
        if let Some(list) = get(self.reverse, ip) {
            lemma_filter_names(list, now, t);
            assert(live_names(list, t).len() == 0 ==> live_names(list, t).reverse().len() == 0);
            if list.filter(live_name(now)).len() == 0 {
                assert(live_names(list.filter(live_name(now)), t).len() == 0);
            }
        }
    }

    proof fn lemma_evict_direct(self, now: nat, name: Seq<char>, t: nat)
        requires
            self.wf(),
            now <= t,
        ensures
            self.evict(now).direct_ips(name, t) == self.direct_ips(name, t),
            match self.evict(now).direct_records(name, t) {
                Some(records) => self.direct_records(name, t) == Some(records),
                None => match self.direct_records(name, t) {
                    Some(records) => records.len() == 0,
                    None => true,
                },
            },
    {
        lemma_filter_rows(self.forward, live_forward_row(now));
        if let Some(entries) = get(self.forward, name) {
            lemma_filter_entries(entries, now, t);
            if entries.filter(live_entry(now)).len() == 0 {
                assert(live_ips(entries.filter(live_entry(now)), t).len() == 0);
                assert(live_records(entries.filter(live_entry(now)), t).len() == 0);
            }
        }
    }

    /// Without what no longer holds, aliases end where they ended; only where they end at a
    /// name of which nothing holds, they have no end.
    proof fn lemma_evict_chain(self, now: nat, name: Seq<char>, t: nat, fuel: nat)
        requires
            self.wf(),
            now <= t,
        ensures
            match self.evict(now).chain(name, t, fuel) {
                Some(end) => self.chain(name, t, fuel) == Some(end),
                None => match self.chain(name, t, fuel) {
                    Some((target, _)) => self.direct_ips(target, t) is None && (
                    self.direct_records(target, t) matches Some(records) ==> records.len() == 0),
                    None => true,
                },
            },
        decreases fuel,
    {
        lemma_filter_rows(self.forward, live_forward_row(now));
        if fuel > 0 {
            if let Some(entries) = get(self.forward, name) {
                lemma_filter_entries(entries, now, t);
                if let Some(e) = live_alias(entries, t) {
                    self.lemma_evict_chain(now, e.record->Cname_1, t, (fuel - 1) as nat);
                    if entries.filter(live_entry(now)).len() == 0 {
                        assert(live_alias(entries.filter(live_entry(now)), t) is None);
                    }
                } else if entries.filter(live_entry(now)).len() == 0 {
                    self.lemma_evict_direct(now, name, t);
                    assert(live_ips(entries.filter(live_entry(now)), t).len() == 0);
                    assert(live_records(entries.filter(live_entry(now)), t).len() == 0);
                }
            }
        }
    }
}

proof fn lemma_filter_entries(entries: Seq<EntryView>, now: nat, t: nat)
    requires
        now <= t,
    ensures
        live_ips(entries.filter(live_entry(now)), t) == live_ips(entries, t),
        live_records(entries.filter(live_entry(now)), t) == live_records(entries, t),
        live_alias(entries.filter(live_entry(now)), t) == live_alias(entries, t),
    decreases entries.len(),
{
    reveal(Seq::filter);
    if entries.len() > 0 {
        let before = entries.drop_last();
        let last = entries.last();
        lemma_filter_entries(before, now, t);
        let kept = before.filter(live_entry(now));
        lemma_alias_push(before, last, t);
        lemma_alias_push(kept, last, t);
        assert(before.push(last) =~= entries);
        if now <= last.expiry {
            assert(kept.push(last).drop_last() =~= kept);
        }
    }
}

proof fn lemma_alias_push(entries: Seq<EntryView>, e: EntryView, t: nat)
    ensures
        live_alias(entries.push(e), t) == (match live_alias(entries, t) {
            Some(x) => Some(x),
            None => if t <= e.expiry && e.record is Cname {
                Some(e)
            } else {
                None
            },
        }),
    decreases entries.len(),
{
    if entries.len() > 0 {
        lemma_alias_push(entries.drop_first(), e, t);
        assert(entries.push(e).drop_first() =~= entries.drop_first().push(e));
        assert(entries.push(e).first() == entries.first());
    } else {
        assert(entries.push(e).drop_first() =~= seq![]);
        assert(live_alias(Seq::<EntryView>::empty(), t) is None);
    }
}

proof fn lemma_filter_names(list: Seq<(Seq<char>, nat)>, now: nat, t: nat)
    requires
        now <= t,
    ensures
        live_names(list.filter(live_name(now)), t) == live_names(list, t),
    decreases list.len(),
{
    reveal(Seq::filter);
    if list.len() > 0 {
        let before = list.drop_last();
        let last = list.last();
        lemma_filter_names(before, now, t);
        let kept = before.filter(live_name(now));
        if now <= last.1 {
            assert(kept.push(last).drop_last() =~= kept);
        }
    }
}

pub(crate) proof fn lemma_direct_unique(
    reverse: Seq<(IpAddr, Seq<(Seq<char>, nat)>)>,
    entries: Seq<EntryView>,
    domain: Seq<char>,
    froms: Seq<Seq<char>>,
)
    requires
        keys_unique(reverse),
    ensures
        keys_unique(after_direct(reverse, entries, domain, froms)),
    decreases entries.len(),
{
    if entries.len() > 0 {
        lemma_direct_unique(reverse, entries.drop_last(), domain, froms);
        let r = after_direct(reverse, entries.drop_last(), domain, froms);
        if let Some(ip) = entries.last().record.address() {
            lemma_put(r, ip, credited(names_of(r, ip), domain, froms, entries.last().expiry));
        }
    }
}

pub(crate) proof fn lemma_referring_unique(
    reverse: Seq<(IpAddr, Seq<(Seq<char>, nat)>)>,
    entries: Seq<EntryView>,
    names: Seq<Seq<char>>,
)
    requires
        keys_unique(reverse),
    ensures
        keys_unique(after_referring(reverse, entries, names)),
    decreases entries.len(),
{
    if entries.len() > 0 {
        lemma_referring_unique(reverse, entries.drop_last(), names);
        let r = after_referring(reverse, entries.drop_last(), names);
        if let Some(ip) = entries.last().record.address() {
            lemma_put(r, ip, moved_up(names_of(r, ip), names, entries.last().expiry));
        }
    }
}

/// A time to live is kept for at least ten seconds and at most an hour, and as it is between.
pub proof fn law_clamped(ttl: u32)
    ensures
        ttl <= 10 ==> clamped(ttl) == 10,
        10 <= ttl <= 3600 ==> clamped(ttl) == ttl,
        ttl >= 3600 ==> clamped(ttl) == 3600,
{
}

/// A record comes out as it went in, names in their normal form, with the whole seconds that
/// are left of its time.
pub proof fn law_record_comes_out(record: DnsRecordView, now: nat, t: nat)
    requires
        now <= t <= cached(record, now).expiry,
    ensures
        ({
            let ttl = match record {
                DnsRecordView::A(_, ttl) => ttl,
                DnsRecordView::AAAA(_, ttl) => ttl,
                DnsRecordView::Cname(_, _, ttl) => ttl,
            };
            let left = now + clamped(ttl) * 1_000_000_000 - t;
            match (record, given_out(cached(record, now), t)) {
                (DnsRecordView::A(a, _), DnsRecordView::A(b, s)) => a == b && s * 1_000_000_000
                    <= left < (s + 1) * 1_000_000_000,
                (DnsRecordView::AAAA(a, _), DnsRecordView::AAAA(b, s)) => a == b && s * 1_000_000_000
                    <= left < (s + 1) * 1_000_000_000,
                (DnsRecordView::Cname(from, to, _), DnsRecordView::Cname(f, g, s)) => f
                    == normal_domain(from) && g == normal_domain(to) && s * 1_000_000_000 <= left < (s
                    + 1) * 1_000_000_000,
                _ => false,
            }
        }),
{
    let e = cached(record, now).expiry;
    let left = e - t;
    let ttl = match record {
        DnsRecordView::A(_, ttl) => ttl,
        DnsRecordView::AAAA(_, ttl) => ttl,
        DnsRecordView::Cname(_, _, ttl) => ttl,
    };
    assert(e == now + clamped(ttl) * SECOND);
    assert(0 <= left / 1_000_000_000 <= 3600) by (nonlinear_arith)
        requires
            0 <= left <= 3600 * 1_000_000_000,
    ;
    assert((left / 1_000_000_000) * 1_000_000_000 <= left < (left / 1_000_000_000 + 1) * 1_000_000_000)
        by (nonlinear_arith);
}

/// The alias that a name has is the first of its records that is one and still holds.
pub proof fn law_first_alias(entries: Seq<EntryView>, t: nat)
    ensures
        match live_alias(entries, t) {
            Some(e) => exists|i: int|
                0 <= i < entries.len() && (#[trigger] entries[i]) == e && e.record is Cname && t
                    <= e.expiry && forall|j: int|
                    0 <= j < i ==> !((#[trigger] entries[j]).record is Cname && t <= entries[j].expiry),
            None => forall|j: int|
                0 <= j < entries.len() ==> !((#[trigger] entries[j]).record is Cname && t
                    <= entries[j].expiry),
        },
    decreases entries.len(),
{
    if entries.len() > 0 {
        let first = entries.first();
        let rest = entries.drop_first();
        assert(first == entries[0]);
        if !(t <= first.expiry && first.record is Cname) {
            law_first_alias(rest, t);
            match live_alias(rest, t) {
                Some(e) => {
                    let i = choose|i: int|
                        0 <= i < rest.len() && (#[trigger] rest[i]) == e && e.record is Cname && t
                            <= e.expiry && forall|j: int|
                            0 <= j < i ==> !((#[trigger] rest[j]).record is Cname && t
                                <= rest[j].expiry);
                    assert(entries[i + 1] == rest[i]);
                    assert forall|j: int| 0 <= j < i + 1 implies !((
                    #[trigger] entries[j]).record is Cname && t <= entries[j].expiry) by {
                        if j > 0 {
                            assert(entries[j] == rest[j - 1]);
                        }
                    }
                },
                None => {
                    assert forall|j: int| 0 <= j < entries.len() implies !((
                    #[trigger] entries[j]).record is Cname && t <= entries[j].expiry) by {
                        if j > 0 {
                            assert(entries[j] == rest[j - 1]);
                        }
                    }
                },
            }
        }
    }
}

/// The records among `entries` that give an address and hold at `t`, as they are given out.
pub open spec fn live_address_records(entries: Seq<EntryView>, t: nat) -> Seq<DnsRecordView> {
    entries.filter_map(
        |e: EntryView|
            if t <= e.expiry && e.record.address() is Some {
                Some(given_out(e, t))
            } else {
                None
            },
    )
}

proof fn lemma_live_addresses(entries: Seq<EntryView>, t: nat)
    ensures
        addresses_among(live_records(entries, t)) == live_address_records(entries, t),
        all_ips(live_records(entries, t)) == live_ips(entries, t),
        all_ips(live_address_records(entries, t)) == live_ips(entries, t),
        has_address(live_records(entries, t)) <==> live_ips(entries, t).len() > 0,
    decreases entries.len(),
{
    reveal(Seq::filter);
    let all = live_records(entries, t);
    if entries.len() > 0 {
        let before = entries.drop_last();
        let e = entries.last();
        lemma_live_addresses(before, t);
        let records = live_records(before, t);
        let found = live_address_records(before, t);
        let g = given_out(e, t);
        assert((records + seq![g]).drop_last() =~= records);
        assert((found + seq![g]).drop_last() =~= found);
        if t <= e.expiry {
            assert(all == records + seq![g]);
            assert(all.last() == g);
            assert(gives_address(g) <==> e.record.address() is Some);
            if gives_address(g) {
                assert(gives_address(all[records.len() as int]));
                assert(addresses_among(all) =~= found + seq![g]);
            } else {
                assert(addresses_among(all) =~= found);
            }
            if has_address(records) {
                let i = choose|i: int| 0 <= i < records.len() && gives_address(#[trigger] records[i]);
                assert(gives_address(all[i]));
            }
            if has_address(all) && !gives_address(g) {
                let i = choose|i: int| 0 <= i < all.len() && gives_address(#[trigger] all[i]);
                assert(gives_address(records[i]));
            }
        }
    } else {
        assert(all =~= seq![]);
        assert(addresses_among(all) =~= live_address_records(entries, t));
        assert(all_ips(all) =~= live_ips(entries, t));
    }
}

proof fn lemma_all_ips_add(a: Seq<DnsRecordView>, b: Seq<DnsRecordView>)
    ensures
        all_ips(a + b) == all_ips(a) + all_ips(b),
    decreases b.len(),
{
    if b.len() == 0 {
        assert(a + b =~= a);
        assert(all_ips(a) + all_ips(b) =~= all_ips(a));
    } else {
        lemma_all_ips_add(a, b.drop_last());
        assert((a + b).drop_last() =~= a + b.drop_last());
        assert(all_ips(a + b) =~= all_ips(a) + all_ips(b));
    }
}

proof fn lemma_no_ips(a: Seq<DnsRecordView>)
    requires
        forall|i: int| 0 <= i < a.len() ==> (#[trigger] a[i]) is Cname,
    ensures
        all_ips(a).len() == 0,
    decreases a.len(),
{
    if a.len() > 0 {
        assert forall|i: int| 0 <= i < a.drop_last().len() implies (#[trigger] a.drop_last()[i]) is Cname by {
            assert(a.drop_last()[i] == a[i]);
        }
        lemma_no_ips(a.drop_last());
        assert(a[a.len() - 1] is Cname);
    }
}

impl CacheView {
    /// The alias records on the way along `path`, as they are given out at `t`.
    pub open spec fn aliases_along(self, path: Seq<Seq<char>>, t: nat) -> Seq<DnsRecordView> {
        Seq::new(
            (path.len() - 1) as nat,
            |i: int| given_out(live_alias(get(self.forward, path[i]).unwrap(), t).unwrap(), t),
        )
    }

    proof fn lemma_path_records(self, path: Seq<Seq<char>>, t: nat, fuel: nat)
        requires
            self.alias_path(path, t),
            fuel >= path.len(),
        ensures
            self.chain(path.first(), t, fuel) == Some((path.last(), self.aliases_along(path, t))),
        decreases path.len(),
    {
        let along = self.aliases_along(path, t);
        if path.len() > 1 {
            let rest = path.drop_first();
            assert(self.leads(path[0], path[1], t));
            assert forall|i: int, j: int| 0 <= i && j == i + 1 && j < rest.len() implies self.leads(
                #[trigger] rest[i],
                #[trigger] rest[j],
                t,
            ) by {
                assert(self.leads(path[i + 1], path[j + 1], t));
            }
            assert(rest.last() == path.last());
            self.lemma_path_records(rest, t, (fuel - 1) as nat);
            assert(along =~= seq![along[0]] + self.aliases_along(rest, t));
        } else {
            assert(along =~= seq![]);
        }
    }

    /// The records that are given for a name without live addresses of its own, whose aliases
    /// end at a name with some: the alias on every name of the way, in its order, and then all
    /// live addresses of the name at the end, in their order. The addresses among them are
    /// those that are given as addresses. There is nothing where the way is longer than eight
    /// names, or the name at the end has no live address.
    pub proof fn law_records_along_aliases(self, domain: Seq<char>, path: Seq<Seq<char>>, t: nat)
        requires
            self.alias_path(path, t),
            path.first() == normal_domain(domain),
            path.last() != path.first(),
            live_ips(get(self.forward, path.first()).unwrap(), t).len() == 0,
        ensures
            ({
                let target = get(self.forward, path.last()).unwrap();
                let found = live_address_records(target, t);
                if path.len() <= 8 && live_ips(target, t).len() > 0 {
                    &&& self.records(domain, t) == Some(self.aliases_along(path, t) + found)
                    &&& self.ips(domain, t) == Some(live_ips(target, t))
                    &&& all_ips(self.records(domain, t).unwrap()) == live_ips(target, t)
                } else {
                    self.records(domain, t) is None && self.ips(domain, t) is None
                }
            }),
    {
        let own = get(self.forward, path.first()).unwrap();
        let target = get(self.forward, path.last()).unwrap();
        let along = self.aliases_along(path, t);
        assert(path.len() > 1);
        assert(self.leads(path[0], path[1], t));
        lemma_live_addresses(own, t);
        lemma_live_addresses(target, t);
        self.lemma_path_ends(path, t, MAX_CNAME_CHAIN as nat);
        if path.len() <= 8 {
            self.lemma_path_records(path, t, MAX_CNAME_CHAIN as nat);
            assert forall|i: int| 0 <= i < along.len() implies (#[trigger] along[i]) is Cname by {
                assert(self.leads(path[i], path[i + 1], t));
                law_first_alias(get(self.forward, path[i]).unwrap(), t);
            }
            lemma_no_ips(along);
            lemma_all_ips_add(along, live_address_records(target, t));
            assert(all_ips(along) + live_ips(target, t) =~= live_ips(target, t));
        }
    }

    /// A name with live addresses of its own is given all its live records, aliases among
    /// them, in their order, and all its live addresses; a name that is not in the cache is
    /// given nothing, and neither is one without live records.
    pub proof fn law_own_records(self, domain: Seq<char>, t: nat)
        ensures
            match get(self.forward, normal_domain(domain)) {
                Some(entries) => {
                    &&& live_ips(entries, t).len() > 0 ==> {
                        &&& self.records(domain, t) == Some(live_records(entries, t))
                        &&& self.ips(domain, t) == Some(live_ips(entries, t))
                        &&& all_ips(self.records(domain, t).unwrap()) == live_ips(entries, t)
                    }
                    &&& live_records(entries, t).len() == 0 ==> self.records(domain, t) is None
                        && self.ips(domain, t) is None
                },
                None => self.records(domain, t) is None && self.ips(domain, t) is None,
            },
    {
        if let Some(entries) = get(self.forward, normal_domain(domain)) {
            lemma_live_addresses(entries, t);
            if live_records(entries, t).len() == 0 {
                lemma_nothing_live(entries, t);
                assert(self.chain(normal_domain(domain), t, MAX_CNAME_CHAIN as nat) == Some(
                    (normal_domain(domain), Seq::<DnsRecordView>::empty()),
                ));
            }
        }
    }

    /// What is given for a name right after its records came in, at any later moment: of the
    /// records those whose time has not passed, in their order, where an address is among
    /// them.
    pub proof fn law_lookup_is_exact(
        self,
        domain: Seq<char>,
        records: Seq<DnsRecordView>,
        now: nat,
        query: Seq<char>,
        t: nat,
    )
        requires
            self.wf(),
            normal_domain(query) == normal_domain(domain),
            has_address(still_held(records, now, t)),
        ensures
            self.insert(domain, records, now).records(query, t) == Some(
                aged(still_held(records, now, t), now, t),
            ),
            self.insert(domain, records, now).ips(query, t) == Some(
                all_ips(still_held(records, now, t)),
            ),
    {
        let entries = cached_all(records, now);
        let c = self.insert(domain, records, now);
        lemma_put(self.forward, normal_domain(domain), entries);
        lemma_held(records, now, t);
        lemma_some_ips(still_held(records, now, t));
        c.law_own_records(query, t);
    }

    /// Dropping what no longer holds leaves nothing that does not hold, no name without a
    /// record and no address without a name.
    pub proof fn law_eviction_drops(self, now: nat, i: int)
        ensures
            0 <= i < self.evict(now).forward.len() ==> self.evict(now).forward[i].1.len() > 0
                && forall|k: int|
                0 <= k < self.evict(now).forward[i].1.len() ==> now <= (
                #[trigger] self.evict(now).forward[i].1[k]).expiry,
            0 <= i < self.evict(now).reverse.len() ==> self.evict(now).reverse[i].1.len() > 0
                && forall|k: int|
                0 <= k < self.evict(now).reverse[i].1.len() ==> now <= (
                #[trigger] self.evict(now).reverse[i].1[k]).1,
    {
        let c = self.evict(now);
        if 0 <= i < c.forward.len() {
            let f = live_forward_row(now);
            let r = c.forward[i];
            assert(c.forward.contains(r));
            self.forward.lemma_filter_map_contains(f, r);
            let s = choose|s: (Seq<char>, Seq<EntryView>)| #[trigger] self.forward.contains(s) && f(s) == Some(r);
            assert forall|k: int| 0 <= k < r.1.len() implies now <= (#[trigger] r.1[k]).expiry by {
                s.1.lemma_filter_pred(live_entry(now), k);
            }
        }
        if 0 <= i < c.reverse.len() {
            let f = live_reverse_row(now);
            let r = c.reverse[i];
            assert(c.reverse.contains(r));
            self.reverse.lemma_filter_map_contains(f, r);
            let s = choose|s: (IpAddr, Seq<(Seq<char>, nat)>)| #[trigger] self.reverse.contains(s) && f(s) == Some(r);
            assert forall|k: int| 0 <= k < r.1.len() implies now <= (#[trigger] r.1[k]).1 by {
                s.1.lemma_filter_pred(live_name(now), k);
            }
        }
    }
}

proof fn lemma_nothing_live(entries: Seq<EntryView>, t: nat)
    requires
        live_records(entries, t).len() == 0,
    ensures
        live_ips(entries, t).len() == 0,
        live_alias(entries, t) is None,
        forall|i: int| 0 <= i < entries.len() ==> (#[trigger] entries[i]).expiry < t,
    decreases entries.len(),
{
    if entries.len() > 0 {
        let before = entries.drop_last();
        lemma_nothing_live(before, t);
        assert forall|i: int| 0 <= i < entries.len() implies (#[trigger] entries[i]).expiry < t by {
            if i < before.len() {
                assert(entries[i] == before[i]);
            }
        }
        lemma_none_live(entries, t);
    }
}

/// Those of the records that came in at `now` whose time has not passed at `t`.
pub open spec fn still_held(records: Seq<DnsRecordView>, now: nat, t: nat) -> Seq<DnsRecordView> {
    records.filter(
        |r: DnsRecordView|
            match r {
                DnsRecordView::A(_, ttl) => t <= now + clamped(ttl) * 1_000_000_000,
                DnsRecordView::AAAA(_, ttl) => t <= now + clamped(ttl) * 1_000_000_000,
                DnsRecordView::Cname(_, _, ttl) => t <= now + clamped(ttl) * 1_000_000_000,
            },
    )
}

proof fn lemma_held(records: Seq<DnsRecordView>, now: nat, t: nat)
    ensures
        live_records(cached_all(records, now), t) == aged(still_held(records, now, t), now, t),
        live_ips(cached_all(records, now), t) == all_ips(still_held(records, now, t)),
    decreases records.len(),
{
    reveal(Seq::filter);
    let entries = cached_all(records, now);
    let held = still_held(records, now, t);
    if records.len() > 0 {
        let before = records.drop_last();
        let last = records.last();
        let h = still_held(before, now, t);
        lemma_held(before, now, t);
        assert(entries.drop_last() =~= cached_all(before, now));
        assert(entries.last() == cached(last, now));
        if t <= cached(last, now).expiry {
            assert(held == h.push(last));
            assert(h.push(last).drop_last() =~= h);
            assert(aged(held, now, t) =~= aged(h, now, t) + seq![given_out(cached(last, now), t)]);
        } else {
            assert(held == h);
        }
    } else {
        assert(held =~= seq![]);
        assert(aged(held, now, t) =~= live_records(entries, t));
        assert(all_ips(held) =~= live_ips(entries, t));
    }
}

} // verus!
