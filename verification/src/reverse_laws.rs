//! What the DNS cache promises of the names behind an address.

use vstd::prelude::*;

use crate::cache_laws::{all_hold, lemma_direct_unique, lemma_referring_unique};
use crate::dns_mapping::{
    after_direct, after_referring, aliases, cached, cached_all, clamped, credited, dated_unless,
    expiry_of, live_name, live_names, live_reverse_row, moved_up, names_of, none_of, other_than,
    points_to, referring, CacheView, DnsRecordView, EntryView, MIN_TTL, SECOND,
};
use crate::net::{IpAddr, Ipv4Addr};
use crate::table::{
    get, has_key, is_row, keys_unique, lemma_filter_rows, lemma_no_row, lemma_put, lemma_row, row,
};
use crate::text::normal_domain;

verus! {

/// The time to live of the last of the records that gives the address `ip`.
pub open spec fn last_ttl(records: Seq<DnsRecordView>, ip: IpAddr) -> Option<u32>
    decreases records.len(),
{
    if records.len() == 0 {
        None
    } else {
        match records.last() {
            DnsRecordView::A(addr, ttl) if IpAddr::V4(addr) == ip => Some(ttl),
            DnsRecordView::AAAA(addr, ttl) if IpAddr::V6(addr) == ip => Some(ttl),
            _ => last_ttl(records.drop_last(), ip),
        }
    }
}

/// Whether one of the records makes `name` an alias.
pub open spec fn makes_alias(records: Seq<DnsRecordView>, name: Seq<char>) -> bool {
    exists|i: int|
        0 <= i < records.len() && ((#[trigger] records[i]) matches DnsRecordView::Cname(from, _, _)
            && normal_domain(from) == name)
}

/// Whether no two of the records make the same name an alias.
pub open spec fn aliases_differ(records: Seq<DnsRecordView>) -> bool {
    forall|i: int, j: int|
        0 <= i < j < records.len() ==> match ((#[trigger] records[i]), (#[trigger] records[j])) {
            (DnsRecordView::Cname(a, _, _), DnsRecordView::Cname(b, _, _)) => normal_domain(a)
                != normal_domain(b),
            _ => true,
        }
}

/// A change of the cache.
pub enum CacheChange {
    /// Records come in for a name.
    Insert { domain: Seq<char>, records: Seq<DnsRecordView>, now: nat },
    /// What no longer holds is dropped.
    Evict { now: nat },
}

impl CacheView {
    /// A cache that holds nothing.
    pub open spec fn empty() -> CacheView {
        CacheView { forward: seq![], reverse: seq![] }
    }

    /// The cache after a change.
    pub open spec fn changed(self, change: CacheChange) -> CacheView {
        match change {
            CacheChange::Insert { domain, records, now } => self.insert(domain, records, now),
            CacheChange::Evict { now } => self.evict(now),
        }
    }

    /// The cache after several changes.
    pub open spec fn after(self, changes: Seq<CacheChange>) -> CacheView
        decreases changes.len(),
    {
        if changes.len() == 0 {
            self
        } else {
            self.after(changes.drop_last()).changed(changes.last())
        }
    }

    /// Whether the cache gives `name` for the address `ip` at `t`.
    pub open spec fn gives(self, ip: IpAddr, name: Seq<char>, t: nat) -> bool {
        self.domains(ip, t) matches Some(names) && names.contains(name)
    }

    /// Whether records for `domain` link `name` to the addresses among them: it is the name
    /// for which they came, one of them makes it an alias, or a record that the cache holds
    /// for it makes it an alias of that name.
    pub open spec fn links(self, domain: Seq<char>, records: Seq<DnsRecordView>, name: Seq<char>) -> bool {
        ||| name == normal_domain(domain)
        ||| makes_alias(records, name)
        ||| get(self.forward, name) matches Some(entries) && points_to(entries, normal_domain(domain))
    }

    /// Whether no name stands twice behind an address.
    pub open spec fn names_apart(self) -> bool {
        forall|ip: IpAddr| keys_unique(#[trigger] names_of(self.reverse, ip))
    }

    /// The names behind an address for which a record has come in: those that stood there
    /// before, the name for which the records came, the aliases among the records, and the
    /// names that were known to be aliases of it. That is so as long as the last of the
    /// records for the address holds, which is for the shortest time at least.
    pub proof fn law_reverse_lookup(
        self,
        domain: Seq<char>,
        records: Seq<DnsRecordView>,
        now: nat,
        ip: IpAddr,
        name: Seq<char>,
        t: nat,
    )
        requires
            self.wf(),
            last_ttl(records, ip) matches Some(ttl) && t <= expiry_of(ttl, now),
        ensures
            self.insert(domain, records, now).gives(ip, name, t) <==> self.gives(ip, name, t)
                || self.links(domain, records, name),
            now + MIN_TTL * SECOND <= expiry_of(last_ttl(records, ip).unwrap(), now),
    {
        let ttl = last_ttl(records, ip).unwrap();
        let e = expiry_of(ttl, now);
        self.lemma_insert_dates(domain, records, now, ip);
        let c = self.insert(domain, records, now);
        lemma_named(self, ip, name, t);
        lemma_named(c, ip, name, t);
        let old_list = names_of(self.reverse, ip);
        let new_list = names_of(c.reverse, ip);
        if self.links(domain, records, name) {
            assert(new_list.contains((name, e)));
        }
        if c.gives(ip, name, t) && !self.links(domain, records, name) {
            let x = choose|x: nat| new_list.contains((name, x)) && t <= x;
            assert(old_list.contains((name, x)));
        }
        if self.gives(ip, name, t) && !self.links(domain, records, name) {
            let x = choose|x: nat| old_list.contains((name, x)) && t <= x;
            assert(new_list.contains((name, x)));
        }
        assert(MIN_TTL * SECOND <= (clamped(ttl) as nat) * (SECOND as nat))
            by (nonlinear_arith)
            requires
                MIN_TTL <= clamped(ttl),
        ;
    }

    /// A name that records have linked to an address leaves it exactly when the time of the
    /// last of them for that address has passed, whatever the other records say, as long as
    /// no later records give the address. Where no name is left, there is no list of names.
    pub proof fn law_name_leaves_with_address(
        self,
        domain: Seq<char>,
        records: Seq<DnsRecordView>,
        now: nat,
        ip: IpAddr,
        name: Seq<char>,
        later: Seq<CacheChange>,
        t: nat,
    )
        requires
            self.wf(),
            last_ttl(records, ip) is Some,
            self.links(domain, records, name),
            forall|i: int|
                0 <= i < later.len() ==> match #[trigger] later[i] {
                    CacheChange::Insert { records: r, .. } => last_ttl(r, ip) is None,
                    CacheChange::Evict { now: n } => n <= t,
                },
        ensures
            ({
                let c = self.insert(domain, records, now).after(later);
                &&& c.gives(ip, name, t) <==> t <= expiry_of(last_ttl(records, ip).unwrap(), now)
                &&& c.domains(ip, t) matches Some(names) ==> names.len() > 0
            }),
    {
        let c = self.insert(domain, records, now);
        let e = expiry_of(last_ttl(records, ip).unwrap(), now);
        self.law_insert_keeps_keys_apart(domain, records, now);
        c.lemma_later(later, ip, t);
        self.lemma_insert_dates(domain, records, now, ip);
        lemma_named(c, ip, name, t);
        assert(names_of(c.reverse, ip).contains((name, e)));
    }

    /// Every change keeps the names behind every address apart, where records that come in
    /// make no name an alias twice.
    pub proof fn law_names_stay_apart(self, change: CacheChange)
        requires
            self.wf(),
            self.names_apart(),
            change matches CacheChange::Insert { records, .. } ==> aliases_differ(records),
        ensures
            self.changed(change).wf(),
            self.changed(change).names_apart(),
    {
        match change {
            CacheChange::Insert { domain, records, now } => {
                self.law_insert_keeps_keys_apart(domain, records, now);
                let entries = cached_all(records, now);
                let d = normal_domain(domain);
                let middle = after_direct(self.reverse, entries, d, aliases(entries));
                lemma_aliases_differ(records, now);
                lemma_direct_unique(self.reverse, entries, d, aliases(entries));
                lemma_direct_apart(self.reverse, entries, d, aliases(entries));
                lemma_referring_apart(middle, entries, referring(self.forward, d));
            },
            CacheChange::Evict { now } => {
                self.law_eviction_is_invisible(now, seq![], IpAddr::V4(Ipv4Addr { bits: 0 }), now);
                lemma_filter_rows(self.reverse, live_reverse_row(now));
                let c = self.evict(now);
                assert forall|ip: IpAddr| keys_unique(#[trigger] names_of(c.reverse, ip)) by {
                    let list = names_of(self.reverse, ip);
                    assert(keys_unique(list));
                    lemma_filter_apart(list, live_name(now));
                    assert(get(c.reverse, ip) == match get(self.reverse, ip) {
                        None => None,
                        Some(v) => match live_reverse_row(now)((ip, v)) {
                            Some(q) => Some(q.1),
                            None => None,
                        },
                    });
                }
            },
        }
    }

    /// No name stands twice behind an address, however often its records have come in, where
    /// no records that came in made a name an alias twice.
    pub proof fn law_names_stand_once(changes: Seq<CacheChange>, ip: IpAddr, t: nat)
        requires
            forall|i: int|
                0 <= i < changes.len() ==> match #[trigger] changes[i] {
                    CacheChange::Insert { records, .. } => aliases_differ(records),
                    CacheChange::Evict { .. } => true,
                },
        ensures
            CacheView::empty().after(changes).domains(ip, t) matches Some(names)
                ==> names.no_duplicates(),
    {
        CacheView::lemma_built(changes);
        let list = names_of(CacheView::empty().after(changes).reverse, ip);
        assert(keys_unique(list));
        lemma_live_apart(list, t);
        let live = live_names(list, t);
        assert(live.reverse().no_duplicates());
    }

    proof fn lemma_built(changes: Seq<CacheChange>)
        requires
            forall|i: int|
                0 <= i < changes.len() ==> match #[trigger] changes[i] {
                    CacheChange::Insert { records, .. } => aliases_differ(records),
                    CacheChange::Evict { .. } => true,
                },
        ensures
            CacheView::empty().after(changes).wf(),
            CacheView::empty().after(changes).names_apart(),
        decreases changes.len(),
    {
        if changes.len() == 0 {
            let c = CacheView::empty();
            assert forall|ip: IpAddr| keys_unique(#[trigger] names_of(c.reverse, ip)) by {
                lemma_no_row(c.reverse, ip);
            }
        } else {
            let before = changes.drop_last();
            assert forall|i: int| 0 <= i < before.len() implies match #[trigger] before[i] {
                CacheChange::Insert { records, .. } => aliases_differ(records),
                CacheChange::Evict { .. } => true,
            } by {
                assert(before[i] == changes[i]);
            }
            assert(changes.last() == changes[changes.len() - 1]);
            CacheView::lemma_built(before);
            CacheView::empty().after(before).law_names_stay_apart(changes.last());
        }
    }

    proof fn lemma_later(self, later: Seq<CacheChange>, ip: IpAddr, t: nat)
        requires
            self.wf(),
            forall|i: int|
                0 <= i < later.len() ==> match #[trigger] later[i] {
                    CacheChange::Insert { records: r, .. } => last_ttl(r, ip) is None,
                    CacheChange::Evict { now: n } => n <= t,
                },
        ensures
            self.after(later).wf(),
            self.after(later).domains(ip, t) == self.domains(ip, t),
        decreases later.len(),
    {
        if later.len() > 0 {
            let before = later.drop_last();
            assert forall|i: int| 0 <= i < before.len() implies match #[trigger] before[i] {
                CacheChange::Insert { records: r, .. } => last_ttl(r, ip) is None,
                CacheChange::Evict { now: n } => n <= t,
            } by {
                assert(before[i] == later[i]);
            }
            self.lemma_later(before, ip, t);
            let c = self.after(before);
            assert(later.last() == later[later.len() - 1]);
            match later.last() {
                CacheChange::Insert { domain, records, now } => {
                    c.law_insert_keeps_keys_apart(domain, records, now);
                    let entries = cached_all(records, now);
                    let d = normal_domain(domain);
                    let middle = after_direct(c.reverse, entries, d, aliases(entries));
                    lemma_last_ttl(records, now, ip);
                    lemma_direct_unique(c.reverse, entries, d, aliases(entries));
                    lemma_direct_dates(c.reverse, entries, d, aliases(entries), ip);
                    lemma_referring_dates(middle, entries, referring(c.forward, d), ip);
                },
                CacheChange::Evict { now } => {
                    c.law_eviction_is_invisible(now, seq![], ip, t);
                },
            }
        }
    }

    /// The dated names behind `ip` after an insert that gives it.
    proof fn lemma_insert_dates(
        self,
        domain: Seq<char>,
        records: Seq<DnsRecordView>,
        now: nat,
        ip: IpAddr,
    )
        requires
            self.wf(),
            last_ttl(records, ip) is Some,
        ensures
            get(self.insert(domain, records, now).reverse, ip) is Some,
            forall|name: Seq<char>, x: nat|
                #![trigger names_of(self.insert(domain, records, now).reverse, ip).contains((name, x))]
                names_of(self.insert(domain, records, now).reverse, ip).contains((name, x)) <==> (
                if self.links(domain, records, name) {
                    x == expiry_of(last_ttl(records, ip).unwrap(), now)
                } else {
                    names_of(self.reverse, ip).contains((name, x))
                }),
    {
        let entries = cached_all(records, now);
        let d = normal_domain(domain);
        let froms = aliases(entries);
        let names = referring(self.forward, d);
        let middle = after_direct(self.reverse, entries, d, froms);
        lemma_last_ttl(records, now, ip);
        lemma_direct_unique(self.reverse, entries, d, froms);
        lemma_direct_dates(self.reverse, entries, d, froms, ip);
        lemma_referring_dates(middle, entries, names, ip);
        let c = self.insert(domain, records, now);
        let e = expiry_of(last_ttl(records, ip).unwrap(), now);
        assert forall|name: Seq<char>, x: nat|
            #![trigger names_of(c.reverse, ip).contains((name, x))]
            names_of(c.reverse, ip).contains((name, x)) <==> (if self.links(domain, records, name) {
                x == e
            } else {
                names_of(self.reverse, ip).contains((name, x))
            }) by {
            lemma_aliases(records, now, name);
            lemma_referring(self.forward, d, name);
            assert(names_of(c.reverse, ip).contains((name, x)) <==> dated(
                names_of(middle, ip),
                names.contains(name),
                e,
                name,
                x,
            ));
            assert(names_of(middle, ip).contains((name, x)) <==> dated(
                names_of(self.reverse, ip),
                name == d || froms.contains(name),
                e,
                name,
                x,
            ));
        }
    }
}

/// Whether `name` has the date `x` in a list that dates new names `expiry` and others as
/// `list` does.
spec fn dated(
    list: Seq<(Seq<char>, nat)>,
    new: bool,
    expiry: nat,
    name: Seq<char>,
    x: nat,
) -> bool {
    if new {
        x == expiry
    } else {
        list.contains((name, x))
    }
}

/// The time up to which the last of the records for `ip` holds.
spec fn last_expiry(entries: Seq<EntryView>, ip: IpAddr) -> Option<nat>
    decreases entries.len(),
{
    if entries.len() == 0 {
        None
    } else if entries.last().record.address() == Some(ip) {
        Some(entries.last().expiry)
    } else {
        last_expiry(entries.drop_last(), ip)
    }
}

proof fn lemma_last_ttl(records: Seq<DnsRecordView>, now: nat, ip: IpAddr)
    ensures
        last_expiry(cached_all(records, now), ip) == (match last_ttl(records, ip) {
            Some(ttl) => Some(expiry_of(ttl, now)),
            None => None,
        }),
    decreases records.len(),
{
    let entries = cached_all(records, now);
    if records.len() > 0 {
        assert(entries.last() == cached(records.last(), now));
        assert(entries.drop_last() =~= cached_all(records.drop_last(), now));
        lemma_last_ttl(records.drop_last(), now, ip);
    }
}

proof fn lemma_filter_holds<A>(s: Seq<A>, p: spec_fn(A) -> bool, x: A)
    ensures
        s.filter(p).contains(x) <==> s.contains(x) && p(x),
{
    let f = s.filter(p);
    if f.contains(x) {
        s.lemma_filter_contains_rev(p, x);
        let i = choose|i: int| 0 <= i < f.len() && f[i] == x;
        s.lemma_filter_pred(p, i);
    }
    if s.contains(x) && p(x) {
        let i = choose|i: int| 0 <= i < s.len() && s[i] == x;
        s.lemma_filter_contains(p, i);
    }
}

proof fn lemma_push_holds<A>(s: Seq<A>, a: A, x: A)
    ensures
        s.push(a).contains(x) <==> s.contains(x) || x == a,
{
    let u = s.push(a);
    if s.contains(x) {
        let i = choose|i: int| 0 <= i < s.len() && s[i] == x;
        assert(u[i] == x);
    }
    assert(u[s.len() as int] == a);
    if u.contains(x) && x != a {
        let i = choose|i: int| 0 <= i < u.len() && u[i] == x;
        assert(s[i] == x);
    }
}

proof fn lemma_add_holds<A>(s: Seq<A>, u: Seq<A>, x: A)
    ensures
        (s + u).contains(x) <==> s.contains(x) || u.contains(x),
{
    let all = s + u;
    if s.contains(x) {
        let i = choose|i: int| 0 <= i < s.len() && s[i] == x;
        assert(all[i] == x);
    }
    if u.contains(x) {
        let i = choose|i: int| 0 <= i < u.len() && u[i] == x;
        assert(all[s.len() + i] == x);
    }
    if all.contains(x) {
        let i = choose|i: int| 0 <= i < all.len() && all[i] == x;
        if i < s.len() {
            assert(s[i] == x);
        } else {
            assert(u[i - s.len()] == x);
        }
    }
}

/// A name is among the aliases exactly where a record makes it one.
proof fn lemma_aliases(records: Seq<DnsRecordView>, now: nat, name: Seq<char>)
    ensures
        aliases(cached_all(records, now)).contains(name) <==> makes_alias(records, name),
{
    let entries = cached_all(records, now);
    let f = |e: EntryView| e.record.alias();
    if aliases(entries).contains(name) {
        entries.lemma_filter_map_contains(f, name);
        let e = choose|e: EntryView| #[trigger] entries.contains(e) && f(e) == Some(name);
        let i = choose|i: int| 0 <= i < entries.len() && entries[i] == e;
        assert(entries[i] == cached(records[i], now));
    }
    if makes_alias(records, name) {
        let i = choose|i: int|
            0 <= i < records.len() && ((#[trigger] records[i]) matches DnsRecordView::Cname(from, _, _)
                && normal_domain(from) == name);
        assert(entries[i] == cached(records[i], now));
        lemma_mapped(entries, f, i, name);
    }
}

/// A name is among the referring ones exactly where its records make it an alias.
proof fn lemma_referring(forward: Seq<(Seq<char>, Seq<EntryView>)>, d: Seq<char>, name: Seq<char>)
    requires
        keys_unique(forward),
    ensures
        referring(forward, d).contains(name) <==> (get(forward, name) matches Some(entries)
            && points_to(entries, d)),
{
    let f = |r: (Seq<char>, Seq<EntryView>)|
        if points_to(r.1, d) {
            Some(r.0)
        } else {
            None
        };
    if referring(forward, d).contains(name) {
        forward.lemma_filter_map_contains(f, name);
        let r = choose|r: (Seq<char>, Seq<EntryView>)| #[trigger] forward.contains(r) && f(r) == Some(name);
        let i = choose|i: int| 0 <= i < forward.len() && forward[i] == r;
        assert(is_row(forward, name, i));
        lemma_row(forward, name, i);
    }
    if has_key(forward, name) {
        let i = row(forward, name);
        assert(is_row(forward, name, i));
        if points_to(forward[i].1, d) {
            lemma_mapped(forward, f, i, name);
        }
    }
}

proof fn lemma_credited_dates(
    list: Seq<(Seq<char>, nat)>,
    domain: Seq<char>,
    froms: Seq<Seq<char>>,
    expiry: nat,
    name: Seq<char>,
    x: nat,
)
    ensures
        credited(list, domain, froms, expiry).contains((name, x)) <==> dated(
            list,
            name == domain || froms.contains(name),
            expiry,
            name,
            x,
        ),
{
    let p = (name, x);
    let kept = list.filter(none_of(domain, froms));
    let f = dated_unless(domain, expiry);
    let others = froms.filter_map(f);
    lemma_filter_holds(list, none_of(domain, froms), p);
    lemma_push_holds(kept, (domain, expiry), p);
    lemma_add_holds(kept.push((domain, expiry)), others, p);
    if others.contains(p) {
        froms.lemma_filter_map_contains(f, p);
    }
    if froms.contains(name) && name != domain && x == expiry {
        let j = choose|j: int| 0 <= j < froms.len() && froms[j] == name;
        lemma_mapped(froms, f, j, p);
    }
}

proof fn lemma_moved_dates(
    list: Seq<(Seq<char>, nat)>,
    names: Seq<Seq<char>>,
    expiry: nat,
    name: Seq<char>,
    x: nat,
)
    ensures
        moved_up(list, names, expiry).contains((name, x)) <==> dated(
            list,
            names.contains(name),
            expiry,
            name,
            x,
        ),
    decreases names.len(),
{
    if names.len() > 0 {
        let before = names.drop_last();
        let last = names.last();
        let l = moved_up(list, before, expiry);
        lemma_moved_dates(list, before, expiry, name, x);
        lemma_filter_holds(l, other_than(last), (name, x));
        lemma_push_holds(l.filter(other_than(last)), (last, expiry), (name, x));
        assert(names =~= before.push(last));
        lemma_push_holds(before, last, name);
    }
}

proof fn lemma_direct_dates(
    reverse: Seq<(IpAddr, Seq<(Seq<char>, nat)>)>,
    entries: Seq<EntryView>,
    domain: Seq<char>,
    froms: Seq<Seq<char>>,
    ip: IpAddr,
)
    requires
        keys_unique(reverse),
    ensures
        match last_expiry(entries, ip) {
            None => get(after_direct(reverse, entries, domain, froms), ip) == get(reverse, ip),
            Some(e) => get(after_direct(reverse, entries, domain, froms), ip) is Some && forall|
                name: Seq<char>,
                x: nat,
            |
                #![trigger names_of(after_direct(reverse, entries, domain, froms), ip).contains((name, x))]
                names_of(after_direct(reverse, entries, domain, froms), ip).contains((name, x))
                    <==> dated(
                    names_of(reverse, ip),
                    name == domain || froms.contains(name),
                    e,
                    name,
                    x,
                ),
        },
    decreases entries.len(),
{
    if entries.len() > 0 {
        let before = entries.drop_last();
        let r = after_direct(reverse, before, domain, froms);
        lemma_direct_dates(reverse, before, domain, froms, ip);
        lemma_direct_unique(reverse, before, domain, froms);
        if let Some(last) = entries.last().record.address() {
            let e = entries.last().expiry;
            lemma_put(r, last, credited(names_of(r, last), domain, froms, e));
            let end = names_of(after_direct(reverse, entries, domain, froms), ip);
            if last == ip {
                assert forall|name: Seq<char>, x: nat|
                    #![trigger end.contains((name, x))]
                    end.contains((name, x)) <==> dated(
                        names_of(reverse, ip),
                        name == domain || froms.contains(name),
                        e,
                        name,
                        x,
                    ) by {
                    lemma_credited_dates(names_of(r, ip), domain, froms, e, name, x);
                }
            } else {
                assert(end == names_of(r, ip));
            }
        }
    }
}

proof fn lemma_referring_dates(
    reverse: Seq<(IpAddr, Seq<(Seq<char>, nat)>)>,
    entries: Seq<EntryView>,
    names: Seq<Seq<char>>,
    ip: IpAddr,
)
    requires
        keys_unique(reverse),
    ensures
        match last_expiry(entries, ip) {
            None => get(after_referring(reverse, entries, names), ip) == get(reverse, ip),
            Some(e) => get(after_referring(reverse, entries, names), ip) is Some && forall|
                name: Seq<char>,
                x: nat,
            |
                #![trigger names_of(after_referring(reverse, entries, names), ip).contains((name, x))]
                names_of(after_referring(reverse, entries, names), ip).contains((name, x)) <==> dated(
                    names_of(reverse, ip),
                    names.contains(name),
                    e,
                    name,
                    x,
                ),
        },
    decreases entries.len(),
{
    if entries.len() > 0 {
        let before = entries.drop_last();
        let r = after_referring(reverse, before, names);
        lemma_referring_dates(reverse, before, names, ip);
        lemma_referring_unique(reverse, before, names);
        if let Some(last) = entries.last().record.address() {
            let e = entries.last().expiry;
            lemma_put(r, last, moved_up(names_of(r, last), names, e));
            let end = names_of(after_referring(reverse, entries, names), ip);
            if last == ip {
                assert forall|name: Seq<char>, x: nat|
                    #![trigger end.contains((name, x))]
                    end.contains((name, x)) <==> dated(
                        names_of(reverse, ip),
                        names.contains(name),
                        e,
                        name,
                        x,
                    ) by {
                    lemma_moved_dates(names_of(r, ip), names, e, name, x);
                }
            } else {
                assert(end == names_of(r, ip));
            }
        }
    }
}

/// A name is given for an address exactly where the list behind it dates it late enough.
proof fn lemma_named(c: CacheView, ip: IpAddr, name: Seq<char>, t: nat)
    ensures
        c.gives(ip, name, t) <==> exists|x: nat|
            #[trigger] names_of(c.reverse, ip).contains((name, x)) && t <= x,
{
    let list = names_of(c.reverse, ip);
    let live = live_names(list, t);
    let f = |p: (Seq<char>, nat)|
        if t <= p.1 {
            Some(p.0)
        } else {
            None
        };
    if live.contains(name) {
        list.lemma_filter_map_contains(f, name);
        let p = choose|p: (Seq<char>, nat)| #[trigger] list.contains(p) && f(p) == Some(name);
        assert(list.contains((name, p.1)));
        let k = choose|k: int| 0 <= k < live.len() && live[k] == name;
        assert(live.reverse()[live.len() - 1 - k] == name);
    }
    if exists|x: nat| #[trigger] list.contains((name, x)) && t <= x {
        let x = choose|x: nat| #[trigger] list.contains((name, x)) && t <= x;
        let i = choose|i: int| 0 <= i < list.len() && list[i] == (name, x);
        lemma_mapped(list, f, i, name);
    }
    if live.reverse().contains(name) {
        let k = choose|k: int| 0 <= k < live.len() && live.reverse()[k] == name;
        assert(live[live.len() - 1 - k] == name);
    }
}

proof fn lemma_aliases_differ(records: Seq<DnsRecordView>, now: nat)
    requires
        aliases_differ(records),
    ensures
        aliases(cached_all(records, now)).no_duplicates(),
    decreases records.len(),
{
    let entries = cached_all(records, now);
    if records.len() > 0 {
        let before = records.drop_last();
        assert(aliases_differ(before)) by {
            assert forall|i: int, j: int| 0 <= i < j < before.len() implies match (
                (#[trigger] before[i]),
                (#[trigger] before[j]),
            ) {
                (DnsRecordView::Cname(a, _, _), DnsRecordView::Cname(b, _, _)) => normal_domain(a)
                    != normal_domain(b),
                _ => true,
            } by {
                assert(before[i] == records[i] && before[j] == records[j]);
            }
        }
        lemma_aliases_differ(before, now);
        assert(entries.drop_last() =~= cached_all(before, now));
        assert(entries.last() == cached(records.last(), now));
        if let DnsRecordView::Cname(from, _, _) = records.last() {
            let name = normal_domain(from);
            lemma_aliases(before, now, name);
            if makes_alias(before, name) {
                let i = choose|i: int|
                    0 <= i < before.len() && ((#[trigger] before[i]) matches DnsRecordView::Cname(
                        f,
                        _,
                        _,
                    ) && normal_domain(f) == name);
                assert(records[i] == before[i]);
                assert(records[records.len() - 1] == records.last());
            }
        }
    }
}

proof fn lemma_filter_apart(list: Seq<(Seq<char>, nat)>, p: spec_fn((Seq<char>, nat)) -> bool)
    requires
        keys_unique(list),
    ensures
        keys_unique(list.filter(p)),
    decreases list.len(),
{
    reveal(Seq::filter);
    if list.len() > 0 {
        let before = list.drop_last();
        assert forall|i: int, j: int| 0 <= i < j < before.len() implies (#[trigger] before[i]).0 != (
        #[trigger] before[j]).0 by {
            assert(list[i] == before[i] && list[j] == before[j]);
        }
        lemma_filter_apart(before, p);
        let kept = before.filter(p);
        if p(list.last()) {
            assert forall|i: int| 0 <= i < kept.len() implies (#[trigger] kept[i]).0 != list.last().0 by {
                assert(kept.contains(kept[i]));
                before.lemma_filter_contains_rev(p, kept[i]);
                let j = choose|j: int| 0 <= j < before.len() && before[j] == kept[i];
                assert(list[j] == before[j]);
                assert(list[list.len() - 1] == list.last());
            }
            lemma_push_apart(kept, list.last());
        }
    }
}

proof fn lemma_push_apart(list: Seq<(Seq<char>, nat)>, p: (Seq<char>, nat))
    requires
        keys_unique(list),
        forall|i: int| 0 <= i < list.len() ==> (#[trigger] list[i]).0 != p.0,
    ensures
        keys_unique(list.push(p)),
{
    let u = list.push(p);
    assert forall|i: int, j: int| 0 <= i < j < u.len() implies (#[trigger] u[i]).0 != (
    #[trigger] u[j]).0 by {
        assert(u[i] == list[i]);
        if j < list.len() {
            assert(u[j] == list[j]);
        }
    }
}

/// Names that come after a list of others keep apart.
proof fn lemma_credited_apart(
    list: Seq<(Seq<char>, nat)>,
    domain: Seq<char>,
    froms: Seq<Seq<char>>,
    expiry: nat,
)
    requires
        keys_unique(list),
        froms.no_duplicates(),
    ensures
        keys_unique(credited(list, domain, froms, expiry)),
{
    let kept = list.filter(none_of(domain, froms));
    lemma_filter_apart(list, none_of(domain, froms));
    assert forall|i: int| 0 <= i < kept.len() implies (#[trigger] kept[i]).0 != domain && !froms.contains(
        kept[i].0,
    ) by {
        list.lemma_filter_pred(none_of(domain, froms), i);
    }
    lemma_push_apart(kept, (domain, expiry));
    lemma_froms_apart(kept.push((domain, expiry)), domain, froms, expiry);
}

proof fn lemma_froms_apart(
    list: Seq<(Seq<char>, nat)>,
    domain: Seq<char>,
    froms: Seq<Seq<char>>,
    expiry: nat,
)
    requires
        keys_unique(list),
        froms.no_duplicates(),
        forall|i: int|
            0 <= i < list.len() ==> (#[trigger] list[i]).0 == domain || !froms.contains(list[i].0),
    ensures
        keys_unique(list + froms.filter_map(dated_unless(domain, expiry))),
    decreases froms.len(),
{
    let f = dated_unless(domain, expiry);
    if froms.len() == 0 {
        assert(list + froms.filter_map(f) =~= list);
    } else {
        let before = froms.drop_last();
        let last = froms.last();
        assert forall|i: int| 0 <= i < list.len() implies (#[trigger] list[i]).0 == domain
            || !before.contains(list[i].0) by {
            if before.contains(list[i].0) {
                let j = choose|j: int| 0 <= j < before.len() && before[j] == list[i].0;
                assert(froms[j] == list[i].0);
            }
        }
        lemma_froms_apart(list, domain, before, expiry);
        let mapped = before.filter_map(f);
        let all = list + mapped;
        if last != domain {
            assert forall|i: int| 0 <= i < all.len() implies (#[trigger] all[i]).0 != last by {
                if i < list.len() {
                    assert(all[i] == list[i]);
                    assert(froms[froms.len() - 1] == last);
                } else {
                    assert(all[i] == mapped[i - list.len()]);
                    assert(mapped.contains(all[i]));
                    before.lemma_filter_map_contains(f, all[i]);
                    let n = choose|n: Seq<char>| #[trigger] before.contains(n) && f(n) == Some(all[i]);
                    let j = choose|j: int| 0 <= j < before.len() && before[j] == n;
                    assert(froms[j] == n && froms[froms.len() - 1] == last);
                }
            }
            lemma_push_apart(all, (last, expiry));
            assert(list + froms.filter_map(f) =~= all.push((last, expiry)));
        } else {
            assert(froms.filter_map(f) == mapped);
        }
    }
}

proof fn lemma_moved_apart(list: Seq<(Seq<char>, nat)>, names: Seq<Seq<char>>, expiry: nat)
    requires
        keys_unique(list),
    ensures
        keys_unique(moved_up(list, names, expiry)),
    decreases names.len(),
{
    if names.len() > 0 {
        let l = moved_up(list, names.drop_last(), expiry);
        let others = other_than(names.last());
        lemma_moved_apart(list, names.drop_last(), expiry);
        lemma_filter_apart(l, others);
        let kept = l.filter(others);
        assert forall|i: int| 0 <= i < kept.len() implies (#[trigger] kept[i]).0 != names.last() by {
            l.lemma_filter_pred(others, i);
        }
        lemma_push_apart(kept, (names.last(), expiry));
    }
}

proof fn lemma_direct_apart(
    reverse: Seq<(IpAddr, Seq<(Seq<char>, nat)>)>,
    entries: Seq<EntryView>,
    domain: Seq<char>,
    froms: Seq<Seq<char>>,
)
    requires
        keys_unique(reverse),
        froms.no_duplicates(),
        forall|ip: IpAddr| keys_unique(#[trigger] names_of(reverse, ip)),
    ensures
        forall|ip: IpAddr|
            keys_unique(#[trigger] names_of(after_direct(reverse, entries, domain, froms), ip)),
    decreases entries.len(),
{
    if entries.len() > 0 {
        let r = after_direct(reverse, entries.drop_last(), domain, froms);
        lemma_direct_apart(reverse, entries.drop_last(), domain, froms);
        lemma_direct_unique(reverse, entries.drop_last(), domain, froms);
        if let Some(last) = entries.last().record.address() {
            let e = entries.last().expiry;
            lemma_put(r, last, credited(names_of(r, last), domain, froms, e));
            lemma_credited_apart(names_of(r, last), domain, froms, e);
            let end = after_direct(reverse, entries, domain, froms);
            assert forall|ip: IpAddr| keys_unique(#[trigger] names_of(end, ip)) by {
                assert(ip != last ==> get(end, ip) == get(r, ip));
                assert(keys_unique(names_of(r, ip)));
            }
        }
    }
}

proof fn lemma_referring_apart(
    reverse: Seq<(IpAddr, Seq<(Seq<char>, nat)>)>,
    entries: Seq<EntryView>,
    names: Seq<Seq<char>>,
)
    requires
        keys_unique(reverse),
        forall|ip: IpAddr| keys_unique(#[trigger] names_of(reverse, ip)),
    ensures
        forall|ip: IpAddr|
            keys_unique(#[trigger] names_of(after_referring(reverse, entries, names), ip)),
    decreases entries.len(),
{
    if entries.len() > 0 {
        let r = after_referring(reverse, entries.drop_last(), names);
        lemma_referring_apart(reverse, entries.drop_last(), names);
        lemma_referring_unique(reverse, entries.drop_last(), names);
        if let Some(last) = entries.last().record.address() {
            let e = entries.last().expiry;
            lemma_put(r, last, moved_up(names_of(r, last), names, e));
            lemma_moved_apart(names_of(r, last), names, e);
            let end = after_referring(reverse, entries, names);
            assert forall|ip: IpAddr| keys_unique(#[trigger] names_of(end, ip)) by {
                assert(ip != last ==> get(end, ip) == get(r, ip));
                assert(keys_unique(names_of(r, ip)));
            }
        }
    }
}

proof fn lemma_live_apart(list: Seq<(Seq<char>, nat)>, t: nat)
    requires
        keys_unique(list),
    ensures
        live_names(list, t).no_duplicates(),
    decreases list.len(),
{
    if list.len() > 0 {
        let before = list.drop_last();
        assert forall|i: int, j: int| 0 <= i < j < before.len() implies (#[trigger] before[i]).0 != (
        #[trigger] before[j]).0 by {
            assert(list[i] == before[i] && list[j] == before[j]);
        }
        lemma_live_apart(before, t);
        let live = live_names(before, t);
        let f = |p: (Seq<char>, nat)|
            if t <= p.1 {
                Some(p.0)
            } else {
                None
            };
        if live.contains(list.last().0) {
            before.lemma_filter_map_contains(f, list.last().0);
            let p = choose|p: (Seq<char>, nat)| #[trigger] before.contains(p) && f(p) == Some(list.last().0);
            let j = choose|j: int| 0 <= j < before.len() && before[j] == p;
            assert(list[j] == before[j]);
            assert(list[list.len() - 1] == list.last());
        }
    }
}

impl CacheView {
    /// The newest name of an address comes first: a name that was just resolved, where
    /// neither the records nor what was known before make anything an alias of it.
    pub proof fn law_newest_name_first(
        self,
        domain: Seq<char>,
        records: Seq<DnsRecordView>,
        now: nat,
        i: int,
        ip: IpAddr,
        t: nat,
    )
        requires
            self.wf(),
            all_hold(records, now, t),
            0 <= i < records.len(),
            cached(records[i], now).record.address() == Some(ip),
            aliases(cached_all(records, now)).len() == 0,
            referring(self.forward, normal_domain(domain)).len() == 0,
        ensures
            self.insert(domain, records, now).domains(ip, t) matches Some(names) && names.first()
                == normal_domain(domain),
    {
        let d = normal_domain(domain);
        let entries = cached_all(records, now);
        let froms = aliases(entries);
        let names = referring(self.forward, d);
        let middle = after_direct(self.reverse, entries, d, froms);
        assert forall|j: int| 0 <= j < entries.len() implies (#[trigger] entries[j]).expiry >= t by {
            assert(entries[j] == cached(records[j], now));
        }
        assert(entries[i].record.address() == Some(ip));
        lemma_direct_unique(self.reverse, entries, d, froms);
        lemma_direct_last(self.reverse, entries, d, froms, i, ip, t);
        lemma_referring_none(middle, entries, names, ip);
        let list = names_of(middle, ip);
        let live = live_names(list, t);
        assert(live == live_names(list.drop_last(), t) + seq![d]);
        assert(live.reverse().first() == live.last());
    }
}

proof fn lemma_direct_last(
    reverse: Seq<(IpAddr, Seq<(Seq<char>, nat)>)>,
    entries: Seq<EntryView>,
    domain: Seq<char>,
    froms: Seq<Seq<char>>,
    i: int,
    ip: IpAddr,
    t: nat,
)
    requires
        keys_unique(reverse),
        froms.len() == 0,
        0 <= i < entries.len(),
        entries[i].record.address() == Some(ip),
        forall|j: int| 0 <= j < entries.len() ==> (#[trigger] entries[j]).expiry >= t,
    ensures
        get(after_direct(reverse, entries, domain, froms), ip) matches Some(list) && list.len() > 0
            && list.last().0 == domain && list.last().1 >= t,
    decreases entries.len(),
{
    let before = entries.drop_last();
    let r = after_direct(reverse, before, domain, froms);
    lemma_direct_unique(reverse, before, domain, froms);
    assert(entries.last() == entries[entries.len() - 1]);
    if let Some(last) = entries.last().record.address() {
        let expiry = entries.last().expiry;
        let list = credited(names_of(r, last), domain, froms, expiry);
        lemma_put(r, last, list);
        assert(list =~= names_of(r, last).filter(none_of(domain, froms)).push((domain, expiry)));
    }
    if entries.last().record.address() != Some(ip) {
        assert forall|j: int| 0 <= j < before.len() implies (#[trigger] before[j]).expiry >= t by {
            assert(before[j] == entries[j]);
        }
        assert(before[i] == entries[i]);
        lemma_direct_last(reverse, before, domain, froms, i, ip, t);
    }
}

proof fn lemma_referring_none(
    reverse: Seq<(IpAddr, Seq<(Seq<char>, nat)>)>,
    entries: Seq<EntryView>,
    names: Seq<Seq<char>>,
    ip: IpAddr,
)
    requires
        keys_unique(reverse),
        names.len() == 0,
        get(reverse, ip) is Some,
    ensures
        get(after_referring(reverse, entries, names), ip) == get(reverse, ip),
    decreases entries.len(),
{
    if entries.len() > 0 {
        lemma_referring_none(reverse, entries.drop_last(), names, ip);
        lemma_referring_unique(reverse, entries.drop_last(), names);
        let r = after_referring(reverse, entries.drop_last(), names);
        if let Some(last) = entries.last().record.address() {
            lemma_put(r, last, moved_up(names_of(r, last), names, entries.last().expiry));
        }
    }
}

proof fn lemma_mapped<A, B>(s: Seq<A>, f: spec_fn(A) -> Option<B>, j: int, b: B)
    requires
        0 <= j < s.len(),
        f(s[j]) == Some(b),
    ensures
        s.filter_map(f).contains(b),
    decreases s.len(),
{
    let before = s.drop_last().filter_map(f);
    if j < s.len() - 1 {
        assert(s.drop_last()[j] == s[j]);
        lemma_mapped(s.drop_last(), f, j, b);
        let k = choose|k: int| 0 <= k < before.len() && before[k] == b;
        assert(s.filter_map(f)[k] == b);
    } else {
        assert(s.filter_map(f)[before.len() as int] == b);
    }
}

/// The names that the records make aliases, in the order of the records.
pub open spec fn alias_names(records: Seq<DnsRecordView>) -> Seq<Seq<char>> {
    records.filter_map(
        |r: DnsRecordView|
            match r {
                DnsRecordView::Cname(from, _, _) => Some(normal_domain(from)),
                _ => None,
            },
    )
}

impl CacheView {
    /// The names that the cache gives for the address `ip` at `t`, the newest last.
    pub open spec fn names_behind(self, ip: IpAddr, t: nat) -> Seq<Seq<char>> {
        match self.domains(ip, t) {
            Some(names) => names.reverse(),
            None => seq![],
        }
    }

    /// The order of the names behind an address for which a record has come in. Those that the
    /// records do not link to it keep their order and are the oldest. Then come the name for
    /// which the records came, the aliases among the records in their order, and the names
    /// that were known to be aliases of it, each at its newest place only.
    pub proof fn law_names_in_order(
        self,
        domain: Seq<char>,
        records: Seq<DnsRecordView>,
        now: nat,
        ip: IpAddr,
        t: nat,
    )
        requires
            self.wf(),
            last_ttl(records, ip) matches Some(ttl) && t <= expiry_of(ttl, now),
        ensures
            ({
                let name = normal_domain(domain);
                let known = referring(self.forward, name);
                self.insert(domain, records, now).names_behind(ip, t) == self.names_behind(
                    ip,
                    t,
                ).filter(|n: Seq<char>| !self.links(domain, records, n)) + (seq![name]
                    + alias_names(records).filter(|n: Seq<char>| n != name)).filter(
                    |n: Seq<char>| !known.contains(n),
                ) + known
            }),
            forall|n: Seq<char>|
                referring(self.forward, normal_domain(domain)).contains(n) <==> (#[trigger] get(
                    self.forward,
                    n,
                ) matches Some(entries) && points_to(entries, normal_domain(domain))),
            referring(self.forward, normal_domain(domain)).no_duplicates(),
    {
        let name = normal_domain(domain);
        let known = referring(self.forward, name);
        let entries = cached_all(records, now);
        let froms = aliases(entries);
        let e = expiry_of(last_ttl(records, ip).unwrap(), now);
        let middle = after_direct(self.reverse, entries, name, froms);
        let c = self.insert(domain, records, now);
        lemma_last_ttl(records, now, ip);
        lemma_direct_list(self.reverse, entries, name, froms, ip);
        lemma_direct_unique(self.reverse, entries, name, froms);
        lemma_known_apart(self.forward, name);
        lemma_referring_list(middle, entries, known, ip);
        lemma_alias_names(records, now);
        lemma_order(names_of(self.reverse, ip), name, froms, known, e, t);
        self.lemma_unlinked(domain, records, now, live_names(names_of(self.reverse, ip), t));
        lemma_names_behind(self, ip, t);
        lemma_names_behind(c, ip, t);
        assert((|n: Seq<char>| n != name) =~= other_name(name));
        assert((|n: Seq<char>| !known.contains(n)) =~= outside(known));
        assert forall|n: Seq<char>| known.contains(n) <==> (#[trigger] get(self.forward, n) matches Some(
            entries,
        ) && points_to(entries, name)) by {
            lemma_referring(self.forward, name, n);
        }
    }

    /// The names that are neither the name for which records came, nor an alias among them,
    /// nor known to be an alias of it are those that the records do not link.
    proof fn lemma_unlinked(
        self,
        domain: Seq<char>,
        records: Seq<DnsRecordView>,
        now: nat,
        names: Seq<Seq<char>>,
    )
        requires
            self.wf(),
        ensures
            ({
                let name = normal_domain(domain);
                names.filter(apart_from(name, aliases(cached_all(records, now)))).filter(
                    outside(referring(self.forward, name)),
                ) == names.filter(|n: Seq<char>| !self.links(domain, records, n))
            }),
    {
        let name = normal_domain(domain);
        let f = apart_from(name, aliases(cached_all(records, now)));
        let g = outside(referring(self.forward, name));
        let h = |n: Seq<char>| !self.links(domain, records, n);
        assert forall|n: Seq<char>| #[trigger] h(n) == (f(n) && g(n)) by {
            lemma_aliases(records, now, n);
            lemma_referring(self.forward, name, n);
        }
        lemma_filter_both(names, f, g, h);
    }
}

/// The predicate that holds of every name but `name` and `froms`.
spec fn apart_from(name: Seq<char>, froms: Seq<Seq<char>>) -> spec_fn(Seq<char>) -> bool {
    |n: Seq<char>| n != name && !froms.contains(n)
}

/// The predicate that holds of every name but `name`.
spec fn other_name(name: Seq<char>) -> spec_fn(Seq<char>) -> bool {
    |n: Seq<char>| n != name
}

/// The predicate that holds of every name that is not among `names`.
spec fn outside(names: Seq<Seq<char>>) -> spec_fn(Seq<char>) -> bool {
    |n: Seq<char>| !names.contains(n)
}

/// The names that hold in a list to which `name`, its aliases `froms` and the names `known`
/// have been moved.
proof fn lemma_order(
    old: Seq<(Seq<char>, nat)>,
    name: Seq<char>,
    froms: Seq<Seq<char>>,
    known: Seq<Seq<char>>,
    e: nat,
    t: nat,
)
    requires
        known.no_duplicates(),
        t <= e,
    ensures
        live_names(moved_up(credited(old, name, froms, e), known, e), t) == live_names(old, t).filter(
            apart_from(name, froms),
        ).filter(outside(known)) + (seq![name] + froms.filter(other_name(name))).filter(
            outside(known),
        ) + known,
{
    let list = credited(old, name, froms, e);
    let first = old.filter(on_names(apart_from(name, froms)));
    let own = seq![name] + froms.filter(other_name(name));
    let kept = list.filter(on_names(outside(known)));
    let live_old = live_names(old, t);
    lemma_moved(list, known, e);
    assert((|p: (Seq<char>, nat)| !known.contains(p.0)) =~= on_names(outside(known)));
    assert(none_of(name, froms) =~= on_names(apart_from(name, froms)));
    assert((|n: Seq<char>| n != name) =~= other_name(name));
    lemma_dated_unless(froms, name, e);
    assert(list =~= first + stamped(own, e));
    lemma_live_add(kept, stamped(known, e), t);
    lemma_live_stamped(known, e, t);
    lemma_live_filter(list, outside(known), t);
    lemma_live_add(first, stamped(own, e), t);
    lemma_live_stamped(own, e, t);
    lemma_live_filter(old, apart_from(name, froms), t);
    Seq::filter_distributes_over_add(
        live_old.filter(apart_from(name, froms)),
        own,
        outside(known),
    );
}

/// The predicate of dated names that asks `f` of the name.
spec fn on_names(f: spec_fn(Seq<char>) -> bool) -> spec_fn((Seq<char>, nat)) -> bool {
    |p: (Seq<char>, nat)| f(p.0)
}

/// Names that all hold up to `e`.
spec fn stamped(names: Seq<Seq<char>>, e: nat) -> Seq<(Seq<char>, nat)> {
    Seq::new(names.len(), |i: int| (names[i], e))
}

proof fn lemma_names_behind(c: CacheView, ip: IpAddr, t: nat)
    ensures
        c.names_behind(ip, t) == live_names(names_of(c.reverse, ip), t),
{
    let live = live_names(names_of(c.reverse, ip), t);
    assert(live.reverse().reverse() =~= live);
    if live.len() == 0 {
        assert(live =~= seq![]);
    }
}

proof fn lemma_alias_names(records: Seq<DnsRecordView>, now: nat)
    ensures
        aliases(cached_all(records, now)) == alias_names(records),
    decreases records.len(),
{
    let entries = cached_all(records, now);
    if records.len() > 0 {
        lemma_alias_names(records.drop_last(), now);
        assert(entries.drop_last() =~= cached_all(records.drop_last(), now));
        assert(entries.last() == cached(records.last(), now));
    }
}

proof fn lemma_filter_both(
    s: Seq<Seq<char>>,
    f: spec_fn(Seq<char>) -> bool,
    g: spec_fn(Seq<char>) -> bool,
    h: spec_fn(Seq<char>) -> bool,
)
    requires
        forall|n: Seq<char>| #[trigger] h(n) == (f(n) && g(n)),
    ensures
        s.filter(f).filter(g) == s.filter(h),
    decreases s.len(),
{
    reveal(Seq::filter);
    if s.len() > 0 {
        lemma_filter_both(s.drop_last(), f, g, h);
        let kept = s.drop_last().filter(f);
        assert(h(s.last()) == (f(s.last()) && g(s.last())));
        assert(kept.push(s.last()).drop_last() =~= kept);
    }
}

proof fn lemma_live_filter(list: Seq<(Seq<char>, nat)>, f: spec_fn(Seq<char>) -> bool, t: nat)
    ensures
        live_names(list.filter(on_names(f)), t) == live_names(list, t).filter(f),
    decreases list.len(),
{
    reveal(Seq::filter);
    if list.len() > 0 {
        let before = list.drop_last();
        let last = list.last();
        lemma_live_filter(before, f, t);
        let kept = before.filter(on_names(f));
        let live = live_names(before, t);
        assert(kept.push(last).drop_last() =~= kept);
        assert(live + seq![last.0] =~= live.push(last.0));
        assert(live.push(last.0).drop_last() =~= live);
        assert(live.filter(f) + seq![last.0] =~= live.filter(f).push(last.0));
    }
}

proof fn lemma_live_add(a: Seq<(Seq<char>, nat)>, b: Seq<(Seq<char>, nat)>, t: nat)
    ensures
        live_names(a + b, t) == live_names(a, t) + live_names(b, t),
    decreases b.len(),
{
    if b.len() > 0 {
        lemma_live_add(a, b.drop_last(), t);
        assert((a + b).drop_last() =~= a + b.drop_last());
        assert(live_names(a + b, t) =~= live_names(a, t) + live_names(b, t));
    } else {
        assert(a + b =~= a);
        assert(live_names(a, t) + live_names(b, t) =~= live_names(a, t));
    }
}

proof fn lemma_live_stamped(names: Seq<Seq<char>>, e: nat, t: nat)
    requires
        t <= e,
    ensures
        live_names(stamped(names, e), t) == names,
    decreases names.len(),
{
    let s = stamped(names, e);
    if names.len() > 0 {
        lemma_live_stamped(names.drop_last(), e, t);
        assert(s.drop_last() =~= stamped(names.drop_last(), e));
        assert(names =~= names.drop_last() + seq![names.last()]);
    } else {
        assert(live_names(s, t) =~= names);
    }
}

proof fn lemma_dated_unless(froms: Seq<Seq<char>>, d: Seq<char>, e: nat)
    ensures
        froms.filter_map(dated_unless(d, e)) == stamped(froms.filter(|n: Seq<char>| n != d), e),
    decreases froms.len(),
{
    reveal(Seq::filter);
    let other = |n: Seq<char>| n != d;
    if froms.len() > 0 {
        lemma_dated_unless(froms.drop_last(), d, e);
        let kept = froms.drop_last().filter(other);
        assert(stamped(kept.push(froms.last()), e) =~= stamped(kept, e) + seq![(froms.last(), e)]);
    } else {
        assert(stamped(froms.filter(other), e) =~= froms.filter_map(dated_unless(d, e)));
    }
}

proof fn lemma_none_kept(s: Seq<(Seq<char>, nat)>, p: spec_fn((Seq<char>, nat)) -> bool)
    requires
        forall|i: int| 0 <= i < s.len() ==> !p(#[trigger] s[i]),
    ensures
        s.filter(p) == Seq::<(Seq<char>, nat)>::empty(),
    decreases s.len(),
{
    reveal(Seq::filter);
    if s.len() > 0 {
        assert(!p(s[s.len() - 1]));
        lemma_none_kept(s.drop_last(), p);
    } else {
        assert(s.filter(p) =~= seq![]);
    }
}

proof fn lemma_all_kept(s: Seq<(Seq<char>, nat)>, p: spec_fn((Seq<char>, nat)) -> bool)
    requires
        forall|i: int| 0 <= i < s.len() ==> p(#[trigger] s[i]),
    ensures
        s.filter(p) == s,
    decreases s.len(),
{
    reveal(Seq::filter);
    if s.len() > 0 {
        assert(p(s[s.len() - 1]));
        lemma_all_kept(s.drop_last(), p);
        assert(s.drop_last().push(s.last()) =~= s);
    }
}

proof fn lemma_filter_again(
    s: Seq<(Seq<char>, nat)>,
    f: spec_fn((Seq<char>, nat)) -> bool,
    g: spec_fn((Seq<char>, nat)) -> bool,
    h: spec_fn((Seq<char>, nat)) -> bool,
)
    requires
        forall|p: (Seq<char>, nat)| #[trigger] h(p) == (f(p) && g(p)),
    ensures
        s.filter(f).filter(g) == s.filter(h),
    decreases s.len(),
{
    reveal(Seq::filter);
    if s.len() > 0 {
        lemma_filter_again(s.drop_last(), f, g, h);
        let kept = s.drop_last().filter(f);
        assert(h(s.last()) == (f(s.last()) && g(s.last())));
        assert(kept.push(s.last()).drop_last() =~= kept);
    }
}

proof fn lemma_credited_again(
    list: Seq<(Seq<char>, nat)>,
    d: Seq<char>,
    froms: Seq<Seq<char>>,
    e: nat,
    later: nat,
)
    ensures
        credited(credited(list, d, froms, e), d, froms, later) == credited(list, d, froms, later),
{
    let p = none_of(d, froms);
    let kept = list.filter(p);
    let own = froms.filter_map(dated_unless(d, e));
    let first = credited(list, d, froms, e);
    let added = seq![(d, e)] + own;
    assert(first =~= kept + added);
    Seq::filter_distributes_over_add(kept, added, p);
    lemma_filter_again(list, p, p, p);
    assert forall|i: int| 0 <= i < added.len() implies !p(#[trigger] added[i]) by {
        if i > 0 {
            assert(own[i - 1] == added[i]);
            assert(own.contains(own[i - 1]));
            froms.lemma_filter_map_contains(dated_unless(d, e), own[i - 1]);
        }
    }
    lemma_none_kept(added, p);
    assert(first.filter(p) =~= kept);
}

proof fn lemma_direct_list(
    reverse: Seq<(IpAddr, Seq<(Seq<char>, nat)>)>,
    entries: Seq<EntryView>,
    d: Seq<char>,
    froms: Seq<Seq<char>>,
    ip: IpAddr,
)
    requires
        keys_unique(reverse),
    ensures
        names_of(after_direct(reverse, entries, d, froms), ip) == (match last_expiry(entries, ip) {
            None => names_of(reverse, ip),
            Some(e) => credited(names_of(reverse, ip), d, froms, e),
        }),
    decreases entries.len(),
{
    if entries.len() > 0 {
        let before = entries.drop_last();
        let r = after_direct(reverse, before, d, froms);
        lemma_direct_list(reverse, before, d, froms, ip);
        lemma_direct_unique(reverse, before, d, froms);
        if let Some(last) = entries.last().record.address() {
            lemma_put(r, last, credited(names_of(r, last), d, froms, entries.last().expiry));
            if last == ip {
                if let Some(e) = last_expiry(before, ip) {
                    lemma_credited_again(
                        names_of(reverse, ip),
                        d,
                        froms,
                        e,
                        entries.last().expiry,
                    );
                }
            }
        }
    }
}

/// Names that are moved up come last, in their order.
proof fn lemma_moved(list: Seq<(Seq<char>, nat)>, names: Seq<Seq<char>>, e: nat)
    requires
        names.no_duplicates(),
    ensures
        moved_up(list, names, e) == list.filter(
            |p: (Seq<char>, nat)| !names.contains(p.0),
        ) + stamped(names, e),
    decreases names.len(),
{
    let f = |p: (Seq<char>, nat)| !names.contains(p.0);
    if names.len() == 0 {
        lemma_all_kept(list, f);
        assert(list + stamped(names, e) =~= list);
    } else {
        let before = names.drop_last();
        let name = names.last();
        let g = |p: (Seq<char>, nat)| !before.contains(p.0);
        assert(before.no_duplicates()) by {
            assert forall|i: int, j: int| 0 <= i < before.len() && 0 <= j < before.len() && i
                != j implies before[i] != before[j] by {
                assert(names[i] != names[j]);
            }
        }
        lemma_moved(list, before, e);
        let o = other_than(name);
        Seq::filter_distributes_over_add(list.filter(g), stamped(before, e), o);
        assert forall|p: (Seq<char>, nat)| #[trigger] f(p) == (g(p) && o(p)) by {
            if names.contains(p.0) {
                let i = choose|i: int| 0 <= i < names.len() && names[i] == p.0;
                if i < before.len() {
                    assert(before[i] == p.0);
                }
            }
            if before.contains(p.0) {
                let i = choose|i: int| 0 <= i < before.len() && before[i] == p.0;
                assert(names[i] == p.0);
            }
            assert(names[names.len() - 1] == name);
        }
        lemma_filter_again(list, g, o, f);
        assert forall|i: int| 0 <= i < stamped(before, e).len() implies o(
            #[trigger] stamped(before, e)[i],
        ) by {
            assert(names[i] != names[names.len() - 1]);
        }
        lemma_all_kept(stamped(before, e), o);
        assert(stamped(names, e) =~= stamped(before, e).push((name, e)));
        assert((list.filter(f) + stamped(before, e)).push((name, e)) =~= list.filter(f) + stamped(
            names,
            e,
        ));
    }
}

proof fn lemma_moved_again(list: Seq<(Seq<char>, nat)>, names: Seq<Seq<char>>, e: nat, later: nat)
    requires
        names.no_duplicates(),
    ensures
        moved_up(moved_up(list, names, e), names, later) == moved_up(list, names, later),
{
    let f = |p: (Seq<char>, nat)| !names.contains(p.0);
    let first = moved_up(list, names, e);
    lemma_moved(list, names, e);
    lemma_moved(list, names, later);
    lemma_moved(first, names, later);
    Seq::filter_distributes_over_add(list.filter(f), stamped(names, e), f);
    lemma_filter_again(list, f, f, f);
    assert forall|i: int| 0 <= i < stamped(names, e).len() implies !f(
        #[trigger] stamped(names, e)[i],
    ) by {
        assert(names.contains(names[i]));
    }
    lemma_none_kept(stamped(names, e), f);
    assert(first.filter(f) =~= list.filter(f));
}

proof fn lemma_referring_list(
    reverse: Seq<(IpAddr, Seq<(Seq<char>, nat)>)>,
    entries: Seq<EntryView>,
    names: Seq<Seq<char>>,
    ip: IpAddr,
)
    requires
        keys_unique(reverse),
        names.no_duplicates(),
    ensures
        names_of(after_referring(reverse, entries, names), ip) == (match last_expiry(entries, ip) {
            None => names_of(reverse, ip),
            Some(e) => moved_up(names_of(reverse, ip), names, e),
        }),
    decreases entries.len(),
{
    if entries.len() > 0 {
        let before = entries.drop_last();
        let r = after_referring(reverse, before, names);
        lemma_referring_list(reverse, before, names, ip);
        lemma_referring_unique(reverse, before, names);
        if let Some(last) = entries.last().record.address() {
            lemma_put(r, last, moved_up(names_of(r, last), names, entries.last().expiry));
            if last == ip {
                if let Some(e) = last_expiry(before, ip) {
                    lemma_moved_again(names_of(reverse, ip), names, e, entries.last().expiry);
                }
            }
        }
    }
}

proof fn lemma_known_apart(forward: Seq<(Seq<char>, Seq<EntryView>)>, d: Seq<char>)
    requires
        keys_unique(forward),
    ensures
        referring(forward, d).no_duplicates(),
    decreases forward.len(),
{
    if forward.len() > 0 {
        let before = forward.drop_last();
        assert(keys_unique(before)) by {
            assert forall|i: int, j: int| 0 <= i < j < before.len() implies (#[trigger] before[i]).0
                != (#[trigger] before[j]).0 by {
                assert(forward[i].0 != forward[j].0);
            }
        }
        lemma_known_apart(before, d);
        let names = referring(before, d);
        let f = |r: (Seq<char>, Seq<EntryView>)|
            if points_to(r.1, d) {
                Some(r.0)
            } else {
                None
            };
        if names.contains(forward.last().0) {
            before.lemma_filter_map_contains(f, forward.last().0);
            let r = choose|r: (Seq<char>, Seq<EntryView>)|
                #[trigger] before.contains(r) && f(r) == Some(forward.last().0);
            let i = choose|i: int| 0 <= i < before.len() && before[i] == r;
            assert(forward[i].0 == forward[forward.len() - 1].0);
        }
    }
}

} // verus!
