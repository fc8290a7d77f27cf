//! Internet addresses as plain values, and their text forms.

use vstd::prelude::*;

use crate::text::{decimal, numeral, push_numeral};

verus! {

/// An IPv4 address, as the number that its four octets write.
#[derive(Clone, Copy, PartialEq, Eq, Structural, Hash, Debug)]
pub struct Ipv4Addr {
    pub bits: u32,
}

/// An IPv6 address, as the number that its eight groups write.
#[derive(Clone, Copy, PartialEq, Eq, Structural, Hash, Debug)]
pub struct Ipv6Addr {
    pub bits: u128,
}

/// An address of either family.
#[derive(Clone, Copy, PartialEq, Eq, Structural, Hash, Debug)]
pub enum IpAddr {
    V4(Ipv4Addr),
    V6(Ipv6Addr),
}

/// An IPv4 address and a port.
#[derive(Clone, Copy, PartialEq, Eq, Structural, Hash, Debug)]
pub struct SocketAddrV4 {
    pub ip: Ipv4Addr,
    pub port: u16,
}

/// An IPv6 address and a port, with the flow information and the scope.
#[derive(Clone, Copy, PartialEq, Eq, Structural, Hash, Debug)]
pub struct SocketAddrV6 {
    pub ip: Ipv6Addr,
    pub port: u16,
    pub flowinfo: u32,
    pub scope_id: u32,
}

/// An address of either family and a port.
#[derive(Clone, Copy, PartialEq, Eq, Structural, Hash, Debug)]
pub enum SocketAddr {
    V4(SocketAddrV4),
    V6(SocketAddrV6),
}

impl Ipv4Addr {
    /// The octets of the address, from the most significant one.
    pub open spec fn spec_octets(self) -> Seq<u8> {
        seq![
            (self.bits >> 24) as u8,
            (self.bits >> 16) as u8,
            (self.bits >> 8) as u8,
            self.bits as u8,
        ]
    }

    /// The address with the octets `a`, `b`, `c` and `d`.
    pub fn new(a: u8, b: u8, c: u8, d: u8) -> (r: Ipv4Addr)
        ensures
            r.spec_octets() == seq![a, b, c, d],
    {
        let bits: u32 = ((a as u32) << 24) | ((b as u32) << 16) | ((c as u32) << 8) | (d as u32);
        assert((bits >> 24) as u8 == a && (bits >> 16) as u8 == b && (bits >> 8) as u8 == c
            && bits as u8 == d) by (bit_vector)
            requires
                bits == ((a as u32) << 24) | ((b as u32) << 16) | ((c as u32) << 8) | (d as u32),
        ;
        Ipv4Addr { bits }
    }

    /// The octets of the address, from the most significant one.
    pub fn octets(&self) -> (r: [u8; 4])
        ensures
            r@ == self.spec_octets(),
    {
        [
            (self.bits >> 24) as u8,
            (self.bits >> 16) as u8,
            (self.bits >> 8) as u8,
            self.bits as u8,
        ]
    }

    /// The dotted decimal form.
    pub open spec fn spec_text(self) -> Seq<char> {
        let o = self.spec_octets();
        numeral(o[0] as nat, 10) + "."@ + numeral(o[1] as nat, 10) + "."@ + numeral(o[2] as nat, 10)
            + "."@ + numeral(o[3] as nat, 10)
    }

    /// Appends the dotted decimal form to `s`.
    pub fn push_text(&self, s: &mut String)
        ensures
            final(s)@ == old(s)@ + self.spec_text(),
    {
        let o: [u8; 4] = self.octets();
        push_numeral(s, o[0] as u32, 10);
        s.append(".");
        push_numeral(s, o[1] as u32, 10);
        s.append(".");
        push_numeral(s, o[2] as u32, 10);
        s.append(".");
        push_numeral(s, o[3] as u32, 10);
        assert(s@ =~= old(s)@ + self.spec_text());
    }
}

impl Ipv6Addr {
    /// The groups of sixteen bits of the address, from the most significant one.
    pub open spec fn spec_segments(self) -> Seq<u16> {
        seq![
            (self.bits >> 112) as u16,
            (self.bits >> 96) as u16,
            (self.bits >> 80) as u16,
            (self.bits >> 64) as u16,
            (self.bits >> 48) as u16,
            (self.bits >> 32) as u16,
            (self.bits >> 16) as u16,
            self.bits as u16,
        ]
    }

    /// The octets of the address, from the most significant one.
    pub open spec fn spec_octets(self) -> Seq<u8> {
        Seq::new(16, |i: int| (self.bits >> ((120 - 8 * i) as u128)) as u8)
    }

    /// The address with the given groups.
    pub fn new(a: u16, b: u16, c: u16, d: u16, e: u16, f: u16, g: u16, h: u16) -> (r: Ipv6Addr)
        ensures
            r.spec_segments() == seq![a, b, c, d, e, f, g, h],
    {
        let bits: u128 = ((a as u128) << 112) | ((b as u128) << 96) | ((c as u128) << 80) | ((
        d as u128) << 64) | ((e as u128) << 48) | ((f as u128) << 32) | ((g as u128) << 16) | (
        h as u128);
        assert((bits >> 112) as u16 == a && (bits >> 96) as u16 == b && (bits >> 80) as u16 == c && (
        bits >> 64) as u16 == d && (bits >> 48) as u16 == e && (bits >> 32) as u16 == f && (bits
            >> 16) as u16 == g && bits as u16 == h) by (bit_vector)
            requires
                bits == ((a as u128) << 112) | ((b as u128) << 96) | ((c as u128) << 80) | ((
                d as u128) << 64) | ((e as u128) << 48) | ((f as u128) << 32) | ((g as u128) << 16)
                    | (h as u128),
        ;
        Ipv6Addr { bits }
    }

    /// The groups of sixteen bits of the address, from the most significant one.
    pub fn segments(&self) -> (r: [u16; 8])
        ensures
            r@ == self.spec_segments(),
    {
        [
            (self.bits >> 112) as u16,
            (self.bits >> 96) as u16,
            (self.bits >> 80) as u16,
            (self.bits >> 64) as u16,
            (self.bits >> 48) as u16,
            (self.bits >> 32) as u16,
            (self.bits >> 16) as u16,
            self.bits as u16,
        ]
    }

    /// Whether the address stands for an IPv4 address (`::ffff:0:0/96`).
    pub open spec fn is_v4_mapped(self) -> bool {
        self.bits / 0x1_0000_0000 == 0xffff
    }

    /// The IPv4 address that the last four octets write.
    pub open spec fn embedded_v4(self) -> Ipv4Addr {
        Ipv4Addr { bits: (self.bits % 0x1_0000_0000) as u32 }
    }

    /// The colon form: the first of the longest runs of at least two zero groups is
    /// written `::`, and an address that stands for an IPv4 address ends in that
    /// address's own form.
    pub open spec fn spec_text(self) -> Seq<char> {
        if self.is_v4_mapped() {
            "::ffff:"@ + self.embedded_v4().spec_text()
        } else {
            let groups = self.spec_segments();
            let (start, len) = longest_zero_run(groups, groups.len());
            if len > 1 {
                joined_groups(groups.take(start)) + "::"@ + joined_groups(groups.skip(start + len))
            } else {
                joined_groups(groups)
            }
        }
    }

    /// Appends the colon form to `s`.
    pub fn push_text(&self, s: &mut String)
        ensures
            final(s)@ == old(s)@ + self.spec_text(),
    {
        if self.bits / 0x1_0000_0000 == 0xffff {
            s.append("::ffff:");
            let v4: Ipv4Addr = Ipv4Addr { bits: (self.bits % 0x1_0000_0000) as u32 };
            v4.push_text(s);
            assert(s@ =~= old(s)@ + self.spec_text());
            return;
        }
        let groups: [u16; 8] = self.segments();
        let ghost all = groups@;
        let mut start: usize = 0;
        let mut len: usize = 0;
        let mut i: usize = 0;
        while i < 8
            invariant
                i <= 8,
                all == groups@,
                start + len <= 8,
                (start as int, len as int) == longest_zero_run(all, i as nat),
            decreases 8 - i,
        {
            let mut j: usize = i;
            while j < 8 && groups[j as usize] == 0
                invariant
                    i <= j <= 8,
                    all == groups@,
                    zero_run(all, i as int) == (j - i) + zero_run(all, j as int),
                decreases 8 - j,
            {
                j = j + 1;
            }
            if j - i > len {
                start = i;
                len = j - i;
            }
            i = i + 1;
        }
        if len > 1 {
            push_groups(s, &groups, 0, start);
            s.append("::");
            push_groups(s, &groups, start + len, 8);
            assert(all.subrange(0, start as int) == all.take(start as int));
            assert(all.subrange(start + len, 8) == all.skip(start + len));
        } else {
            push_groups(s, &groups, 0, 8);
            assert(all.subrange(0, 8) == all);
        }
        assert(s@ =~= old(s)@ + self.spec_text());
    }
}

/// The number of zero groups in `groups` from index `i` on, up to the first other group.
pub open spec fn zero_run(groups: Seq<u16>, i: int) -> int
    decreases groups.len() - i,
{
    if 0 <= i < groups.len() && groups[i] == 0 {
        1 + zero_run(groups, i + 1)
    } else {
        0
    }
}

/// Start and length of the first of the longest runs of zero groups that begin before
/// index `n`.
pub open spec fn longest_zero_run(groups: Seq<u16>, n: nat) -> (int, int)
    decreases n,
{
    if n == 0 {
        (0, 0)
    } else {
        let (start, len) = longest_zero_run(groups, (n - 1) as nat);
        if zero_run(groups, n - 1) > len {
            (n - 1, zero_run(groups, n - 1))
        } else {
            (start, len)
        }
    }
}

/// The groups in base sixteen, with colons between them.
pub open spec fn joined_groups(groups: Seq<u16>) -> Seq<char>
    decreases groups.len(),
{
    if groups.len() == 0 {
        seq![]
    } else if groups.len() == 1 {
        numeral(groups[0] as nat, 16)
    } else {
        joined_groups(groups.drop_last()) + ":"@ + numeral(groups.last() as nat, 16)
    }
}

fn push_groups(s: &mut String, groups: &[u16; 8], from: usize, to: usize)
    requires
        from <= to <= 8,
    ensures
        final(s)@ == old(s)@ + joined_groups(groups@.subrange(from as int, to as int)),
{
    let mut i: usize = from;
    assert(groups@.subrange(from as int, from as int) == Seq::<u16>::empty());
    while i < to
        invariant
            from <= i <= to <= 8,
            s@ == old(s)@ + joined_groups(groups@.subrange(from as int, i as int)),
        decreases to - i,
    {
        let ghost before = groups@.subrange(from as int, i as int);
        let ghost after = groups@.subrange(from as int, i + 1);
        assert(after.drop_last() == before);
        assert(after.last() == groups@[i as int]);
        if i > from {
            s.append(":");
        }
        push_numeral(s, groups[i as usize] as u32, 16);
        assert(s@ =~= old(s)@ + joined_groups(after));
        i = i + 1;
    }
}

impl SocketAddr {
    /// The address `ip` with the port `port`, without flow information or scope.
    pub open spec fn spec_new(ip: IpAddr, port: u16) -> SocketAddr {
        match ip {
            IpAddr::V4(ip) => SocketAddr::V4(SocketAddrV4 { ip, port }),
            IpAddr::V6(ip) => SocketAddr::V6(SocketAddrV6 { ip, port, flowinfo: 0, scope_id: 0 }),
        }
    }

    /// The address `ip` with the port `port`, without flow information or scope.
    pub fn new(ip: IpAddr, port: u16) -> (r: SocketAddr)
        ensures
            r == Self::spec_new(ip, port),
    {
        match ip {
            IpAddr::V4(ip) => SocketAddr::V4(SocketAddrV4 { ip, port }),
            IpAddr::V6(ip) => SocketAddr::V6(SocketAddrV6 { ip, port, flowinfo: 0, scope_id: 0 }),
        }
    }

    /// The address without its port.
    pub open spec fn spec_ip(self) -> IpAddr {
        match self {
            SocketAddr::V4(a) => IpAddr::V4(a.ip),
            SocketAddr::V6(a) => IpAddr::V6(a.ip),
        }
    }

    /// The address without its port.
    pub fn ip(&self) -> (r: IpAddr)
        ensures
            r == self.spec_ip(),
    {
        match self {
            SocketAddr::V4(a) => IpAddr::V4(a.ip),
            SocketAddr::V6(a) => IpAddr::V6(a.ip),
        }
    }

    /// The port.
    pub open spec fn spec_port(self) -> u16 {
        match self {
            SocketAddr::V4(a) => a.port,
            SocketAddr::V6(a) => a.port,
        }
    }

    /// The port.
    pub fn port(&self) -> (r: u16)
        ensures
            r == self.spec_port(),
    {
        match self {
            SocketAddr::V4(a) => a.port,
            SocketAddr::V6(a) => a.port,
        }
    }

    /// `self` with the address `ip`. Flow information and scope stay where both are IPv6
    /// addresses.
    pub open spec fn spec_with_ip(self, ip: IpAddr) -> SocketAddr {
        match (self, ip) {
            (SocketAddr::V6(a), IpAddr::V6(ip)) => SocketAddr::V6(
                SocketAddrV6 { ip, port: a.port, flowinfo: a.flowinfo, scope_id: a.scope_id },
            ),
            _ => Self::spec_new(ip, self.spec_port()),
        }
    }

    /// `self` with the address `ip`. Flow information and scope stay where both are IPv6
    /// addresses.
    pub fn with_ip(&self, ip: IpAddr) -> (r: SocketAddr)
        ensures
            r == self.spec_with_ip(ip),
    {
        match (*self, ip) {
            (SocketAddr::V6(a), IpAddr::V6(ip)) => SocketAddr::V6(
                SocketAddrV6 { ip, port: a.port, flowinfo: a.flowinfo, scope_id: a.scope_id },
            ),
            _ => Self::new(ip, self.port()),
        }
    }

    /// The address and the port with a colon between them; an IPv6 address stands in
    /// brackets, with its scope if it has one.
    pub open spec fn spec_text(self) -> Seq<char> {
        match self {
            SocketAddr::V4(a) => a.ip.spec_text() + ":"@ + numeral(a.port as nat, 10),
            SocketAddr::V6(a) => "["@ + a.ip.spec_text() + (if a.scope_id == 0 {
                seq![]
            } else {
                "%"@ + numeral(a.scope_id as nat, 10)
            }) + "]:"@ + numeral(a.port as nat, 10),
        }
    }

    /// The address and the port with a colon between them; an IPv6 address stands in
    /// brackets, with its scope if it has one.
    pub fn to_text(&self) -> (r: String)
        ensures
            r@ == self.spec_text(),
    {
        let mut s: String = String::new();
        match self {
            SocketAddr::V4(a) => {
                a.ip.push_text(&mut s);
                s.append(":");
                push_numeral(&mut s, a.port as u32, 10);
            },
            SocketAddr::V6(a) => {
                s.append("[");
                a.ip.push_text(&mut s);
                if a.scope_id != 0 {
                    s.append("%");
                    push_numeral(&mut s, a.scope_id, 10);
                }
                s.append("]:");
                push_numeral(&mut s, a.port as u32, 10);
            },
        }
        assert(s@ =~= self.spec_text());
        s
    }
}

/// An IPv4 address is the number that its octets write in base 256.
pub proof fn law_v4_octets(addr: Ipv4Addr)
    ensures
        addr.spec_octets().len() == 4,
        addr.bits == 16777216 * addr.spec_octets()[0] + 65536 * addr.spec_octets()[1] + 256
            * addr.spec_octets()[2] + addr.spec_octets()[3],
{
    let bits = addr.bits;
    assert(bits == 16777216 * ((bits >> 24) as u8) + 65536 * ((bits >> 16) as u8) + 256 * ((bits >> 8)
        as u8) + (bits as u8)) by (bit_vector);
}

/// An IPv4 address is written as its octets in base ten, with full stops between them.
pub proof fn law_v4_text(addr: Ipv4Addr, a: u8, b: u8, c: u8, d: u8)
    requires
        addr.bits == 16777216 * a + 65536 * b + 256 * c + d,
    ensures
        addr.spec_octets() == seq![a, b, c, d],
        addr.spec_text() == decimal(a as nat) + seq!['.'] + decimal(b as nat) + seq!['.'] + decimal(
            c as nat,
        ) + seq!['.'] + decimal(d as nat),
{
    reveal_strlit(".");
    assert("."@ =~= seq!['.']);
    let bits = addr.bits;
    assert((bits >> 24) as u8 == a && (bits >> 16) as u8 == b && (bits >> 8) as u8 == c && bits as u8
        == d) by (bit_vector)
        requires
            bits == 16777216 * a + 65536 * b + 256 * c + d,
    ;
    assert(addr.spec_octets() =~= seq![a, b, c, d]);
}

/// The groups of an IPv6 address are pairs of its octets, and the address is the number that
/// its groups write in base 65536.
pub proof fn law_v6_groups(addr: Ipv6Addr, i: int)
    requires
        0 <= i < 8,
    ensures
        addr.spec_segments().len() == 8,
        addr.spec_octets().len() == 16,
        addr.spec_segments()[i] == 256 * addr.spec_octets()[2 * i] + addr.spec_octets()[2 * i + 1],
        addr.bits == 0x1_0000_0000_0000_0000_0000_0000_0000 * addr.spec_segments()[0]
            + 0x1_0000_0000_0000_0000_0000_0000 * addr.spec_segments()[1]
            + 0x1_0000_0000_0000_0000_0000 * addr.spec_segments()[2] + 0x1_0000_0000_0000_0000
            * addr.spec_segments()[3] + 0x1_0000_0000_0000 * addr.spec_segments()[4] + 0x1_0000_0000
            * addr.spec_segments()[5] + 0x1_0000 * addr.spec_segments()[6]
            + addr.spec_segments()[7],
{
    let bits = addr.bits;
    assert(bits == 0x1_0000_0000_0000_0000_0000_0000_0000 * ((bits >> 112) as u16)
        + 0x1_0000_0000_0000_0000_0000_0000 * ((bits >> 96) as u16) + 0x1_0000_0000_0000_0000_0000 * ((
    bits >> 80) as u16) + 0x1_0000_0000_0000_0000 * ((bits >> 64) as u16) + 0x1_0000_0000_0000 * ((bits
        >> 48) as u16) + 0x1_0000_0000 * ((bits >> 32) as u16) + 0x1_0000 * ((bits >> 16) as u16) + (
    bits as u16)) by (bit_vector);
    let k = (112 - 16 * i) as u128;
    let high = (bits >> add_shift(k)) as u8;
    let low = (bits >> k) as u8;
    let group = (bits >> k) as u16;
    assert(group == 256 * high + low) by {
        lemma_group(bits, k);
    }
    assert(addr.spec_octets()[2 * i] == high);
    assert(addr.spec_octets()[2 * i + 1] == low);
    assert(bits >> 0u128 == bits) by (bit_vector);
    assert(addr.spec_segments()[i] == group);
}

/// The place of the octet in front of the one at `k`.
spec fn add_shift(k: u128) -> u128 {
    (k + 8) as u128
}

proof fn lemma_group(bits: u128, k: u128)
    requires
        k <= 112,
    ensures
        (bits >> k) as u16 == 256 * ((bits >> add_shift(k)) as u8) + ((bits >> k) as u8),
{
    let j = add_shift(k);
    assert((bits >> k) as u16 == 256 * ((bits >> j) as u8) + ((bits >> k) as u8)) by (bit_vector)
        requires
            k <= 112,
            j == k + 8,
    ;
}

/// Whether the `len` groups from `start` on are zero.
pub open spec fn zeros(groups: Seq<u16>, start: int, len: int) -> bool {
    &&& 0 <= start
    &&& 0 <= len
    &&& start + len <= groups.len()
    &&& forall|i: int| start <= i < start + len ==> #[trigger] groups[i] == 0
}

proof fn lemma_zero_run(groups: Seq<u16>, i: int)
    requires
        0 <= i <= groups.len(),
    ensures
        zeros(groups, i, zero_run(groups, i)),
        forall|len: int| #[trigger] zeros(groups, i, len) ==> len <= zero_run(groups, i),
    decreases groups.len() - i,
{
    if i < groups.len() && groups[i] == 0 {
        lemma_zero_run(groups, i + 1);
        let rest = zero_run(groups, i + 1);
        assert forall|j: int| i <= j < i + 1 + rest implies #[trigger] groups[j] == 0 by {
            assert(zeros(groups, i + 1, rest));
        }
        assert forall|len: int| #[trigger] zeros(groups, i, len) implies len <= zero_run(groups, i) by {
            if len > 0 {
                assert(zeros(groups, i + 1, len - 1));
            }
        }
    } else {
        assert forall|len: int| #[trigger] zeros(groups, i, len) implies len <= 0 by {
            if len > 0 {
                assert(groups[i] == 0);
            }
        }
    }
}

proof fn lemma_longest(groups: Seq<u16>, n: nat)
    requires
        n <= groups.len(),
    ensures
        ({
            let (start, len) = longest_zero_run(groups, n);
            &&& zeros(groups, start, len)
            &&& forall|i: int, l: int| i < n && #[trigger] zeros(groups, i, l) ==> l <= len
            &&& forall|i: int, l: int| i < start && #[trigger] zeros(groups, i, l) ==> l < len
            &&& len > 0 ==> start < n
        }),
    decreases n,
{
    if n > 0 {
        lemma_longest(groups, (n - 1) as nat);
        lemma_zero_run(groups, n - 1);
        let (start, len) = longest_zero_run(groups, (n - 1) as nat);
        let run = zero_run(groups, n - 1);
        assert forall|i: int, l: int| i < n && #[trigger] zeros(groups, i, l) implies l
            <= longest_zero_run(groups, n).1 by {
            if i < n - 1 {
                assert(l <= len);
            }
        }
        if run > len {
            assert forall|i: int, l: int| i < n - 1 && #[trigger] zeros(groups, i, l) implies l < run by {
                assert(l <= len);
            }
        }
    }
}

/// The run of zero groups that is left out of the text of an address is the first of the
/// longest ones.
pub proof fn law_longest_zero_run(groups: Seq<u16>, start: int, len: int)
    requires
        len > 0,
        zeros(groups, start, len),
        forall|i: int, l: int| #[trigger] zeros(groups, i, l) ==> l <= len,
        forall|i: int, l: int| i < start && #[trigger] zeros(groups, i, l) ==> l < len,
    ensures
        longest_zero_run(groups, groups.len()) == (start, len),
{
    lemma_longest(groups, groups.len());
    let (s, l) = longest_zero_run(groups, groups.len());
    assert(zeros(groups, s, l));
    assert(len <= l);
    if start < s {
        assert(zeros(groups, start, len));
    }
}

/// Groups are written in base sixteen with colons between them: the text of two lists of
/// groups is that of the first, a colon, and that of the second.
pub proof fn law_joined_groups(first: Seq<u16>, second: Seq<u16>, g: u16)
    requires
        first.len() > 0,
        second.len() > 0,
    ensures
        joined_groups(seq![]) == Seq::<char>::empty(),
        joined_groups(seq![g]) == numeral(g as nat, 16),
        joined_groups(first + second) == joined_groups(first) + seq![':'] + joined_groups(second),
    decreases second.len(),
{
    reveal_strlit(":");
    assert(":"@ =~= seq![':']);
    let all = first + second;
    let last = second.last();
    assert(all.drop_last() =~= first + second.drop_last());
    if second.len() == 1 {
        assert(all.drop_last() =~= first);
    } else {
        law_joined_groups(first, second.drop_last(), g);
        assert(joined_groups(all) =~= joined_groups(first) + seq![':'] + joined_groups(second));
    }
}

impl Ipv6Addr {
    /// An address that stands for an IPv4 address ends in the text of that address.
    pub proof fn law_mapped_text(v4: Ipv4Addr)
        ensures
            ({
                let addr = Ipv6Addr { bits: (0xffff_0000_0000 + v4.bits) as u128 };
                &&& addr.is_v4_mapped()
                &&& addr.embedded_v4() == v4
                &&& addr.spec_text() == seq![':', ':', 'f', 'f', 'f', 'f', ':'] + v4.spec_text()
            }),
    {
        reveal_strlit("::ffff:");
        assert("::ffff:"@ =~= seq![':', ':', 'f', 'f', 'f', 'f', ':']);
    }

    /// Of any other address the first of the longest runs of at least two zero groups is left
    /// out between two colons, and the groups before and behind it are written; where no two
    /// zero groups stand together all groups are written.
    pub proof fn law_text(self, start: int, len: int)
        requires
            self.bits < 0xffff_0000_0000 || self.bits >= 0x1_0000_0000_0000,
        ensures
            ({
                let groups = self.spec_segments();
                &&& (forall|i: int| !zeros(groups, i, 2)) ==> self.spec_text() == joined_groups(
                    groups,
                )
                &&& len >= 2 && zeros(groups, start, len) && (forall|i: int, l: int| #[trigger]
                    zeros(groups, i, l) ==> l <= len) && (forall|i: int, l: int|
                    i < start && #[trigger] zeros(groups, i, l) ==> l < len) ==> self.spec_text()
                    == joined_groups(groups.take(start)) + seq![':', ':'] + joined_groups(
                    groups.skip(start + len),
                )
            }),
    {
        reveal_strlit("::");
        assert("::"@ =~= seq![':', ':']);
        let groups = self.spec_segments();
        if len >= 2 && zeros(groups, start, len) && (forall|i: int, l: int| #[trigger]
            zeros(groups, i, l) ==> l <= len) && (forall|i: int, l: int|
            i < start && #[trigger] zeros(groups, i, l) ==> l < len) {
            law_longest_zero_run(groups, start, len);
        }
        if forall|i: int| !zeros(groups, i, 2) {
            lemma_longest(groups, groups.len());
            let (s, l) = longest_zero_run(groups, groups.len());
            if l > 1 {
                assert(zeros(groups, s, 2));
            }
        }
    }
}

impl SocketAddr {
    /// A socket address that was made of an address and a port gives both back, and has
    /// neither flow information nor a scope.
    pub proof fn law_parts(ip: IpAddr, port: u16)
        ensures
            SocketAddr::spec_new(ip, port).spec_ip() == ip,
            SocketAddr::spec_new(ip, port).spec_port() == port,
            SocketAddr::spec_new(ip, port) matches SocketAddr::V6(a) ==> a.flowinfo == 0
                && a.scope_id == 0,
    {
    }

    /// Another address takes the place of the old one and of nothing else: the port stays,
    /// and among IPv6 addresses the flow information and the scope. The old address in its
    /// own place changes nothing.
    pub proof fn law_with_ip(self, ip: IpAddr)
        ensures
            self.spec_with_ip(ip).spec_ip() == ip,
            self.spec_with_ip(ip).spec_port() == self.spec_port(),
            self.spec_with_ip(self.spec_ip()) == self,
            self is V6 && ip is V6 ==> self.spec_with_ip(ip)->V6_0.flowinfo == self->V6_0.flowinfo
                && self.spec_with_ip(ip)->V6_0.scope_id == self->V6_0.scope_id,
            self is V4 ==> self.spec_with_ip(ip) == SocketAddr::spec_new(ip, self.spec_port()),
    {
    }

    /// The text of a socket address is that of the address, a colon, and the port in base ten;
    /// an IPv6 address stands in brackets, with its scope behind a per cent sign where it has
    /// one.
    pub proof fn law_text(self)
        ensures
            match self {
                SocketAddr::V4(a) => self.spec_text() == a.ip.spec_text() + seq![':'] + decimal(
                    a.port as nat,
                ),
                SocketAddr::V6(a) => {
                    &&& a.scope_id == 0 ==> self.spec_text() == seq!['['] + a.ip.spec_text() + seq![
                        ']',
                        ':',
                    ] + decimal(a.port as nat)
                    &&& a.scope_id != 0 ==> self.spec_text() == seq!['['] + a.ip.spec_text() + seq![
                        '%',
                    ] + decimal(a.scope_id as nat) + seq![']', ':'] + decimal(a.port as nat)
                },
            },
    {
        reveal_strlit(":");
        reveal_strlit("[");
        reveal_strlit("]:");
        reveal_strlit("%");
        assert(":"@ =~= seq![':']);
        assert("["@ =~= seq!['[']);
        assert("]:"@ =~= seq![']', ':']);
        assert("%"@ =~= seq!['%']);
        if let SocketAddr::V6(a) = self {
            if a.scope_id == 0 {
                assert(self.spec_text() =~= seq!['['] + a.ip.spec_text() + seq![']', ':'] + decimal(
                    a.port as nat,
                ));
            } else {
                assert(self.spec_text() =~= seq!['['] + a.ip.spec_text() + seq!['%'] + decimal(
                    a.scope_id as nat,
                ) + seq![']', ':'] + decimal(a.port as nat));
            }
        }
    }
}

} // verus!
