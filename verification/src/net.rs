//! Addresses and networks.

use vstd::arithmetic::{div_mod, power2};
use vstd::prelude::*;
use crate::text;

verus! {

/// An IPv4 or IPv6 address, as the number that its octets denote in network order.
#[derive(Debug, Clone, Copy, PartialEq, Eq, Hash, Structural)]
pub enum IpAddr {
    V4(u32),
    V6(u128),
}

/// A network in CIDR notation: an address, whose bits after the prefix need not be zero, and the
/// length of the prefix, which is at most the number of bits of the address.
#[derive(Debug, Clone, Copy, PartialEq, Eq, Hash, Structural)]
pub struct IpNet {
    addr: IpAddr,
    prefix_len: u8,
}

/// The text that `Display` of the standard library's address types writes.
pub uninterp spec fn ip_text(ip: IpAddr) -> Seq<char>;

/// The address that `FromStr` of the standard library's `IpAddr` reads.
pub uninterp spec fn ip_from(s: Seq<char>) -> Option<IpAddr>;

/// The network that `FromStr` of `ipnet::IpNet` reads.
pub uninterp spec fn net_from(s: Seq<char>) -> Option<IpNet>;

impl View for IpAddr {
    type V = IpAddr;

    open spec fn view(&self) -> IpAddr {
        *self
    }
}

impl IpAddr {
    /// The number of bits of an address of the same family.
    pub open spec fn width(self) -> nat {
        if self is V4 {
            32
        } else {
            128
        }
    }

    /// The number that the address is.
    pub open spec fn bits(self) -> nat {
        match self {
            IpAddr::V4(b) => b as nat,
            IpAddr::V6(b) => b as nat,
        }
    }

    pub open spec fn same_family(self, other: IpAddr) -> bool {
        self is V4 <==> other is V4
    }

    /// 127.0.0.0/8 and ::1.
    pub open spec fn loopback(self) -> bool {
        match self {
            IpAddr::V4(b) => b / 0x100_0000 == 127,
            IpAddr::V6(b) => b == 1,
        }
    }

    /// fe80::/10.
    pub open spec fn link_local_v6(self) -> bool {
        match self {
            IpAddr::V4(_) => false,
            IpAddr::V6(b) => b / 0x40_0000_0000_0000_0000_0000_0000_0000 == 0x3fa,
        }
    }

    /// IPv4 before IPv6, and within a family by number.
    pub open spec fn before(self, other: IpAddr) -> bool {
        match (self, other) {
            (IpAddr::V4(a), IpAddr::V4(b)) => a < b,
            (IpAddr::V4(_), IpAddr::V6(_)) => true,
            (IpAddr::V6(_), IpAddr::V4(_)) => false,
            (IpAddr::V6(a), IpAddr::V6(b)) => a < b,
        }
    }

    pub fn is_ipv4(&self) -> (r: bool)
        ensures
            r == (self is V4),
    {
        match self {
            IpAddr::V4(_) => true,
            IpAddr::V6(_) => false,
        }
    }

    pub fn is_ipv6(&self) -> (r: bool)
        ensures
            r == (self is V6),
    {
        !self.is_ipv4()
    }

    pub fn is_loopback(&self) -> (r: bool)
        ensures
            r == self.loopback(),
    {
        match *self {
            IpAddr::V4(b) => b / 0x100_0000 == 127,
            IpAddr::V6(b) => b == 1,
        }
    }

    pub fn is_link_local_v6(&self) -> (r: bool)
        ensures
            r == self.link_local_v6(),
    {
        match *self {
            IpAddr::V4(_) => false,
            IpAddr::V6(b) => b / 0x40_0000_0000_0000_0000_0000_0000_0000 == 0x3fa,
        }
    }

    pub fn comes_before(&self, other: &IpAddr) -> (r: bool)
        ensures
            r == self.before(*other),
    {
        match (*self, *other) {
            (IpAddr::V4(a), IpAddr::V4(b)) => a < b,
            (IpAddr::V4(_), IpAddr::V6(_)) => true,
            (IpAddr::V6(_), IpAddr::V4(_)) => false,
            (IpAddr::V6(a), IpAddr::V6(b)) => a < b,
        }
    }

    /// Reads an address.
    pub fn parse(s: &str) -> (r: Option<IpAddr>)
        ensures
            r == ip_from(s@),
    {
        read_ip(s)
    }

    /// Writes the address.
    pub fn to_string(&self) -> (r: String)
        ensures
            r@ == ip_text(*self),
    {
        write_ip(*self)
    }
}

impl IpNet {
    /// The network of an address and a prefix length.
    pub closed spec fn of(addr: IpAddr, prefix_len: u8) -> IpNet {
        IpNet { addr, prefix_len }
    }

    pub closed spec fn base(self) -> IpAddr {
        self.addr
    }

    pub closed spec fn len(self) -> u8 {
        self.prefix_len
    }

    #[verifier::type_invariant]
    pub open spec fn wf(self) -> bool {
        self.len() <= self.base().width()
    }

    /// The number of addresses in the network.
    pub open spec fn size(self) -> nat {
        power2::pow2((self.base().width() - self.len()) as nat)
    }

    /// The addresses of the network: those of its family whose first bits are those of its own
    /// address.
    pub open spec fn holds(self, ip: IpAddr) -> bool {
        self.base().same_family(ip) && ip.bits() / self.size() == self.base().bits() / self.size()
    }

    /// The first address of the network.
    pub open spec fn first(self) -> IpAddr {
        let b = self.base().bits() / self.size() * self.size();
        match self.base() {
            IpAddr::V4(_) => IpAddr::V4(b as u32),
            IpAddr::V6(_) => IpAddr::V6(b as u128),
        }
    }

    /// The network written with its first address.
    pub open spec fn truncated(self) -> IpNet {
        IpNet::of(self.first(), self.len())
    }

    /// The network of one address.
    pub open spec fn host(ip: IpAddr) -> IpNet {
        IpNet::of(ip, if ip is V4 { 32 } else { 128 })
    }

    /// The network as text: the address, a slash and the prefix length.
    pub open spec fn text(self) -> Seq<char> {
        ip_text(self.base()) + "/"@ + text::decimal(self.len() as nat)
    }

    /// Whether two networks have an address in common, told by their first addresses.
    pub open spec fn overlaps(self, other: IpNet) -> bool {
        self.holds(other.first()) || other.holds(self.first())
    }

    pub fn addr(&self) -> (r: IpAddr)
        ensures
            r == self.base(),
    {
        self.addr
    }

    pub fn prefix_len(&self) -> (r: u8)
        ensures
            r == self.len(),
            self.wf(),
    {
        proof {
            use_type_invariant(*self);
        }
        self.prefix_len
    }

    /// The network of an address and a prefix length, if the length is not too large.
    pub fn new(addr: IpAddr, prefix_len: u8) -> (r: Option<IpNet>)
        ensures
            r == if prefix_len <= addr.width() {
                Some(IpNet::of(addr, prefix_len))
            } else {
                None
            },
    {
        let max: u8 = match addr {
            IpAddr::V4(_) => 32,
            IpAddr::V6(_) => 128,
        };
        if prefix_len <= max {
            Some(IpNet { addr, prefix_len })
        } else {
            None
        }
    }

    /// The network of one address.
    pub fn of_host(ip: IpAddr) -> (r: IpNet)
        ensures
            r == IpNet::host(ip),
    {
        match ip {
            IpAddr::V4(_) => IpNet { addr: ip, prefix_len: 32 },
            IpAddr::V6(_) => IpNet { addr: ip, prefix_len: 128 },
        }
    }

    /// Reads a network in CIDR notation.
    pub fn parse(s: &str) -> (r: Option<IpNet>)
        ensures
            r == net_from(s@),
    {
        read_net(s)
    }

    /// Writes the network in CIDR notation.
    pub fn to_string(&self) -> (r: String)
        ensures
            r@ == self.text(),
            text::solid(r@),
    {
        proof {
            use_type_invariant(*self);
        }
        write_net(*self)
    }

    /// Whether an address is in the network.
    pub fn contains(&self, ip: &IpAddr) -> (r: bool)
        ensures
            r == self.holds(*ip),
    {
        proof {
            use_type_invariant(*self);
        }
        net_contains(*self, *ip)
    }

    /// The first address of the network.
    pub fn network(&self) -> (r: IpAddr)
        ensures
            r == self.first(),
    {
        proof {
            use_type_invariant(*self);
        }
        net_network(*self)
    }

    /// The network written with its first address.
    pub fn trunc(&self) -> (r: IpNet)
        ensures
            r == self.truncated(),
    {
        proof {
            use_type_invariant(*self);
        }
        net_trunc(*self)
    }
}

/// A network is its address and the length of its prefix.
pub proof fn law_net_has_its_parts(addr: IpAddr, prefix_len: u8)
    ensures
        IpNet::of(addr, prefix_len).base() == addr,
        IpNet::of(addr, prefix_len).len() == prefix_len,
{
}

/// The network of one address has this address and the whole width as its prefix, and holds no
/// other address.
pub proof fn law_host_has_its_parts(ip: IpAddr)
    ensures
        IpNet::host(ip).base() == ip,
        IpNet::host(ip).len() == ip.width(),
        forall|other: IpAddr| #[trigger] IpNet::host(ip).holds(other) <==> other == ip,
{
    power2::lemma2_to64();
    assert forall|other: IpAddr| #[trigger] IpNet::host(ip).holds(other) <==> other == ip by {
        assert(IpNet::host(ip).size() == 1);
    }
}

/// `FromStr` of the standard library's `IpAddr`. `None` stands for its error.
#[verifier::external_body]
fn read_ip(s: &str) -> (r: Option<IpAddr>)
    ensures
        r == ip_from(s@),
{
    let ip = s.parse().ok()?;
    match ipnet::IpNet::new(ip, 0).ok()? {
        ipnet::IpNet::V4(n) => Some(IpAddr::V4(n.addr().into())),
        ipnet::IpNet::V6(n) => Some(IpAddr::V6(n.addr().into())),
    }
}

/// `Display` of the standard library's address types.
#[verifier::external_body]
fn write_ip(ip: IpAddr) -> (r: String)
    ensures
        r@ == ip_text(ip),
{
    match ip {
        IpAddr::V4(b) => ipnet::Ipv4Net::new_assert(b.into(), 32).addr().to_string(),
        IpAddr::V6(b) => ipnet::Ipv6Net::new_assert(b.into(), 128).addr().to_string(),
    }
}

/// `FromStr` of `ipnet::IpNet`. `None` stands for its error.
#[verifier::external_body]
fn read_net(s: &str) -> (r: Option<IpNet>)
    ensures
        r == net_from(s@),
{
    match s.parse::<ipnet::IpNet>().ok()? {
        ipnet::IpNet::V4(n) => Some(
            IpNet { addr: IpAddr::V4(n.addr().into()), prefix_len: n.prefix_len() },
        ),
        ipnet::IpNet::V6(n) => Some(
            IpNet { addr: IpAddr::V6(n.addr().into()), prefix_len: n.prefix_len() },
        ),
    }
}

/// `Display` of `ipnet::IpNet`: the address, a slash and the prefix length, with no white space
/// in them.
#[verifier::external_body]
fn write_net(net: IpNet) -> (r: String)
    requires
        net.wf(),
    ensures
        r@ == net.text(),
        text::solid(r@),
{
    match net.addr {
        IpAddr::V4(b) => ipnet::Ipv4Net::new_assert(b.into(), net.prefix_len).to_string(),
        IpAddr::V6(b) => ipnet::Ipv6Net::new_assert(b.into(), net.prefix_len).to_string(),
    }
}

/// `ipnet::IpNet::contains` of an address: the address is of the network's family and lies from
/// the network's first address to its last, that is, has the network's first bits.
#[verifier::external_body]
fn net_contains(net: IpNet, ip: IpAddr) -> (r: bool)
    requires
        net.wf(),
    ensures
        r == net.holds(ip),
{
    let p = net.prefix_len;
    let n = match net.addr {
        IpAddr::V4(b) => ipnet::IpNet::V4(ipnet::Ipv4Net::new_assert(b.into(), p)),
        IpAddr::V6(b) => ipnet::IpNet::V6(ipnet::Ipv6Net::new_assert(b.into(), p)),
    };
    let host = match ip {
        IpAddr::V4(b) => ipnet::IpNet::V4(ipnet::Ipv4Net::new_assert(b.into(), 32)),
        IpAddr::V6(b) => ipnet::IpNet::V6(ipnet::Ipv6Net::new_assert(b.into(), 128)),
    };
    n.contains(&host.addr())
}

/// `ipnet::IpNet::network`: the address with the bits after the prefix cleared.
#[verifier::external_body]
fn net_network(net: IpNet) -> (r: IpAddr)
    requires
        net.wf(),
    ensures
        r == net.first(),
{
    let p = net.prefix_len;
    match net.addr {
        IpAddr::V4(b) => IpAddr::V4(ipnet::Ipv4Net::new_assert(b.into(), p).network().into()),
        IpAddr::V6(b) => IpAddr::V6(ipnet::Ipv6Net::new_assert(b.into(), p).network().into()),
    }
}

/// `ipnet::IpNet::trunc`: the network with the bits of its address after the prefix cleared.
#[verifier::external_body]
fn net_trunc(net: IpNet) -> (r: IpNet)
    requires
        net.wf(),
    ensures
        r == net.truncated(),
{
    let p = net.prefix_len;
    let addr = match net.addr {
        IpAddr::V4(b) => IpAddr::V4(ipnet::Ipv4Net::new_assert(b.into(), p).trunc().addr().into()),
        IpAddr::V6(b) => IpAddr::V6(ipnet::Ipv6Net::new_assert(b.into(), p).trunc().addr().into()),
    };
    IpNet { addr, prefix_len: p }
}

/// Whether two networks have an address in common.
pub fn nets_overlap(a: IpNet, b: IpNet) -> (r: bool)
    ensures
        r == a.overlaps(b),
{
    a.contains(&b.network()) || b.contains(&a.network())
}

/// The first address of a network is one of its addresses, and no larger than its own address.
pub proof fn lemma_first(net: IpNet)
    ensures
        net.holds(net.first()),
        net.first().bits() <= net.base().bits(),
        net.first().bits() == net.base().bits() / net.size() * net.size(),
        net.first().same_family(net.base()),
{
    let d = net.size() as int;
    let b = net.base().bits() as int;
    power2::lemma_pow2_pos((net.base().width() - net.len()) as nat);
    div_mod::lemma_fundamental_div_mod(b, d);
    let q = b / d;
    assert(q * d <= b && q * d >= 0) by (nonlinear_arith)
        requires
            b == d * q + b % d,
            0 <= b % d,
            d > 0,
            q == b / d,
            b >= 0,
    ;
    div_mod::lemma_div_multiples_vanish(q, d);
    assert(d * q == q * d) by (nonlinear_arith);
}

/// Two networks overlap exactly if they have an address in common.
pub proof fn law_overlap_is_a_common_address(a: IpNet, b: IpNet)
    requires
        a.wf(),
        b.wf(),
    ensures
        a.overlaps(b) <==> exists|ip: IpAddr| #[trigger] a.holds(ip) && b.holds(ip),
{
    lemma_first(a);
    lemma_first(b);
    if exists|ip: IpAddr| #[trigger] a.holds(ip) && b.holds(ip) {
        let ip = choose|ip: IpAddr| #[trigger] a.holds(ip) && b.holds(ip);
        if a.len() <= b.len() {
            lemma_nested(a, b, ip);
        } else {
            lemma_nested(b, a, ip);
        }
    }
}

/// A network that holds an address holds the first address of each longer prefix around it.
proof fn lemma_nested(wide: IpNet, narrow: IpNet, ip: IpAddr)
    requires
        wide.wf(),
        narrow.wf(),
        wide.len() <= narrow.len(),
        wide.holds(ip),
        narrow.holds(ip),
    ensures
        wide.holds(narrow.first()),
{
    lemma_first(narrow);
    let n = narrow.size() as int;
    let k = power2::pow2((narrow.len() - wide.len()) as nat) as int;
    let x = narrow.base().bits() as int;
    let y = ip.bits() as int;
    let f = narrow.first().bits() as int;
    power2::lemma_pow2_pos((narrow.base().width() - narrow.len()) as nat);
    power2::lemma_pow2_pos((narrow.len() - wide.len()) as nat);
    power2::lemma_pow2_adds(
        (narrow.base().width() - narrow.len()) as nat,
        (narrow.len() - wide.len()) as nat,
    );
    assert(wide.size() == n * k);
    div_mod::lemma_div_denominator(y, n, k);
    div_mod::lemma_div_denominator(f, n, k);
    assert(f / n == y / n) by {
        div_mod::lemma_div_multiples_vanish(x / n, n);
        assert(n * (x / n) == (x / n) * n) by (nonlinear_arith);
    }
}

/// Overlap does not depend on the order of the two networks.
pub proof fn law_overlap_is_symmetric(a: IpNet, b: IpNet)
    ensures
        a.overlaps(b) == b.overlaps(a),
{
}

/// The network of one address holds that address and no other.
pub proof fn law_host_network_holds_one_address(ip: IpAddr, other: IpAddr)
    ensures
        IpNet::host(ip).wf(),
        IpNet::host(ip).holds(other) <==> other == ip,
{
    power2::lemma2_to64();
    assert(IpNet::host(ip).size() == 1);
    assert(forall|x: nat| #[trigger] (x / 1) == x);
    let a = ip.bits();
    let b = other.bits();
    assert(a / 1 == a);
    assert(b / 1 == b);
}

/// Whether a list holds a network.
pub fn has_net(list: &Vec<IpNet>, net: IpNet) -> (r: bool)
    ensures
        r == list@.contains(net),
{
    let mut i: usize = 0;
    while i < list.len()
        invariant
            i <= list.len(),
            forall|j: int| 0 <= j < i ==> #[trigger] list@[j] != net,
        decreases list.len() - i,
    {
        if list[i] == net {
            return true;
        }
        i += 1;
    }
    false
}

/// Whether a list holds an address.
pub fn has_ip(list: &Vec<IpAddr>, ip: IpAddr) -> (r: bool)
    ensures
        r == list@.contains(ip),
{
    let mut i: usize = 0;
    while i < list.len()
        invariant
            i <= list.len(),
            forall|j: int| 0 <= j < i ==> #[trigger] list@[j] != ip,
        decreases list.len() - i,
    {
        if list[i] == ip {
            return true;
        }
        i += 1;
    }
    false
}

/// A list of networks once more.
pub fn copy_nets(list: &Vec<IpNet>) -> (r: Vec<IpNet>)
    ensures
        r@ == list@,
{
    let mut out: Vec<IpNet> = Vec::new();
    let mut i: usize = 0;
    while i < list.len()
        invariant
            i <= list.len(),
            out@ == list@.take(i as int),
        decreases list.len() - i,
    {
        out.push(list[i]);
        i += 1;
    }
    out
}

/// A list of addresses once more.
pub fn copy_ips(list: &Vec<IpAddr>) -> (r: Vec<IpAddr>)
    ensures
        r@ == list@,
{
    let mut out: Vec<IpAddr> = Vec::new();
    let mut i: usize = 0;
    while i < list.len()
        invariant
            i <= list.len(),
            out@ == list@.take(i as int),
        decreases list.len() - i,
    {
        out.push(list[i]);
        i += 1;
    }
    out
}

/// Addresses in ascending order, none twice.
pub open spec fn ascending(s: Seq<IpAddr>) -> bool {
    forall|i: int, j: int| 0 <= i < j < s.len() ==> (#[trigger] s[i]).before(#[trigger] s[j])
}

/// An ascending list with one address more.
pub open spec fn with_ip(s: Seq<IpAddr>, x: IpAddr) -> Seq<IpAddr>
    decreases s.len(),
{
    if s.len() == 0 {
        seq![x]
    } else if x == s[0] {
        s
    } else if x.before(s[0]) {
        seq![x] + s
    } else {
        seq![s[0]] + with_ip(s.skip(1), x)
    }
}

/// The addresses of a list in ascending order, each once.
pub open spec fn sorted_ips(s: Seq<IpAddr>) -> Seq<IpAddr>
    decreases s.len(),
{
    if s.len() == 0 {
        s
    } else {
        with_ip(sorted_ips(s.drop_last()), s.last())
    }
}

proof fn lemma_with_ip(s: Seq<IpAddr>, x: IpAddr)
    requires
        ascending(s),
    ensures
        ascending(with_ip(s, x)),
        forall|y: IpAddr| #[trigger] with_ip(s, x).contains(y) <==> s.contains(y) || y == x,
    decreases s.len(),
{
    let r = with_ip(s, x);
    if s.len() == 0 {
        assert(r[0] == x);
    } else if x == s[0] {
    } else if x.before(s[0]) {
        assert forall|i: int, j: int| 0 <= i < j < r.len() implies (#[trigger] r[i]).before(
            #[trigger] r[j],
        ) by {
            if i > 0 {
                assert(s[i - 1].before(s[j - 1]));
            } else if j > 1 {
                assert(s[0].before(s[j - 1]));
            }
        }
        assert forall|y: IpAddr| #[trigger] r.contains(y) <==> s.contains(y) || y == x by {
            if s.contains(y) {
                let i = choose|i: int| 0 <= i < s.len() && s[i] == y;
                assert(r[i + 1] == y);
            }
            if y == x {
                assert(r[0] == y);
            }
            if r.contains(y) {
                let i = choose|i: int| 0 <= i < r.len() && r[i] == y;
                if i > 0 {
                    assert(s[i - 1] == y);
                }
            }
        }
    } else {
        let t = s.skip(1);
        assert forall|i: int, j: int| 0 <= i < j < t.len() implies (#[trigger] t[i]).before(
            #[trigger] t[j],
        ) by {
            assert(s[i + 1].before(s[j + 1]));
        }
        lemma_with_ip(t, x);
        let q = with_ip(t, x);
        assert forall|i: int, j: int| 0 <= i < j < r.len() implies (#[trigger] r[i]).before(
            #[trigger] r[j],
        ) by {
            if i > 0 {
                assert(q[i - 1].before(q[j - 1]));
            } else {
                let y = q[j - 1];
                assert(q.contains(y));
                if y != x {
                    let k = choose|k: int| 0 <= k < t.len() && t[k] == y;
                    assert(s[0].before(s[k + 1]));
                }
            }
        }
        assert forall|y: IpAddr| #[trigger] r.contains(y) <==> s.contains(y) || y == x by {
            if s.contains(y) {
                let i = choose|i: int| 0 <= i < s.len() && s[i] == y;
                if i > 0 {
                    assert(t[i - 1] == y);
                    assert(q.contains(y));
                    let k = choose|k: int| 0 <= k < q.len() && q[k] == y;
                    assert(r[k + 1] == y);
                } else {
                    assert(r[0] == y);
                }
            }
            if y == x {
                assert(q.contains(y));
                let k = choose|k: int| 0 <= k < q.len() && q[k] == y;
                assert(r[k + 1] == y);
            }
            if r.contains(y) {
                let i = choose|i: int| 0 <= i < r.len() && r[i] == y;
                if i > 0 {
                    assert(q[i - 1] == y);
                    assert(q.contains(y));
                    if y != x {
                        let k = choose|k: int| 0 <= k < t.len() && t[k] == y;
                        assert(s[k + 1] == y);
                    }
                } else {
                    assert(s[0] == y);
                }
            }
        }
    }
}

/// Sorting keeps exactly the addresses and leaves each once, in order.
pub proof fn lemma_sorted_ips(s: Seq<IpAddr>)
    ensures
        ascending(sorted_ips(s)),
        forall|y: IpAddr| #[trigger] sorted_ips(s).contains(y) <==> s.contains(y),
    decreases s.len(),
{
    if s.len() > 0 {
        let t = s.drop_last();
        lemma_sorted_ips(t);
        lemma_with_ip(sorted_ips(t), s.last());
        assert forall|y: IpAddr| #[trigger] sorted_ips(s).contains(y) <==> s.contains(y) by {
            if s.contains(y) {
                let i = choose|i: int| 0 <= i < s.len() && s[i] == y;
                if i < t.len() {
                    assert(t[i] == y);
                    assert(t.contains(y));
                }
            }
            if sorted_ips(s).contains(y) {
                if y != s.last() {
                    assert(t.contains(y));
                    let i = choose|i: int| 0 <= i < t.len() && t[i] == y;
                    assert(s[i] == y);
                } else {
                    assert(s[s.len() - 1] == y);
                }
            }
        }
    }
}

/// Puts an address into an ascending list.
pub fn insert_ip(list: &mut Vec<IpAddr>, ip: IpAddr)
    ensures
        final(list)@ == with_ip(old(list)@, ip),
{
    let ghost s = list@;
    let n = list.len();
    let mut j: usize = 0;
    proof {
        assert(s.skip(0) =~= s);
        assert(s.take(0) + with_ip(s, ip) =~= with_ip(s, ip));
    }
    while j < n && list[j] != ip && !ip.comes_before(&list[j])
        invariant
            j <= n,
            n == list.len(),
            s == list@,
            with_ip(s, ip) == s.take(j as int) + with_ip(s.skip(j as int), ip),
        decreases n - j,
    {
        proof {
            let t = s.skip(j as int);
            assert(t[0] == s[j as int]);
            assert(t.skip(1) =~= s.skip(j + 1));
            assert(s.take(j as int) + (seq![t[0]] + with_ip(t.skip(1), ip)) =~= s.take(j + 1)
                + with_ip(s.skip(j + 1), ip));
        }
        j += 1;
    }
    let ghost t = s.skip(j as int);
    if j < n && list[j] == ip {
        proof {
            assert(t[0] == s[j as int]);
            assert(s.take(j as int) + t =~= s);
        }
    } else {
        list.insert(j, ip);
        proof {
            if j < n {
                assert(t[0] == s[j as int]);
                assert(list@ =~= s.take(j as int) + (seq![ip] + t));
            } else {
                assert(t.len() == 0);
                assert(list@ =~= s.take(j as int) + seq![ip]);
            }
        }
    }
}

} // verus!
