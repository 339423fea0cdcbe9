//! Roles of interfaces, and what a target expression denotes.

use vstd::prelude::*;
use crate::error::{CoreError, CoreErrorView};
use crate::model::{self, Interface, InterfaceRole, InterfaceView, MatcherView, TargetMatcher};
use crate::net::{self, IpAddr, IpNet};
use crate::seqs;
use crate::strings;
use crate::text;

verus! {

/// Whether a name is one that container and virtual machine software gives its interfaces.
pub open spec fn virtual_name(name: Seq<char>) -> bool {
    "docker"@.is_prefix_of(name) || "br-"@.is_prefix_of(name) || "veth"@.is_prefix_of(name)
        || "virbr"@.is_prefix_of(name) || "cni"@.is_prefix_of(name) || "flannel"@.is_prefix_of(name)
}

/// Whether a name is one that tunnels have.
pub open spec fn tunnel_name(name: Seq<char>) -> bool {
    "tun"@.is_prefix_of(name) || "tap"@.is_prefix_of(name) || "wg"@.is_prefix_of(name)
        || "ppp"@.is_prefix_of(name)
}

/// The role of an interface. What it is by its name goes first, then the WAN interfaces that were
/// named, then the one with the default route; what is left is LAN if it is up, has a carrier and
/// an address.
pub open spec fn role_of(
    iface: InterfaceView,
    default_wan: Option<Seq<char>>,
    explicit_wan: Seq<Seq<char>>,
) -> InterfaceRole {
    if iface.is_loopback || iface.name == "lo"@ {
        InterfaceRole::Loopback
    } else if virtual_name(iface.name) {
        InterfaceRole::Virtual
    } else if tunnel_name(iface.name) {
        InterfaceRole::Vpn
    } else if explicit_wan.contains(iface.name) || default_wan == Some(iface.name) {
        InterfaceRole::Wan
    } else if iface.is_up && iface.has_carrier && iface.ip_addrs.len() > 0 {
        InterfaceRole::Lan
    } else {
        InterfaceRole::Unknown
    }
}

pub struct InterfaceClassifier;

impl InterfaceClassifier {
    pub fn classify(
        iface: &Interface,
        default_wan_iface: Option<&str>,
        explicit_wan_names: &[String],
    ) -> (r: InterfaceRole)
        ensures
            r == role_of(
                iface@,
                seqs::opt_view(default_wan_iface),
                seqs::views(explicit_wan_names@),
            ),
    {
        let name = iface.name.as_str();
        if iface.is_loopback || strings::same(name, "lo") {
            return InterfaceRole::Loopback;
        }
        if strings::starts_with(name, "docker") || strings::starts_with(name, "br-")
            || strings::starts_with(name, "veth") || strings::starts_with(name, "virbr")
            || strings::starts_with(name, "cni") || strings::starts_with(name, "flannel") {
            return InterfaceRole::Virtual;
        }
        if strings::starts_with(name, "tun") || strings::starts_with(name, "tap")
            || strings::starts_with(name, "wg") || strings::starts_with(name, "ppp") {
            return InterfaceRole::Vpn;
        }
        if model::has_name(explicit_wan_names, name) {
            return InterfaceRole::Wan;
        }
        if let Some(wan_name) = default_wan_iface {
            if strings::same(wan_name, name) {
                return InterfaceRole::Wan;
            }
        }
        if iface.is_up && iface.has_carrier && iface.ip_addrs.len() > 0 {
            return InterfaceRole::Lan;
        }
        InterfaceRole::Unknown
    }
}

/// What a target expression denotes: an address, a network, the names under a domain (written
/// `*.lab`, `~lab` or `.lab`), or one name.
pub open spec fn target_of(raw: Seq<char>) -> Result<MatcherView, CoreErrorView> {
    let s = text::trim(raw);
    matcher_of(s, net::ip_from(s), net::net_from(s))
}

/// What a trimmed target expression denotes that reads as the address `ip`, if as any, and as the
/// network `net`, if as any.
pub open spec fn matcher_of(s: Seq<char>, ip: Option<IpAddr>, net: Option<IpNet>) -> Result<
    MatcherView,
    CoreErrorView,
> {
    if s.len() == 0 {
        Err(CoreErrorView::InvalidTarget("Target cannot be empty"@))
    } else if ip is Some {
        Ok(MatcherView::HostIp(ip->0))
    } else if s.contains('/') {
        match net {
            Some(n) => if n.len() == n.base().width() {
                Ok(MatcherView::HostIp(n.base()))
            } else {
                Ok(MatcherView::Cidr(n))
            },
            None => Err(CoreErrorView::InvalidTarget("Malformed CIDR: "@ + s)),
        }
    } else if "*."@.is_prefix_of(s) {
        Ok(MatcherView::DomainSuffix(text::to_lower(s.skip(1))))
    } else if s[0] == '~' {
        let rest = text::strip_lead(s, '~');
        if rest.len() > 0 && rest[0] == '.' {
            Ok(MatcherView::DomainSuffix(text::to_lower(rest)))
        } else {
            Ok(MatcherView::DomainSuffix(text::to_lower("."@ + rest)))
        }
    } else if s[0] == '.' {
        Ok(MatcherView::DomainSuffix(text::to_lower(s)))
    } else {
        Ok(MatcherView::Domain(text::to_lower(s)))
    }
}

/// The value of a parsed target in specifications.
pub open spec fn target_view(r: Result<TargetMatcher, CoreError>) -> Result<
    MatcherView,
    CoreErrorView,
> {
    match r {
        Ok(m) => Ok(m@),
        Err(e) => Err(e@),
    }
}

pub struct TargetClassifier;

impl TargetClassifier {
    pub fn parse(target_str: &str) -> (r: Result<TargetMatcher, CoreError>)
        ensures
            target_view(r) == target_of(target_str@),
    {
        let trimmed = strings::trim(target_str);
        Self::classify_parsed(trimmed, IpAddr::parse(trimmed), IpNet::parse(trimmed))
    }

    /// Tells what a trimmed target expression denotes that reads as the address `ip`, if as any,
    /// and as the network `net`, if as any.
    pub fn classify_parsed(trimmed: &str, ip: Option<IpAddr>, net: Option<IpNet>) -> (r: Result<
        TargetMatcher,
        CoreError,
    >)
        ensures
            target_view(r) == matcher_of(trimmed@, ip, net),
    {
        if trimmed.unicode_len() == 0 {
            return Err(CoreError::InvalidTarget("Target cannot be empty".to_owned()));
        }
        if let Some(ip) = ip {
            return Ok(TargetMatcher::HostIp(ip));
        }
        if strings::has_char(trimmed, '/') {
            if let Some(net) = net {
                if (net.addr().is_ipv4() && net.prefix_len() == 32) || (net.addr().is_ipv6()
                    && net.prefix_len() == 128) {
                    return Ok(TargetMatcher::HostIp(net.addr()));
                }
                return Ok(TargetMatcher::Cidr(net));
            } else {
                return Err(
                    CoreError::InvalidTarget("Malformed CIDR: ".to_owned().concat(trimmed)),
                );
            }
        }
        if strings::starts_with(trimmed, "*.") {
            let suffix = trimmed.substring_char(1, trimmed.unicode_len());
            proof {
                assert(suffix@ =~= trimmed@.skip(1));
            }
            return Ok(TargetMatcher::DomainSuffix(strings::to_lower(suffix)));
        }
        if trimmed.get_char(0) == '~' {
            let rest = strings::strip_lead(trimmed, '~');
            if rest.unicode_len() > 0 && rest.get_char(0) == '.' {
                return Ok(TargetMatcher::DomainSuffix(strings::to_lower(rest)));
            }
            let suffix = ".".to_owned().concat(rest);
            return Ok(TargetMatcher::DomainSuffix(strings::to_lower(suffix.as_str())));
        }
        if trimmed.get_char(0) == '.' {
            return Ok(TargetMatcher::DomainSuffix(strings::to_lower(trimmed)));
        }
        Ok(TargetMatcher::Domain(strings::to_lower(trimmed)))
    }
}

/// What an interface is for. What is loopback, belongs to containers or is a tunnel is so whatever
/// else holds of it. Of the others the named WAN interfaces and the one with the default route are
/// WAN, and what is left is LAN exactly if it is up, has a carrier and has an address.
pub proof fn law_roles_of_interfaces(
    i: InterfaceView,
    default_wan: Option<Seq<char>>,
    explicit_wan: Seq<Seq<char>>,
)
    ensures
        ({
            let r = role_of(i, default_wan, explicit_wan);
            let loopback = i.is_loopback || i.name == "lo"@;
            let container = "docker"@.is_prefix_of(i.name) || "br-"@.is_prefix_of(i.name)
                || "veth"@.is_prefix_of(i.name) || "virbr"@.is_prefix_of(i.name)
                || "cni"@.is_prefix_of(i.name) || "flannel"@.is_prefix_of(i.name);
            let tunnel = "tun"@.is_prefix_of(i.name) || "tap"@.is_prefix_of(i.name)
                || "wg"@.is_prefix_of(i.name) || "ppp"@.is_prefix_of(i.name);
            let wan = explicit_wan.contains(i.name) || default_wan == Some(i.name);
            let live = i.is_up && i.has_carrier && i.ip_addrs.len() > 0;
            &&& r is Loopback <==> loopback
            &&& r is Virtual <==> !loopback && container
            &&& r is Vpn <==> !loopback && !container && tunnel
            &&& r is Wan <==> !loopback && !container && !tunnel && wan
            &&& r is Lan <==> !loopback && !container && !tunnel && !wan && live
        }),
{
}

/// What a target expression that can be read as an address or as a network denotes: the address,
/// the network, or its one address if it has no other. With a slash it is nothing else.
pub proof fn law_addresses_and_networks_are_read(raw: Seq<char>, n: IpNet)
    requires
        text::trim(raw).len() > 0,
    ensures
        net::ip_from(text::trim(raw)) matches Some(ip) ==> target_of(raw) == Ok::<
            MatcherView,
            CoreErrorView,
        >(MatcherView::HostIp(ip)),
        net::ip_from(text::trim(raw)) is None && text::trim(raw).contains('/') && net::net_from(
            text::trim(raw),
        ) == Some(n) ==> target_of(raw) == Ok::<MatcherView, CoreErrorView>(
            if n.len() == n.base().width() {
                MatcherView::HostIp(n.base())
            } else {
                MatcherView::Cidr(n)
            },
        ),
        net::ip_from(text::trim(raw)) is None && text::trim(raw).contains('/') && net::net_from(
            text::trim(raw),
        ) is None ==> target_of(raw) is Err,
        target_of(raw) matches Ok(MatcherView::Cidr(m)) ==> net::net_from(text::trim(raw)) == Some(
            m,
        ) && m.len() != m.base().width(),
{
}

/// Whether a text can be the name of a domain: it holds no white space and no slash, and starts
/// with none of the marks of a suffix.
pub open spec fn plain_name(d: Seq<char>) -> bool {
    &&& d.len() > 0
    &&& text::solid(d)
    &&& !d.contains('/')
    &&& d[0] != '.'
    &&& d[0] != '~'
    &&& d[0] != '*'
}

/// A plain name that is no address denotes this one name, in lower case.
pub proof fn law_a_name_is_one_name(d: Seq<char>)
    requires
        plain_name(d),
        net::ip_from(d) is None,
    ensures
        target_of(d) == Ok::<MatcherView, CoreErrorView>(MatcherView::Domain(text::to_lower(d))),
{
    reveal_strlit("*.");
    assert(text::trim(d) == d);
    if "*."@.is_prefix_of(d) {
        assert(d.subrange(0, 2)[0] == "*."@[0]);
    }
}

/// The three spellings of the names under a domain denote the same: all names that end in a dot
/// and the domain.
pub proof fn law_suffix_spellings_agree(d: Seq<char>)
    requires
        plain_name(d),
        net::ip_from("*."@ + d) is None,
        net::ip_from("~"@ + d) is None,
        net::ip_from("."@ + d) is None,
    ensures
        target_of("*."@ + d) == Ok::<MatcherView, CoreErrorView>(
            MatcherView::DomainSuffix(text::to_lower("."@ + d)),
        ),
        target_of("~"@ + d) == target_of("*."@ + d),
        target_of("."@ + d) == target_of("*."@ + d),
{
    reveal_strlit("*.");
    reveal_strlit("~");
    reveal_strlit(".");
    let a = "*."@ + d;
    let b = "~"@ + d;
    let c = "."@ + d;
    lemma_slashless("*."@, d);
    lemma_slashless("~"@, d);
    lemma_slashless("."@, d);
    lemma_solid_concat("*."@, d);
    lemma_solid_concat("~"@, d);
    lemma_solid_concat("."@, d);
    assert(text::trim(a) == a);
    assert(text::trim(b) == b);
    assert(text::trim(c) == c);
    assert("*."@ =~= a.subrange(0, 2));
    assert(a.skip(1) =~= c);
    assert(b.skip(1) =~= d);
    assert(text::strip_lead(b, '~') == text::strip_lead(b.skip(1), '~'));
    assert(text::strip_lead(d, '~') == d);
    if "*."@.is_prefix_of(b) {
        assert(b.subrange(0, 2)[0] == "*."@[0]);
    }
    if "*."@.is_prefix_of(c) {
        assert(c.subrange(0, 2)[0] == "*."@[0]);
    }
}

proof fn lemma_slashless(a: Seq<char>, d: Seq<char>)
    requires
        !d.contains('/'),
        forall|i: int| 0 <= i < a.len() ==> #[trigger] a[i] != '/',
    ensures
        !(a + d).contains('/'),
{
    let s = a + d;
    if s.contains('/') {
        let i = choose|i: int| 0 <= i < s.len() && s[i] == '/';
        if i < a.len() {
            assert(a[i] == '/');
        } else {
            assert(d[i - a.len()] == '/');
        }
    }
}

proof fn lemma_solid_concat(a: Seq<char>, d: Seq<char>)
    requires
        text::solid(a),
        text::solid(d),
        a.len() > 0,
        d.len() > 0,
    ensures
        text::solid(a + d),
        text::trim(a + d) == a + d,
{
    let s = a + d;
    assert forall|i: int| 0 <= i < s.len() implies !text::is_white(#[trigger] s[i]) by {
        if i < a.len() {
            assert(s[i] == a[i]);
        } else {
            assert(s[i] == d[i - a.len()]);
        }
    }
    assert(!text::is_white(s[0]));
    assert(!text::is_white(s.last()));
}

} // verus!
