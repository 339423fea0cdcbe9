//! Settings in the form of an environment file, and the target expressions in them.

use vstd::prelude::*;
use crate::config::{self, Config, ConfigView, TargetConfig, TargetView};
use crate::model;
use crate::names::{self, NameMap};
use crate::net::{self, IpAddr, IpNet};
use crate::seqs;
use crate::strings;
use crate::text;

verus! {

/// The network that an address or a network in CIDR notation denotes.
pub open spec fn net_of(raw: Seq<char>) -> Option<IpNet> {
    denoted(net::net_from(raw), net::ip_from(raw))
}

/// The network that a text denotes which reads as these: the network itself, or the network of
/// the one address.
pub open spec fn denoted(net: Option<IpNet>, ip: Option<IpAddr>) -> Option<IpNet> {
    match net {
        Some(n) => Some(n),
        None => match ip {
            Some(ip) => Some(IpNet::host(ip)),
            None => None,
        },
    }
}

/// Reads an address or a network in CIDR notation.
pub fn parse_ip_net(raw: &str) -> (r: Option<IpNet>)
    ensures
        r == net_of(raw@),
{
    denoted_net(IpNet::parse(raw), IpAddr::parse(raw))
}

/// The network that a text denotes which reads as these.
pub fn denoted_net(net: Option<IpNet>, ip: Option<IpAddr>) -> (r: Option<IpNet>)
    ensures
        r == denoted(net, ip),
{
    match net {
        Some(n) => Some(n),
        None => match ip {
            Some(ip) => Some(IpNet::of_host(ip)),
            None => None,
        },
    }
}

/// What stands behind `http://` or `https://`, the port that the scheme implies, and whether
/// there is a scheme.
pub open spec fn without_scheme(raw: Seq<char>) -> (Seq<char>, Option<u16>, bool) {
    if "http://"@.is_prefix_of(raw) {
        (raw.skip("http://"@.len() as int), Some(80), true)
    } else if "https://"@.is_prefix_of(raw) {
        (raw.skip("https://"@.len() as int), Some(443), true)
    } else {
        (raw, None, false)
    }
}

fn split_scheme<'a>(raw: &'a str) -> (r: (&'a str, Option<u16>, bool))
    ensures
        (r.0@, r.1, r.2) == without_scheme(raw@),
{
    if let Some(rest) = strings::strip_prefix(raw, "http://") {
        return (rest, Some(80), true);
    }
    if let Some(rest) = strings::strip_prefix(raw, "https://") {
        return (rest, Some(443), true);
    }
    (raw, None, false)
}

/// The host and port of a URL without its scheme: what stands before the path, the query and the
/// fragment.
pub open spec fn authority(s: Seq<char>) -> Seq<char> {
    text::trim(text::before_any(s, seq!['/', '?', '#']))
}

fn host_and_port<'a>(s: &'a str) -> (r: &'a str)
    ensures
        r@ == authority(s@),
{
    let seps: [char; 3] = ['/', '?', '#'];
    proof {
        assert(seps@ =~= seq!['/', '?', '#']);
    }
    strings::trim(strings::before_any(s, &seps))
}

/// The host of an authority: what stands before the last colon.
pub open spec fn host_part(s: Seq<char>) -> Seq<char> {
    match text::rsplit_once(s, ':') {
        Some((host, _)) => host,
        None => s,
    }
}

/// The name that a target expression names, if it is no address.
pub open spec fn domain_of(raw: Seq<char>) -> Option<Seq<char>> {
    let host = host_part(authority(without_scheme(raw).0));
    if net::ip_from(host) is Some || host.len() == 0 {
        None
    } else {
        Some(config::canonical(host))
    }
}

/// The name that a target expression names, if it is no address.
pub fn extract_target_domain(raw: &str) -> (r: Option<String>)
    ensures
        seqs::opt_view(r) == domain_of(raw@),
{
    let (rest, _, _) = split_scheme(raw);
    let host_port = host_and_port(rest);
    let host = match strings::rsplit_once(host_port, ':') {
        Some((h, _)) => h,
        None => host_port,
    };
    if IpAddr::parse(host).is_some() || host.unicode_len() == 0 {
        None
    } else {
        Some(config::canonical_domain(host))
    }
}

/// A host with a prefix length behind it, unless it has one.
pub open spec fn with_mask(host: Seq<char>, mask: Seq<char>) -> Seq<char> {
    if host.contains('/') {
        host
    } else {
        host + mask
    }
}

/// The port that a text denotes.
pub open spec fn port_of(s: Seq<char>) -> Option<u16> {
    match text::number(s, 10, u16::MAX as int) {
        Some(n) => Some(n as u16),
        None => None,
    }
}

/// The network and the port that the authority of a target expression denotes; `default_port`
/// is the port if there is none in it.
pub open spec fn authority_spec(s: Seq<char>, default_port: Option<u16>) -> (
    Seq<char>,
    Option<u16>,
) {
    let close = text::first_of(s, seq![']']);
    let unmarked = if s.contains(':') {
        (with_mask(s, "/128"@), default_port)
    } else {
        (with_mask(s, "/32"@), default_port)
    };
    if s.len() > 0 && s[0] == '[' && close < s.len() {
        let behind = s.skip(close + 1);
        let port = if behind.len() > 0 && behind[0] == ':' {
            port_of(behind.skip(1))
        } else {
            default_port
        };
        (s.subrange(1, close) + "/128"@, port)
    } else {
        match text::rsplit_once(s, ':') {
            Some((host, digits)) => if !host.contains(':') && port_of(digits) is Some {
                (with_mask(host, "/32"@), port_of(digits))
            } else {
                unmarked
            },
            None => unmarked,
        }
    }
}

/// The network and the port that a target expression denotes. The expression is a URL, a host
/// and a port, an address or a network; there is none only if the expression is blank.
pub open spec fn target_spec(raw: Seq<char>) -> Option<(Seq<char>, Option<u16>)> {
    let s = text::trim(raw);
    let (rest, default_port, is_url) = without_scheme(s);
    if s.len() == 0 {
        None
    } else if !is_url && rest.contains('/') && net::net_from(rest) is Some {
        Some(((net::net_from(rest)->0).text(), None))
    } else {
        Some(authority_spec(authority(rest), default_port))
    }
}

/// The value of a target and its port in specifications.
pub open spec fn spec_view(s: (String, Option<u16>)) -> (Seq<char>, Option<u16>) {
    (s.0@, s.1)
}

fn mask_host(host: &str, mask: &str) -> (r: String)
    ensures
        r@ == with_mask(host@, mask@),
{
    if strings::has_char(host, '/') {
        host.to_owned()
    } else {
        host.to_owned().concat(mask)
    }
}

fn parse_port(s: &str) -> (r: Option<u16>)
    ensures
        r == port_of(s@),
{
    strings::parse_u16(s)
}

/// The network and the port that the authority of a target expression denotes.
pub fn parse_authority(s: &str, default_port: Option<u16>) -> (r: (String, Option<u16>))
    ensures
        spec_view(r) == authority_spec(s@, default_port),
{
    if s.unicode_len() > 0 && s.get_char(0) == '[' {
        if let Some((before, behind)) = strings::split_once(s, ']') {
            proof {
                text::lemma_first_of(s@, seq![']']);
                assert(before@.len() > 0) by {
                    assert(s@[0] != ']');
                }
            }
            let ip = before.substring_char(1, before.unicode_len());
            proof {
                assert(ip@ =~= s@.subrange(1, before@.len() as int));
            }
            let port = if behind.unicode_len() > 0 && behind.get_char(0) == ':' {
                let digits = behind.substring_char(1, behind.unicode_len());
                proof {
                    assert(digits@ =~= behind@.skip(1));
                }
                parse_port(digits)
            } else {
                default_port
            };
            return (ip.to_owned().concat("/128"), port);
        }
    }
    if let Some((host, port_str)) = strings::rsplit_once(s, ':') {
        if !strings::has_char(host, ':') {
            if let Some(port) = parse_port(port_str) {
                return (mask_host(host, "/32"), Some(port));
            }
        }
    }
    if strings::has_char(s, ':') {
        (mask_host(s, "/128"), default_port)
    } else {
        (mask_host(s, "/32"), default_port)
    }
}

/// Parses a target string which can be a URL (http://... or https://...),
/// a host:port pair (10.0.0.10:999), a single IP (10.0.0.10), or a CIDR subnet (10.0.0.0/24).
/// Returns (canonical_cidr_or_ip, optional_port).
pub fn parse_target_spec(raw: &str) -> (r: Option<(String, Option<u16>)>)
    ensures
        match r {
            Some(s) => target_spec(raw@) == Some(spec_view(s)),
            None => target_spec(raw@) is None,
        },
{
    let raw = strings::trim(raw);
    if raw.unicode_len() == 0 {
        return None;
    }
    let (rest, default_port, is_url) = split_scheme(raw);
    if !is_url && strings::has_char(rest, '/') {
        if let Some(net) = IpNet::parse(rest) {
            return Some((net.to_string(), None));
        }
    }
    Some(parse_authority(host_and_port(rest), default_port))
}

/// What a setting is about.
#[derive(Debug, Clone, Copy, PartialEq, Eq, Structural)]
pub enum EnvKey {
    Targets,
    Subnets,
    TargetInterface,
    WanInterface,
    Fallback,
    Blacklist,
    LocalDns,
    LanDomains,
    LanDnsServers,
    Other,
}

/// What a setting of the given name is about. The case of the name does not matter.
pub open spec fn key_of(name: Seq<char>) -> EnvKey {
    let k = text::to_upper(name);
    if k == "TARGETS"@ || k == "TARGET_IPS"@ || k == "TARGET_IP"@ || k == "TARGET_SERVER"@ || k
        == "TARGET_SERVERS"@ || k == "SERVERS"@ || k == "SERVER"@ || k == "LAN_IPS"@ || k
        == "LAN_IP"@ {
        EnvKey::Targets
    } else if k == "TARGET_SUBNETS"@ || k == "TARGET_SUBNET"@ || k == "TARGET_CIDRS"@ || k
        == "TARGET_CIDR"@ {
        EnvKey::Subnets
    } else if k == "TARGET_INTERFACE"@ || k == "TARGET_IFACE"@ || k == "LAN_INTERFACE"@ || k
        == "LAN_IFACE"@ || k == "VIA_INTERFACE"@ || k == "VIA"@ {
        EnvKey::TargetInterface
    } else if k == "WAN_INTERFACE"@ || k == "WAN_IFACE"@ || k == "WAN"@ {
        EnvKey::WanInterface
    } else if k == "FALLBACK"@ {
        EnvKey::Fallback
    } else if k == "BLACKLIST_IPS"@ || k == "BLACKLIST_IP"@ || k == "BLACKLIST_CIDRS"@ {
        EnvKey::Blacklist
    } else if k == "LOCAL_DNS_RECORDS"@ || k == "LOCAL_DNS"@ {
        EnvKey::LocalDns
    } else if k == "LAN_DOMAINS"@ || k == "LAN_DOMAIN"@ {
        EnvKey::LanDomains
    } else if k == "LAN_DNS_SERVERS"@ || k == "LAN_DNS_SERVER"@ {
        EnvKey::LanDnsServers
    } else {
        EnvKey::Other
    }
}

fn env_key(name: &str) -> (r: EnvKey)
    ensures
        r == key_of(name@),
{
    let upper = strings::to_upper(name);
    let k = upper.as_str();
    if strings::same(k, "TARGETS") || strings::same(k, "TARGET_IPS") || strings::same(
        k,
        "TARGET_IP",
    ) || strings::same(k, "TARGET_SERVER") || strings::same(k, "TARGET_SERVERS") || strings::same(
        k,
        "SERVERS",
    ) || strings::same(k, "SERVER") || strings::same(k, "LAN_IPS") || strings::same(k, "LAN_IP") {
        EnvKey::Targets
    } else if strings::same(k, "TARGET_SUBNETS") || strings::same(k, "TARGET_SUBNET")
        || strings::same(k, "TARGET_CIDRS") || strings::same(k, "TARGET_CIDR") {
        EnvKey::Subnets
    } else if strings::same(k, "TARGET_INTERFACE") || strings::same(k, "TARGET_IFACE")
        || strings::same(k, "LAN_INTERFACE") || strings::same(k, "LAN_IFACE") || strings::same(
        k,
        "VIA_INTERFACE",
    ) || strings::same(k, "VIA") {
        EnvKey::TargetInterface
    } else if strings::same(k, "WAN_INTERFACE") || strings::same(k, "WAN_IFACE") || strings::same(
        k,
        "WAN",
    ) {
        EnvKey::WanInterface
    } else if strings::same(k, "FALLBACK") {
        EnvKey::Fallback
    } else if strings::same(k, "BLACKLIST_IPS") || strings::same(k, "BLACKLIST_IP")
        || strings::same(k, "BLACKLIST_CIDRS") {
        EnvKey::Blacklist
    } else if strings::same(k, "LOCAL_DNS_RECORDS") || strings::same(k, "LOCAL_DNS") {
        EnvKey::LocalDns
    } else if strings::same(k, "LAN_DOMAINS") || strings::same(k, "LAN_DOMAIN") {
        EnvKey::LanDomains
    } else if strings::same(k, "LAN_DNS_SERVERS") || strings::same(k, "LAN_DNS_SERVER") {
        EnvKey::LanDnsServers
    } else {
        EnvKey::Other
    }
}

/// A value without the quotes round it.
pub open spec fn unquoted(v: Seq<char>) -> Seq<char> {
    text::trim(text::strip_both(text::strip_both(text::trim(v), '"'), '\''))
}

/// The setting on a line: none if it is blank, a comment, or has no equals sign.
pub open spec fn setting_on() -> spec_fn(Seq<char>) -> Seq<(EnvKey, Seq<char>)> {
    |line: Seq<char>|
        {
            let t = text::trim(line);
            if t.len() == 0 || t[0] == '#' {
                Seq::empty()
            } else {
                match text::split_once(t, '=') {
                    Some((k, v)) => seq![(key_of(text::trim(k)), unquoted(v))],
                    None => Seq::empty(),
                }
            }
        }
}

/// The settings of an environment file, in order.
pub open spec fn settings(content: Seq<char>) -> Seq<(EnvKey, Seq<char>)> {
    seqs::flat(text::lines(content), setting_on())
}

/// The values of settings in specifications.
pub open spec fn setting_views(s: Seq<(EnvKey, &str)>) -> Seq<(EnvKey, Seq<char>)> {
    Seq::new(s.len(), |i: int| (s[i].0, s[i].1@))
}

fn read_settings<'a>(content: &'a str) -> (r: Vec<(EnvKey, &'a str)>)
    ensures
        setting_views(r@) == settings(content@),
{
    let lines = strings::lines(content);
    let ghost all = text::lines(content@);
    let mut out: Vec<(EnvKey, &'a str)> = Vec::new();
    let mut i: usize = 0;
    proof {
        assert(all.take(0).len() == 0);
        assert(setting_views(out@) =~= seqs::flat(all.take(0), setting_on()));
    }
    while i < lines.len()
        invariant
            i <= lines.len(),
            all == seqs::views(lines@),
            setting_views(out@) == seqs::flat(all.take(i as int), setting_on()),
        decreases lines.len() - i,
    {
        let ghost before = setting_views(out@);
        let line = strings::trim(lines[i]);
        proof {
            seqs::lemma_flat_next(all, setting_on(), i as int);
            assert(all[i as int] == lines@[i as int]@);
        }
        if line.unicode_len() > 0 && line.get_char(0) != '#' {
            if let Some((k, v)) = strings::split_once(line, '=') {
                let key = env_key(strings::trim(k));
                let val = strings::trim(
                    strings::strip_both(strings::strip_both(strings::trim(v), '"'), '\''),
                );
                out.push((key, val));
                proof {
                    assert(setting_views(out@) =~= before + seq![(key, val@)]);
                }
            }
        }
        proof {
            assert(setting_views(out@) =~= before + setting_on()(all[i as int]));
        }
        i += 1;
    }
    proof {
        seqs::lemma_take_all(all);
    }
    out
}

/// The last value of the settings about `key`.
pub open spec fn last_value(s: Seq<(EnvKey, Seq<char>)>, key: EnvKey) -> Option<Seq<char>>
    decreases s.len(),
{
    if s.len() == 0 {
        None
    } else if s.last().0 == key {
        Some(s.last().1)
    } else {
        last_value(s.drop_last(), key)
    }
}

/// The network that an item of the blacklist denotes.
pub open spec fn net_item() -> spec_fn(Seq<char>) -> Seq<IpNet> {
    |item: Seq<char>|
        match net_of(item) {
            Some(n) => seq![n],
            None => Seq::empty(),
        }
}

/// The address that an item denotes.
pub open spec fn ip_item() -> spec_fn(Seq<char>) -> Seq<IpAddr> {
    |item: Seq<char>|
        match net::ip_from(text::trim(item)) {
            Some(ip) => seq![ip],
            None => Seq::empty(),
        }
}

/// A name in canonical form, if something is left of it.
pub open spec fn lan_name(d: Seq<char>) -> Seq<Seq<char>> {
    if config::canonical(d).len() > 0 {
        seq![config::canonical(d)]
    } else {
        Seq::empty()
    }
}

/// The name that an item of the LAN domains denotes.
pub open spec fn domain_item() -> spec_fn(Seq<char>) -> Seq<Seq<char>> {
    |item: Seq<char>|
        match domain_of(item) {
            Some(d) => lan_name(d),
            None => Seq::empty(),
        }
}

/// The record that an item of the local records denotes: a name and its addresses.
pub open spec fn record_item() -> spec_fn(Seq<char>) -> Seq<(Seq<char>, Seq<IpAddr>)> {
    |item: Seq<char>|
        match text::split_once(item, '=') {
            Some((name, addresses)) => if config::canonical(name).len() > 0 {
                seq![
                    (
                        config::canonical(name),
                        seqs::flat(text::split(addresses, ','), ip_item()),
                    ),
                ]
            } else {
                Seq::empty()
            },
            None => Seq::empty(),
        }
}

/// The target of an item that denotes an address or a network.
pub open spec fn host_item() -> spec_fn(Seq<char>) -> Seq<(Seq<char>, Option<u16>)> {
    |item: Seq<char>|
        match target_spec(item) {
            Some(s) => if net::net_from(s.0) is Some {
                seq![s]
            } else {
                Seq::empty()
            },
            None => Seq::empty(),
        }
}

/// The target of an item, whatever it denotes.
pub open spec fn subnet_item() -> spec_fn(Seq<char>) -> Seq<(Seq<char>, Option<u16>)> {
    |item: Seq<char>|
        match target_spec(item) {
            Some(s) => seq![s],
            None => Seq::empty(),
        }
}

/// The name and the port of an item that denotes neither an address nor a network.
pub open spec fn named_item() -> spec_fn(Seq<char>) -> Seq<(Seq<char>, Option<u16>)> {
    |item: Seq<char>|
        match (target_spec(item), domain_of(item)) {
            (Some(s), Some(d)) => if net::net_from(s.0) is None {
                seq![(d, s.1)]
            } else {
                Seq::empty()
            },
            _ => Seq::empty(),
        }
}

/// The networks that a setting adds to the blacklist.
pub open spec fn nets_in() -> spec_fn((EnvKey, Seq<char>)) -> Seq<IpNet> {
    |s: (EnvKey, Seq<char>)|
        if s.0 is Blacklist {
            seqs::flat(text::items(s.1, ','), net_item())
        } else {
            Seq::empty()
        }
}

/// The servers that a setting adds to those of the LAN.
pub open spec fn servers_in() -> spec_fn((EnvKey, Seq<char>)) -> Seq<IpAddr> {
    |s: (EnvKey, Seq<char>)|
        if s.0 is LanDnsServers {
            seqs::flat(text::items(s.1, ','), ip_item())
        } else {
            Seq::empty()
        }
}

/// The names that a setting adds to those of the LAN.
pub open spec fn domains_in() -> spec_fn((EnvKey, Seq<char>)) -> Seq<Seq<char>> {
    |s: (EnvKey, Seq<char>)|
        if s.0 is LanDomains {
            seqs::flat(text::items(s.1, ','), domain_item())
        } else {
            Seq::empty()
        }
}

/// The records that a setting adds to the local ones.
pub open spec fn records_in() -> spec_fn((EnvKey, Seq<char>)) -> Seq<(Seq<char>, Seq<IpAddr>)> {
    |s: (EnvKey, Seq<char>)|
        if s.0 is LocalDns {
            seqs::flat(text::items(s.1, ';'), record_item())
        } else {
            Seq::empty()
        }
}

/// The targets of a setting that are addresses or networks.
pub open spec fn specs_in() -> spec_fn((EnvKey, Seq<char>)) -> Seq<(Seq<char>, Option<u16>)> {
    |s: (EnvKey, Seq<char>)|
        if s.0 is Targets {
            seqs::flat(text::items(s.1, ','), host_item())
        } else if s.0 is Subnets {
            seqs::flat(text::items(s.1, ','), subnet_item())
        } else {
            Seq::empty()
        }
}

/// The targets of a setting that are names.
pub open spec fn named_in() -> spec_fn((EnvKey, Seq<char>)) -> Seq<(Seq<char>, Option<u16>)> {
    |s: (EnvKey, Seq<char>)|
        if s.0 is Targets {
            seqs::flat(text::items(s.1, ','), named_item())
        } else {
            Seq::empty()
        }
}

/// Local records with one more: under its name stand the addresses that are found for the name,
/// and its own.
pub open spec fn with_record(
    m: Seq<(Seq<char>, Seq<IpAddr>)>,
    record: (Seq<char>, Seq<IpAddr>),
) -> Seq<(Seq<char>, Seq<IpAddr>)> {
    let known = match config::record_of(m, record.0) {
        Some(ips) => ips,
        None => Seq::empty(),
    };
    names::with_entry(m, record.0, seqs::extend_new(known, record.1))
}

/// Local records with more of them.
pub open spec fn with_records(
    m: Seq<(Seq<char>, Seq<IpAddr>)>,
    records: Seq<(Seq<char>, Seq<IpAddr>)>,
) -> Seq<(Seq<char>, Seq<IpAddr>)>
    decreases records.len(),
{
    if records.len() == 0 {
        m
    } else {
        with_record(with_records(m, records.drop_last()), records.last())
    }
}

/// The name that a named target adds to those of the LAN.
pub open spec fn named_domain() -> spec_fn((Seq<char>, Option<u16>)) -> Seq<Seq<char>> {
    |p: (Seq<char>, Option<u16>)| lan_name(p.0)
}

/// The targets of a named target: the addresses that the local records hold for its name.
pub open spec fn resolved(dns: Seq<(Seq<char>, Seq<IpAddr>)>) -> spec_fn(
    (Seq<char>, Option<u16>),
) -> Seq<(Seq<char>, Option<u16>)> {
    |p: (Seq<char>, Option<u16>)|
        match config::record_of(dns, config::canonical(p.0)) {
            Some(ips) => Seq::new(ips.len(), |i: int| (IpNet::host(ips[i]).text(), p.1)),
            None => Seq::empty(),
        }
}

/// The name of a target that comes from a setting.
pub open spec fn env_name(spec: (Seq<char>, Option<u16>)) -> Seq<char> {
    "env-"@ + text::replace_any(spec.0, seq!['.', ':', '/'], '-') + match spec.1 {
        Some(p) => "-port-"@ + text::decimal(p as nat),
        None => Seq::empty(),
    }
}

/// Whether one of the targets has this network and port.
pub open spec fn has_target(targets: Seq<TargetView>, spec: (Seq<char>, Option<u16>)) -> bool {
    exists|i: int|
        0 <= i < targets.len() && (#[trigger] targets[i]).cidr == spec.0 && targets[i].port
            == spec.1
}

/// The targets with those added whose network and port none of them has.
pub open spec fn with_targets(
    targets: Seq<TargetView>,
    specs: Seq<(Seq<char>, Option<u16>)>,
    via: Seq<Seq<char>>,
    fallback: Seq<char>,
) -> Seq<TargetView>
    decreases specs.len(),
{
    if specs.len() == 0 {
        targets
    } else {
        let before = with_targets(targets, specs.drop_last(), via, fallback);
        let s = specs.last();
        if has_target(before, s) {
            before
        } else {
            before.push(
                TargetView { name: env_name(s), cidr: s.0, port: s.1, via: via, fallback: fallback },
            )
        }
    }
}

/// The interfaces that the settings name for targets.
pub open spec fn via_of(s: Seq<(EnvKey, Seq<char>)>) -> Seq<Seq<char>> {
    match last_value(s, EnvKey::TargetInterface) {
        Some(v) => text::items(v, ','),
        None => Seq::empty(),
    }
}

/// What the settings say to do with targets whose path fails: to drop, if they do not say.
pub open spec fn fallback_of(s: Seq<(EnvKey, Seq<char>)>) -> Seq<char> {
    match last_value(s, EnvKey::Fallback) {
        Some(v) => v,
        None => "drop"@,
    }
}

/// The targets of the settings: those that are addresses or networks, then the local addresses
/// of those that are names.
pub open spec fn specs_of(
    s: Seq<(EnvKey, Seq<char>)>,
    dns: Seq<(Seq<char>, Seq<IpAddr>)>,
) -> Seq<(Seq<char>, Option<u16>)> {
    seqs::flat(s, specs_in()) + seqs::flat(seqs::flat(s, named_in()), resolved(dns))
}

/// The names that the settings add to those of the LAN.
pub open spec fn domains_of(s: Seq<(EnvKey, Seq<char>)>) -> Seq<Seq<char>> {
    seqs::flat(s, domains_in()) + seqs::flat(seqs::flat(s, named_in()), named_domain())
}

/// A configuration with settings applied to it. Lists are added to, never taken from; the WAN
/// interface and the LAN interfaces are replaced where the settings name some.
pub open spec fn with_settings(c: ConfigView, s: Seq<(EnvKey, Seq<char>)>) -> ConfigView {
    let dns = with_records(c.local_dns, seqs::flat(s, records_in()));
    ConfigView {
        wan: match last_value(s, EnvKey::WanInterface) {
            Some(w) => seq![w],
            None => c.wan,
        },
        lan_interfaces: if via_of(s).len() > 0 {
            via_of(s)
        } else {
            c.lan_interfaces
        },
        blacklist: seqs::extend_new(c.blacklist, seqs::flat(s, nets_in())),
        local_dns: dns,
        lan_domains: seqs::extend_new(c.lan_domains, domains_of(s)),
        lan_dns_servers: seqs::extend_new(c.lan_dns_servers, seqs::flat(s, servers_in())),
        targets: with_targets(c.targets, specs_of(s, dns), via_of(s), fallback_of(s)),
        ..c
    }
}

fn push_net(list: &mut Vec<IpNet>, net: IpNet)
    ensures
        final(list)@ == seqs::extend_new(old(list)@, seq![net]),
{
    proof {
        seqs::lemma_extend_new_one(list@, net);
    }
    if !net::has_net(list, net) {
        list.push(net);
    }
}

fn push_ip(list: &mut Vec<IpAddr>, ip: IpAddr)
    ensures
        final(list)@ == seqs::extend_new(old(list)@, seq![ip]),
{
    proof {
        seqs::lemma_extend_new_one(list@, ip);
    }
    if !net::has_ip(list, ip) {
        list.push(ip);
    }
}

/// Adds a name in canonical form, if something is left of it and it is new.
pub fn push_lan_domain(domains: &mut Vec<String>, domain: &str)
    ensures
        seqs::views(final(domains)@) == seqs::extend_new(
            seqs::views(old(domains)@),
            lan_name(domain@),
        ),
{
    let name = config::canonical_domain(domain);
    proof {
        seqs::lemma_extend_new_one(seqs::views(domains@), name@);
    }
    if name.as_str().unicode_len() > 0 && !model::has_name(domains.as_slice(), name.as_str()) {
        proof {
            seqs::lemma_views_push(domains@, name);
        }
        domains.push(name);
    }
}

fn add_nets(list: &mut Vec<IpNet>, val: &str)
    ensures
        final(list)@ == seqs::extend_new(
            old(list)@,
            seqs::flat(text::items(val@, ','), net_item()),
        ),
{
    let items = strings::items(val, ',');
    let ghost all = text::items(val@, ',');
    let ghost before = list@;
    let mut i: usize = 0;
    proof {
        assert(all.take(0).len() == 0);
    }
    while i < items.len()
        invariant
            i <= items.len(),
            all == seqs::views(items@),
            list@ == seqs::extend_new(before, seqs::flat(all.take(i as int), net_item())),
        decreases items.len() - i,
    {
        proof {
            seqs::lemma_flat_next(all, net_item(), i as int);
            seqs::lemma_extend_new_concat(
                before,
                seqs::flat(all.take(i as int), net_item()),
                net_item()(all[i as int]),
            );
        }
        if let Some(net) = parse_ip_net(items[i]) {
            push_net(list, net);
        }
        i += 1;
    }
    proof {
        seqs::lemma_take_all(all);
    }
}

fn add_ips(list: &mut Vec<IpAddr>, items: &Vec<&str>)
    ensures
        final(list)@ == seqs::extend_new(
            old(list)@,
            seqs::flat(seqs::views(items@), ip_item()),
        ),
{
    let ghost all = seqs::views(items@);
    let ghost before = list@;
    let mut i: usize = 0;
    proof {
        assert(all.take(0).len() == 0);
    }
    while i < items.len()
        invariant
            i <= items.len(),
            all == seqs::views(items@),
            list@ == seqs::extend_new(before, seqs::flat(all.take(i as int), ip_item())),
        decreases items.len() - i,
    {
        proof {
            seqs::lemma_flat_next(all, ip_item(), i as int);
            seqs::lemma_extend_new_concat(
                before,
                seqs::flat(all.take(i as int), ip_item()),
                ip_item()(all[i as int]),
            );
        }
        if let Some(ip) = IpAddr::parse(strings::trim(items[i])) {
            push_ip(list, ip);
        }
        i += 1;
    }
    proof {
        seqs::lemma_take_all(all);
    }
}

fn add_domains(list: &mut Vec<String>, val: &str)
    ensures
        seqs::views(final(list)@) == seqs::extend_new(
            seqs::views(old(list)@),
            seqs::flat(text::items(val@, ','), domain_item()),
        ),
{
    let items = strings::items(val, ',');
    let ghost all = text::items(val@, ',');
    let ghost before = seqs::views(list@);
    let mut i: usize = 0;
    proof {
        assert(all.take(0).len() == 0);
    }
    while i < items.len()
        invariant
            i <= items.len(),
            all == seqs::views(items@),
            seqs::views(list@) == seqs::extend_new(
                before,
                seqs::flat(all.take(i as int), domain_item()),
            ),
        decreases items.len() - i,
    {
        proof {
            seqs::lemma_flat_next(all, domain_item(), i as int);
            seqs::lemma_extend_new_concat(
                before,
                seqs::flat(all.take(i as int), domain_item()),
                domain_item()(all[i as int]),
            );
        }
        if let Some(domain) = extract_target_domain(items[i]) {
            push_lan_domain(list, domain.as_str());
        }
        i += 1;
    }
    proof {
        seqs::lemma_take_all(all);
    }
}

pub proof fn lemma_with_records_concat(
    m: Seq<(Seq<char>, Seq<IpAddr>)>,
    a: Seq<(Seq<char>, Seq<IpAddr>)>,
    b: Seq<(Seq<char>, Seq<IpAddr>)>,
)
    ensures
        with_records(m, a + b) == with_records(with_records(m, a), b),
    decreases b.len(),
{
    if b.len() == 0 {
        assert(a + b =~= a);
    } else {
        assert((a + b).drop_last() =~= a + b.drop_last());
        lemma_with_records_concat(m, a, b.drop_last());
    }
}

fn add_record(dns: &mut NameMap<Vec<IpAddr>>, name: &str, addresses: &str)
    ensures
        final(dns)@ == with_records(
            old(dns)@,
            if config::canonical(name@).len() > 0 {
                seq![
                    (
                        config::canonical(name@),
                        seqs::flat(text::split(addresses@, ','), ip_item()),
                    ),
                ]
            } else {
                Seq::empty()
            },
        ),
{
    let key = config::canonical_domain(name);
    if key.as_str().unicode_len() == 0 {
        return;
    }
    let mut list: Vec<IpAddr> = Vec::new();
    if let Some(known) = config::find_record(dns, key.as_str()) {
        add_all(&mut list, known);
    }
    let items = strings::split(addresses, ',');
    add_ips(&mut list, &items);
    proof {
        let record = (key@, seqs::flat(text::split(addresses@, ','), ip_item()));
        assert(seq![record].drop_last() =~= Seq::<(Seq<char>, Seq<IpAddr>)>::empty());
        assert(seq![record].last() == record);
        reveal_with_fuel(with_records, 2);
    }
    dns.insert(key, list);
}

fn add_all(list: &mut Vec<IpAddr>, more: &Vec<IpAddr>)
    requires
        old(list)@.len() == 0,
    ensures
        final(list)@ == more@,
{
    let mut i: usize = 0;
    while i < more.len()
        invariant
            i <= more.len(),
            list@ == more@.take(i as int),
        decreases more.len() - i,
    {
        list.push(more[i]);
        i += 1;
    }
}

fn add_records(dns: &mut NameMap<Vec<IpAddr>>, val: &str)
    ensures
        final(dns)@ == with_records(
            old(dns)@,
            seqs::flat(text::items(val@, ';'), record_item()),
        ),
{
    let items = strings::items(val, ';');
    let ghost all = text::items(val@, ';');
    let ghost before = dns@;
    let mut i: usize = 0;
    proof {
        assert(all.take(0).len() == 0);
    }
    while i < items.len()
        invariant
            i <= items.len(),
            all == seqs::views(items@),
            dns@ == with_records(before, seqs::flat(all.take(i as int), record_item())),
        decreases items.len() - i,
    {
        proof {
            seqs::lemma_flat_next(all, record_item(), i as int);
            lemma_with_records_concat(
                before,
                seqs::flat(all.take(i as int), record_item()),
                record_item()(all[i as int]),
            );
        }
        if let Some((name, addresses)) = strings::split_once(items[i], '=') {
            add_record(dns, name, addresses);
        }
        i += 1;
    }
    proof {
        seqs::lemma_take_all(all);
    }
}

/// The values of targets and ports in specifications.
pub open spec fn spec_views(s: Seq<(String, Option<u16>)>) -> Seq<(Seq<char>, Option<u16>)> {
    Seq::new(s.len(), |i: int| spec_view(s[i]))
}

fn add_targets(
    specs: &mut Vec<(String, Option<u16>)>,
    named: &mut Vec<(String, Option<u16>)>,
    val: &str,
)
    ensures
        spec_views(final(specs)@) == spec_views(old(specs)@) + seqs::flat(
            text::items(val@, ','),
            host_item(),
        ),
        spec_views(final(named)@) == spec_views(old(named)@) + seqs::flat(
            text::items(val@, ','),
            named_item(),
        ),
{
    let items = strings::items(val, ',');
    let ghost all = text::items(val@, ',');
    let ghost specs0 = spec_views(specs@);
    let ghost named0 = spec_views(named@);
    let mut i: usize = 0;
    proof {
        assert(all.take(0).len() == 0);
        assert(specs0 + seqs::flat(all.take(0), host_item()) =~= specs0);
        assert(named0 + seqs::flat(all.take(0), named_item()) =~= named0);
    }
    while i < items.len()
        invariant
            i <= items.len(),
            all == seqs::views(items@),
            spec_views(specs@) == specs0 + seqs::flat(all.take(i as int), host_item()),
            spec_views(named@) == named0 + seqs::flat(all.take(i as int), named_item()),
        decreases items.len() - i,
    {
        let ghost specs1 = spec_views(specs@);
        let ghost named1 = spec_views(named@);
        proof {
            seqs::lemma_flat_next(all, host_item(), i as int);
            seqs::lemma_flat_next(all, named_item(), i as int);
        }
        if let Some(spec) = parse_target_spec(items[i]) {
            let ghost s = spec_view(spec);
            if IpNet::parse(spec.0.as_str()).is_some() {
                specs.push(spec);
                proof {
                    assert(spec_views(specs@) =~= specs1 + seq![s]);
                }
            } else if let Some(domain) = extract_target_domain(items[i]) {
                let ghost d = domain@;
                named.push((domain, spec.1));
                proof {
                    assert(spec_views(named@) =~= named1 + seq![(d, s.1)]);
                }
            }
        }
        proof {
            assert(spec_views(specs@) =~= specs1 + host_item()(all[i as int]));
            assert(spec_views(named@) =~= named1 + named_item()(all[i as int]));
            assert(specs1 + host_item()(all[i as int]) =~= specs0 + (seqs::flat(
                all.take(i as int),
                host_item(),
            ) + host_item()(all[i as int])));
            assert(named1 + named_item()(all[i as int]) =~= named0 + (seqs::flat(
                all.take(i as int),
                named_item(),
            ) + named_item()(all[i as int])));
        }
        i += 1;
    }
    proof {
        seqs::lemma_take_all(all);
    }
}

fn add_subnets(specs: &mut Vec<(String, Option<u16>)>, val: &str)
    ensures
        spec_views(final(specs)@) == spec_views(old(specs)@) + seqs::flat(
            text::items(val@, ','),
            subnet_item(),
        ),
{
    let items = strings::items(val, ',');
    let ghost all = text::items(val@, ',');
    let ghost specs0 = spec_views(specs@);
    let mut i: usize = 0;
    proof {
        assert(all.take(0).len() == 0);
        assert(specs0 + seqs::flat(all.take(0), subnet_item()) =~= specs0);
    }
    while i < items.len()
        invariant
            i <= items.len(),
            all == seqs::views(items@),
            spec_views(specs@) == specs0 + seqs::flat(all.take(i as int), subnet_item()),
        decreases items.len() - i,
    {
        let ghost specs1 = spec_views(specs@);
        proof {
            seqs::lemma_flat_next(all, subnet_item(), i as int);
        }
        if let Some(spec) = parse_target_spec(items[i]) {
            let ghost s = spec_view(spec);
            specs.push(spec);
            proof {
                assert(spec_views(specs@) =~= specs1 + seq![s]);
            }
        }
        proof {
            assert(spec_views(specs@) =~= specs1 + subnet_item()(all[i as int]));
            assert(specs1 + subnet_item()(all[i as int]) =~= specs0 + (seqs::flat(
                all.take(i as int),
                subnet_item(),
            ) + subnet_item()(all[i as int])));
        }
        i += 1;
    }
    proof {
        seqs::lemma_take_all(all);
    }
}

fn same_port(a: Option<u16>, b: Option<u16>) -> (r: bool)
    ensures
        r == (a == b),
{
    match (a, b) {
        (Some(x), Some(y)) => x == y,
        (None, None) => true,
        _ => false,
    }
}

fn knows_target(targets: &Vec<TargetConfig>, cidr: &str, port: Option<u16>) -> (r: bool)
    ensures
        r == has_target(seqs::views(targets@), (cidr@, port)),
{
    let ghost all = seqs::views(targets@);
    let mut i: usize = 0;
    while i < targets.len()
        invariant
            i <= targets.len(),
            all == seqs::views(targets@),
            forall|j: int|
                0 <= j < i ==> !((#[trigger] all[j]).cidr == cidr@ && all[j].port == port),
        decreases targets.len() - i,
    {
        if strings::same(targets[i].cidr.as_str(), cidr) && same_port(targets[i].port, port) {
            proof {
                assert(all[i as int].cidr == cidr@);
            }
            return true;
        }
        i += 1;
    }
    false
}

fn target_name(cidr: &str, port: Option<u16>) -> (r: String)
    ensures
        r@ == env_name((cidr@, port)),
{
    let from: [char; 3] = ['.', ':', '/'];
    proof {
        assert(from@ =~= seq!['.', ':', '/']);
    }
    let flat = strings::replace_any(cidr, &from, '-');
    let base = "env-".to_owned().concat(flat.as_str());
    match port {
        Some(p) => base.concat("-port-".to_owned().concat(strings::decimal(p as u64).as_str()).as_str()),
        None => {
            proof {
                assert(base@ + Seq::<char>::empty() =~= base@);
            }
            base
        },
    }
}

fn push_targets(
    targets: &mut Vec<TargetConfig>,
    specs: &Vec<(String, Option<u16>)>,
    via: &Vec<String>,
    fallback: &str,
)
    ensures
        seqs::views(final(targets)@) == with_targets(
            seqs::views(old(targets)@),
            spec_views(specs@),
            seqs::views(via@),
            fallback@,
        ),
{
    let ghost all = spec_views(specs@);
    let ghost before = seqs::views(targets@);
    let ghost vias = seqs::views(via@);
    let mut i: usize = 0;
    proof {
        assert(all.take(0).len() == 0);
    }
    while i < specs.len()
        invariant
            i <= specs.len(),
            all == spec_views(specs@),
            vias == seqs::views(via@),
            seqs::views(targets@) == with_targets(before, all.take(i as int), vias, fallback@),
        decreases specs.len() - i,
    {
        proof {
            seqs::lemma_take_next(all, i as int);
            assert(all[i as int] == (specs@[i as int].0@, specs@[i as int].1));
        }
        let port = specs[i].1;
        if !knows_target(targets, specs[i].0.as_str(), port) {
            let t = TargetConfig {
                name: target_name(specs[i].0.as_str(), port),
                cidr: specs[i].0.clone(),
                port,
                via: model::copy_names(via),
                fallback: fallback.to_owned(),
            };
            proof {
                seqs::lemma_views_push(targets@, t);
            }
            targets.push(t);
        }
        i += 1;
    }
    proof {
        seqs::lemma_take_all(all);
    }
}

fn push_hosts(specs: &mut Vec<(String, Option<u16>)>, ips: &[IpAddr], port: Option<u16>)
    ensures
        spec_views(final(specs)@) == spec_views(old(specs)@) + Seq::new(
            ips@.len(),
            |i: int| (IpNet::host(ips@[i]).text(), port),
        ),
{
    let ghost hosts = Seq::new(ips@.len(), |i: int| (IpNet::host(ips@[i]).text(), port));
    let ghost before = spec_views(specs@);
    let mut i: usize = 0;
    proof {
        assert(before + hosts.take(0) =~= before);
    }
    while i < ips.len()
        invariant
            i <= ips.len(),
            hosts == Seq::new(ips@.len(), |i: int| (IpNet::host(ips@[i]).text(), port)),
            spec_views(specs@) == before + hosts.take(i as int),
        decreases ips.len() - i,
    {
        let ghost now = spec_views(specs@);
        specs.push((IpNet::of_host(ips[i]).to_string(), port));
        proof {
            assert(spec_views(specs@) =~= now.push(hosts[i as int]));
            seqs::lemma_take_next(hosts, i as int);
            assert(now.push(hosts[i as int]) =~= before + hosts.take(i + 1));
        }
        i += 1;
    }
    proof {
        seqs::lemma_take_all(hosts);
    }
}

/// Named targets: their names belong to the LAN, and their local addresses are targets.
fn resolve_named(
    domains: &mut Vec<String>,
    specs: &mut Vec<(String, Option<u16>)>,
    named: &Vec<(String, Option<u16>)>,
    dns: &NameMap<Vec<IpAddr>>,
)
    ensures
        seqs::views(final(domains)@) == seqs::extend_new(
            seqs::views(old(domains)@),
            seqs::flat(spec_views(named@), named_domain()),
        ),
        spec_views(final(specs)@) == spec_views(old(specs)@) + seqs::flat(
            spec_views(named@),
            resolved(dns@),
        ),
{
    let ghost all = spec_views(named@);
    let ghost domains0 = seqs::views(domains@);
    let ghost specs0 = spec_views(specs@);
    let mut i: usize = 0;
    proof {
        assert(all.take(0).len() == 0);
        assert(specs0 + seqs::flat(all.take(0), resolved(dns@)) =~= specs0);
    }
    while i < named.len()
        invariant
            i <= named.len(),
            all == spec_views(named@),
            seqs::views(domains@) == seqs::extend_new(
                domains0,
                seqs::flat(all.take(i as int), named_domain()),
            ),
            spec_views(specs@) == specs0 + seqs::flat(all.take(i as int), resolved(dns@)),
        decreases named.len() - i,
    {
        let ghost specs1 = spec_views(specs@);
        let ghost p = all[i as int];
        proof {
            assert(p == (named@[i as int].0@, named@[i as int].1));
            seqs::lemma_flat_next(all, named_domain(), i as int);
            seqs::lemma_flat_next(all, resolved(dns@), i as int);
            seqs::lemma_extend_new_concat(
                domains0,
                seqs::flat(all.take(i as int), named_domain()),
                named_domain()(p),
            );
        }
        push_lan_domain(domains, named[i].0.as_str());
        let key = config::canonical_domain(named[i].0.as_str());
        if let Some(ips) = config::find_record(dns, key.as_str()) {
            push_hosts(specs, ips.as_slice(), named[i].1);
        }
        proof {
            assert(spec_views(specs@) =~= specs1 + resolved(dns@)(p));
            assert(specs1 + resolved(dns@)(p) =~= specs0 + (seqs::flat(
                all.take(i as int),
                resolved(dns@),
            ) + resolved(dns@)(p)));
        }
        i += 1;
    }
    proof {
        seqs::lemma_take_all(all);
    }
}

fn owned_items(val: &str) -> (r: Vec<String>)
    ensures
        seqs::views(r@) == text::items(val@, ','),
{
    let items = strings::items(val, ',');
    let mut out: Vec<String> = Vec::new();
    let mut i: usize = 0;
    while i < items.len()
        invariant
            i <= items.len(),
            out.len() == i,
            forall|j: int| 0 <= j < i ==> (#[trigger] out@[j])@ == items@[j]@,
        decreases items.len() - i,
    {
        out.push(items[i].to_owned());
        i += 1;
    }
    proof {
        assert(seqs::views(out@) =~= seqs::views(items@));
    }
    out
}

impl Config {
    /// Merges targets and interface mappings from a .env file content.
    /// Supports host:port (e.g. 10.0.0.10:999), URLs (e.g. http://10.0.0.10:8080/api),
    /// single IPs (10.0.0.10), and CIDR subnets (10.0.0.0/24).
    pub fn apply_env_str(&mut self, env_content: &str)
        ensures
            final(self)@ == with_settings(old(self)@, settings(env_content@)),
    {
        let ghost c = self@;
        let list = read_settings(env_content);
        let ghost all = settings(env_content@);
        let mut specs: Vec<(String, Option<u16>)> = Vec::new();
        let mut named: Vec<(String, Option<u16>)> = Vec::new();
        let mut target_iface: Option<&str> = None;
        let mut wan_iface: Option<&str> = None;
        // A configured LAN target must never silently become general Internet
        // traffic when its LAN path fails: unless told otherwise, it is dropped.
        let mut fallback: Option<&str> = None;
        let mut i: usize = 0;
        proof {
            assert(all.take(0).len() == 0);
            assert(spec_views(specs@) =~= seqs::flat(all.take(0), specs_in()));
            assert(spec_views(named@) =~= seqs::flat(all.take(0), named_in()));
        }
        while i < list.len()
            invariant
                i <= list.len(),
                all == setting_views(list@),
                self@ == (ConfigView {
                    blacklist: seqs::extend_new(
                        c.blacklist,
                        seqs::flat(all.take(i as int), nets_in()),
                    ),
                    local_dns: with_records(
                        c.local_dns,
                        seqs::flat(all.take(i as int), records_in()),
                    ),
                    lan_domains: seqs::extend_new(
                        c.lan_domains,
                        seqs::flat(all.take(i as int), domains_in()),
                    ),
                    lan_dns_servers: seqs::extend_new(
                        c.lan_dns_servers,
                        seqs::flat(all.take(i as int), servers_in()),
                    ),
                    ..c
                }),
                spec_views(specs@) == seqs::flat(all.take(i as int), specs_in()),
                spec_views(named@) == seqs::flat(all.take(i as int), named_in()),
                seqs::opt_view(target_iface) == last_value(
                    all.take(i as int),
                    EnvKey::TargetInterface,
                ),
                seqs::opt_view(wan_iface) == last_value(all.take(i as int), EnvKey::WanInterface),
                seqs::opt_view(fallback) == last_value(all.take(i as int), EnvKey::Fallback),
            decreases list.len() - i,
        {
            let ghost done = all.take(i as int);
            let ghost s = all[i as int];
            let val = list[i].1;
            proof {
                assert(s == (list@[i as int].0, list@[i as int].1@));
                seqs::lemma_take_next(all, i as int);
                seqs::lemma_flat_next(all, nets_in(), i as int);
                seqs::lemma_flat_next(all, records_in(), i as int);
                seqs::lemma_flat_next(all, domains_in(), i as int);
                seqs::lemma_flat_next(all, servers_in(), i as int);
                seqs::lemma_flat_next(all, specs_in(), i as int);
                seqs::lemma_flat_next(all, named_in(), i as int);
                seqs::lemma_extend_new_concat(
                    c.blacklist,
                    seqs::flat(done, nets_in()),
                    nets_in()(s),
                );
                lemma_with_records_concat(
                    c.local_dns,
                    seqs::flat(done, records_in()),
                    records_in()(s),
                );
                seqs::lemma_extend_new_concat(
                    c.lan_domains,
                    seqs::flat(done, domains_in()),
                    domains_in()(s),
                );
                seqs::lemma_extend_new_concat(
                    c.lan_dns_servers,
                    seqs::flat(done, servers_in()),
                    servers_in()(s),
                );
            }
            match list[i].0 {
                EnvKey::Targets => {
                    add_targets(&mut specs, &mut named, val);
                },
                EnvKey::Subnets => {
                    add_subnets(&mut specs, val);
                },
                EnvKey::TargetInterface => {
                    target_iface = Some(val);
                },
                EnvKey::WanInterface => {
                    wan_iface = Some(val);
                },
                EnvKey::Fallback => {
                    fallback = Some(val);
                },
                EnvKey::Blacklist => {
                    add_nets(&mut self.blacklist, val);
                },
                EnvKey::LocalDns => {
                    add_records(&mut self.local_dns, val);
                },
                EnvKey::LanDomains => {
                    add_domains(&mut self.lan_domains, val);
                },
                EnvKey::LanDnsServers => {
                    let items = strings::items(val, ',');
                    add_ips(&mut self.lan_dns_servers, &items);
                },
                EnvKey::Other => {},
            }
            i += 1;
        }
        proof {
            seqs::lemma_take_all(all);
        }
        if let Some(wan) = wan_iface {
            let mut interfaces: Vec<String> = Vec::new();
            interfaces.push(wan.to_owned());
            self.wan.interfaces = interfaces;
            proof {
                assert(self@.wan =~= seq![wan@]);
            }
        }
        let via: Vec<String> = match target_iface {
            Some(names) => owned_items(names),
            None => Vec::new(),
        };
        proof {
            assert(seqs::views(via@) =~= via_of(all));
        }
        if via.len() > 0 {
            self.lan_interfaces = model::copy_names(&via);
        }
        let ghost named_specs = spec_views(named@);
        resolve_named(&mut self.lan_domains, &mut specs, &named, &self.local_dns);
        proof {
            seqs::lemma_extend_new_concat(
                c.lan_domains,
                seqs::flat(all, domains_in()),
                seqs::flat(named_specs, named_domain()),
            );
        }
        let fallback = match fallback {
            Some(f) => f,
            None => "drop",
        };
        push_targets(&mut self.targets, &specs, &via, fallback);
        proof {
            assert(self@ =~= with_settings(c, all));
        }
    }
}

/// Whether the local records hold the addresses of a record under its name.
pub open spec fn covers(
    m: Seq<(Seq<char>, Seq<IpAddr>)>,
    record: (Seq<char>, Seq<IpAddr>),
) -> bool {
    match names::lookup(m, record.0) {
        Some(known) => forall|i: int|
            0 <= i < record.1.len() ==> known.contains(#[trigger] record.1[i]),
        None => false,
    }
}

proof fn lemma_with_record(
    m: Seq<(Seq<char>, Seq<IpAddr>)>,
    record: (Seq<char>, Seq<IpAddr>),
    other: (Seq<char>, Seq<IpAddr>),
)
    requires
        names::ascending(names::keys(m)),
    ensures
        names::ascending(names::keys(with_record(m, record))),
        covers(with_record(m, record), record),
        covers(m, other) ==> covers(with_record(m, record), other),
        covers(m, record) ==> with_record(m, record) == m,
{
    let known = match config::record_of(m, record.0) {
        Some(ips) => ips,
        None => Seq::empty(),
    };
    let now = seqs::extend_new(known, record.1);
    seqs::lemma_extend_new(known, record.1);
    names::lemma_with_entry_ascending(m, record.0, now);
    names::lemma_lookup_with_entry(m, record.0, now, record.0);
    names::lemma_lookup_with_entry(m, record.0, now, other.0);
    assert forall|i: int| 0 <= i < record.1.len() implies now.contains(#[trigger] record.1[i]) by {
        assert(record.1.contains(record.1[i]));
    }
    if covers(m, other) && other.0 == record.0 {
        assert forall|i: int| 0 <= i < other.1.len() implies now.contains(
            #[trigger] other.1[i],
        ) by {
            assert(known.contains(other.1[i]));
        }
    }
    if covers(m, record) {
        seqs::lemma_extend_new_fixed(known, record.1);
        names::lemma_with_entry_same(m, record.0);
    }
}

proof fn lemma_with_records(
    m: Seq<(Seq<char>, Seq<IpAddr>)>,
    records: Seq<(Seq<char>, Seq<IpAddr>)>,
)
    requires
        names::ascending(names::keys(m)),
    ensures
        names::ascending(names::keys(with_records(m, records))),
        forall|i: int| 0 <= i < records.len() ==> covers(with_records(m, records), #[trigger] records[i]),
    decreases records.len(),
{
    if records.len() > 0 {
        let rest = records.drop_last();
        let before = with_records(m, rest);
        lemma_with_records(m, rest);
        assert forall|i: int| 0 <= i < records.len() implies covers(
            with_records(m, records),
            #[trigger] records[i],
        ) by {
            lemma_with_record(before, records.last(), records[i]);
            if i < rest.len() {
                assert(covers(before, rest[i]));
            }
        }
        lemma_with_record(before, records.last(), records.last());
    }
}

proof fn lemma_with_records_fixed(
    m: Seq<(Seq<char>, Seq<IpAddr>)>,
    records: Seq<(Seq<char>, Seq<IpAddr>)>,
)
    requires
        names::ascending(names::keys(m)),
        forall|i: int| 0 <= i < records.len() ==> covers(m, #[trigger] records[i]),
    ensures
        with_records(m, records) == m,
    decreases records.len(),
{
    if records.len() > 0 {
        let rest = records.drop_last();
        assert forall|i: int| 0 <= i < rest.len() implies covers(m, #[trigger] rest[i]) by {
            assert(covers(m, records[i]));
        }
        lemma_with_records_fixed(m, rest);
        assert(covers(m, records[records.len() - 1]));
        lemma_with_record(m, records.last(), records.last());
    }
}

/// No two targets have the same network and port.
pub open spec fn distinct_targets(targets: Seq<TargetView>) -> bool {
    forall|i: int, j: int|
        0 <= i < j < targets.len() ==> !((#[trigger] targets[i]).cidr == (
        #[trigger] targets[j]).cidr && targets[i].port == targets[j].port)
}

proof fn lemma_with_targets(
    targets: Seq<TargetView>,
    specs: Seq<(Seq<char>, Option<u16>)>,
    via: Seq<Seq<char>>,
    fallback: Seq<char>,
)
    ensures
        targets.is_prefix_of(with_targets(targets, specs, via, fallback)),
        forall|i: int|
            0 <= i < specs.len() ==> has_target(
                with_targets(targets, specs, via, fallback),
                #[trigger] specs[i],
            ),
        forall|i: int|
            targets.len() <= i < with_targets(targets, specs, via, fallback).len() ==> {
                let t = #[trigger] with_targets(targets, specs, via, fallback)[i];
                t.via == via && t.fallback == fallback && specs.contains((t.cidr, t.port))
            },
        distinct_targets(targets) ==> distinct_targets(
            with_targets(targets, specs, via, fallback),
        ),
    decreases specs.len(),
{
    let r = with_targets(targets, specs, via, fallback);
    if specs.len() > 0 {
        let rest = specs.drop_last();
        let s = specs.last();
        let before = with_targets(targets, rest, via, fallback);
        lemma_with_targets(targets, rest, via, fallback);
        assert(specs[specs.len() - 1] == s);
        assert(before.is_prefix_of(r)) by {
            assert(r.subrange(0, before.len() as int) =~= before);
        }
        assert(targets =~= r.subrange(0, targets.len() as int)) by {
            assert(targets =~= before.subrange(0, targets.len() as int));
            assert forall|k: int| 0 <= k < targets.len() implies targets[k] == #[trigger] r[k] by {
                assert(before.subrange(0, targets.len() as int)[k] == before[k]);
            }
        }
        assert forall|i: int| 0 <= i < specs.len() implies has_target(r, #[trigger] specs[i]) by {
            if i < rest.len() {
                assert(has_target(before, rest[i]));
                let k = choose|k: int|
                    0 <= k < before.len() && (#[trigger] before[k]).cidr == rest[i].0
                        && before[k].port == rest[i].1;
                assert(r[k] == before[k]);
            } else if has_target(before, s) {
            } else {
                assert(r[r.len() - 1].cidr == s.0);
            }
        }
        assert forall|i: int| targets.len() <= i < r.len() implies {
            let t = #[trigger] r[i];
            t.via == via && t.fallback == fallback && specs.contains((t.cidr, t.port))
        } by {
            if i < before.len() {
                assert(r[i] == before[i]);
                let t = before[i];
                let k = choose|k: int| 0 <= k < rest.len() && rest[k] == (t.cidr, t.port);
                assert(specs[k] == (t.cidr, t.port));
            }
        }
        if distinct_targets(targets) {
            assert forall|i: int, j: int| 0 <= i < j < r.len() implies !((#[trigger] r[i]).cidr == (
            #[trigger] r[j]).cidr && r[i].port == r[j].port) by {
                if j < before.len() {
                    assert(before[i] == r[i] && before[j] == r[j]);
                } else {
                    assert(before[i] == r[i]);
                    assert(!has_target(before, s));
                }
            }
        }
    } else {
        assert(targets.subrange(0, targets.len() as int) =~= targets);
    }
}

proof fn lemma_with_targets_fixed(
    targets: Seq<TargetView>,
    specs: Seq<(Seq<char>, Option<u16>)>,
    via: Seq<Seq<char>>,
    fallback: Seq<char>,
)
    requires
        forall|i: int| 0 <= i < specs.len() ==> has_target(targets, #[trigger] specs[i]),
    ensures
        with_targets(targets, specs, via, fallback) == targets,
    decreases specs.len(),
{
    if specs.len() > 0 {
        let rest = specs.drop_last();
        assert forall|i: int| 0 <= i < rest.len() implies has_target(targets, #[trigger] rest[i]) by {
            assert(has_target(targets, specs[i]));
        }
        lemma_with_targets_fixed(targets, rest, via, fallback);
        assert(has_target(targets, specs[specs.len() - 1]));
    }
}

/// Settings take nothing away: the mode, the defaults, the networks and the profiles stay, and
/// every list that grows keeps what it held, in place.
pub proof fn law_settings_keep_what_is_configured(c: ConfigView, s: Seq<(EnvKey, Seq<char>)>)
    ensures
        with_settings(c, s).mode == c.mode,
        with_settings(c, s).defaults == c.defaults,
        with_settings(c, s).networks == c.networks,
        with_settings(c, s).profiles == c.profiles,
        c.targets.is_prefix_of(with_settings(c, s).targets),
        c.blacklist.is_prefix_of(with_settings(c, s).blacklist),
        c.lan_domains.is_prefix_of(with_settings(c, s).lan_domains),
        c.lan_dns_servers.is_prefix_of(with_settings(c, s).lan_dns_servers),
{
    let d = with_settings(c, s);
    lemma_with_targets(c.targets, specs_of(s, d.local_dns), via_of(s), fallback_of(s));
    seqs::lemma_extend_new(c.blacklist, seqs::flat(s, nets_in()));
    seqs::lemma_extend_new(c.lan_domains, domains_of(s));
    seqs::lemma_extend_new(c.lan_dns_servers, seqs::flat(s, servers_in()));
}

/// Settings put nothing into a list twice.
pub proof fn law_settings_add_nothing_twice(c: ConfigView, s: Seq<(EnvKey, Seq<char>)>)
    ensures
        c.blacklist.no_duplicates() ==> with_settings(c, s).blacklist.no_duplicates(),
        c.lan_domains.no_duplicates() ==> with_settings(c, s).lan_domains.no_duplicates(),
        c.lan_dns_servers.no_duplicates() ==> with_settings(c, s).lan_dns_servers.no_duplicates(),
        distinct_targets(c.targets) ==> distinct_targets(with_settings(c, s).targets),
{
    let d = with_settings(c, s);
    lemma_with_targets(c.targets, specs_of(s, d.local_dns), via_of(s), fallback_of(s));
    seqs::lemma_extend_new(c.blacklist, seqs::flat(s, nets_in()));
    seqs::lemma_extend_new(c.lan_domains, domains_of(s));
    seqs::lemma_extend_new(c.lan_dns_servers, seqs::flat(s, servers_in()));
}

/// A target that settings add is dropped when its path fails, unless the settings name another
/// fallback, and leads through the interfaces that they name.
pub proof fn law_settings_fail_closed(c: ConfigView, s: Seq<(EnvKey, Seq<char>)>, i: int)
    requires
        c.targets.len() <= i < with_settings(c, s).targets.len(),
    ensures
        with_settings(c, s).targets[i].via == via_of(s),
        last_value(s, EnvKey::Fallback) is None ==> with_settings(c, s).targets[i].fallback
            == "drop"@,
{
    let d = with_settings(c, s);
    lemma_with_targets(c.targets, specs_of(s, d.local_dns), via_of(s), fallback_of(s));
}

/// Applying the same settings again changes nothing.
pub proof fn law_settings_apply_once(c: ConfigView, s: Seq<(EnvKey, Seq<char>)>)
    requires
        names::ascending(names::keys(c.local_dns)),
    ensures
        with_settings(with_settings(c, s), s) == with_settings(c, s),
{
    let d = with_settings(c, s);
    let records = seqs::flat(s, records_in());
    lemma_with_records(c.local_dns, records);
    lemma_with_records_fixed(d.local_dns, records);
    lemma_with_targets(c.targets, specs_of(s, d.local_dns), via_of(s), fallback_of(s));
    lemma_with_targets_fixed(d.targets, specs_of(s, d.local_dns), via_of(s), fallback_of(s));
    lemma_extend_new_again(c.blacklist, seqs::flat(s, nets_in()));
    lemma_extend_new_again(c.lan_domains, domains_of(s));
    lemma_extend_new_again(c.lan_dns_servers, seqs::flat(s, servers_in()));
    assert(with_settings(d, s) =~= d);
}

proof fn lemma_extend_new_again<A>(s: Seq<A>, add: Seq<A>)
    ensures
        seqs::extend_new(seqs::extend_new(s, add), add) == seqs::extend_new(s, add),
{
    seqs::lemma_extend_new(s, add);
    assert forall|i: int| 0 <= i < add.len() implies seqs::extend_new(s, add).contains(
        #[trigger] add[i],
    ) by {
        assert(add.contains(add[i]));
    }
    seqs::lemma_extend_new_fixed(seqs::extend_new(s, add), add);
}

// ---------------------------------------------------------------------------------------------
// What each setting does
// ---------------------------------------------------------------------------------------------
/// Whether the `k`-th setting is the last one about a key.
pub open spec fn last_about(s: Seq<(EnvKey, Seq<char>)>, key: EnvKey, k: int) -> bool {
    &&& 0 <= k < s.len()
    &&& s[k].0 == key
    &&& forall|j: int| k < j < s.len() ==> (#[trigger] s[j]).0 != key
}

proof fn lemma_last_value(s: Seq<(EnvKey, Seq<char>)>, key: EnvKey)
    ensures
        forall|k: int| #[trigger] last_about(s, key, k) ==> last_value(s, key) == Some(s[k].1),
        (forall|j: int| 0 <= j < s.len() ==> (#[trigger] s[j]).0 != key) ==> last_value(s, key) is None,
    decreases s.len(),
{
    if s.len() > 0 {
        let t = s.drop_last();
        lemma_last_value(t, key);
        assert(s[s.len() - 1] == s.last());
        assert forall|k: int| #[trigger] last_about(s, key, k) implies last_value(s, key) == Some(
            s[k].1,
        ) by {
            if k < t.len() {
                assert(t[k] == s[k]);
                assert forall|j: int| k < j < t.len() implies (#[trigger] t[j]).0 != key by {
                    assert(t[j] == s[j]);
                }
                assert(last_about(t, key, k));
            }
        }
        if forall|j: int| 0 <= j < s.len() ==> (#[trigger] s[j]).0 != key {
            assert forall|j: int| 0 <= j < t.len() implies (#[trigger] t[j]).0 != key by {
                assert(t[j] == s[j]);
            }
        }
    }
}

/// The last setting about the WAN interface names the one there is, and the last about the
/// interfaces of targets names those of the LAN; where no setting names one, it stays.
pub proof fn law_last_setting_names_the_interfaces(
    c: ConfigView,
    s: Seq<(EnvKey, Seq<char>)>,
    k: int,
)
    ensures
        last_about(s, EnvKey::WanInterface, k) ==> with_settings(c, s).wan == seq![s[k].1],
        (forall|j: int| 0 <= j < s.len() ==> !((#[trigger] s[j]).0 is WanInterface))
            ==> with_settings(c, s).wan == c.wan,
        last_about(s, EnvKey::TargetInterface, k) && text::items(s[k].1, ',').len() > 0
            ==> with_settings(c, s).lan_interfaces == text::items(s[k].1, ','),
        (forall|j: int| 0 <= j < s.len() ==> !((#[trigger] s[j]).0 is TargetInterface))
            ==> with_settings(c, s).lan_interfaces == c.lan_interfaces,
        last_about(s, EnvKey::TargetInterface, k) ==> forall|i: int|
            c.targets.len() <= i < with_settings(c, s).targets.len() ==> (#[trigger] with_settings(
                c,
                s,
            ).targets[i]).via == text::items(s[k].1, ','),
        last_about(s, EnvKey::Fallback, k) ==> forall|i: int|
            c.targets.len() <= i < with_settings(c, s).targets.len() ==> (#[trigger] with_settings(
                c,
                s,
            ).targets[i]).fallback == s[k].1,
{
    lemma_last_value(s, EnvKey::WanInterface);
    lemma_last_value(s, EnvKey::TargetInterface);
    lemma_last_value(s, EnvKey::Fallback);
    let d = with_settings(c, s);
    lemma_with_targets(c.targets, specs_of(s, d.local_dns), via_of(s), fallback_of(s));
}

proof fn lemma_item_contains<B>(
    s: Seq<(EnvKey, Seq<char>)>,
    f: spec_fn((EnvKey, Seq<char>)) -> Seq<B>,
    g: spec_fn(Seq<char>) -> Seq<B>,
    sep: char,
    k: int,
    i: int,
    b: B,
)
    requires
        0 <= k < s.len(),
        f(s[k]) == seqs::flat(text::items(s[k].1, sep), g),
        0 <= i < text::items(s[k].1, sep).len(),
        g(text::items(s[k].1, sep)[i]).contains(b),
    ensures
        seqs::flat(s, f).contains(b),
{
    seqs::lemma_flat_contains(text::items(s[k].1, sep), g, b);
    assert(f(s[k]).contains(b));
    seqs::lemma_flat_contains(s, f, b);
}

/// Every item of a blacklist that reads as a network or as an address is on the blacklist.
pub proof fn law_every_blacklisted_item_is_blocked(
    c: ConfigView,
    s: Seq<(EnvKey, Seq<char>)>,
    k: int,
    i: int,
)
    requires
        0 <= k < s.len(),
        s[k].0 is Blacklist,
        0 <= i < text::items(s[k].1, ',').len(),
    ensures
        net::net_from(text::items(s[k].1, ',')[i]) matches Some(n) ==> with_settings(
            c,
            s,
        ).blacklist.contains(n),
        net::net_from(text::items(s[k].1, ',')[i]) is None ==> (net::ip_from(
            text::items(s[k].1, ',')[i],
        ) matches Some(ip) ==> with_settings(c, s).blacklist.contains(IpNet::host(ip))),
{
    let item = text::items(s[k].1, ',')[i];
    seqs::lemma_extend_new(c.blacklist, seqs::flat(s, nets_in()));
    if let Some(n) = net_of(item) {
        assert(net_item()(item)[0] == n);
        assert(net_item()(item).contains(n));
        lemma_item_contains(s, nets_in(), net_item(), ',', k, i, n);
        assert(with_settings(c, s).blacklist.contains(n));
    }
}

/// Every item of the servers that reads as an address is a server of the LAN.
pub proof fn law_every_server_is_taken(
    c: ConfigView,
    s: Seq<(EnvKey, Seq<char>)>,
    k: int,
    i: int,
    ip: IpAddr,
)
    requires
        0 <= k < s.len(),
        s[k].0 is LanDnsServers,
        0 <= i < text::items(s[k].1, ',').len(),
        net::ip_from(text::trim(text::items(s[k].1, ',')[i])) == Some(ip),
    ensures
        with_settings(c, s).lan_dns_servers.contains(ip),
{
    let item = text::items(s[k].1, ',')[i];
    seqs::lemma_extend_new(c.lan_dns_servers, seqs::flat(s, servers_in()));
    assert(ip_item()(item)[0] == ip);
    assert(ip_item()(item).contains(ip));
    lemma_item_contains(s, servers_in(), ip_item(), ',', k, i, ip);
    assert(with_settings(c, s).lan_dns_servers.contains(ip));
}

/// Every item of the domains that names one is a domain of the LAN, in canonical form.
pub proof fn law_every_domain_is_taken(
    c: ConfigView,
    s: Seq<(EnvKey, Seq<char>)>,
    k: int,
    i: int,
    d: Seq<char>,
)
    requires
        0 <= k < s.len(),
        s[k].0 is LanDomains,
        0 <= i < text::items(s[k].1, ',').len(),
        domain_of(text::items(s[k].1, ',')[i]) == Some(d),
        config::canonical(d).len() > 0,
    ensures
        with_settings(c, s).lan_domains.contains(config::canonical(d)),
{
    let item = text::items(s[k].1, ',')[i];
    let x = config::canonical(d);
    let a = seqs::flat(s, domains_in());
    let b = seqs::flat(seqs::flat(s, named_in()), named_domain());
    seqs::lemma_extend_new(c.lan_domains, domains_of(s));
    assert(domain_item()(item)[0] == x);
    assert(domain_item()(item).contains(x));
    lemma_item_contains(s, domains_in(), domain_item(), ',', k, i, x);
    let m = choose|m: int| 0 <= m < a.len() && a[m] == x;
    assert((a + b)[m] == x);
    assert(domains_of(s).contains(x));
    assert(with_settings(c, s).lan_domains.contains(x));
}

/// Every address of an item of the local records is found for its name, however the name is
/// written.
pub proof fn law_every_record_is_taken(
    c: ConfigView,
    s: Seq<(EnvKey, Seq<char>)>,
    k: int,
    i: int,
    name: Seq<char>,
    addresses: Seq<char>,
    j: int,
    ip: IpAddr,
)
    requires
        names::ascending(names::keys(c.local_dns)),
        0 <= k < s.len(),
        s[k].0 is LocalDns,
        0 <= i < text::items(s[k].1, ';').len(),
        text::split_once(text::items(s[k].1, ';')[i], '=') == Some((name, addresses)),
        config::canonical(name).len() > 0,
        0 <= j < text::split(addresses, ',').len(),
        net::ip_from(text::trim(text::split(addresses, ',')[j])) == Some(ip),
    ensures
        with_settings(c, s).local_addresses(name) matches Some(ips) && ips.contains(ip),
{
    let item = text::items(s[k].1, ';')[i];
    let parts = text::split(addresses, ',');
    let record = (config::canonical(name), seqs::flat(parts, ip_item()));
    let records = seqs::flat(s, records_in());
    assert(record_item()(item)[0] == record);
    assert(record_item()(item).contains(record));
    lemma_item_contains(s, records_in(), record_item(), ';', k, i, record);
    let m = choose|m: int| 0 <= m < records.len() && records[m] == record;
    lemma_with_records(c.local_dns, records);
    let dns = with_settings(c, s).local_dns;
    assert(covers(dns, records[m]));
    assert(ip_item()(parts[j])[0] == ip);
    assert(ip_item()(parts[j]).contains(ip));
    seqs::lemma_flat_contains(parts, ip_item(), ip);
    let x = choose|x: int| 0 <= x < record.1.len() && record.1[x] == ip;
    assert(names::lookup(dns, record.0) is Some);
    assert(names::lookup(dns, record.0)->0.contains(record.1[x]));
}

/// Every item of the targets that denotes an address or a network is a target, with the port that
/// it names, and so is every item of the subnets.
pub proof fn law_every_target_is_taken(
    c: ConfigView,
    s: Seq<(EnvKey, Seq<char>)>,
    k: int,
    i: int,
    cidr: Seq<char>,
    port: Option<u16>,
) -> (t: TargetView)
    requires
        0 <= k < s.len(),
        s[k].0 is Targets && net::net_from(cidr) is Some || s[k].0 is Subnets,
        0 <= i < text::items(s[k].1, ',').len(),
        target_spec(text::items(s[k].1, ',')[i]) == Some((cidr, port)),
    ensures
        with_settings(c, s).targets.contains(t),
        t.cidr == cidr,
        t.port == port,
{
    let item = text::items(s[k].1, ',')[i];
    let x = (cidr, port);
    let d = with_settings(c, s);
    let a = seqs::flat(s, specs_in());
    let b = seqs::flat(seqs::flat(s, named_in()), resolved(d.local_dns));
    if s[k].0 is Targets {
        assert(host_item()(item)[0] == x);
        assert(host_item()(item).contains(x));
        lemma_item_contains(s, specs_in(), host_item(), ',', k, i, x);
    } else {
        assert(subnet_item()(item)[0] == x);
        assert(subnet_item()(item).contains(x));
        lemma_item_contains(s, specs_in(), subnet_item(), ',', k, i, x);
    }
    let m = choose|m: int| 0 <= m < a.len() && a[m] == x;
    assert((a + b)[m] == x);
    lemma_with_targets(c.targets, specs_of(s, d.local_dns), via_of(s), fallback_of(s));
    assert(has_target(d.targets, specs_of(s, d.local_dns)[m]));
    let n = choose|n: int|
        0 <= n < d.targets.len() && (#[trigger] d.targets[n]).cidr == x.0 && d.targets[n].port
            == x.1;
    assert(d.targets.contains(d.targets[n]));
    d.targets[n]
}

/// Every item of the targets that denotes a name makes it a domain of the LAN, and each address
/// that the local records hold for it a target, with the port that the item names.
pub proof fn law_every_named_target_is_taken(
    c: ConfigView,
    s: Seq<(EnvKey, Seq<char>)>,
    k: int,
    i: int,
    name: Seq<char>,
    host: Seq<char>,
    port: Option<u16>,
    ips: Seq<IpAddr>,
    j: int,
) -> (t: TargetView)
    requires
        0 <= k < s.len(),
        s[k].0 is Targets,
        0 <= i < text::items(s[k].1, ',').len(),
        target_spec(text::items(s[k].1, ',')[i]) == Some((host, port)),
        net::net_from(host) is None,
        domain_of(text::items(s[k].1, ',')[i]) == Some(name),
        config::canonical(name).len() > 0,
        with_settings(c, s).local_addresses(name) == Some(ips),
        0 <= j < ips.len(),
    ensures
        with_settings(c, s).lan_domains.contains(config::canonical(name)),
        with_settings(c, s).targets.contains(t),
        t.cidr == IpNet::host(ips[j]).text(),
        t.port == port,
{
    let item = text::items(s[k].1, ',')[i];
    let p = (name, port);
    let d = with_settings(c, s);
    let named = seqs::flat(s, named_in());
    assert(named_item()(item)[0] == p);
    assert(named_item()(item).contains(p));
    lemma_item_contains(s, named_in(), named_item(), ',', k, i, p);
    let q = choose|q: int| 0 <= q < named.len() && named[q] == p;
    let x = config::canonical(name);
    assert(named_domain()(named[q])[0] == x);
    assert(named_domain()(named[q]).contains(x));
    seqs::lemma_flat_contains(named, named_domain(), x);
    let a1 = seqs::flat(s, domains_in());
    let b1 = seqs::flat(named, named_domain());
    let m1 = choose|m: int| 0 <= m < b1.len() && b1[m] == x;
    assert((a1 + b1)[a1.len() + m1] == x);
    seqs::lemma_extend_new(c.lan_domains, domains_of(s));
    assert(domains_of(s).contains(x));
    assert(d.lan_domains.contains(x));
    let y = (IpNet::host(ips[j]).text(), port);
    let f = resolved(d.local_dns);
    assert(f(named[q])[j] == y);
    assert(f(named[q]).contains(y));
    seqs::lemma_flat_contains(named, f, y);
    let a = seqs::flat(s, specs_in());
    let b = seqs::flat(named, f);
    let m = choose|m: int| 0 <= m < b.len() && b[m] == y;
    assert((a + b)[a.len() + m] == y);
    lemma_with_targets(c.targets, specs_of(s, d.local_dns), via_of(s), fallback_of(s));
    assert(has_target(d.targets, specs_of(s, d.local_dns)[a.len() + m]));
    let n = choose|n: int|
        0 <= n < d.targets.len() && (#[trigger] d.targets[n]).cidr == y.0 && d.targets[n].port
            == y.1;
    assert(d.targets.contains(d.targets[n]));
    d.targets[n]
}

/// Settings add only what they name: what is new on the blacklist is the network of an item of a
/// blacklist, what is new among the servers is the address of an item of the servers, and what is
/// new among the targets comes from an item of the targets or subnets, or is a local address of a
/// name among the targets.
pub proof fn law_settings_add_only_what_they_name(
    c: ConfigView,
    s: Seq<(EnvKey, Seq<char>)>,
    n: IpNet,
    ip: IpAddr,
    t: TargetView,
)
    ensures
        with_settings(c, s).blacklist.contains(n) ==> c.blacklist.contains(n) || exists|k: int, i: int|
            0 <= k < s.len() && s[k].0 is Blacklist && 0 <= i < text::items(s[k].1, ',').len()
                && net_of(#[trigger] text::items(s[k].1, ',')[i]) == Some(n),
        with_settings(c, s).lan_dns_servers.contains(ip) ==> c.lan_dns_servers.contains(ip)
            || exists|k: int, i: int|
            0 <= k < s.len() && s[k].0 is LanDnsServers && 0 <= i < text::items(s[k].1, ',').len()
                && net::ip_from(text::trim(#[trigger] text::items(s[k].1, ',')[i])) == Some(ip),
        with_settings(c, s).targets.contains(t) ==> c.targets.contains(t) || (exists|k: int, i: int|
            0 <= k < s.len() && (s[k].0 is Targets || s[k].0 is Subnets) && 0 <= i < text::items(
                s[k].1,
                ',',
            ).len() && target_spec(#[trigger] text::items(s[k].1, ',')[i]) == Some(
                (t.cidr, t.port),
            )) || (exists|k: int, i: int|
            0 <= k < s.len() && s[k].0 is Targets && 0 <= i < text::items(s[k].1, ',').len()
                && named_address(
                with_settings(c, s),
                #[trigger] text::items(s[k].1, ',')[i],
                t.cidr,
                t.port,
            )),
{
    let d = with_settings(c, s);
    seqs::lemma_extend_new(c.blacklist, seqs::flat(s, nets_in()));
    seqs::lemma_extend_new(c.lan_dns_servers, seqs::flat(s, servers_in()));
    lemma_with_targets(c.targets, specs_of(s, d.local_dns), via_of(s), fallback_of(s));
    if d.blacklist.contains(n) && !c.blacklist.contains(n) {
        seqs::lemma_flat_contains(s, nets_in(), n);
        let k = choose|k: int| 0 <= k < s.len() && #[trigger] nets_in()(s[k]).contains(n);
        let items = text::items(s[k].1, ',');
        seqs::lemma_flat_contains(items, net_item(), n);
        let i = choose|i: int| 0 <= i < items.len() && #[trigger] net_item()(items[i]).contains(n);
        assert(net_item()(items[i])[0] == n);
        assert(net_of(text::items(s[k].1, ',')[i]) == Some(n));
    }
    if d.lan_dns_servers.contains(ip) && !c.lan_dns_servers.contains(ip) {
        seqs::lemma_flat_contains(s, servers_in(), ip);
        let k = choose|k: int| 0 <= k < s.len() && #[trigger] servers_in()(s[k]).contains(ip);
        let items = text::items(s[k].1, ',');
        seqs::lemma_flat_contains(items, ip_item(), ip);
        let i = choose|i: int| 0 <= i < items.len() && #[trigger] ip_item()(items[i]).contains(ip);
        assert(ip_item()(items[i])[0] == ip);
        assert(net::ip_from(text::trim(text::items(s[k].1, ',')[i])) == Some(ip));
    }
    if d.targets.contains(t) && !c.targets.contains(t) {
        let m = choose|m: int| 0 <= m < d.targets.len() && d.targets[m] == t;
        if m < c.targets.len() {
            assert(c.targets =~= d.targets.subrange(0, c.targets.len() as int));
            assert(d.targets.subrange(0, c.targets.len() as int)[m] == d.targets[m]);
            assert(c.targets[m] == t);
        }
        let x = (t.cidr, t.port);
        assert(specs_of(s, d.local_dns).contains(x));
        let named = seqs::flat(s, named_in());
        let a = seqs::flat(s, specs_in());
        let b = seqs::flat(named, resolved(d.local_dns));
        let q = choose|q: int| 0 <= q < (a + b).len() && (a + b)[q] == x;
        if q < a.len() {
            assert(a.contains(a[q]));
            seqs::lemma_flat_contains(s, specs_in(), x);
            let k = choose|k: int| 0 <= k < s.len() && #[trigger] specs_in()(s[k]).contains(x);
            let items = text::items(s[k].1, ',');
            if s[k].0 is Targets {
                seqs::lemma_flat_contains(items, host_item(), x);
                let i = choose|i: int|
                    0 <= i < items.len() && #[trigger] host_item()(items[i]).contains(x);
                assert(host_item()(items[i])[0] == x);
                assert(target_spec(text::items(s[k].1, ',')[i]) == Some((t.cidr, t.port)));
            } else {
                seqs::lemma_flat_contains(items, subnet_item(), x);
                let i = choose|i: int|
                    0 <= i < items.len() && #[trigger] subnet_item()(items[i]).contains(x);
                assert(subnet_item()(items[i])[0] == x);
                assert(target_spec(text::items(s[k].1, ',')[i]) == Some((t.cidr, t.port)));
            }
        } else {
            assert(b.contains(b[q - a.len()]));
            seqs::lemma_flat_contains(named, resolved(d.local_dns), x);
            let f = resolved(d.local_dns);
            let z = choose|z: int| 0 <= z < named.len() && #[trigger] f(named[z]).contains(x);
            assert(named.contains(named[z]));
            seqs::lemma_flat_contains(s, named_in(), named[z]);
            let k = choose|k: int|
                0 <= k < s.len() && #[trigger] named_in()(s[k]).contains(named[z]);
            let items = text::items(s[k].1, ',');
            seqs::lemma_flat_contains(items, named_item(), named[z]);
            let i = choose|i: int|
                0 <= i < items.len() && #[trigger] named_item()(items[i]).contains(named[z]);
            assert(named_item()(items[i])[0] == named[z]);
            let es = f(named[z]);
            let w = choose|w: int| 0 <= w < es.len() && es[w] == x;
            let ips = config::record_of(d.local_dns, config::canonical(named[z].0))->0;
            assert(IpNet::host(ips[w]).text() == t.cidr);
            assert(named_address(d, text::items(s[k].1, ',')[i], t.cidr, t.port));
        }
    }
}

/// Whether an item names something that the local records hold an address for, written so, and
/// the port.
pub open spec fn named_address(
    c: ConfigView,
    item: Seq<char>,
    cidr: Seq<char>,
    port: Option<u16>,
) -> bool {
    match (domain_of(item), target_spec(item)) {
        (Some(name), Some(spec)) => spec.1 == port && (c.local_addresses(
            name,
        ) matches Some(ips) && exists|j: int|
            0 <= j < ips.len() && IpNet::host(#[trigger] ips[j]).text() == cidr),
        _ => false,
    }
}

/// What the names of settings are about. The case of a name does not matter.
pub proof fn law_names_of_settings(name: Seq<char>)
    ensures
        ({
            let k = text::to_upper(name);
            &&& key_of(name) is Blacklist <==> k == "BLACKLIST_IPS"@ || k == "BLACKLIST_IP"@ || k
                == "BLACKLIST_CIDRS"@
            &&& key_of(name) is WanInterface <==> k == "WAN_INTERFACE"@ || k == "WAN_IFACE"@ || k
                == "WAN"@
            &&& key_of(name) is Fallback <==> k == "FALLBACK"@
            &&& key_of(name) is LocalDns <==> k == "LOCAL_DNS_RECORDS"@ || k == "LOCAL_DNS"@
            &&& key_of(name) is LanDomains <==> k == "LAN_DOMAINS"@ || k == "LAN_DOMAIN"@
            &&& key_of(name) is LanDnsServers <==> k == "LAN_DNS_SERVERS"@ || k
                == "LAN_DNS_SERVER"@
            &&& key_of(name) is TargetInterface <==> k == "TARGET_INTERFACE"@ || k
                == "TARGET_IFACE"@ || k == "LAN_INTERFACE"@ || k == "LAN_IFACE"@ || k
                == "VIA_INTERFACE"@ || k == "VIA"@
            &&& key_of(name) is Subnets <==> k == "TARGET_SUBNETS"@ || k == "TARGET_SUBNET"@ || k
                == "TARGET_CIDRS"@ || k == "TARGET_CIDR"@
            &&& key_of(name) is Targets <==> k == "TARGETS"@ || k == "TARGET_IPS"@ || k
                == "TARGET_IP"@ || k == "TARGET_SERVER"@ || k == "TARGET_SERVERS"@ || k
                == "SERVERS"@ || k == "SERVER"@ || k == "LAN_IPS"@ || k == "LAN_IP"@
        }),
{
    reveal_names();
}

proof fn reveal_names()
    ensures
        "TARGETS"@.len() == 7 && "TARGETS"@[0] == 'T',
        "TARGET_IPS"@.len() == 10 && "TARGET_IPS"@[0] == 'T' && "TARGET_IPS"@[7] == 'I',
        "TARGET_IP"@.len() == 9 && "TARGET_IP"@[0] == 'T',
        "TARGET_SERVER"@.len() == 13 && "TARGET_SERVER"@[7] == 'S' && "TARGET_SERVER"@[8] == 'E',
        "TARGET_SERVERS"@.len() == 14 && "TARGET_SERVERS"@[7] == 'S' && "TARGET_SERVERS"@[8]
            == 'E',
        "SERVERS"@.len() == 7 && "SERVERS"@[0] == 'S',
        "SERVER"@.len() == 6 && "SERVER"@[0] == 'S',
        "LAN_IPS"@.len() == 7 && "LAN_IPS"@[0] == 'L',
        "LAN_IP"@.len() == 6 && "LAN_IP"@[0] == 'L',
        "TARGET_SUBNETS"@.len() == 14 && "TARGET_SUBNETS"@[7] == 'S' && "TARGET_SUBNETS"@[8]
            == 'U',
        "TARGET_SUBNET"@.len() == 13 && "TARGET_SUBNET"@[7] == 'S' && "TARGET_SUBNET"@[8] == 'U',
        "TARGET_CIDRS"@.len() == 12 && "TARGET_CIDRS"@[7] == 'C',
        "TARGET_CIDR"@.len() == 11 && "TARGET_CIDR"@[7] == 'C',
        "TARGET_INTERFACE"@.len() == 16 && "TARGET_INTERFACE"@[0] == 'T',
        "TARGET_IFACE"@.len() == 12 && "TARGET_IFACE"@[7] == 'I',
        "LAN_INTERFACE"@.len() == 13 && "LAN_INTERFACE"@[0] == 'L',
        "LAN_IFACE"@.len() == 9 && "LAN_IFACE"@[0] == 'L',
        "VIA_INTERFACE"@.len() == 13 && "VIA_INTERFACE"@[0] == 'V',
        "VIA"@.len() == 3 && "VIA"@[0] == 'V',
        "WAN_INTERFACE"@.len() == 13 && "WAN_INTERFACE"@[0] == 'W',
        "WAN_IFACE"@.len() == 9 && "WAN_IFACE"@[0] == 'W',
        "WAN"@.len() == 3 && "WAN"@[0] == 'W',
        "FALLBACK"@.len() == 8 && "FALLBACK"@[0] == 'F',
        "BLACKLIST_IPS"@.len() == 13 && "BLACKLIST_IPS"@[0] == 'B',
        "BLACKLIST_IP"@.len() == 12 && "BLACKLIST_IP"@[0] == 'B',
        "BLACKLIST_CIDRS"@.len() == 15 && "BLACKLIST_CIDRS"@[0] == 'B',
        "LOCAL_DNS_RECORDS"@.len() == 17 && "LOCAL_DNS_RECORDS"@[1] == 'O',
        "LOCAL_DNS"@.len() == 9 && "LOCAL_DNS"@[0] == 'L' && "LOCAL_DNS"@[1] == 'O' && "LAN_IFACE"@[1] == 'A',
        "LAN_DOMAINS"@.len() == 11 && "LAN_DOMAINS"@[0] == 'L',
        "LAN_DOMAIN"@.len() == 10 && "LAN_DOMAIN"@[0] == 'L',
        "LAN_DNS_SERVERS"@.len() == 15 && "LAN_DNS_SERVERS"@[0] == 'L',
        "LAN_DNS_SERVER"@.len() == 14 && "LAN_DNS_SERVER"@[0] == 'L',
        "TARGET_SERVER"@[0] == 'T' && "TARGET_SERVERS"@[0] == 'T' && "TARGET_SUBNETS"@[0] == 'T'
            && "TARGET_SUBNET"@[0] == 'T' && "TARGET_CIDRS"@[0] == 'T' && "TARGET_CIDR"@[0] == 'T'
            && "TARGET_IFACE"@[0] == 'T',
{
    reveal_strlit("TARGETS");
    reveal_strlit("TARGET_IPS");
    reveal_strlit("TARGET_IP");
    reveal_strlit("TARGET_SERVER");
    reveal_strlit("TARGET_SERVERS");
    reveal_strlit("SERVERS");
    reveal_strlit("SERVER");
    reveal_strlit("LAN_IPS");
    reveal_strlit("LAN_IP");
    reveal_strlit("TARGET_SUBNETS");
    reveal_strlit("TARGET_SUBNET");
    reveal_strlit("TARGET_CIDRS");
    reveal_strlit("TARGET_CIDR");
    reveal_strlit("TARGET_INTERFACE");
    reveal_strlit("TARGET_IFACE");
    reveal_strlit("LAN_INTERFACE");
    reveal_strlit("LAN_IFACE");
    reveal_strlit("VIA_INTERFACE");
    reveal_strlit("VIA");
    reveal_strlit("WAN_INTERFACE");
    reveal_strlit("WAN_IFACE");
    reveal_strlit("WAN");
    reveal_strlit("FALLBACK");
    reveal_strlit("BLACKLIST_IPS");
    reveal_strlit("BLACKLIST_IP");
    reveal_strlit("BLACKLIST_CIDRS");
    reveal_strlit("LOCAL_DNS_RECORDS");
    reveal_strlit("LOCAL_DNS");
    reveal_strlit("LAN_DOMAINS");
    reveal_strlit("LAN_DOMAIN");
    reveal_strlit("LAN_DNS_SERVERS");
    reveal_strlit("LAN_DNS_SERVER");
}

// ---------------------------------------------------------------------------------------------
// How settings are written
// ---------------------------------------------------------------------------------------------
/// Whether a text can stand for itself in a setting: it holds no white space and no quotes.
pub open spec fn plain_text(s: Seq<char>) -> bool {
    &&& s.len() > 0
    &&& text::solid(s)
    &&& forall|i: int| 0 <= i < s.len() ==> #[trigger] s[i] != '"' && s[i] != '\''
}

proof fn lemma_plain(s: Seq<char>)
    requires
        plain_text(s),
    ensures
        text::trim(s) == s,
        text::strip_both(s, '"') == s,
        text::strip_both(s, '\'') == s,
        unquoted(s) == s,
{
    assert(!text::is_white(s[0]));
    assert(!text::is_white(s[s.len() - 1]));
    assert(s[0] != '"' && s[0] != '\'');
    assert(s[s.len() - 1] != '"' && s[s.len() - 1] != '\'');
}

/// A setting is a name, an equals sign and a value. Quotes round the value do not count.
pub proof fn law_a_setting_is_read(name: Seq<char>, value: Seq<char>)
    requires
        plain_text(name),
        !name.contains('='),
        name[0] != '#',
        plain_text(value),
    ensures
        setting_on()(name + seq!['='] + value) == seq![(key_of(name), value)],
        setting_on()(name + seq!['='] + (seq!['"'] + value + seq!['"'])) == seq![
            (key_of(name), value),
        ],
{
    lemma_plain(name);
    lemma_plain(value);
    let q = seq!['"'] + value + seq!['"'];
    assert(text::trim(q) == q) by {
        assert(q[0] == '"' && q.last() == '"');
    }
    assert(q.skip(1) =~= value + seq!['"']);
    assert((value + seq!['"'])[0] == value[0]);
    assert(text::strip_lead(q, '"') == value + seq!['"']) by {
        assert(text::strip_lead(q, '"') == text::strip_lead(q.skip(1), '"'));
        assert(value[0] != '"');
    }
    assert((value + seq!['"']).drop_last() =~= value);
    assert(text::strip_both(q, '"') == value) by {
        assert((value + seq!['"']).last() == '"');
        assert(value.last() == value[value.len() - 1]);
        assert(text::strip_tail(value, '"') == value);
    }
    assert(unquoted(q) == value);
    lemma_split_setting(name, value);
    lemma_split_setting(name, q);
}

proof fn lemma_split_setting(name: Seq<char>, value: Seq<char>)
    requires
        plain_text(name),
        !name.contains('='),
        name[0] != '#',
        value.len() > 0,
        !text::is_white(value.last()),
    ensures
        setting_on()(name + seq!['='] + value) == seq![(key_of(text::trim(name)), unquoted(value))],
{
    let line = name + seq!['='] + value;
    assert(line[0] == name[0]);
    assert(line.last() == value.last());
    assert(!text::is_white(name[0]));
    assert(text::trim(line) == line);
    let eq = seq!['='];
    assert(eq[0] == '=');
    assert forall|j: int| 0 <= j < name.len() implies !eq.contains(#[trigger] line[j]) by {
        assert(line[j] == name[j]);
        assert(name.contains(name[j]));
    }
    assert(line[name.len() as int] == '=');
    text::lemma_first_of_is(line, eq, name.len() as int);
    assert(line.take(name.len() as int) =~= name);
    assert(line.skip(name.len() + 1int) =~= value);
}

/// A line that is blank or starts with a number sign sets nothing.
pub proof fn law_comments_set_nothing(line: Seq<char>)
    requires
        text::trim(line).len() == 0 || text::trim(line)[0] == '#',
    ensures
        setting_on()(line).len() == 0,
{
}

proof fn lemma_split_concat(a: Seq<char>, b: Seq<char>, c: char)
    ensures
        text::split(a + seq![c] + b, c) == text::split(a, c) + text::split(b, c),
    decreases a.len(),
{
    let s = a + seq![c] + b;
    let sep = seq![c];
    assert(sep[0] == c);
    text::lemma_first_of(a, sep);
    let i = text::first_of(a, sep);
    assert forall|j: int| 0 <= j < i implies !sep.contains(#[trigger] s[j]) by {
        assert(s[j] == a[j]);
    }
    if i == a.len() {
        assert(s[i] == c);
        text::lemma_first_of_is(s, sep, i);
        assert(s.take(i) =~= a);
        assert(s.skip(i + 1) =~= b);
        assert(text::split(a, c) =~= seq![a]);
    } else {
        assert(s[i] == a[i]);
        text::lemma_first_of_is(s, sep, i);
        assert(s.take(i) =~= a.take(i));
        assert(s.skip(i + 1) =~= a.skip(i + 1) + seq![c] + b);
        lemma_split_concat(a.skip(i + 1), b, c);
        let head = seq![a.take(i)];
        assert(head + (text::split(a.skip(i + 1), c) + text::split(b, c)) =~= head + text::split(
            a.skip(i + 1),
            c,
        ) + text::split(b, c));
    }
}

proof fn lemma_flat_concat<A, B>(a: Seq<A>, b: Seq<A>, f: spec_fn(A) -> Seq<B>)
    ensures
        seqs::flat(a + b, f) == seqs::flat(a, f) + seqs::flat(b, f),
    decreases b.len(),
{
    if b.len() == 0 {
        assert(a + b =~= a);
        assert(seqs::flat(a, f) + seqs::flat(b, f) =~= seqs::flat(a, f));
    } else {
        assert((a + b).drop_last() =~= a + b.drop_last());
        assert((a + b).last() == b.last());
        lemma_flat_concat(a, b.drop_last(), f);
        assert(seqs::flat(a, f) + seqs::flat(b.drop_last(), f) + f(b.last()) =~= seqs::flat(a, f)
            + (seqs::flat(b.drop_last(), f) + f(b.last())));
    }
}

/// A list is made of what stands before and behind a separator, and a text without a separator is
/// one item, trimmed, if something is left of it.
pub proof fn law_lists_are_split_at_separators(a: Seq<char>, b: Seq<char>, c: char)
    ensures
        text::items(a + seq![c] + b, c) == text::items(a, c) + text::items(b, c),
        !a.contains(c) && text::trim(a).len() > 0 ==> text::items(a, c) == seq![text::trim(a)],
        !a.contains(c) && text::trim(a).len() == 0 ==> text::items(a, c).len() == 0,
{
    lemma_split_concat(a, b, c);
    lemma_flat_concat(text::split(a, c), text::split(b, c), text::trimmed_item());
    if !a.contains(c) {
        let sep = seq![c];
        assert forall|j: int| 0 <= j < a.len() implies !sep.contains(#[trigger] a[j]) by {
            assert(a.contains(a[j]));
        }
        text::lemma_first_of_is(a, sep, a.len() as int);
        let one = seq![a];
        assert(text::split(a, c) =~= one);
        assert(one.drop_last() =~= Seq::<Seq<char>>::empty());
        assert(one.last() == a);
        reveal_with_fuel(seqs::flat, 2);
        assert(text::items(a, c) =~= text::trimmed_item()(a));
    }
}

/// Whether a text can be a host in a target expression: it holds none of the characters that
/// part the expression.
pub open spec fn plain_host(h: Seq<char>) -> bool {
    &&& h.len() > 0
    &&& text::solid(h)
    &&& h[0] != '['
    &&& forall|i: int|
        0 <= i < h.len() ==> #[trigger] h[i] != '/' && h[i] != '?' && h[i] != '#' && h[i] != ':'
}

proof fn lemma_no_seps(s: Seq<char>)
    requires
        text::solid(s),
        s.len() > 0,
        forall|i: int| 0 <= i < s.len() ==> #[trigger] s[i] != '/' && s[i] != '?' && s[i] != '#',
    ensures
        authority(s) == s,
        text::trim(s) == s,
        without_scheme(s) == (s, None::<u16>, false),
        !s.contains('/'),
{
    let seps = seq!['/', '?', '#'];
    assert forall|j: int| 0 <= j < s.len() implies !seps.contains(#[trigger] s[j]) by {
        if seps.contains(s[j]) {
            let k = choose|k: int| 0 <= k < seps.len() && seps[k] == s[j];
        }
    }
    text::lemma_first_of_is(s, seps, s.len() as int);
    assert(s.take(s.len() as int) =~= s);
    assert(!text::is_white(s[0]));
    assert(!text::is_white(s[s.len() - 1]));
    reveal_strlit("http://");
    reveal_strlit("https://");
    if "http://"@.is_prefix_of(s) {
        assert(s.subrange(0, 7)[5] == "http://"@[5]);
        assert(s[5] == '/');
    }
    if "https://"@.is_prefix_of(s) {
        assert(s.subrange(0, 8)[6] == "https://"@[6]);
        assert(s[6] == '/');
    }
    if s.contains('/') {
        let k = choose|k: int| 0 <= k < s.len() && s[k] == '/';
        assert(s[k] != '/');
    }
}

proof fn lemma_host_spec(h: Seq<char>, default_port: Option<u16>)
    requires
        plain_host(h),
    ensures
        authority_spec(h, default_port) == (h + "/32"@, default_port),
{
    assert forall|i: int| 0 <= i < h.len() implies #[trigger] h[i] != ':' && h[i] != '/' by {}
    assert(!h.contains(':')) by {
        if h.contains(':') {
            let k = choose|k: int| 0 <= k < h.len() && h[k] == ':';
            assert(h[k] != ':');
        }
    }
    assert(!h.contains('/')) by {
        if h.contains('/') {
            let k = choose|k: int| 0 <= k < h.len() && h[k] == '/';
            assert(h[k] != '/');
        }
    }
    text::lemma_last_of(h, ':');
}

/// A host alone is a target for this host on all ports, with a port behind it for this port, and
/// in a URL for the port of its scheme, whatever path follows.
pub proof fn law_target_expressions(h: Seq<char>, port: u16, path: Seq<char>)
    requires
        plain_host(h),
    ensures
        target_spec(h) == Some((h + "/32"@, None::<u16>)),
        target_spec(h + seq![':'] + text::decimal(port as nat)) == Some((h + "/32"@, Some(port))),
        text::solid(path) ==> target_spec("http://"@ + (h + seq!['/'] + path)) == Some(
            (h + "/32"@, Some(80u16)),
        ),
        text::solid(path) ==> target_spec("https://"@ + (h + seq!['/'] + path)) == Some(
            (h + "/32"@, Some(443u16)),
        ),
{
    lemma_no_seps(h);
    lemma_host_spec(h, None);
    lemma_host_spec(h, Some(80u16));
    lemma_host_spec(h, Some(443u16));
    let d = text::decimal(port as nat);
    let s = h + seq![':'] + d;
    text::lemma_decimal(port as nat);
    assert forall|i: int| 0 <= i < d.len() implies #[trigger] d[i] != ':' && d[i] != '/' && d[i]
        != '?' && d[i] != '#' && !text::is_white(d[i]) by {
        assert('0' <= d[i] && d[i] <= '9');
    }
    assert forall|i: int| 0 <= i < s.len() implies #[trigger] s[i] != '/' && s[i] != '?' && s[i]
        != '#' && !text::is_white(s[i]) by {
        if i < h.len() {
            assert(s[i] == h[i]);
        } else if i > h.len() {
            assert(s[i] == d[i - h.len() - 1]);
        }
    }
    lemma_no_seps(s);
    assert(s[h.len() as int] == ':');
    assert forall|j: int| h.len() < j < s.len() implies #[trigger] s[j] != ':' by {
        assert(s[j] == d[j - h.len() - 1]);
    }
    text::lemma_last_of_is(s, ':', h.len() as int);
    assert(s.take(h.len() as int) =~= h);
    assert(s.skip(h.len() + 1int) =~= d);
    assert('0' <= d[0] && d[0] <= '9');
    assert(port_of(d) == Some(port));
    assert(!h.contains(':')) by {
        if h.contains(':') {
            let k = choose|k: int| 0 <= k < h.len() && h[k] == ':';
            assert(h[k] != ':');
        }
    }
    assert(s[0] == h[0]);
    if text::solid(path) {
        reveal_strlit("http://");
        reveal_strlit("https://");
        assert("http://"@.len() != "https://"@.len());
        lemma_url("http://"@, h, path);
        lemma_url("https://"@, h, path);
    }
}

proof fn lemma_url(scheme: Seq<char>, h: Seq<char>, path: Seq<char>)
    requires
        plain_host(h),
        text::solid(path),
        scheme == "http://"@ || scheme == "https://"@,
    ensures
        target_spec(scheme + (h + seq!['/'] + path)) == Some(
            (
                h + "/32"@,
                if scheme == "http://"@ {
                    Some(80u16)
                } else {
                    Some(443u16)
                },
            ),
        ),
{
    reveal_strlit("http://");
    reveal_strlit("https://");
    assert("http://"@[4] == ':' && "https://"@[4] == 's');
    let rest = h + seq!['/'] + path;
    let u = scheme + rest;
    assert forall|i: int| 0 <= i < rest.len() implies !text::is_white(#[trigger] rest[i]) by {
        if i < h.len() {
            assert(rest[i] == h[i]);
        } else if i > h.len() {
            assert(rest[i] == path[i - h.len() - 1]);
        }
    }
    assert(!text::is_white(rest[rest.len() - 1]));
    assert(u.last() == rest[rest.len() - 1]);
    assert(u[0] == 'h');
    assert(text::trim(u) == u);
    assert(scheme =~= u.subrange(0, scheme.len() as int));
    assert(u.skip(scheme.len() as int) =~= rest);
    if scheme == "https://"@ {
        assert(u[4] == 's');
        if "http://"@.is_prefix_of(u) {
            assert(u.subrange(0, 7)[4] == "http://"@[4]);
        }
    }
    let seps = seq!['/', '?', '#'];
    assert(seps[0] == '/');
    assert forall|j: int| 0 <= j < h.len() implies !seps.contains(#[trigger] rest[j]) by {
        assert(rest[j] == h[j]);
        if seps.contains(rest[j]) {
            let k = choose|k: int| 0 <= k < seps.len() && seps[k] == rest[j];
        }
    }
    assert(rest[h.len() as int] == '/');
    text::lemma_first_of_is(rest, seps, h.len() as int);
    assert(rest.take(h.len() as int) =~= h);
    lemma_no_seps(h);
    lemma_host_spec(h, Some(80u16));
    lemma_host_spec(h, Some(443u16));
}

/// Quotes of either kind round a value do not count.
pub proof fn law_single_quotes_do_not_count(name: Seq<char>, value: Seq<char>)
    requires
        plain_text(name),
        !name.contains('='),
        name[0] != '#',
        plain_text(value),
    ensures
        setting_on()(name + seq!['='] + (seq!['\''] + value + seq!['\''])) == seq![
            (key_of(name), value),
        ],
{
    lemma_plain(name);
    lemma_plain(value);
    let q = seq!['\''] + value + seq!['\''];
    assert(q[0] == '\'' && q.last() == '\'');
    assert(text::trim(q) == q);
    assert(text::strip_both(q, '"') == q);
    assert(q.skip(1) =~= value + seq!['\'']);
    assert((value + seq!['\''])[0] == value[0]);
    assert(value[0] != '\'');
    assert(text::strip_lead(q, '\'') == text::strip_lead(q.skip(1), '\''));
    assert(text::strip_lead(value + seq!['\''], '\'') == value + seq!['\'']);
    assert((value + seq!['\'']).drop_last() =~= value);
    assert((value + seq!['\'']).last() == '\'');
    assert(value.last() == value[value.len() - 1]);
    assert(text::strip_tail(value, '\'') == value);
    assert(unquoted(q) == value);
    lemma_split_setting(name, q);
}

/// An IPv6 address stands in brackets where a port follows: the target is for this one address,
/// on the port.
pub proof fn law_bracketed_targets(h: Seq<char>, port: u16)
    requires
        h.len() > 0,
        text::solid(h),
        forall|i: int|
            0 <= i < h.len() ==> #[trigger] h[i] != '/' && h[i] != '?' && h[i] != '#' && h[i] != ']',
    ensures
        target_spec(seq!['['] + h + seq![']']) == Some((h + "/128"@, None::<u16>)),
        target_spec(seq!['['] + h + seq![']'] + (seq![':'] + text::decimal(port as nat))) == Some(
            (h + "/128"@, Some(port)),
        ),
{
    let none = Seq::<char>::empty();
    lemma_bracketed(h, none);
    assert(seq!['['] + h + seq![']'] + none =~= seq!['['] + h + seq![']']);
    let d = text::decimal(port as nat);
    text::lemma_decimal(port as nat);
    let behind = seq![':'] + d;
    assert forall|i: int| 0 <= i < behind.len() implies #[trigger] behind[i] != '/' && behind[i]
        != '?' && behind[i] != '#' && !text::is_white(behind[i]) by {
        if i > 0 {
            assert('0' <= d[i - 1] && d[i - 1] <= '9');
        }
    }
    lemma_bracketed(h, behind);
    assert(behind.skip(1) =~= d);
    assert('0' <= d[0] && d[0] <= '9');
    assert(port_of(d) == Some(port));
}

proof fn lemma_bracketed(h: Seq<char>, behind: Seq<char>)
    requires
        h.len() > 0,
        text::solid(h),
        text::solid(behind),
        forall|i: int|
            0 <= i < h.len() ==> #[trigger] h[i] != '/' && h[i] != '?' && h[i] != '#' && h[i] != ']',
        forall|i: int|
            0 <= i < behind.len() ==> #[trigger] behind[i] != '/' && behind[i] != '?' && behind[i]
                != '#',
    ensures
        target_spec(seq!['['] + h + seq![']'] + behind) == Some(
            (
                h + "/128"@,
                if behind.len() > 0 && behind[0] == ':' {
                    port_of(behind.skip(1))
                } else {
                    None
                },
            ),
        ),
{
    let s = seq!['['] + h + seq![']'] + behind;
    assert forall|i: int| 0 <= i < s.len() implies #[trigger] s[i] != '/' && s[i] != '?' && s[i]
        != '#' && !text::is_white(s[i]) by {
        if 0 < i <= h.len() {
            assert(s[i] == h[i - 1]);
        } else if i > h.len() + 1 {
            assert(s[i] == behind[i - h.len() - 2]);
        }
    }
    lemma_no_seps(s);
    let close = seq![']'];
    assert(close[0] == ']');
    let n = h.len() + 1int;
    assert forall|j: int| 0 <= j < n implies !close.contains(#[trigger] s[j]) by {
        if j > 0 {
            assert(s[j] == h[j - 1]);
        }
    }
    assert(s[n] == ']');
    text::lemma_first_of_is(s, close, n);
    assert(s.skip(n + 1) =~= behind);
    assert(s.subrange(1, n) =~= h);
    assert(s[0] == '[');
}

/// A host that is an address names no domain, and one that is none names this domain, alone and
/// in a URL.
pub proof fn law_names_of_targets(h: Seq<char>)
    requires
        plain_host(h),
    ensures
        net::ip_from(h) is Some ==> domain_of(h) is None,
        net::ip_from(h) is None ==> domain_of(h) == Some(config::canonical(h)),
        domain_of("http://"@ + h) == domain_of(h),
        domain_of("https://"@ + h) == domain_of(h),
{
    reveal_strlit("http://");
    reveal_strlit("https://");
    lemma_no_seps(h);
    assert forall|i: int| 0 <= i < h.len() implies #[trigger] h[i] != ':' by {}
    text::lemma_last_of_is(h, ':', -1);
    let a = "http://"@ + h;
    let b = "https://"@ + h;
    assert("http://"@ =~= a.subrange(0, 7));
    assert("https://"@ =~= b.subrange(0, 8));
    assert(a.skip(7) =~= h);
    assert(b.skip(8) =~= h);
    if "http://"@.is_prefix_of(b) {
        assert(b.subrange(0, 7)[4] == "http://"@[4]);
        assert(b[4] == 's');
    }
}

/// A target that settings add is named after its network and its port.
pub proof fn law_names_of_added_targets(c: ConfigView, s: Seq<(EnvKey, Seq<char>)>, i: int)
    requires
        c.targets.len() <= i < with_settings(c, s).targets.len(),
    ensures
        ({
            let t = with_settings(c, s).targets[i];
            let base = "env-"@ + text::replace_any(t.cidr, seq!['.', ':', '/'], '-');
            &&& t.port is None ==> t.name == base
            &&& t.port matches Some(p) ==> t.name == base + ("-port-"@ + text::decimal(p as nat))
        }),
{
    let d = with_settings(c, s);
    lemma_added_names(c.targets, specs_of(s, d.local_dns), via_of(s), fallback_of(s), i);
    let t = d.targets[i];
    let base = "env-"@ + text::replace_any(t.cidr, seq!['.', ':', '/'], '-');
    assert(base + Seq::<char>::empty() =~= base);
}

proof fn lemma_added_names(
    targets: Seq<TargetView>,
    specs: Seq<(Seq<char>, Option<u16>)>,
    through: Seq<Seq<char>>,
    fallback: Seq<char>,
    i: int,
)
    requires
        targets.len() <= i < with_targets(targets, specs, through, fallback).len(),
    ensures
        ({
            let t = with_targets(targets, specs, through, fallback)[i];
            t.name == env_name((t.cidr, t.port))
        }),
    decreases specs.len(),
{
    let before = with_targets(targets, specs.drop_last(), through, fallback);
    if i < before.len() {
        lemma_added_names(targets, specs.drop_last(), through, fallback, i);
    }
}

} // verus!
