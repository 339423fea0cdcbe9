//! LAN networks and targets found by looking at the host.

use vstd::prelude::*;
use crate::config::{Config, ConfigView, NetworkConfig, NetworkView, TargetConfig, TargetView};
use crate::model::{Interface, InterfaceRole, InterfaceView};
use crate::names::{self, NameMap};
use crate::net::{self, IpAddr, IpNet};
use crate::seqs;
use crate::strings;

verus! {

/// What was found: networks, and targets in them.
#[derive(Debug)]
pub struct DetectedLanProfile {
    pub networks: Vec<NetworkConfig>,
    pub targets: Vec<TargetConfig>,
}

/// Whether an address means nothing beyond the host or the link.
pub open spec fn local_only(ip: IpAddr) -> bool {
    ip.loopback() || ip.link_local_v6()
}

/// The network of a LAN interface; its gateway, if there is one, answers for names.
pub open spec fn lan_network(gateways: Seq<(Seq<char>, IpAddr)>) -> spec_fn(InterfaceView) -> Seq<
    NetworkView,
> {
    |i: InterfaceView|
        if i.role == InterfaceRole::Lan {
            seq![
                NetworkView {
                    name: "lan-"@ + i.name,
                    role: "lan"@,
                    interfaces: seq![i.name],
                    auto_subnets: true,
                    preferred: seq![i.name],
                    domains: Seq::empty(),
                    dns: match names::lookup(gateways, i.name) {
                        Some(gw) => seq![gw],
                        None => Seq::empty(),
                    },
                },
            ]
        } else {
            Seq::empty()
        }
}

/// A target that was found: it leads through one interface, and is dropped without it.
pub open spec fn found(iface: Seq<char>, name: Seq<char>, cidr: Seq<char>) -> TargetView {
    TargetView { name, cidr, port: None, via: seq![iface], fallback: "drop"@ }
}

/// Whether a network of an interface is among the targets.
pub open spec fn has_subnet(targets: Seq<TargetView>, iface: Seq<char>, cidr: Seq<char>) -> bool {
    exists|i: int|
        0 <= i < targets.len() && (#[trigger] targets[i]).cidr == cidr && targets[i].via
            == seq![iface]
}

/// The targets with the networks of an interface, each once.
pub open spec fn with_subnets(
    targets: Seq<TargetView>,
    iface: Seq<char>,
    nets: Seq<IpNet>,
) -> Seq<TargetView>
    decreases nets.len(),
{
    if nets.len() == 0 {
        targets
    } else {
        let before = with_subnets(targets, iface, nets.drop_last());
        let n = nets.last();
        if local_only(n.base()) || has_subnet(before, iface, n.truncated().text()) {
            before
        } else {
            before.push(found(iface, iface + "-subnet"@, n.truncated().text()))
        }
    }
}

/// The gateway of an interface as a target.
pub open spec fn gateway_targets(iface: Seq<char>, gateway: Option<IpAddr>) -> Seq<TargetView> {
    match gateway {
        Some(gw) => if local_only(gw) {
            Seq::empty()
        } else {
            seq![found(iface, iface + "-gateway"@, IpNet::host(gw).text())]
        },
        None => Seq::empty(),
    }
}

/// A neighbor on an interface as a target, unless it is the gateway.
pub open spec fn neighbor_target(iface: Seq<char>, gateway: Option<IpAddr>) -> spec_fn(
    IpAddr,
) -> Seq<TargetView> {
    |ip: IpAddr|
        if local_only(ip) || gateway == Some(ip) {
            Seq::empty()
        } else {
            seq![found(iface, iface + "-host-"@ + net::ip_text(ip), IpNet::host(ip).text())]
        }
}

/// The neighbors on an interface as targets.
pub open spec fn neighbor_targets(
    iface: Seq<char>,
    gateway: Option<IpAddr>,
    neighbors: Option<Seq<IpAddr>>,
) -> Seq<TargetView> {
    match neighbors {
        Some(list) => seqs::flat(list, neighbor_target(iface, gateway)),
        None => Seq::empty(),
    }
}

/// The targets found on the interfaces: for each LAN interface its networks, its gateway and its
/// neighbors.
pub open spec fn found_targets(
    interfaces: Seq<InterfaceView>,
    gateways: Seq<(Seq<char>, IpAddr)>,
    neighbors: Seq<(Seq<char>, Seq<IpAddr>)>,
) -> Seq<TargetView>
    decreases interfaces.len(),
{
    if interfaces.len() == 0 {
        Seq::empty()
    } else {
        let before = found_targets(interfaces.drop_last(), gateways, neighbors);
        let i = interfaces.last();
        let gw = names::lookup(gateways, i.name);
        if i.role == InterfaceRole::Lan {
            with_subnets(before, i.name, i.ip_addrs) + gateway_targets(i.name, gw)
                + neighbor_targets(i.name, gw, names::lookup(neighbors, i.name))
        } else {
            before
        }
    }
}

fn is_local_only(ip: IpAddr) -> (r: bool)
    ensures
        r == local_only(ip),
{
    ip.is_loopback() || ip.is_link_local_v6()
}

fn one_name(name: &str) -> (r: Vec<String>)
    ensures
        seqs::views(r@) == seq![name@],
{
    let mut v: Vec<String> = Vec::new();
    v.push(name.to_owned());
    proof {
        assert(seqs::views(v@) =~= seq![name@]);
    }
    v
}

fn found_target(iface: &str, name: String, cidr: String) -> (r: TargetConfig)
    ensures
        r@ == found(iface@, name@, cidr@),
{
    TargetConfig { name, cidr, port: None, via: one_name(iface), fallback: "drop".to_owned() }
}

fn push_target(targets: &mut Vec<TargetConfig>, t: TargetConfig)
    ensures
        seqs::views(final(targets)@) == seqs::views(old(targets)@).push(t@),
{
    proof {
        seqs::lemma_views_push(targets@, t);
    }
    targets.push(t);
}

fn knows_subnet(targets: &Vec<TargetConfig>, iface: &str, cidr: &str) -> (r: bool)
    ensures
        r == has_subnet(seqs::views(targets@), iface@, cidr@),
{
    let ghost all = seqs::views(targets@);
    let mut i: usize = 0;
    while i < targets.len()
        invariant
            i <= targets.len(),
            all == seqs::views(targets@),
            forall|j: int|
                0 <= j < i ==> !((#[trigger] all[j]).cidr == cidr@ && all[j].via == seq![iface@]),
        decreases targets.len() - i,
    {
        let t = &targets[i];
        proof {
            assert(all[i as int] == t@);
        }
        if strings::same(t.cidr.as_str(), cidr) && t.via.len() == 1 && strings::same(
            t.via[0].as_str(),
            iface,
        ) {
            proof {
                assert(t@.via =~= seq![iface@]);
            }
            return true;
        }
        proof {
            if t@.via == seq![iface@] {
                assert(t@.via[0] == iface@);
                assert(t@.via.len() == 1);
            }
        }
        i += 1;
    }
    false
}

fn add_subnets(targets: &mut Vec<TargetConfig>, iface: &Interface)
    ensures
        seqs::views(final(targets)@) == with_subnets(
            seqs::views(old(targets)@),
            iface@.name,
            iface@.ip_addrs,
        ),
{
    let ghost all = iface.ip_addrs@;
    let ghost before = seqs::views(targets@);
    let name = iface.name.as_str();
    let mut i: usize = 0;
    proof {
        assert(all.take(0).len() == 0);
    }
    while i < iface.ip_addrs.len()
        invariant
            i <= iface.ip_addrs.len(),
            all == iface.ip_addrs@,
            name@ == iface@.name,
            seqs::views(targets@) == with_subnets(before, name@, all.take(i as int)),
        decreases iface.ip_addrs.len() - i,
    {
        let n = iface.ip_addrs[i];
        proof {
            seqs::lemma_take_next(all, i as int);
        }
        if !is_local_only(n.addr()) {
            let cidr = n.trunc().to_string();
            if !knows_subnet(targets, name, cidr.as_str()) {
                push_target(targets, found_target(name, name.to_owned().concat("-subnet"), cidr));
            }
        }
        i += 1;
    }
    proof {
        seqs::lemma_take_all(all);
    }
}

fn add_gateway(targets: &mut Vec<TargetConfig>, name: &str, gateway: Option<IpAddr>)
    ensures
        seqs::views(final(targets)@) == seqs::views(old(targets)@) + gateway_targets(
            name@,
            gateway,
        ),
{
    let ghost before = seqs::views(targets@);
    if let Some(gw) = gateway {
        if !is_local_only(gw) {
            let t = found_target(
                name,
                name.to_owned().concat("-gateway"),
                IpNet::of_host(gw).to_string(),
            );
            push_target(targets, t);
        }
    }
    proof {
        assert(seqs::views(targets@) =~= before + gateway_targets(name@, gateway));
    }
}

fn is_gateway(gateway: Option<IpAddr>, ip: IpAddr) -> (r: bool)
    ensures
        r == (gateway == Some(ip)),
{
    match gateway {
        Some(gw) => gw == ip,
        None => false,
    }
}

fn add_neighbors(
    targets: &mut Vec<TargetConfig>,
    name: &str,
    gateway: Option<IpAddr>,
    list: &Vec<IpAddr>,
)
    ensures
        seqs::views(final(targets)@) == seqs::views(old(targets)@) + seqs::flat(
            list@,
            neighbor_target(name@, gateway),
        ),
{
    let ghost f = neighbor_target(name@, gateway);
    let ghost before = seqs::views(targets@);
    let mut i: usize = 0;
    proof {
        assert(list@.take(0).len() == 0);
        assert(before + seqs::flat(list@.take(0), f) =~= before);
    }
    while i < list.len()
        invariant
            i <= list.len(),
            f == neighbor_target(name@, gateway),
            seqs::views(targets@) == before + seqs::flat(list@.take(i as int), f),
        decreases list.len() - i,
    {
        let ip = list[i];
        let ghost now = seqs::views(targets@);
        proof {
            seqs::lemma_flat_next(list@, f, i as int);
        }
        if !is_local_only(ip) && !is_gateway(gateway, ip) {
            let t = found_target(
                name,
                name.to_owned().concat("-host-").concat(ip.to_string().as_str()),
                IpNet::of_host(ip).to_string(),
            );
            push_target(targets, t);
        }
        proof {
            assert(seqs::views(targets@) =~= now + f(ip));
            assert(now + f(ip) =~= before + (seqs::flat(list@.take(i as int), f) + f(ip)));
        }
        i += 1;
    }
    proof {
        seqs::lemma_take_all(list@);
    }
}

fn found_network(name: &str, gateway: Option<IpAddr>) -> (r: NetworkConfig)
    ensures
        r@ == (NetworkView {
            name: "lan-"@ + name@,
            role: "lan"@,
            interfaces: seq![name@],
            auto_subnets: true,
            preferred: seq![name@],
            domains: Seq::empty(),
            dns: match gateway {
                Some(gw) => seq![gw],
                None => Seq::empty(),
            },
        }),
{
    let mut dns: Vec<IpAddr> = Vec::new();
    if let Some(gw) = gateway {
        dns.push(gw);
    }
    proof {
        assert(dns@ =~= match gateway {
            Some(gw) => seq![gw],
            None => Seq::empty(),
        });
    }
    NetworkConfig {
        name: "lan-".to_owned().concat(name),
        role: "lan".to_owned(),
        interfaces: one_name(name),
        auto_subnets: true,
        preferred: one_name(name),
        domains: Vec::new(),
        dns,
    }
}

/// Whether a network of this name is configured.
pub open spec fn has_network(networks: Seq<NetworkView>, name: Seq<char>) -> bool {
    exists|i: int| 0 <= i < networks.len() && (#[trigger] networks[i]).name == name
}

/// Whether a target for this network is configured.
pub open spec fn has_cidr(targets: Seq<TargetView>, cidr: Seq<char>) -> bool {
    exists|i: int| 0 <= i < targets.len() && (#[trigger] targets[i]).cidr == cidr
}

/// The networks with those added whose names are new.
pub open spec fn with_networks(networks: Seq<NetworkView>, more: Seq<NetworkView>) -> Seq<
    NetworkView,
>
    decreases more.len(),
{
    if more.len() == 0 {
        networks
    } else {
        let before = with_networks(networks, more.drop_last());
        if has_network(before, more.last().name) {
            before
        } else {
            before.push(more.last())
        }
    }
}

/// The targets with those added whose networks are new.
pub open spec fn with_found(targets: Seq<TargetView>, more: Seq<TargetView>) -> Seq<TargetView>
    decreases more.len(),
{
    if more.len() == 0 {
        targets
    } else {
        let before = with_found(targets, more.drop_last());
        if has_cidr(before, more.last().cidr) {
            before
        } else {
            before.push(more.last())
        }
    }
}

/// A configuration with what was found.
pub open spec fn merged(
    c: ConfigView,
    networks: Seq<NetworkView>,
    targets: Seq<TargetView>,
) -> ConfigView {
    ConfigView {
        networks: with_networks(c.networks, networks),
        targets: with_found(c.targets, targets),
        ..c
    }
}

fn knows_network(networks: &Vec<NetworkConfig>, name: &str) -> (r: bool)
    ensures
        r == has_network(seqs::views(networks@), name@),
{
    let ghost all = seqs::views(networks@);
    let mut i: usize = 0;
    while i < networks.len()
        invariant
            i <= networks.len(),
            all == seqs::views(networks@),
            forall|j: int| 0 <= j < i ==> (#[trigger] all[j]).name != name@,
        decreases networks.len() - i,
    {
        proof {
            assert(all[i as int] == networks@[i as int]@);
        }
        if strings::same(networks[i].name.as_str(), name) {
            return true;
        }
        i += 1;
    }
    false
}

fn knows_cidr(targets: &Vec<TargetConfig>, cidr: &str) -> (r: bool)
    ensures
        r == has_cidr(seqs::views(targets@), cidr@),
{
    let ghost all = seqs::views(targets@);
    let mut i: usize = 0;
    while i < targets.len()
        invariant
            i <= targets.len(),
            all == seqs::views(targets@),
            forall|j: int| 0 <= j < i ==> (#[trigger] all[j]).cidr != cidr@,
        decreases targets.len() - i,
    {
        proof {
            assert(all[i as int] == targets@[i as int]@);
        }
        if strings::same(targets[i].cidr.as_str(), cidr) {
            return true;
        }
        i += 1;
    }
    false
}

pub struct LanDetector;

impl LanDetector {
    /// Detects LAN subnets and server targets from discovered interfaces, gateways, and ARP neighbors
    pub fn detect(
        interfaces: &[Interface],
        gateways: &NameMap<IpAddr>,
        neighbors: &NameMap<Vec<IpAddr>>,
    ) -> (r: DetectedLanProfile)
        ensures
            seqs::views(r.networks@) == seqs::flat(
                seqs::views(interfaces@),
                lan_network(gateways@),
            ),
            seqs::views(r.targets@) == found_targets(
                seqs::views(interfaces@),
                gateways@,
                neighbors@,
            ),
    {
        let ghost all = seqs::views(interfaces@);
        let ghost f = lan_network(gateways@);
        let mut networks: Vec<NetworkConfig> = Vec::new();
        let mut targets: Vec<TargetConfig> = Vec::new();
        let mut i: usize = 0;
        proof {
            assert(all.take(0).len() == 0);
            assert(seqs::views(networks@) =~= seqs::flat(all.take(0), f));
            assert(seqs::views(targets@) =~= found_targets(all.take(0), gateways@, neighbors@));
        }
        while i < interfaces.len()
            invariant
                i <= interfaces.len(),
                all == seqs::views(interfaces@),
                f == lan_network(gateways@),
                seqs::views(networks@) == seqs::flat(all.take(i as int), f),
                seqs::views(targets@) == found_targets(
                    all.take(i as int),
                    gateways@,
                    neighbors@,
                ),
            decreases interfaces.len() - i,
        {
            let iface = &interfaces[i];
            let ghost before = seqs::views(networks@);
            proof {
                seqs::lemma_take_next(all, i as int);
                seqs::lemma_flat_next(all, f, i as int);
                assert(all[i as int] == iface@);
            }
            if iface.role == InterfaceRole::Lan {
                let name = iface.name.as_str();
                let gateway = match gateways.get(name) {
                    Some(gw) => Some(*gw),
                    None => None,
                };
                let network = found_network(name, gateway);
                proof {
                    seqs::lemma_views_push(networks@, network);
                    assert(before.push(network@) =~= before + f(iface@));
                }
                networks.push(network);
                add_subnets(&mut targets, iface);
                add_gateway(&mut targets, name, gateway);
                let ghost now = seqs::views(targets@);
                match neighbors.get(name) {
                    Some(list) => {
                        add_neighbors(&mut targets, name, gateway, list);
                    },
                    None => {
                        proof {
                            assert(now + Seq::<TargetView>::empty() =~= now);
                        }
                    },
                }
            } else {
                proof {
                    assert(before + f(iface@) =~= before);
                }
            }
            i += 1;
        }
        proof {
            seqs::lemma_take_all(all);
        }
        DetectedLanProfile { networks, targets }
    }

    /// Merges detected LAN profile into an existing Config without overwriting manual custom entries
    pub fn merge_into_config(config: &mut Config, detected: DetectedLanProfile)
        ensures
            final(config)@ == merged(
                old(config)@,
                seqs::views(detected.networks@),
                seqs::views(detected.targets@),
            ),
    {
        let ghost c = config@;
        let ghost nets = seqs::views(detected.networks@);
        let ghost found = seqs::views(detected.targets@);
        let mut i: usize = 0;
        proof {
            assert(nets.take(0).len() == 0);
            assert(found.take(0).len() == 0);
        }
        while i < detected.networks.len()
            invariant
                i <= detected.networks.len(),
                nets == seqs::views(detected.networks@),
                config@ == merged(c, nets.take(i as int), Seq::empty()),
            decreases detected.networks.len() - i,
        {
            proof {
                seqs::lemma_take_next(nets, i as int);
                assert(nets[i as int] == detected.networks@[i as int]@);
            }
            if !knows_network(&config.networks, detected.networks[i].name.as_str()) {
                let network = detected.networks[i].clone();
                proof {
                    seqs::lemma_views_push(config.networks@, network);
                }
                config.networks.push(network);
            }
            i += 1;
        }
        let mut k: usize = 0;
        proof {
            seqs::lemma_take_all(nets);
        }
        while k < detected.targets.len()
            invariant
                k <= detected.targets.len(),
                found == seqs::views(detected.targets@),
                config@ == merged(c, nets, found.take(k as int)),
            decreases detected.targets.len() - k,
        {
            proof {
                seqs::lemma_take_next(found, k as int);
                assert(found[k as int] == detected.targets@[k as int]@);
            }
            if !knows_cidr(&config.targets, detected.targets[k].cidr.as_str()) {
                push_target(&mut config.targets, detected.targets[k].clone());
            }
            k += 1;
        }
        proof {
            seqs::lemma_take_all(found);
        }
    }
}

proof fn lemma_with_networks(networks: Seq<NetworkView>, more: Seq<NetworkView>)
    ensures
        networks.is_prefix_of(with_networks(networks, more)),
        forall|i: int|
            0 <= i < more.len() ==> has_network(
                with_networks(networks, more),
                (#[trigger] more[i]).name,
            ),
    decreases more.len(),
{
    let r = with_networks(networks, more);
    if more.len() > 0 {
        let rest = more.drop_last();
        let before = with_networks(networks, rest);
        lemma_with_networks(networks, rest);
        assert(networks =~= r.subrange(0, networks.len() as int)) by {
            assert(networks =~= before.subrange(0, networks.len() as int));
            assert forall|k: int| 0 <= k < networks.len() implies networks[k] == #[trigger] r[k] by {
                assert(before.subrange(0, networks.len() as int)[k] == before[k]);
            }
        }
        assert forall|i: int| 0 <= i < more.len() implies has_network(
            r,
            (#[trigger] more[i]).name,
        ) by {
            if i < rest.len() {
                assert(has_network(before, rest[i].name));
                let k = choose|k: int|
                    0 <= k < before.len() && (#[trigger] before[k]).name == rest[i].name;
                assert(r[k] == before[k]);
            } else if !has_network(before, more.last().name) {
                assert(r[r.len() - 1].name == more[i].name);
            }
        }
    } else {
        assert(networks.subrange(0, networks.len() as int) =~= networks);
    }
}

proof fn lemma_with_networks_fixed(networks: Seq<NetworkView>, more: Seq<NetworkView>)
    requires
        forall|i: int| 0 <= i < more.len() ==> has_network(networks, (#[trigger] more[i]).name),
    ensures
        with_networks(networks, more) == networks,
    decreases more.len(),
{
    if more.len() > 0 {
        let rest = more.drop_last();
        assert forall|i: int| 0 <= i < rest.len() implies has_network(
            networks,
            (#[trigger] rest[i]).name,
        ) by {
            assert(has_network(networks, more[i].name));
        }
        lemma_with_networks_fixed(networks, rest);
        assert(has_network(networks, more[more.len() - 1].name));
    }
}

proof fn lemma_with_found(targets: Seq<TargetView>, more: Seq<TargetView>)
    ensures
        targets.is_prefix_of(with_found(targets, more)),
        forall|i: int|
            0 <= i < more.len() ==> has_cidr(with_found(targets, more), (#[trigger] more[i]).cidr),
    decreases more.len(),
{
    let r = with_found(targets, more);
    if more.len() > 0 {
        let rest = more.drop_last();
        let before = with_found(targets, rest);
        lemma_with_found(targets, rest);
        assert(targets =~= r.subrange(0, targets.len() as int)) by {
            assert(targets =~= before.subrange(0, targets.len() as int));
            assert forall|k: int| 0 <= k < targets.len() implies targets[k] == #[trigger] r[k] by {
                assert(before.subrange(0, targets.len() as int)[k] == before[k]);
            }
        }
        assert forall|i: int| 0 <= i < more.len() implies has_cidr(r, (#[trigger] more[i]).cidr) by {
            if i < rest.len() {
                assert(has_cidr(before, rest[i].cidr));
                let k = choose|k: int|
                    0 <= k < before.len() && (#[trigger] before[k]).cidr == rest[i].cidr;
                assert(r[k] == before[k]);
            } else if !has_cidr(before, more.last().cidr) {
                assert(r[r.len() - 1].cidr == more[i].cidr);
            }
        }
    } else {
        assert(targets.subrange(0, targets.len() as int) =~= targets);
    }
}

proof fn lemma_with_found_fixed(targets: Seq<TargetView>, more: Seq<TargetView>)
    requires
        forall|i: int| 0 <= i < more.len() ==> has_cidr(targets, (#[trigger] more[i]).cidr),
    ensures
        with_found(targets, more) == targets,
    decreases more.len(),
{
    if more.len() > 0 {
        let rest = more.drop_last();
        assert forall|i: int| 0 <= i < rest.len() implies has_cidr(
            targets,
            (#[trigger] rest[i]).cidr,
        ) by {
            assert(has_cidr(targets, more[i].cidr));
        }
        lemma_with_found_fixed(targets, rest);
        assert(has_cidr(targets, more[more.len() - 1].cidr));
    }
}

/// Merging overwrites nothing: what was configured stays in place, and everything found is there
/// afterwards, under its name or by its network.
pub proof fn law_merging_overwrites_nothing(
    c: ConfigView,
    networks: Seq<NetworkView>,
    targets: Seq<TargetView>,
)
    ensures
        c.networks.is_prefix_of(merged(c, networks, targets).networks),
        c.targets.is_prefix_of(merged(c, networks, targets).targets),
        forall|i: int|
            0 <= i < networks.len() ==> has_network(
                merged(c, networks, targets).networks,
                (#[trigger] networks[i]).name,
            ),
        forall|i: int|
            0 <= i < targets.len() ==> has_cidr(
                merged(c, networks, targets).targets,
                (#[trigger] targets[i]).cidr,
            ),
{
    lemma_with_networks(c.networks, networks);
    lemma_with_found(c.targets, targets);
}

/// Merging the same again changes nothing.
pub proof fn law_merging_again_changes_nothing(
    c: ConfigView,
    networks: Seq<NetworkView>,
    targets: Seq<TargetView>,
)
    ensures
        merged(merged(c, networks, targets), networks, targets) == merged(c, networks, targets),
{
    lemma_with_networks(c.networks, networks);
    lemma_with_found(c.targets, targets);
    lemma_with_networks_fixed(with_networks(c.networks, networks), networks);
    lemma_with_found_fixed(with_found(c.targets, targets), targets);
}

proof fn lemma_subnets_drop(targets: Seq<TargetView>, iface: Seq<char>, nets: Seq<IpNet>)
    requires
        forall|i: int| 0 <= i < targets.len() ==> (#[trigger] targets[i]).fallback == "drop"@,
    ensures
        forall|i: int|
            0 <= i < with_subnets(targets, iface, nets).len() ==> (#[trigger] with_subnets(
                targets,
                iface,
                nets,
            )[i]).fallback == "drop"@,
    decreases nets.len(),
{
    if nets.len() > 0 {
        lemma_subnets_drop(targets, iface, nets.drop_last());
    }
}

/// Every target that is found is dropped when its path fails.
pub proof fn law_found_targets_fail_closed(
    interfaces: Seq<InterfaceView>,
    gateways: Seq<(Seq<char>, IpAddr)>,
    neighbors: Seq<(Seq<char>, Seq<IpAddr>)>,
    i: int,
)
    requires
        0 <= i < found_targets(interfaces, gateways, neighbors).len(),
    ensures
        found_targets(interfaces, gateways, neighbors)[i].fallback == "drop"@,
    decreases interfaces.len(),
{
    let all = found_targets(interfaces, gateways, neighbors);
    let before = found_targets(interfaces.drop_last(), gateways, neighbors);
    assert forall|k: int| 0 <= k < before.len() implies (#[trigger] before[k]).fallback
        == "drop"@ by {
        law_found_targets_fail_closed(interfaces.drop_last(), gateways, neighbors, k);
    }
    let iface = interfaces.last();
    if iface.role == InterfaceRole::Lan {
        let gw = names::lookup(gateways, iface.name);
        let a = with_subnets(before, iface.name, iface.ip_addrs);
        let b = gateway_targets(iface.name, gw);
        let c = neighbor_targets(iface.name, gw, names::lookup(neighbors, iface.name));
        lemma_subnets_drop(before, iface.name, iface.ip_addrs);
        if i >= a.len() + b.len() {
            let list = names::lookup(neighbors, iface.name)->0;
            let f = neighbor_target(iface.name, gw);
            let t = c[i - a.len() - b.len()];
            assert(c.contains(t));
            seqs::lemma_flat_contains(list, f, t);
            let k = choose|k: int| 0 <= k < list.len() && #[trigger] f(list[k]).contains(t);
            assert(f(list[k])[0] == t);
        }
    }
}

proof fn lemma_subnets_keep(
    targets: Seq<TargetView>,
    iface: Seq<char>,
    nets: Seq<IpNet>,
    t: TargetView,
)
    requires
        targets.contains(t),
    ensures
        with_subnets(targets, iface, nets).contains(t),
    decreases nets.len(),
{
    if nets.len() > 0 {
        lemma_subnets_keep(targets, iface, nets.drop_last(), t);
        let before = with_subnets(targets, iface, nets.drop_last());
        let after = with_subnets(targets, iface, nets);
        let k = choose|k: int| 0 <= k < before.len() && before[k] == t;
        assert(after[k] == t);
    }
}

proof fn lemma_subnets_found(targets: Seq<TargetView>, iface: Seq<char>, nets: Seq<IpNet>, j: int)
    requires
        0 <= j < nets.len(),
        !local_only(nets[j].base()),
    ensures
        has_subnet(with_subnets(targets, iface, nets), iface, nets[j].truncated().text()),
    decreases nets.len(),
{
    let before = with_subnets(targets, iface, nets.drop_last());
    let after = with_subnets(targets, iface, nets);
    let cidr = nets[j].truncated().text();
    if j < nets.len() - 1 {
        lemma_subnets_found(targets, iface, nets.drop_last(), j);
        let k = choose|k: int|
            0 <= k < before.len() && (#[trigger] before[k]).cidr == cidr && before[k].via
                == seq![iface];
        assert(after[k] == before[k]);
    } else if !has_subnet(before, iface, cidr) {
        assert(after[after.len() - 1].cidr == cidr);
        assert(after[after.len() - 1].via == seq![iface]);
    }
}

/// Where a target of an interface comes from.
proof fn lemma_subnets_only(
    targets: Seq<TargetView>,
    iface: Seq<char>,
    nets: Seq<IpNet>,
    t: TargetView,
)
    requires
        with_subnets(targets, iface, nets).contains(t),
        !targets.contains(t),
    ensures
        t.via == seq![iface],
        t.port is None,
        exists|j: int|
            0 <= j < nets.len() && !local_only((#[trigger] nets[j]).base()) && t.cidr
                == nets[j].truncated().text(),
    decreases nets.len(),
{
    if nets.len() > 0 {
        let rest = nets.drop_last();
        let before = with_subnets(targets, iface, rest);
        let after = with_subnets(targets, iface, nets);
        let k = choose|k: int| 0 <= k < after.len() && after[k] == t;
        if k < before.len() {
            assert(before[k] == t);
            lemma_subnets_only(targets, iface, rest, t);
            let j = choose|j: int|
                0 <= j < rest.len() && !local_only((#[trigger] rest[j]).base()) && t.cidr
                    == rest[j].truncated().text();
            assert(nets[j] == rest[j]);
        } else {
            assert(t.cidr == nets[nets.len() - 1].truncated().text());
        }
    }
}

/// What one interface adds to the targets stays, whatever the later ones add.
proof fn lemma_found_stays(
    interfaces: Seq<InterfaceView>,
    gateways: Seq<(Seq<char>, IpAddr)>,
    neighbors: Seq<(Seq<char>, Seq<IpAddr>)>,
    n: int,
    t: TargetView,
)
    requires
        0 <= n <= interfaces.len(),
        found_targets(interfaces.take(n), gateways, neighbors).contains(t),
    ensures
        found_targets(interfaces, gateways, neighbors).contains(t),
    decreases interfaces.len() - n,
{
    if n == interfaces.len() {
        seqs::lemma_take_all(interfaces);
    } else {
        seqs::lemma_take_next(interfaces, n);
        let before = found_targets(interfaces.take(n), gateways, neighbors);
        let after = found_targets(interfaces.take(n + 1), gateways, neighbors);
        let i = interfaces[n];
        if i.role == InterfaceRole::Lan {
            lemma_subnets_keep(before, i.name, i.ip_addrs, t);
            let a = with_subnets(before, i.name, i.ip_addrs);
            let k = choose|k: int| 0 <= k < a.len() && a[k] == t;
            assert(after[k] == t);
        }
        lemma_found_stays(interfaces, gateways, neighbors, n + 1, t);
    }
}

/// Whether a target is for a network of an interface alone.
pub open spec fn found_on(t: TargetView, iface: Seq<char>, n: IpNet) -> bool {
    &&& t.cidr == n.text()
    &&& t.via == seq![iface]
    &&& t.port is None
    &&& t.fallback == "drop"@
}

/// Every neighbor on a LAN interface is found, whether or not the interface has a gateway: unless
/// the address is loopback or link-local or is that of the gateway itself, there is a target for
/// this one address through this one interface.
pub proof fn law_every_neighbor_is_found(
    interfaces: Seq<InterfaceView>,
    gateways: Seq<(Seq<char>, IpAddr)>,
    neighbors: Seq<(Seq<char>, Seq<IpAddr>)>,
    i: int,
    ips: Seq<IpAddr>,
    k: int,
) -> (t: TargetView)
    requires
        0 <= i < interfaces.len(),
        interfaces[i].role == InterfaceRole::Lan,
        names::lookup(neighbors, interfaces[i].name) == Some(ips),
        0 <= k < ips.len(),
        !ips[k].loopback(),
        !ips[k].link_local_v6(),
        names::lookup(gateways, interfaces[i].name) != Some(ips[k]),
    ensures
        found_targets(interfaces, gateways, neighbors).contains(t),
        found_on(t, interfaces[i].name, IpNet::host(ips[k])),
        t.name == interfaces[i].name + "-host-"@ + net::ip_text(ips[k]),
{
    let iface = interfaces[i].name;
    let gw = names::lookup(gateways, iface);
    let f = neighbor_target(iface, gw);
    let t = f(ips[k])[0];
    assert(f(ips[k]).contains(t));
    seqs::lemma_flat_contains(ips, f, t);
    let c = neighbor_targets(iface, gw, Some(ips));
    let m = choose|m: int| 0 <= m < c.len() && c[m] == t;
    seqs::lemma_take_next(interfaces, i);
    let after = found_targets(interfaces.take(i + 1), gateways, neighbors);
    assert(after[after.len() - c.len() + m] == t);
    lemma_found_stays(interfaces, gateways, neighbors, i + 1, t);
    t
}

/// Every gateway of a LAN interface is found, unless its address is loopback or link-local.
pub proof fn law_every_gateway_is_found(
    interfaces: Seq<InterfaceView>,
    gateways: Seq<(Seq<char>, IpAddr)>,
    neighbors: Seq<(Seq<char>, Seq<IpAddr>)>,
    i: int,
    gw: IpAddr,
) -> (t: TargetView)
    requires
        0 <= i < interfaces.len(),
        interfaces[i].role == InterfaceRole::Lan,
        names::lookup(gateways, interfaces[i].name) == Some(gw),
        !gw.loopback(),
        !gw.link_local_v6(),
    ensures
        found_targets(interfaces, gateways, neighbors).contains(t),
        found_on(t, interfaces[i].name, IpNet::host(gw)),
        t.name == interfaces[i].name + "-gateway"@,
{
    let iface = interfaces[i].name;
    let t = gateway_targets(iface, Some(gw))[0];
    let c = neighbor_targets(iface, Some(gw), names::lookup(neighbors, iface));
    seqs::lemma_take_next(interfaces, i);
    let after = found_targets(interfaces.take(i + 1), gateways, neighbors);
    assert(after[after.len() - c.len() - 1] == t);
    lemma_found_stays(interfaces, gateways, neighbors, i + 1, t);
    t
}

/// Every network of a LAN interface is found, unless its address is loopback or link-local.
pub proof fn law_every_subnet_is_found(
    interfaces: Seq<InterfaceView>,
    gateways: Seq<(Seq<char>, IpAddr)>,
    neighbors: Seq<(Seq<char>, Seq<IpAddr>)>,
    i: int,
    j: int,
) -> (t: TargetView)
    requires
        0 <= i < interfaces.len(),
        interfaces[i].role == InterfaceRole::Lan,
        0 <= j < interfaces[i].ip_addrs.len(),
        !interfaces[i].ip_addrs[j].base().loopback(),
        !interfaces[i].ip_addrs[j].base().link_local_v6(),
    ensures
        found_targets(interfaces, gateways, neighbors).contains(t),
        t.cidr == interfaces[i].ip_addrs[j].truncated().text(),
        t.via == seq![interfaces[i].name],
{
    let iface = interfaces[i].name;
    let nets = interfaces[i].ip_addrs;
    let cidr = nets[j].truncated().text();
    seqs::lemma_take_next(interfaces, i);
    let before = found_targets(interfaces.take(i), gateways, neighbors);
    let after = found_targets(interfaces.take(i + 1), gateways, neighbors);
    lemma_subnets_found(before, iface, nets, j);
    let a = with_subnets(before, iface, nets);
    let k = choose|k: int|
        0 <= k < a.len() && (#[trigger] a[k]).cidr == cidr && a[k].via == seq![iface];
    assert(after[k] == a[k]);
    lemma_found_stays(interfaces, gateways, neighbors, i + 1, a[k]);
    a[k]
}

/// Whether a target is for a network, the gateway or a neighbor of a LAN interface, and means
/// something beyond the link.
pub open spec fn of_the_lan(
    i: InterfaceView,
    gateways: Seq<(Seq<char>, IpAddr)>,
    neighbors: Seq<(Seq<char>, Seq<IpAddr>)>,
    t: TargetView,
) -> bool {
    &&& i.role == InterfaceRole::Lan
    &&& t.via == seq![i.name]
    &&& t.port is None
    &&& {
        ||| exists|j: int|
            0 <= j < i.ip_addrs.len() && !local_only((#[trigger] i.ip_addrs[j]).base()) && t.cidr
                == i.ip_addrs[j].truncated().text()
        ||| names::lookup(gateways, i.name) matches Some(gw) && !local_only(gw) && t.cidr
            == IpNet::host(gw).text()
        ||| names::lookup(neighbors, i.name) matches Some(ips) && exists|k: int|
            0 <= k < ips.len() && !local_only(#[trigger] ips[k]) && t.cidr == IpNet::host(
                ips[k],
            ).text()
    }
}

/// Nothing else is found: every target is for a network, the gateway or a neighbor of one of the
/// LAN interfaces, and leads through that interface.
pub proof fn law_only_the_lan_is_found(
    interfaces: Seq<InterfaceView>,
    gateways: Seq<(Seq<char>, IpAddr)>,
    neighbors: Seq<(Seq<char>, Seq<IpAddr>)>,
    t: TargetView,
) -> (i: int)
    requires
        found_targets(interfaces, gateways, neighbors).contains(t),
    ensures
        0 <= i < interfaces.len(),
        of_the_lan(interfaces[i], gateways, neighbors, t),
    decreases interfaces.len(),
{
    let all = found_targets(interfaces, gateways, neighbors);
    let rest = interfaces.drop_last();
    let before = found_targets(rest, gateways, neighbors);
    let x = choose|x: int| 0 <= x < all.len() && all[x] == t;
    assert(interfaces.len() > 0);
    if before.contains(t) {
        let i = law_only_the_lan_is_found(rest, gateways, neighbors, t);
        assert(rest[i] == interfaces[i]);
        i
    } else {
        let i = interfaces.last();
        let gw = names::lookup(gateways, i.name);
        let a = with_subnets(before, i.name, i.ip_addrs);
        let b = gateway_targets(i.name, gw);
        let c = neighbor_targets(i.name, gw, names::lookup(neighbors, i.name));
        if i.role == InterfaceRole::Lan {
            if x < a.len() {
                assert(a[x] == t);
                lemma_subnets_only(before, i.name, i.ip_addrs, t);
            } else if x < a.len() + b.len() {
                assert(b[x - a.len()] == t);
            } else {
                assert(c[x - a.len() - b.len()] == t);
                assert(c.contains(t));
                let ips = names::lookup(neighbors, i.name)->0;
                let f = neighbor_target(i.name, gw);
                seqs::lemma_flat_contains(ips, f, t);
                let k = choose|k: int| 0 <= k < ips.len() && #[trigger] f(ips[k]).contains(t);
                assert(f(ips[k])[0] == t);
                assert(!local_only(ips[k]));
            }
        } else {
            assert(before[x] == t);
        }
        interfaces.len() - 1
    }
}

/// Every LAN interface becomes a network of its own, which its gateway answers for if there is
/// one.
pub proof fn law_every_lan_interface_is_a_network(
    interfaces: Seq<InterfaceView>,
    gateways: Seq<(Seq<char>, IpAddr)>,
    i: int,
) -> (n: NetworkView)
    requires
        0 <= i < interfaces.len(),
        interfaces[i].role == InterfaceRole::Lan,
    ensures
        seqs::flat(interfaces, lan_network(gateways)).contains(n),
        n.interfaces == seq![interfaces[i].name],
        n.preferred == seq![interfaces[i].name],
        n.auto_subnets,
        names::lookup(gateways, interfaces[i].name) matches Some(gw) ==> n.dns == seq![gw],
        names::lookup(gateways, interfaces[i].name) is None ==> n.dns.len() == 0,
{
    let f = lan_network(gateways);
    let n = f(interfaces[i])[0];
    assert(f(interfaces[i]).contains(n));
    seqs::lemma_flat_contains(interfaces, f, n);
    n
}

/// Only LAN interfaces become networks.
pub proof fn law_only_lan_interfaces_are_networks(
    interfaces: Seq<InterfaceView>,
    gateways: Seq<(Seq<char>, IpAddr)>,
    n: NetworkView,
) -> (i: int)
    requires
        seqs::flat(interfaces, lan_network(gateways)).contains(n),
    ensures
        0 <= i < interfaces.len(),
        interfaces[i].role == InterfaceRole::Lan,
        n.interfaces == seq![interfaces[i].name],
{
    let f = lan_network(gateways);
    seqs::lemma_flat_contains(interfaces, f, n);
    let i = choose|i: int| 0 <= i < interfaces.len() && #[trigger] f(interfaces[i]).contains(n);
    assert(f(interfaces[i])[0] == n);
    i
}

/// Merging adds only what was found and was not there: what is new among the networks and targets
/// was found, no target is for a network that was configured, and the rest of the configuration
/// stays as it is.
pub proof fn law_merging_adds_only_what_was_found(
    c: ConfigView,
    networks: Seq<NetworkView>,
    targets: Seq<TargetView>,
)
    ensures
        merged(c, networks, targets) == (ConfigView {
            networks: merged(c, networks, targets).networks,
            targets: merged(c, networks, targets).targets,
            ..c
        }),
        forall|i: int|
            c.targets.len() <= i < merged(c, networks, targets).targets.len() ==> targets.contains(
                #[trigger] merged(c, networks, targets).targets[i],
            ) && !has_cidr(c.targets, merged(c, networks, targets).targets[i].cidr),
        forall|i: int|
            c.networks.len() <= i < merged(c, networks, targets).networks.len()
                ==> networks.contains(#[trigger] merged(c, networks, targets).networks[i])
                && !has_network(c.networks, merged(c, networks, targets).networks[i].name),
{
    lemma_new_targets(c.targets, targets);
    lemma_new_networks(c.networks, networks);
}

proof fn lemma_new_targets(targets: Seq<TargetView>, more: Seq<TargetView>)
    ensures
        targets.is_prefix_of(with_found(targets, more)),
        forall|i: int|
            targets.len() <= i < with_found(targets, more).len() ==> more.contains(
                #[trigger] with_found(targets, more)[i],
            ) && !has_cidr(targets, with_found(targets, more)[i].cidr),
    decreases more.len(),
{
    let r = with_found(targets, more);
    lemma_with_found(targets, more);
    if more.len() > 0 {
        let rest = more.drop_last();
        let before = with_found(targets, rest);
        lemma_new_targets(targets, rest);
        assert(targets =~= before.subrange(0, targets.len() as int));
        assert forall|i: int| targets.len() <= i < r.len() implies more.contains(#[trigger] r[i])
            && !has_cidr(targets, r[i].cidr) by {
            if i < before.len() {
                assert(r[i] == before[i]);
                let k = choose|k: int| 0 <= k < rest.len() && rest[k] == before[i];
                assert(more[k] == r[i]);
            } else {
                assert(more[more.len() - 1] == r[i]);
                if has_cidr(targets, r[i].cidr) {
                    let k = choose|k: int|
                        0 <= k < targets.len() && (#[trigger] targets[k]).cidr == r[i].cidr;
                    assert(before.subrange(0, targets.len() as int)[k] == before[k]);
                    assert(before[k].cidr == r[i].cidr);
                }
            }
        }
    }
}

proof fn lemma_new_networks(networks: Seq<NetworkView>, more: Seq<NetworkView>)
    ensures
        networks.is_prefix_of(with_networks(networks, more)),
        forall|i: int|
            networks.len() <= i < with_networks(networks, more).len() ==> more.contains(
                #[trigger] with_networks(networks, more)[i],
            ) && !has_network(networks, with_networks(networks, more)[i].name),
    decreases more.len(),
{
    let r = with_networks(networks, more);
    lemma_with_networks(networks, more);
    if more.len() > 0 {
        let rest = more.drop_last();
        let before = with_networks(networks, rest);
        lemma_new_networks(networks, rest);
        assert(networks =~= before.subrange(0, networks.len() as int));
        assert forall|i: int| networks.len() <= i < r.len() implies more.contains(#[trigger] r[i])
            && !has_network(networks, r[i].name) by {
            if i < before.len() {
                assert(r[i] == before[i]);
                let k = choose|k: int| 0 <= k < rest.len() && rest[k] == before[i];
                assert(more[k] == r[i]);
            } else {
                assert(more[more.len() - 1] == r[i]);
                if has_network(networks, r[i].name) {
                    let k = choose|k: int|
                        0 <= k < networks.len() && (#[trigger] networks[k]).name == r[i].name;
                    assert(before.subrange(0, networks.len() as int)[k] == before[k]);
                    assert(before[k].name == r[i].name);
                }
            }
        }
    }
}

/// Merging adds nothing twice: no target that it adds is for the same network as one before it,
/// and no network that it adds has the same name.
pub proof fn law_merging_adds_nothing_twice(
    c: ConfigView,
    networks: Seq<NetworkView>,
    targets: Seq<TargetView>,
    i: int,
    j: int,
)
    requires
        0 <= i < j,
    ensures
        c.targets.len() <= j < merged(c, networks, targets).targets.len() ==> merged(
            c,
            networks,
            targets,
        ).targets[i].cidr != merged(c, networks, targets).targets[j].cidr,
        c.networks.len() <= j < merged(c, networks, targets).networks.len() ==> merged(
            c,
            networks,
            targets,
        ).networks[i].name != merged(c, networks, targets).networks[j].name,
{
    lemma_distinct_targets(c.targets, targets, i, j);
    lemma_distinct_networks(c.networks, networks, i, j);
}

proof fn lemma_distinct_targets(targets: Seq<TargetView>, more: Seq<TargetView>, i: int, j: int)
    requires
        0 <= i < j,
    ensures
        targets.len() <= j < with_found(targets, more).len() ==> with_found(targets, more)[i].cidr
            != with_found(targets, more)[j].cidr,
    decreases more.len(),
{
    if more.len() > 0 {
        let before = with_found(targets, more.drop_last());
        lemma_distinct_targets(targets, more.drop_last(), i, j);
        if j == before.len() && j < with_found(targets, more).len() {
            assert(before[i] == with_found(targets, more)[i]);
            assert(!has_cidr(before, more.last().cidr));
        }
    }
}

proof fn lemma_distinct_networks(networks: Seq<NetworkView>, more: Seq<NetworkView>, i: int, j: int)
    requires
        0 <= i < j,
    ensures
        networks.len() <= j < with_networks(networks, more).len() ==> with_networks(
            networks,
            more,
        )[i].name != with_networks(networks, more)[j].name,
    decreases more.len(),
{
    if more.len() > 0 {
        let before = with_networks(networks, more.drop_last());
        lemma_distinct_networks(networks, more.drop_last(), i, j);
        if j == before.len() && j < with_networks(networks, more).len() {
            assert(before[i] == with_networks(networks, more)[i]);
            assert(!has_network(before, more.last().name));
        }
    }
}

} // verus!
