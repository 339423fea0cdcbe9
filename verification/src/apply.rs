//! Probing the interfaces of a policy, and putting the policy in force.

use vstd::prelude::*;
use crate::config::{self, Config, ConfigView, NetworkView, OperatingMode, TargetView};
use crate::daemon::{DaemonState, DaemonView};
use crate::detector::{self, LanDetector};
use crate::error::CoreErrorView;
use crate::health::{self, HealthConfig, HealthStateMachine};
use crate::model::{
    self, DesiredState, DesiredView, Interface, InterfaceView, PathHealth, RpdbRule,
};
use crate::names::{self, NameMap};
use crate::net::{self, IpAddr, IpNet};
use crate::planner::RoutePlanner;
use crate::policy::{self, EngineView, PolicyEngine};
use crate::seqs;
use crate::strict;
use crate::strings;

verus! {

// ---------------------------------------------------------------------------------------------
// Probes
// ---------------------------------------------------------------------------------------------
/// The interfaces of a network.
pub open spec fn network_interfaces() -> spec_fn(NetworkView) -> Seq<Seq<char>> {
    |n: NetworkView| n.interfaces
}

/// The interfaces of a target.
pub open spec fn target_interfaces() -> spec_fn(TargetView) -> Seq<Seq<char>> {
    |t: TargetView| t.via
}

/// The interfaces that a configuration names for networks and targets.
pub open spec fn probed_interfaces(c: ConfigView) -> Seq<Seq<char>> {
    names::sorted(
        seqs::flat(c.networks, network_interfaces()) + seqs::flat(c.targets, target_interfaces()),
    )
}

/// What is known of a path after a probe.
pub open spec fn after_probe(config: HealthConfig, h: PathHealth, ok: bool, now: u64) -> PathHealth {
    if ok {
        health::after_success(config, h, now)
    } else {
        health::after_failure(config, h, now)
    }
}

/// What is known of the paths after probes.
pub open spec fn after_probes(
    config: HealthConfig,
    health: Seq<(Seq<char>, PathHealth)>,
    probes: Seq<(Seq<char>, bool)>,
    now: u64,
) -> Seq<(Seq<char>, PathHealth)>
    decreases probes.len(),
{
    if probes.len() == 0 {
        health
    } else {
        let before = after_probes(config, health, probes.drop_last(), now);
        let (name, ok) = probes.last();
        names::with_entry(
            before,
            name,
            after_probe(config, policy::health_of(before, name), ok, now),
        )
    }
}

/// Whether probes make a path available that was not, or the other way round.
pub open spec fn availability_changes(
    config: HealthConfig,
    health: Seq<(Seq<char>, PathHealth)>,
    probes: Seq<(Seq<char>, bool)>,
    now: u64,
) -> bool
    decreases probes.len(),
{
    if probes.len() == 0 {
        false
    } else {
        let before = after_probes(config, health, probes.drop_last(), now);
        let (name, ok) = probes.last();
        let h = policy::health_of(before, name);
        availability_changes(config, health, probes.drop_last(), now) || health::available(h)
            != health::available(after_probe(config, h, ok, now))
    }
}

/// Whether `n` more probes of a path can be counted.
pub open spec fn has_room(h: Option<PathHealth>, n: nat) -> bool {
    match h {
        Some(h) => h.consecutive_failures + n <= u32::MAX && h.consecutive_successes + n
            <= u32::MAX,
        None => n <= u32::MAX,
    }
}

/// The number of probes of a path.
pub open spec fn probe_count(probes: Seq<(Seq<char>, bool)>, name: Seq<char>) -> nat
    decreases probes.len(),
{
    if probes.len() == 0 {
        0
    } else {
        probe_count(probes.skip(1), name) + if probes[0].0 == name {
            1nat
        } else {
            0
        }
    }
}

/// Whether the probes of each path can be counted.
pub open spec fn room_for(
    health: Seq<(Seq<char>, PathHealth)>,
    probes: Seq<(Seq<char>, bool)>,
) -> bool {
    forall|name: Seq<char>|
        has_room(#[trigger] names::lookup(health, name), probe_count(probes, name))
}

/// The value of probes in specifications.
pub open spec fn probe_views(s: Seq<(String, bool)>) -> Seq<(Seq<char>, bool)> {
    Seq::new(s.len(), |i: int| (s[i].0@, s[i].1))
}

/// The interfaces to keep free of default routes: those of targets that are not the normal path.
pub open spec fn guarded_on(wan: Seq<char>) -> spec_fn(TargetView) -> Seq<Seq<char>> {
    |t: TargetView| seqs::keep(t.via, other_name(wan))
}

/// Whether a name is another one.
pub open spec fn other_name(name: Seq<char>) -> spec_fn(Seq<char>) -> bool {
    |n: Seq<char>| n != name
}

/// The interface of the normal path: the one in use or else the first that is configured.
pub open spec fn normal_path(d: DaemonView) -> Option<Seq<char>> {
    match d.default_wan {
        Some(w) => Some(w),
        None => if d.config.wan.len() > 0 {
            Some(d.config.wan[0])
        } else {
            None
        },
    }
}

/// The interfaces to keep free of default routes.
pub open spec fn guarded(d: DaemonView) -> Seq<Seq<char>> {
    match normal_path(d) {
        Some(wan) => seqs::flat(d.config.targets, guarded_on(wan)),
        None => Seq::empty(),
    }
}

fn push_names(list: &mut Vec<String>, more: &Vec<String>)
    ensures
        seqs::views(final(list)@) == seqs::views(old(list)@) + seqs::views(more@),
{
    let ghost before = seqs::views(list@);
    let ghost all = seqs::views(more@);
    let mut i: usize = 0;
    proof {
        assert(before + all.take(0) =~= before);
    }
    while i < more.len()
        invariant
            i <= more.len(),
            all == seqs::views(more@),
            seqs::views(list@) == before + all.take(i as int),
        decreases more.len() - i,
    {
        let name = more[i].clone();
        proof {
            seqs::lemma_take_next(all, i as int);
            seqs::lemma_views_push(list@, name);
            assert((before + all.take(i as int)).push(name@) =~= before + all.take(i + 1));
        }
        list.push(name);
        i += 1;
    }
    proof {
        seqs::lemma_take_all(all);
    }
}

/// The interfaces that a configuration names for networks and targets, in order, each once.
pub fn interfaces_to_probe(config: &Config) -> (r: Vec<String>)
    ensures
        seqs::views(r@) == probed_interfaces(config@),
{
    let mut list: Vec<String> = Vec::new();
    let ghost nets = config@.networks;
    let ghost targets = config@.targets;
    let ghost from_nets = seqs::flat(nets, network_interfaces());
    let mut i: usize = 0;
    proof {
        assert(nets.take(0).len() == 0);
        assert(targets.take(0).len() == 0);
        assert(seqs::views(list@) =~= seqs::flat(nets.take(0), network_interfaces()));
    }
    while i < config.networks.len()
        invariant
            i <= config.networks.len(),
            nets == config@.networks,
            seqs::views(list@) == seqs::flat(nets.take(i as int), network_interfaces()),
        decreases config.networks.len() - i,
    {
        proof {
            seqs::lemma_flat_next(nets, network_interfaces(), i as int);
            assert(nets[i as int] == config.networks@[i as int]@);
        }
        push_names(&mut list, &config.networks[i].interfaces);
        i += 1;
    }
    proof {
        seqs::lemma_take_all(nets);
        assert(from_nets + seqs::flat(targets.take(0), target_interfaces()) =~= from_nets);
    }
    let mut k: usize = 0;
    while k < config.targets.len()
        invariant
            k <= config.targets.len(),
            targets == config@.targets,
            seqs::views(list@) == from_nets + seqs::flat(
                targets.take(k as int),
                target_interfaces(),
            ),
        decreases config.targets.len() - k,
    {
        let ghost now = seqs::views(list@);
        proof {
            seqs::lemma_flat_next(targets, target_interfaces(), k as int);
            assert(targets[k as int] == config.targets@[k as int]@);
            assert(now + targets[k as int].via =~= from_nets + (seqs::flat(
                targets.take(k as int),
                target_interfaces(),
            ) + targets[k as int].via));
        }
        push_names(&mut list, &config.targets[k].via);
        k += 1;
    }
    proof {
        seqs::lemma_take_all(targets);
    }
    names::sort_names(&list)
}

proof fn lemma_room_after(
    health: Seq<(Seq<char>, PathHealth)>,
    probes: Seq<(Seq<char>, bool)>,
    h: PathHealth,
)
    requires
        probes.len() > 0,
        room_for(health, probes),
        names::ascending(names::keys(health)),
        has_room(Some(h), probe_count(probes.skip(1), probes[0].0)),
    ensures
        room_for(names::with_entry(health, probes[0].0, h), probes.skip(1)),
{
    let m = names::with_entry(health, probes[0].0, h);
    assert forall|k: Seq<char>|
        has_room(#[trigger] names::lookup(m, k), probe_count(probes.skip(1), k)) by {
        names::lemma_lookup_with_entry(health, probes[0].0, h, k);
        assert(has_room(names::lookup(health, k), probe_count(probes, k)));
    }
}

proof fn lemma_absent_probe(probes: Seq<(Seq<char>, bool)>, name: Seq<char>)
    requires
        forall|i: int| 0 <= i < probes.len() ==> (#[trigger] probes[i]).0 != name,
    ensures
        probe_count(probes, name) == 0,
    decreases probes.len(),
{
    if probes.len() > 0 {
        assert(probes[0].0 != name);
        assert forall|i: int| 0 <= i < probes.skip(1).len() implies (#[trigger] probes.skip(1)[i]).0
            != name by {
            assert(probes.skip(1)[i] == probes[i + 1]);
        }
        lemma_absent_probe(probes.skip(1), name);
    }
}

fn count_probes(probes: &Vec<(String, bool)>, name: &str) -> (r: usize)
    ensures
        r == probe_count(probe_views(probes@), name@),
{
    let ghost all = probe_views(probes@);
    let mut n: usize = 0;
    let mut i: usize = probes.len();
    proof {
        assert(all.skip(all.len() as int).len() == 0);
    }
    while i > 0
        invariant
            i <= probes.len(),
            all == probe_views(probes@),
            n <= probes.len() - i,
            n == probe_count(all.skip(i as int), name@),
        decreases i,
    {
        i -= 1;
        proof {
            assert(all.skip(i as int).skip(1) =~= all.skip(i + 1));
            assert(all.skip(i as int)[0] == (probes@[i as int].0@, probes@[i as int].1));
        }
        if strings::same(probes[i].0.as_str(), name) {
            n += 1;
        }
    }
    proof {
        assert(all.skip(0) =~= all);
    }
    n
}

impl DaemonState {
    /// Whether the probes of each path can be counted.
    pub fn has_room_for(&self, probes: &Vec<(String, bool)>) -> (r: bool)
        ensures
            r == room_for(self@.health, probe_views(probes@)),
    {
        let ghost all = probe_views(probes@);
        let mut i: usize = 0;
        while i < probes.len()
            invariant
                i <= probes.len(),
                all == probe_views(probes@),
                forall|j: int|
                    0 <= j < i ==> has_room(
                        names::lookup(self@.health, (#[trigger] all[j]).0),
                        probe_count(all, all[j].0),
                    ),
            decreases probes.len() - i,
        {
            let name = probes[i].0.as_str();
            let n: u64 = count_probes(probes, name) as u64;
            let limit: u64 = u32::MAX as u64;
            let fits = match self.health_map.get(name) {
                Some(h) => n <= limit && h.consecutive_failures as u64 + n <= limit
                    && h.consecutive_successes as u64 + n <= limit,
                None => n <= limit,
            };
            proof {
                assert(all[i as int].0 == name@);
                assert(fits == has_room(
                    names::lookup(self@.health, name@),
                    probe_count(all, name@),
                ));
            }
            if !fits {
                return false;
            }
            i += 1;
        }
        proof {
            assert forall|name: Seq<char>|
                has_room(#[trigger] names::lookup(self@.health, name), probe_count(all, name)) by {
                if exists|j: int| 0 <= j < all.len() && (#[trigger] all[j]).0 == name {
                } else {
                    lemma_absent_probe(all, name);
                }
            }
        }
        true
    }

    /// Takes the results of probes. Tells whether a path became available or ceased to be, so
    /// that the policy has to be put in force anew.
    pub fn record_probes(&mut self, probes: &Vec<(String, bool)>, now: u64) -> (r: bool)
        requires
            room_for(old(self)@.health, probe_views(probes@)),
        ensures
            final(self)@ == probed(old(self)@, probe_views(probes@), now),
            r == availability_changes(
                old(self)@.health_config,
                old(self)@.health,
                probe_views(probes@),
                now,
            ),
    {
        let ghost d = self@;
        let ghost all = probe_views(probes@);
        let health_sm = self.health_sm;
        let mut changed = false;
        let mut i: usize = 0;
        proof {
            assert(all.take(0).len() == 0);
            assert(all.skip(0) =~= all);
        }
        while i < probes.len()
            invariant
                i <= probes.len(),
                all == probe_views(probes@),
                health_sm.config() == d.health_config,
                self@ == (DaemonView {
                    health: after_probes(d.health_config, d.health, all.take(i as int), now),
                    ..d
                }),
                changed == availability_changes(
                    d.health_config,
                    d.health,
                    all.take(i as int),
                    now,
                ),
                room_for(self@.health, all.skip(i as int)),
            decreases probes.len() - i,
        {
            proof {
                seqs::lemma_take_next(all, i as int);
                assert(all[i as int] == (probes@[i as int].0@, probes@[i as int].1));
            }
            let name = probes[i].0.as_str();
            let ghost before = self@.health;
            let ghost rest = all.skip(i as int);
            let mut h = match self.health_map.get(name) {
                Some(h) => *h,
                None => PathHealth::default(),
            };
            proof {
                assert(h == policy::health_of(before, name@));
                assert(rest.skip(1) =~= all.skip(i + 1));
                assert(has_room(names::lookup(before, name@), probe_count(rest, name@)));
            }
            let was = health_sm.is_available(&h);
            if probes[i].1 {
                health_sm.record_success(&mut h, now);
            } else {
                health_sm.record_failure(&mut h, now);
            }
            let is_now = health_sm.is_available(&h);
            if was != is_now {
                changed = true;
            }
            proof {
                lemma_room_after(before, rest, h);
            }
            self.health_map.insert(name.to_owned(), h);
            i += 1;
        }
        proof {
            seqs::lemma_take_all(all);
        }
        changed
    }

    /// The interfaces to keep free of default routes.
    pub fn guard_interfaces(&self) -> (r: Vec<String>)
        ensures
            seqs::views(r@) == guarded(self@),
    {
        let mut out: Vec<String> = Vec::new();
        let wan: &str = match &self.default_wan {
            Some(w) => w.as_str(),
            None => {
                if self.config.wan.interfaces.len() > 0 {
                    proof {
                        assert(self@.config.wan[0] == self.config.wan.interfaces@[0]@);
                    }
                    self.config.wan.interfaces[0].as_str()
                } else {
                    proof {
                        assert(seqs::views(out@) =~= Seq::<Seq<char>>::empty());
                    }
                    return out;
                }
            },
        };
        let ghost all = self@.config.targets;
        let ghost f = guarded_on(wan@);
        let mut i: usize = 0;
        proof {
            assert(all.take(0).len() == 0);
            assert(seqs::views(out@) =~= seqs::flat(all.take(0), f));
        }
        while i < self.config.targets.len()
            invariant
                i <= self.config.targets.len(),
                all == self@.config.targets,
                f == guarded_on(wan@),
                seqs::views(out@) == seqs::flat(all.take(i as int), f),
            decreases self.config.targets.len() - i,
        {
            let ghost now = seqs::views(out@);
            let target = &self.config.targets[i];
            let ghost ways = target@.via;
            let ghost p = other_name(wan@);
            proof {
                seqs::lemma_flat_next(all, f, i as int);
                assert(all[i as int] == target@);
                assert(ways.take(0).len() == 0);
                assert(now + seqs::keep(ways.take(0), p) =~= now);
            }
            let mut k: usize = 0;
            while k < target.via.len()
                invariant
                    k <= target.via.len(),
                    ways == seqs::views(target.via@),
                    p == other_name(wan@),
                    seqs::views(out@) == now + seqs::keep(ways.take(k as int), p),
                decreases target.via.len() - k,
            {
                proof {
                    seqs::lemma_take_next(ways, k as int);
                    assert(ways[k as int] == target.via@[k as int]@);
                }
                if !strings::same(target.via[k].as_str(), wan) {
                    let name = target.via[k].clone();
                    proof {
                        seqs::lemma_views_push(out@, name);
                        assert((now + seqs::keep(ways.take(k as int), p)).push(name@) =~= now
                            + seqs::keep(ways.take(k as int), p).push(name@));
                    }
                    out.push(name);
                }
                k += 1;
            }
            proof {
                seqs::lemma_take_all(ways);
            }
            i += 1;
        }
        proof {
            seqs::lemma_take_all(all);
        }
        out
    }
}

/// What is due after a round of probes.
pub enum Tick {
    /// Put the policy in force anew.
    Apply,
    /// Take default routes off these interfaces.
    Guard(Vec<String>),
}

/// The value of a `Tick` in specifications.
pub enum TickView {
    Apply,
    Guard(Seq<Seq<char>>),
}

impl View for Tick {
    type V = TickView;

    open spec fn view(&self) -> TickView {
        match self {
            Tick::Apply => TickView::Apply,
            Tick::Guard(v) => TickView::Guard(seqs::views(v@)),
        }
    }
}

/// The daemon after a round of probes.
pub open spec fn probed(d: DaemonView, probes: Seq<(Seq<char>, bool)>, now: u64) -> DaemonView {
    DaemonView { health: after_probes(d.health_config, d.health, probes, now), ..d }
}

impl DaemonState {
    /// Takes a round of probes and tells what is due after it.
    pub fn tick(&mut self, probes: &Vec<(String, bool)>, now: u64) -> (r: Tick)
        requires
            room_for(old(self)@.health, probe_views(probes@)),
        ensures
            final(self)@ == probed(old(self)@, probe_views(probes@), now),
            r@ == if availability_changes(
                old(self)@.health_config,
                old(self)@.health,
                probe_views(probes@),
                now,
            ) {
                TickView::Apply
            } else {
                TickView::Guard(guarded(final(self)@))
            },
    {
        if self.record_probes(probes, now) {
            Tick::Apply
        } else {
            Tick::Guard(self.guard_interfaces())
        }
    }
}

// ---------------------------------------------------------------------------------------------
// Putting the policy in force
// ---------------------------------------------------------------------------------------------
/// Whether a LAN domain has no local addresses, so that the LAN has to be asked for them.
pub open spec fn needs_lan_dns(c: ConfigView) -> bool {
    exists|i: int|
        0 <= i < c.lan_domains.len() && c.local_addresses(#[trigger] c.lan_domains[i]) is None
}

/// What the strict policy has against putting a configuration in force.
pub open spec fn rejection(c: ConfigView) -> Option<Seq<char>> {
    match strict::strict_fault(c) {
        Some(fault) => Some("configuration rejected: "@ + CoreErrorView::Config(fault).text()),
        None => None,
    }
}

/// What is against putting the policy in force with the resolver of a name.
pub open spec fn apply_fault(c: ConfigView, dry_run: bool, backend: Seq<char>) -> Option<
    Seq<char>,
> {
    match rejection(c) {
        Some(fault) => Some(fault),
        None => if !dry_run && needs_lan_dns(c) && (c.lan_interfaces.len() == 0
            || c.lan_dns_servers.len() == 0 || backend == "Disabled"@) {
            Some(
                "LAN_DOMAINS require LAN_INTERFACE, LAN_DNS_SERVER, and an available split-DNS backend"@,
            )
        } else {
            None
        },
    }
}

/// A configuration that knows the addresses of a domain.
pub open spec fn with_learned(
    c: ConfigView,
    domain: Seq<char>,
    addresses: Seq<IpAddr>,
) -> ConfigView {
    ConfigView {
        local_dns: names::with_entry(
            c.local_dns,
            config::record_key(c.local_dns, config::canonical(domain)),
            addresses,
        ),
        ..c
    }
}

/// The daemon with what was found on the host, unless its configuration is manual.
pub open spec fn discovered(
    d: DaemonView,
    interfaces: Seq<InterfaceView>,
    gateways: Seq<(Seq<char>, IpAddr)>,
    neighbors: Seq<(Seq<char>, Seq<IpAddr>)>,
) -> DaemonView {
    if d.config.mode == OperatingMode::Manual {
        d
    } else {
        DaemonView {
            config: detector::merged(
                d.config,
                seqs::flat(interfaces, detector::lan_network(gateways)),
                detector::found_targets(interfaces, gateways, neighbors),
            ),
            ..d
        }
    }
}

/// The daemon after the LAN gave addresses for a domain.
pub open spec fn learned(d: DaemonView, domain: Seq<char>, addresses: Seq<IpAddr>) -> DaemonView {
    if d.config.local_addresses(domain) == Some(addresses) {
        d
    } else {
        DaemonView { config: with_learned(d.config, domain, addresses), ..d }
    }
}

/// The domains of a network, each with the first of its servers.
pub open spec fn split_of() -> spec_fn(NetworkView) -> Seq<(Seq<char>, IpAddr)> {
    |n: NetworkView|
        if n.dns.len() > 0 {
            Seq::new(n.domains.len(), |i: int| (n.domains[i], n.dns[0]))
        } else {
            Seq::empty()
        }
}

/// What a target allows to leave: its network, through each of its interfaces.
pub open spec fn target_entries() -> spec_fn(TargetView) -> Seq<
    (Seq<char>, Seq<char>, Option<u16>),
> {
    |t: TargetView| Seq::new(t.via.len(), |i: int| (t.via[i], t.cidr, None))
}

/// Addresses that may leave through an interface.
pub open spec fn address_entries(ips: Seq<IpAddr>) -> spec_fn(Seq<char>) -> Seq<
    (Seq<char>, Seq<char>, Option<u16>),
> {
    |iface: Seq<char>| Seq::new(ips.len(), |i: int| (iface, IpNet::host(ips[i]).text(), None))
}

/// What a LAN domain allows to leave: its local addresses, through each of the LAN interfaces.
pub open spec fn domain_entries(c: ConfigView) -> spec_fn(Seq<char>) -> Seq<
    (Seq<char>, Seq<char>, Option<u16>),
> {
    |d: Seq<char>|
        match c.local_addresses(d) {
            Some(ips) => seqs::flat(c.lan_interfaces, address_entries(ips)),
            None => Seq::empty(),
        }
}

/// The engine of a daemon on a host with these interfaces.
pub open spec fn daemon_engine(
    d: DaemonView,
    interfaces: Seq<InterfaceView>,
    wan_v6_gateway: Option<IpAddr>,
) -> EngineView {
    EngineView {
        wan_ipv6_gateway: wan_v6_gateway,
        ..policy::engine_of(d.config, interfaces, d.default_wan)
    }
}

/// The state that the policy of a daemon wants.
pub open spec fn desired_of(
    d: DaemonView,
    interfaces: Seq<InterfaceView>,
    wan_v6_gateway: Option<IpAddr>,
) -> DesiredView {
    let c = d.config;
    DesiredView {
        routes: policy::desired_routes(
            daemon_engine(d, interfaces, wan_v6_gateway),
            d.health,
        ),
        rules: seq![RpdbRule { priority: c.defaults.rule_priority, table: c.defaults.table_id }],
        dns_split_domains: seqs::flat(c.networks, split_of()),
        firewall_whitelist: seqs::flat(c.targets, target_entries()) + seqs::flat(
            c.lan_domains,
            domain_entries(c),
        ),
        blacklist: c.blacklist,
        lan_interfaces: c.lan_interfaces,
        wan_interface: normal_path(d),
    }
}

fn list_split(config: &Config) -> (r: Vec<(String, IpAddr)>)
    ensures
        model::split_views(r@) == seqs::flat(config@.networks, split_of()),
{
    let ghost all = config@.networks;
    let mut out: Vec<(String, IpAddr)> = Vec::new();
    let mut i: usize = 0;
    proof {
        assert(all.take(0).len() == 0);
        assert(model::split_views(out@) =~= seqs::flat(all.take(0), split_of()));
    }
    while i < config.networks.len()
        invariant
            i <= config.networks.len(),
            all == config@.networks,
            model::split_views(out@) == seqs::flat(all.take(i as int), split_of()),
        decreases config.networks.len() - i,
    {
        let ghost now = model::split_views(out@);
        let n = &config.networks[i];
        proof {
            seqs::lemma_flat_next(all, split_of(), i as int);
            assert(all[i as int] == n@);
        }
        if n.dns.len() > 0 {
            let server = n.dns[0];
            let ghost pairs = split_of()(n@);
            let mut k: usize = 0;
            proof {
                assert(now + pairs.take(0) =~= now);
            }
            while k < n.domains.len()
                invariant
                    k <= n.domains.len(),
                    n@.dns.len() > 0,
                    server == n@.dns[0],
                    pairs == split_of()(n@),
                    model::split_views(out@) == now + pairs.take(k as int),
                decreases n.domains.len() - k,
            {
                let ghost then = model::split_views(out@);
                out.push((n.domains[k].clone(), server));
                proof {
                    seqs::lemma_take_next(pairs, k as int);
                    assert(model::split_views(out@) =~= then.push(pairs[k as int]));
                    assert(pairs[k as int] == (n.domains@[k as int]@, server));
                    assert(model::split_views(out@) =~= now + pairs.take(k + 1));
                }
                k += 1;
            }
            proof {
                seqs::lemma_take_all(pairs);
            }
        }
        proof {
            assert(model::split_views(out@) =~= now + split_of()(n@));
        }
        i += 1;
    }
    proof {
        seqs::lemma_take_all(all);
    }
    out
}

fn push_address_entries(
    out: &mut Vec<(String, String, Option<u16>)>,
    iface: &str,
    ips: &[IpAddr],
)
    ensures
        model::whitelist_views(final(out)@) == model::whitelist_views(old(out)@) + address_entries(
            ips@,
        )(iface@),
{
    let ghost before = model::whitelist_views(out@);
    let ghost all = address_entries(ips@)(iface@);
    let mut i: usize = 0;
    proof {
        assert(before + all.take(0) =~= before);
    }
    while i < ips.len()
        invariant
            i <= ips.len(),
            all == address_entries(ips@)(iface@),
            model::whitelist_views(out@) == before + all.take(i as int),
        decreases ips.len() - i,
    {
        let ghost then = model::whitelist_views(out@);
        out.push((iface.to_owned(), IpNet::of_host(ips[i]).to_string(), None));
        proof {
            seqs::lemma_take_next(all, i as int);
            assert(model::whitelist_views(out@) =~= then.push(all[i as int]));
            assert(model::whitelist_views(out@) =~= before + all.take(i + 1));
        }
        i += 1;
    }
    proof {
        seqs::lemma_take_all(all);
    }
}

fn push_target_entries(
    out: &mut Vec<(String, String, Option<u16>)>,
    target: &config::TargetConfig,
)
    ensures
        model::whitelist_views(final(out)@) == model::whitelist_views(old(out)@)
            + target_entries()(target@),
{
    let ghost before = model::whitelist_views(out@);
    let ghost all = target_entries()(target@);
    let mut i: usize = 0;
    proof {
        assert(before + all.take(0) =~= before);
    }
    while i < target.via.len()
        invariant
            i <= target.via.len(),
            all == target_entries()(target@),
            model::whitelist_views(out@) == before + all.take(i as int),
        decreases target.via.len() - i,
    {
        let ghost then = model::whitelist_views(out@);
        out.push((target.via[i].clone(), target.cidr.clone(), None));
        proof {
            seqs::lemma_take_next(all, i as int);
            assert(model::whitelist_views(out@) =~= then.push(all[i as int]));
            assert(model::whitelist_views(out@) =~= before + all.take(i + 1));
        }
        i += 1;
    }
    proof {
        seqs::lemma_take_all(all);
    }
}

fn list_whitelist(config: &Config) -> (r: Vec<(String, String, Option<u16>)>)
    ensures
        model::whitelist_views(r@) == seqs::flat(config@.targets, target_entries()) + seqs::flat(
            config@.lan_domains,
            domain_entries(config@),
        ),
{
    let mut out: Vec<(String, String, Option<u16>)> = Vec::new();
    let ghost targets = config@.targets;
    let ghost domains = config@.lan_domains;
    let ghost g = domain_entries(config@);
    let ghost first = seqs::flat(targets, target_entries());
    let mut i: usize = 0;
    proof {
        assert(targets.take(0).len() == 0);
        assert(domains.take(0).len() == 0);
        assert(model::whitelist_views(out@) =~= seqs::flat(targets.take(0), target_entries()));
    }
    while i < config.targets.len()
        invariant
            i <= config.targets.len(),
            targets == config@.targets,
            model::whitelist_views(out@) == seqs::flat(targets.take(i as int), target_entries()),
        decreases config.targets.len() - i,
    {
        proof {
            seqs::lemma_flat_next(targets, target_entries(), i as int);
            assert(targets[i as int] == config.targets@[i as int]@);
        }
        push_target_entries(&mut out, &config.targets[i]);
        i += 1;
    }
    proof {
        seqs::lemma_take_all(targets);
        assert(first + seqs::flat(domains.take(0), g) =~= first);
    }
    let mut k: usize = 0;
    while k < config.lan_domains.len()
        invariant
            k <= config.lan_domains.len(),
            domains == config@.lan_domains,
            g == domain_entries(config@),
            model::whitelist_views(out@) == first + seqs::flat(domains.take(k as int), g),
        decreases config.lan_domains.len() - k,
    {
        let ghost now = model::whitelist_views(out@);
        let domain = config.lan_domains[k].as_str();
        proof {
            seqs::lemma_flat_next(domains, g, k as int);
            assert(domains[k as int] == domain@);
        }
        if let Some(ips) = config.resolve_local_domain(domain) {
            let ghost f = address_entries(ips@);
            let ghost lan = config@.lan_interfaces;
            let mut m: usize = 0;
            proof {
                assert(lan.take(0).len() == 0);
                assert(now + seqs::flat(lan.take(0), f) =~= now);
            }
            while m < config.lan_interfaces.len()
                invariant
                    m <= config.lan_interfaces.len(),
                    lan == config@.lan_interfaces,
                    f == address_entries(ips@),
                    model::whitelist_views(out@) == now + seqs::flat(lan.take(m as int), f),
                decreases config.lan_interfaces.len() - m,
            {
                let ghost then = model::whitelist_views(out@);
                proof {
                    seqs::lemma_flat_next(lan, f, m as int);
                    assert(lan[m as int] == config.lan_interfaces@[m as int]@);
                    assert(then + f(lan[m as int]) =~= now + (seqs::flat(lan.take(m as int), f) + f(
                        lan[m as int],
                    )));
                }
                push_address_entries(&mut out, config.lan_interfaces[m].as_str(), ips);
                m += 1;
            }
            proof {
                seqs::lemma_take_all(lan);
            }
        }
        proof {
            assert(model::whitelist_views(out@) =~= now + g(domain@));
            assert(now + g(domain@) =~= first + (seqs::flat(domains.take(k as int), g) + g(
                domain@,
            )));
        }
        k += 1;
    }
    proof {
        seqs::lemma_take_all(domains);
    }
    out
}

/// Names and servers for the resolver of an interface.
pub struct LinkDns {
    pub interface: String,
    pub domains: Vec<String>,
    pub servers: Vec<IpAddr>,
}

/// The value of a `LinkDns` in specifications.
#[verifier::ext_equal]
pub struct LinkView {
    pub interface: Seq<char>,
    pub domains: Seq<Seq<char>>,
    pub servers: Seq<IpAddr>,
}

impl View for LinkDns {
    type V = LinkView;

    open spec fn view(&self) -> LinkView {
        LinkView {
            interface: self.interface@,
            domains: seqs::views(self.domains@),
            servers: self.servers@,
        }
    }
}

impl Clone for LinkDns {
    fn clone(&self) -> (r: LinkDns)
        ensures
            r@ == self@,
    {
        LinkDns {
            interface: self.interface.clone(),
            domains: model::copy_names(&self.domains),
            servers: net::copy_ips(&self.servers),
        }
    }
}

/// What the resolver is told of a network: its domains and servers belong to its first interface.
pub open spec fn link_of() -> spec_fn(NetworkView) -> Seq<LinkView> {
    |n: NetworkView|
        if n.interfaces.len() > 0 {
            seq![LinkView { interface: n.interfaces[0], domains: n.domains, servers: n.dns }]
        } else {
            Seq::empty()
        }
}

/// What the resolver is told of the LAN domains: they belong to the first LAN interface.
pub open spec fn lan_link(c: ConfigView) -> Result<LinkView, Seq<char>> {
    if c.lan_interfaces.len() == 0 {
        Err("LAN_DOMAINS are configured without a LAN_INTERFACE"@)
    } else {
        Ok(
            LinkView {
                interface: c.lan_interfaces[0],
                domains: c.lan_domains,
                servers: c.lan_dns_servers,
            },
        )
    }
}

impl DaemonState {
    /// Whether the strict policy accepts the configuration.
    pub fn check_policy(&self) -> (r: Result<(), String>)
        ensures
            match r {
                Ok(()) => rejection(self@.config) is None,
                Err(e) => rejection(self@.config) == Some(e@),
            },
    {
        match self.config.validate_strict_lan_policy() {
            Ok(()) => Ok(()),
            Err(e) => Err("configuration rejected: ".to_owned().concat(e.to_string().as_str())),
        }
    }

    /// Whether the policy may be put in force, and if so whether the LAN has to be asked for
    /// addresses.
    pub fn begin_apply(&self, dry_run: bool, backend: &str) -> (r: Result<bool, String>)
        ensures
            match r {
                Ok(needs) => apply_fault(self@.config, dry_run, backend@) is None && needs
                    == needs_lan_dns(self@.config),
                Err(e) => apply_fault(self@.config, dry_run, backend@) == Some(e@),
            },
    {
        if let Err(e) = self.check_policy() {
            return Err(e);
        }
        let ghost c = self.config@;
        let mut needs = false;
        let mut i: usize = 0;
        while i < self.config.lan_domains.len()
            invariant
                i <= self.config.lan_domains.len(),
                c == self.config@,
                needs == exists|j: int|
                    0 <= j < i && c.local_addresses(#[trigger] c.lan_domains[j]) is None,
            decreases self.config.lan_domains.len() - i,
        {
            proof {
                assert(c.lan_domains[i as int] == self.config.lan_domains@[i as int]@);
            }
            if self.config.resolve_local_domain(self.config.lan_domains[i].as_str()).is_none() {
                needs = true;
                proof {
                    assert(c.local_addresses(c.lan_domains[i as int]) is None);
                }
            }
            i += 1;
        }
        if !dry_run && needs && (self.config.lan_interfaces.len() == 0
            || self.config.lan_dns_servers.len() == 0 || strings::same(backend, "Disabled")) {
            return Err(
                "LAN_DOMAINS require LAN_INTERFACE, LAN_DNS_SERVER, and an available split-DNS backend".to_owned(),
            );
        }
        Ok(needs)
    }

    /// Adds what is found on the host to the configuration, unless that is manual.
    pub fn discover(
        &mut self,
        interfaces: &Vec<Interface>,
        gateways: &NameMap<IpAddr>,
        neighbors: &NameMap<Vec<IpAddr>>,
    )
        ensures
            final(self)@ == discovered(
                old(self)@,
                seqs::views(interfaces@),
                gateways@,
                neighbors@,
            ),
    {
        if self.config.mode != OperatingMode::Manual {
            let found = LanDetector::detect(interfaces.as_slice(), gateways, neighbors);
            LanDetector::merge_into_config(&mut self.config, found);
        }
    }

    /// The state that the policy wants on a host with these interfaces.
    pub fn desired_state(
        &self,
        interfaces: &Vec<Interface>,
        wan_v6_gateway: Option<IpAddr>,
    ) -> (r: DesiredState)
        ensures
            r@ == desired_of(self@, seqs::views(interfaces@), wan_v6_gateway),
    {
        let mut engine = PolicyEngine::from_config(
            &self.config,
            interfaces.as_slice(),
            model::copy_name(&self.default_wan),
        );
        engine.set_wan_ipv6_gateway(wan_v6_gateway);
        let routes = engine.generate_desired_routes(&self.health_map, &self.health_sm);
        let mut desired = RoutePlanner::generate_desired_state(
            self.config.defaults.table_id,
            self.config.defaults.rule_priority,
            routes,
            list_split(&self.config),
        );
        desired.wan_interface = match &self.default_wan {
            Some(w) => Some(w.clone()),
            None => {
                if self.config.wan.interfaces.len() > 0 {
                    proof {
                        assert(self@.config.wan[0] == self.config.wan.interfaces@[0]@);
                    }
                    Some(self.config.wan.interfaces[0].clone())
                } else {
                    None
                }
            },
        };
        desired.lan_interfaces = model::copy_names(&self.config.lan_interfaces);
        desired.blacklist = net::copy_nets(&self.config.blacklist);
        desired.firewall_whitelist = list_whitelist(&self.config);
        desired
    }

    /// What the resolver is told of the networks.
    pub fn network_dns(&self) -> (r: Vec<LinkDns>)
        ensures
            seqs::views(r@) == seqs::flat(self@.config.networks, link_of()),
    {
        let ghost all = self@.config.networks;
        let mut out: Vec<LinkDns> = Vec::new();
        let mut i: usize = 0;
        proof {
            assert(all.take(0).len() == 0);
            assert(seqs::views(out@) =~= seqs::flat(all.take(0), link_of()));
        }
        while i < self.config.networks.len()
            invariant
                i <= self.config.networks.len(),
                all == self@.config.networks,
                seqs::views(out@) == seqs::flat(all.take(i as int), link_of()),
            decreases self.config.networks.len() - i,
        {
            let ghost now = seqs::views(out@);
            let n = &self.config.networks[i];
            proof {
                seqs::lemma_flat_next(all, link_of(), i as int);
                assert(all[i as int] == n@);
            }
            if n.interfaces.len() > 0 {
                let link = LinkDns {
                    interface: n.interfaces[0].clone(),
                    domains: model::copy_names(&n.domains),
                    servers: net::copy_ips(&n.dns),
                };
                proof {
                    assert(n@.interfaces[0] == n.interfaces@[0]@);
                    seqs::lemma_views_push(out@, link);
                }
                out.push(link);
            }
            proof {
                assert(seqs::views(out@) =~= now + link_of()(n@));
            }
            i += 1;
        }
        proof {
            seqs::lemma_take_all(all);
        }
        out
    }

    /// What the resolver is told of the LAN domains.
    pub fn lan_dns(&self) -> (r: Result<LinkDns, String>)
        ensures
            match r {
                Ok(link) => lan_link(self@.config) == Ok::<LinkView, Seq<char>>(link@),
                Err(e) => lan_link(self@.config) == Err::<LinkView, Seq<char>>(e@),
            },
    {
        if self.config.lan_interfaces.len() == 0 {
            return Err("LAN_DOMAINS are configured without a LAN_INTERFACE".to_owned());
        }
        proof {
            assert(self@.config.lan_interfaces[0] == self.config.lan_interfaces@[0]@);
        }
        Ok(
            LinkDns {
                interface: self.config.lan_interfaces[0].clone(),
                domains: model::copy_names(&self.config.lan_domains),
                servers: net::copy_ips(&self.config.lan_dns_servers),
            },
        )
    }

    /// Takes the addresses that the LAN gave for a domain. Tells whether they are others than
    /// those that were known, so that the policy has to be put in force anew.
    pub fn learn(&mut self, domain: &str, addresses: Vec<IpAddr>) -> (r: bool)
        ensures
            r == (old(self)@.config.local_addresses(domain@) != Some(addresses@)),
            final(self)@ == learned(old(self)@, domain@, addresses@),
    {
        let known = match self.config.resolve_local_domain(domain) {
            Some(ips) => same_ips(ips, &addresses),
            None => false,
        };
        if known {
            return false;
        }
        let form = config::canonical_domain(domain);
        let key = config::find_record_key(&self.config.local_dns, form.as_str());
        self.config.local_dns.insert(key, addresses);
        true
    }
}

fn same_ips(a: &[IpAddr], b: &Vec<IpAddr>) -> (r: bool)
    ensures
        r == (a@ == b@),
{
    if a.len() != b.len() {
        return false;
    }
    let mut i: usize = 0;
    while i < a.len()
        invariant
            i <= a.len(),
            a.len() == b.len(),
            forall|j: int| 0 <= j < i ==> #[trigger] a@[j] == b@[j],
        decreases a.len() - i,
    {
        if a[i] != b[i] {
            proof {
                assert(a@[i as int] != b@[i as int]);
            }
            return false;
        }
        i += 1;
    }
    proof {
        assert(a@ =~= b@);
    }
    true
}

// ---------------------------------------------------------------------------------------------
// Without a daemon
// ---------------------------------------------------------------------------------------------
/// What is assumed of the path through an interface: it works if the interface is up and has a
/// carrier. Whether it is taken to have failed otherwise, or to be unknown, is up to the caller.
pub open spec fn assumed(i: InterfaceView, failures: bool) -> PathHealth {
    if i.is_up && i.has_carrier {
        health::after_success(HealthConfig::standard(), PathHealth::unknown(), 0)
    } else if failures {
        health::after_failure(HealthConfig::standard(), PathHealth::unknown(), 0)
    } else {
        PathHealth::unknown()
    }
}

/// What is assumed of the paths through interfaces.
pub open spec fn assumed_health(interfaces: Seq<InterfaceView>, failures: bool) -> Seq<
    (Seq<char>, PathHealth),
>
    decreases interfaces.len(),
{
    if interfaces.len() == 0 {
        Seq::empty()
    } else {
        names::with_entry(
            assumed_health(interfaces.drop_last(), failures),
            interfaces.last().name,
            assumed(interfaces.last(), failures),
        )
    }
}

/// What is assumed of the paths through interfaces.
pub fn assume_health(interfaces: &Vec<Interface>, failures: bool) -> (r: NameMap<PathHealth>)
    ensures
        r@ == assumed_health(seqs::views(interfaces@), failures),
{
    let health_sm = HealthStateMachine::with_default_config();
    let ghost all = seqs::views(interfaces@);
    let mut out: NameMap<PathHealth> = NameMap::new();
    let mut i: usize = 0;
    proof {
        assert(all.take(0).len() == 0);
    }
    while i < interfaces.len()
        invariant
            i <= interfaces.len(),
            all == seqs::views(interfaces@),
            health_sm.config() == HealthConfig::standard(),
            out@ == assumed_health(all.take(i as int), failures),
        decreases interfaces.len() - i,
    {
        proof {
            seqs::lemma_take_next(all, i as int);
            assert(all[i as int] == interfaces@[i as int]@);
        }
        let mut h = PathHealth::default();
        if interfaces[i].is_up && interfaces[i].has_carrier {
            health_sm.record_success(&mut h, 0);
        } else if failures {
            health_sm.record_failure(&mut h, 0);
        }
        out.insert(interfaces[i].name.clone(), h);
        i += 1;
    }
    proof {
        seqs::lemma_take_all(all);
    }
    out
}

/// The state that a configuration wants on a host with these interfaces, as far as routes go.
pub fn direct_state(config: &Config, interfaces: &Vec<Interface>, wan: Option<String>) -> (r:
    DesiredState)
    ensures
        r@ == (DesiredView {
            routes: policy::desired_routes(
                policy::engine_of(config@, seqs::views(interfaces@), seqs::opt_view(wan)),
                assumed_health(seqs::views(interfaces@), false),
            ),
            rules: seq![
                RpdbRule {
                    priority: config@.defaults.rule_priority,
                    table: config@.defaults.table_id,
                },
            ],
            dns_split_domains: Seq::empty(),
            firewall_whitelist: Seq::empty(),
            blacklist: Seq::empty(),
            lan_interfaces: Seq::empty(),
            wan_interface: None,
        }),
{
    let engine = PolicyEngine::from_config(config, interfaces.as_slice(), wan);
    let health_map = assume_health(interfaces, false);
    let health_sm = HealthStateMachine::with_default_config();
    let routes = engine.generate_desired_routes(&health_map, &health_sm);
    let none: Vec<(String, IpAddr)> = Vec::new();
    proof {
        assert(model::split_views(none@) =~= Seq::<(Seq<char>, IpAddr)>::empty());
    }
    RoutePlanner::generate_desired_state(
        config.defaults.table_id,
        config.defaults.rule_priority,
        routes,
        none,
    )
}

/// The decision on a destination without a daemon.
pub fn direct_decision(
    config: &Config,
    interfaces: &Vec<Interface>,
    wan: Option<String>,
    target: &str,
) -> (r: model::Decision)
    ensures
        r@ == policy::decision(
            policy::engine_of(config@, seqs::views(interfaces@), seqs::opt_view(wan)),
            target@,
            assumed_health(seqs::views(interfaces@), true),
        ),
{
    let engine = PolicyEngine::from_config(config, interfaces.as_slice(), wan);
    let health_map = assume_health(interfaces, true);
    let health_sm = HealthStateMachine::with_default_config();
    engine.decide(target, &health_map, &health_sm)
}

// ---------------------------------------------------------------------------------------------
// What holds of it
// ---------------------------------------------------------------------------------------------
/// A configuration that is accepted never has the LAN asked for addresses: every LAN domain has
/// local ones.
pub proof fn law_accepted_needs_no_lan_dns(c: ConfigView, dry_run: bool, backend: Seq<char>)
    requires
        apply_fault(c, dry_run, backend) is None,
    ensures
        !needs_lan_dns(c),
{
    strict::law_accepted_exactly_if_strict(c);
    assert forall|i: int| 0 <= i < c.lan_domains.len() implies c.local_addresses(
        #[trigger] c.lan_domains[i],
    ) is Some by {
        assert(strict::strict_domain(c, c.lan_domains[i]));
    }
}

/// What is learned of a domain is what is known of it afterwards.
pub proof fn law_learned_addresses_are_known(
    c: ConfigView,
    domain: Seq<char>,
    addresses: Seq<IpAddr>,
)
    requires
        names::ascending(names::keys(c.local_dns)),
    ensures
        with_learned(c, domain, addresses).local_addresses(domain) == Some(addresses),
{
    config::lemma_record_written(c.local_dns, config::canonical(domain), addresses);
}

/// The whitelist of a strict configuration allows LAN interfaces alone.
pub proof fn law_whitelist_names_lan_interfaces(
    d: DaemonView,
    interfaces: Seq<InterfaceView>,
    wan_v6_gateway: Option<IpAddr>,
    e: (Seq<char>, Seq<char>, Option<u16>),
)
    requires
        strict::strict_fault(d.config) is None,
        desired_of(d, interfaces, wan_v6_gateway).firewall_whitelist.contains(e),
    ensures
        d.config.lan_interfaces.contains(e.0),
        e.2 is None,
{
    let c = d.config;
    strict::law_accepted_exactly_if_strict(c);
    let a = seqs::flat(c.targets, target_entries());
    let b = seqs::flat(c.lan_domains, domain_entries(c));
    let k = choose|k: int| 0 <= k < (a + b).len() && (a + b)[k] == e;
    if k < a.len() {
        assert(a.contains(a[k]));
        seqs::lemma_flat_contains(c.targets, target_entries(), e);
        let i = choose|i: int|
            0 <= i < c.targets.len() && #[trigger] target_entries()(c.targets[i]).contains(e);
        let es = target_entries()(c.targets[i]);
        let j = choose|j: int| 0 <= j < es.len() && es[j] == e;
        assert(strict::strict_target(c, c.targets[i]));
        assert(c.lan_interfaces.contains(c.targets[i].via[j]));
    } else {
        assert(b.contains(b[k - a.len()]));
        seqs::lemma_flat_contains(c.lan_domains, domain_entries(c), e);
        let i = choose|i: int|
            0 <= i < c.lan_domains.len() && #[trigger] domain_entries(c)(
                c.lan_domains[i],
            ).contains(e);
        let ips = c.local_addresses(c.lan_domains[i])->0;
        let f = address_entries(ips);
        seqs::lemma_flat_contains(c.lan_interfaces, f, e);
        let m = choose|m: int|
            0 <= m < c.lan_interfaces.len() && #[trigger] f(c.lan_interfaces[m]).contains(e);
        let es = f(c.lan_interfaces[m]);
        let j = choose|j: int| 0 <= j < es.len() && es[j] == e;
        assert(es[j].0 == c.lan_interfaces[m]);
    }
}

// ---------------------------------------------------------------------------------------------
// What a daemon wants
// ---------------------------------------------------------------------------------------------
/// Every configured target may leave through each of its interfaces, on all ports.
pub proof fn law_every_target_may_leave(
    d: DaemonView,
    interfaces: Seq<InterfaceView>,
    gateway: Option<IpAddr>,
    i: int,
    k: int,
)
    requires
        0 <= i < d.config.targets.len(),
        0 <= k < d.config.targets[i].via.len(),
    ensures
        desired_of(d, interfaces, gateway).firewall_whitelist.contains(
            (d.config.targets[i].via[k], d.config.targets[i].cidr, None),
        ),
{
    let t = d.config.targets[i];
    let x = (t.via[k], t.cidr, None::<u16>);
    let a = seqs::flat(d.config.targets, target_entries());
    let b = seqs::flat(d.config.lan_domains, domain_entries(d.config));
    assert(target_entries()(t)[k] == x);
    assert(target_entries()(t).contains(x));
    seqs::lemma_flat_contains(d.config.targets, target_entries(), x);
    let j = choose|j: int| 0 <= j < a.len() && a[j] == x;
    assert((a + b)[j] == x);
}

/// Every local address of a LAN domain may leave through each of the LAN interfaces, on all ports.
pub proof fn law_every_lan_domain_may_leave(
    d: DaemonView,
    interfaces: Seq<InterfaceView>,
    gateway: Option<IpAddr>,
    i: int,
    ips: Seq<IpAddr>,
    j: int,
    k: int,
)
    requires
        0 <= i < d.config.lan_domains.len(),
        d.config.local_addresses(d.config.lan_domains[i]) == Some(ips),
        0 <= j < d.config.lan_interfaces.len(),
        0 <= k < ips.len(),
    ensures
        desired_of(d, interfaces, gateway).firewall_whitelist.contains(
            (d.config.lan_interfaces[j], IpNet::host(ips[k]).text(), None),
        ),
{
    let c = d.config;
    let x = (c.lan_interfaces[j], IpNet::host(ips[k]).text(), None::<u16>);
    let a = seqs::flat(c.targets, target_entries());
    let b = seqs::flat(c.lan_domains, domain_entries(c));
    let f = address_entries(ips);
    assert(f(c.lan_interfaces[j])[k] == x);
    assert(f(c.lan_interfaces[j]).contains(x));
    seqs::lemma_flat_contains(c.lan_interfaces, f, x);
    assert(domain_entries(c)(c.lan_domains[i]).contains(x));
    seqs::lemma_flat_contains(c.lan_domains, domain_entries(c), x);
    let m = choose|m: int| 0 <= m < b.len() && b[m] == x;
    assert((a + b)[a.len() + m] == x);
}

/// Whether an entry of the whitelist is for a configured target or for a local address of a LAN
/// domain.
pub open spec fn may_leave(c: ConfigView, x: (Seq<char>, Seq<char>, Option<u16>)) -> bool {
    ||| exists|i: int|
        0 <= i < c.targets.len() && (#[trigger] c.targets[i]).cidr == x.1
            && c.targets[i].via.contains(x.0)
    ||| c.lan_interfaces.contains(x.0) && exists|i: int|
        0 <= i < c.lan_domains.len() && (c.local_addresses(
            #[trigger] c.lan_domains[i],
        ) matches Some(ips) && exists|k: int|
            0 <= k < ips.len() && IpNet::host(#[trigger] ips[k]).text() == x.1)
}

/// Nothing else may leave, and what may leaves on all ports.
pub proof fn law_nothing_else_may_leave(
    d: DaemonView,
    interfaces: Seq<InterfaceView>,
    gateway: Option<IpAddr>,
    x: (Seq<char>, Seq<char>, Option<u16>),
)
    requires
        desired_of(d, interfaces, gateway).firewall_whitelist.contains(x),
    ensures
        x.2 is None,
        may_leave(d.config, x),
{
    let c = d.config;
    let a = seqs::flat(c.targets, target_entries());
    let b = seqs::flat(c.lan_domains, domain_entries(c));
    let m = choose|m: int| 0 <= m < (a + b).len() && (a + b)[m] == x;
    if m < a.len() {
        assert(a.contains(a[m]));
        seqs::lemma_flat_contains(c.targets, target_entries(), x);
        let i = choose|i: int|
            0 <= i < c.targets.len() && #[trigger] target_entries()(c.targets[i]).contains(x);
        let es = target_entries()(c.targets[i]);
        let k = choose|k: int| 0 <= k < es.len() && es[k] == x;
        assert(c.targets[i].via[k] == x.0);
    } else {
        assert(b.contains(b[m - a.len()]));
        seqs::lemma_flat_contains(c.lan_domains, domain_entries(c), x);
        let i = choose|i: int|
            0 <= i < c.lan_domains.len() && #[trigger] domain_entries(c)(
                c.lan_domains[i],
            ).contains(x);
        let ips = c.local_addresses(c.lan_domains[i])->0;
        let f = address_entries(ips);
        seqs::lemma_flat_contains(c.lan_interfaces, f, x);
        let j = choose|j: int|
            0 <= j < c.lan_interfaces.len() && #[trigger] f(c.lan_interfaces[j]).contains(x);
        let es = f(c.lan_interfaces[j]);
        let k = choose|k: int| 0 <= k < es.len() && es[k] == x;
        assert(c.lan_interfaces[j] == x.0);
        assert(IpNet::host(ips[k]).text() == x.1);
    }
}

/// What else a daemon wants: one rule, which looks the configured table up at the configured
/// priority; the blacklist and the LAN interfaces as they are configured; and as the normal path
/// the one in use or, if there is none, the first that is configured.
pub proof fn law_daemon_wants_what_is_configured(
    d: DaemonView,
    interfaces: Seq<InterfaceView>,
    gateway: Option<IpAddr>,
)
    ensures
        ({
            let w = desired_of(d, interfaces, gateway);
            &&& w.rules.len() == 1
            &&& w.rules[0].table == d.config.defaults.table_id
            &&& w.rules[0].priority == d.config.defaults.rule_priority
            &&& w.blacklist == d.config.blacklist
            &&& w.lan_interfaces == d.config.lan_interfaces
            &&& d.default_wan is Some ==> w.wan_interface == d.default_wan
            &&& d.default_wan is None && d.config.wan.len() > 0 ==> w.wan_interface == Some(
                d.config.wan[0],
            )
            &&& d.default_wan is None && d.config.wan.len() == 0 ==> w.wan_interface is None
            &&& daemon_engine(d, interfaces, gateway).wan_ipv6_gateway == gateway
        }),
{
}

/// Every domain of a network that has servers is to be asked of the first of them, and no other.
pub proof fn law_domains_go_to_their_server(
    d: DaemonView,
    interfaces: Seq<InterfaceView>,
    gateway: Option<IpAddr>,
    domain: Seq<char>,
    server: IpAddr,
)
    ensures
        desired_of(d, interfaces, gateway).dns_split_domains.contains((domain, server))
            <==> exists|i: int|
            0 <= i < d.config.networks.len() && (#[trigger] d.config.networks[i]).dns.len() > 0
                && d.config.networks[i].dns[0] == server && d.config.networks[i].domains.contains(
                domain,
            ),
{
    let ns = d.config.networks;
    let x = (domain, server);
    seqs::lemma_flat_contains(ns, split_of(), x);
    if exists|i: int|
        0 <= i < ns.len() && (#[trigger] ns[i]).dns.len() > 0 && ns[i].dns[0] == server
            && ns[i].domains.contains(domain) {
        let i = choose|i: int|
            0 <= i < ns.len() && (#[trigger] ns[i]).dns.len() > 0 && ns[i].dns[0] == server
                && ns[i].domains.contains(domain);
        let k = choose|k: int| 0 <= k < ns[i].domains.len() && ns[i].domains[k] == domain;
        assert(split_of()(ns[i])[k] == x);
        assert(split_of()(ns[i]).contains(x));
    }
    if seqs::flat(ns, split_of()).contains(x) {
        let i = choose|i: int| 0 <= i < ns.len() && #[trigger] split_of()(ns[i]).contains(x);
        let es = split_of()(ns[i]);
        let k = choose|k: int| 0 <= k < es.len() && es[k] == x;
        assert(ns[i].domains[k] == domain);
        assert(ns[i].dns.len() > 0);
    }
}

/// Every interface that a network or a target names is probed, and no other.
pub proof fn law_every_named_interface_is_probed(c: ConfigView, name: Seq<char>)
    ensures
        probed_interfaces(c).contains(name) <==> (exists|i: int|
            0 <= i < c.networks.len() && (#[trigger] c.networks[i]).interfaces.contains(name)) || (
        exists|i: int| 0 <= i < c.targets.len() && (#[trigger] c.targets[i]).via.contains(name)),
{
    let a = seqs::flat(c.networks, network_interfaces());
    let b = seqs::flat(c.targets, target_interfaces());
    names::lemma_sorted(a + b);
    seqs::lemma_flat_contains(c.networks, network_interfaces(), name);
    seqs::lemma_flat_contains(c.targets, target_interfaces(), name);
    assert((a + b).contains(name) <==> a.contains(name) || b.contains(name)) by {
        if a.contains(name) {
            let k = choose|k: int| 0 <= k < a.len() && a[k] == name;
            assert((a + b)[k] == name);
        }
        if b.contains(name) {
            let k = choose|k: int| 0 <= k < b.len() && b[k] == name;
            assert((a + b)[a.len() + k] == name);
        }
    }
    if a.contains(name) {
        let i = choose|i: int|
            0 <= i < c.networks.len() && #[trigger] network_interfaces()(c.networks[i]).contains(
                name,
            );
        assert(c.networks[i].interfaces.contains(name));
    }
    if b.contains(name) {
        let i = choose|i: int|
            0 <= i < c.targets.len() && #[trigger] target_interfaces()(c.targets[i]).contains(
                name,
            );
        assert(c.targets[i].via.contains(name));
    }
    if exists|i: int|
        0 <= i < c.networks.len() && (#[trigger] c.networks[i]).interfaces.contains(name) {
        let i = choose|i: int|
            0 <= i < c.networks.len() && (#[trigger] c.networks[i]).interfaces.contains(name);
        assert(network_interfaces()(c.networks[i]).contains(name));
    }
    if exists|i: int| 0 <= i < c.targets.len() && (#[trigger] c.targets[i]).via.contains(name) {
        let i = choose|i: int|
            0 <= i < c.targets.len() && (#[trigger] c.targets[i]).via.contains(name);
        assert(target_interfaces()(c.targets[i]).contains(name));
    }
}

/// Every interface of a target but that of the normal path is kept free of default routes, and no
/// other.
pub proof fn law_targets_are_guarded(d: DaemonView, wan: Seq<char>, name: Seq<char>)
    requires
        normal_path(d) == Some(wan),
    ensures
        guarded(d).contains(name) <==> name != wan && exists|i: int|
            0 <= i < d.config.targets.len() && (#[trigger] d.config.targets[i]).via.contains(name),
{
    let ts = d.config.targets;
    let f = guarded_on(wan);
    seqs::lemma_flat_contains(ts, f, name);
    if guarded(d).contains(name) {
        let i = choose|i: int| 0 <= i < ts.len() && #[trigger] f(ts[i]).contains(name);
        seqs::lemma_keep(ts[i].via, other_name(wan));
        assert(ts[i].via.contains(name));
    }
    if name != wan && exists|i: int| 0 <= i < ts.len() && (#[trigger] ts[i]).via.contains(name) {
        let i = choose|i: int| 0 <= i < ts.len() && (#[trigger] ts[i]).via.contains(name);
        seqs::lemma_keep(ts[i].via, other_name(wan));
        assert(f(ts[i]).contains(name));
    }
}

/// A round of probes tells of the paths that were probed and of no other: a path that was not is
/// as it was, and one that was probed once is as that probe makes it.
pub proof fn law_probes_tell_of_their_paths(
    config: HealthConfig,
    health: Seq<(Seq<char>, PathHealth)>,
    probes: Seq<(Seq<char>, bool)>,
    now: u64,
    name: Seq<char>,
)
    requires
        names::ascending(names::keys(health)),
    ensures
        names::ascending(names::keys(after_probes(config, health, probes, now))),
        (forall|i: int| 0 <= i < probes.len() ==> (#[trigger] probes[i]).0 != name)
            ==> names::lookup(after_probes(config, health, probes, now), name) == names::lookup(
            health,
            name,
        ),
        forall|k: int|
            0 <= k < probes.len() && (#[trigger] probes[k]).0 == name && (forall|i: int|
                0 <= i < probes.len() && i != k ==> (#[trigger] probes[i]).0 != name)
                ==> names::lookup(after_probes(config, health, probes, now), name) == Some(
                if probes[k].1 {
                    health::after_success(config, policy::health_of(health, name), now)
                } else {
                    health::after_failure(config, policy::health_of(health, name), now)
                },
            ),
    decreases probes.len(),
{
    if probes.len() > 0 {
        let rest = probes.drop_last();
        let before = after_probes(config, health, rest, now);
        let (last, ok) = probes.last();
        let h = after_probe(config, policy::health_of(before, last), ok, now);
        law_probes_tell_of_their_paths(config, health, rest, now, name);
        names::lemma_with_entry_ascending(before, last, h);
        names::lemma_lookup_with_entry(before, last, h, name);
        assert forall|i: int| 0 <= i < rest.len() implies rest[i] == #[trigger] probes[i] by {}
        if forall|i: int| 0 <= i < probes.len() ==> (#[trigger] probes[i]).0 != name {
            assert(probes[probes.len() - 1].0 != name);
            assert forall|i: int| 0 <= i < rest.len() implies (#[trigger] rest[i]).0 != name by {
                assert(probes[i].0 != name);
            }
        }
        assert forall|k: int|
            0 <= k < probes.len() && (#[trigger] probes[k]).0 == name && (forall|i: int|
                0 <= i < probes.len() && i != k ==> (#[trigger] probes[i]).0 != name) implies
            names::lookup(after_probes(config, health, probes, now), name) == Some(
            if probes[k].1 {
                health::after_success(config, policy::health_of(health, name), now)
            } else {
                health::after_failure(config, policy::health_of(health, name), now)
            },
        ) by {
            if k < rest.len() {
                assert(probes[probes.len() - 1].0 != name);
                assert(rest[k].0 == name);
                assert forall|i: int| 0 <= i < rest.len() && i != k implies (#[trigger] rest[i]).0
                    != name by {
                    assert(probes[i].0 != name);
                }
            } else {
                assert forall|i: int| 0 <= i < rest.len() implies (#[trigger] rest[i]).0 != name by {
                    assert(probes[i].0 != name);
                }
            }
        }
    }
}

/// No change goes unnoticed: if a round of probes is not said to change anything, every path is
/// available after it exactly if it was before.
pub proof fn law_no_change_goes_unnoticed(
    config: HealthConfig,
    health: Seq<(Seq<char>, PathHealth)>,
    probes: Seq<(Seq<char>, bool)>,
    now: u64,
    name: Seq<char>,
)
    requires
        names::ascending(names::keys(health)),
        !availability_changes(config, health, probes, now),
    ensures
        health::available(policy::health_of(after_probes(config, health, probes, now), name))
            == health::available(policy::health_of(health, name)),
    decreases probes.len(),
{
    if probes.len() > 0 {
        let rest = probes.drop_last();
        let before = after_probes(config, health, rest, now);
        let (last, ok) = probes.last();
        let h = after_probe(config, policy::health_of(before, last), ok, now);
        law_no_change_goes_unnoticed(config, health, rest, now, name);
        law_probes_tell_of_their_paths(config, health, rest, now, name);
        names::lemma_lookup_with_entry(before, last, h, name);
    }
}

/// A path that comes or goes with a probe is noticed: if one probe changes whether its path is
/// available and the round holds no other probe, the round is said to change something.
pub proof fn law_a_change_is_noticed(
    config: HealthConfig,
    health: Seq<(Seq<char>, PathHealth)>,
    name: Seq<char>,
    ok: bool,
    now: u64,
)
    ensures
        availability_changes(config, health, seq![(name, ok)], now) <==> health::available(
            policy::health_of(health, name),
        ) != health::available(
            if ok {
                health::after_success(config, policy::health_of(health, name), now)
            } else {
                health::after_failure(config, policy::health_of(health, name), now)
            },
        ),
{
    let one = seq![(name, ok)];
    assert(one.drop_last() =~= Seq::<(Seq<char>, bool)>::empty());
    assert(one.last() == (name, ok));
    reveal_with_fuel(availability_changes, 2);
    reveal_with_fuel(after_probes, 2);
}

/// What is found on the host is merged into a configuration, unless it is manual: then nothing
/// changes.
pub proof fn law_discovery_respects_the_mode(
    d: DaemonView,
    interfaces: Seq<InterfaceView>,
    gateways: Seq<(Seq<char>, IpAddr)>,
    neighbors: Seq<(Seq<char>, Seq<IpAddr>)>,
)
    ensures
        d.config.mode == OperatingMode::Manual ==> discovered(d, interfaces, gateways, neighbors)
            == d,
        d.config.mode != OperatingMode::Manual ==> forall|t: TargetView|
            #[trigger] detector::found_targets(interfaces, gateways, neighbors).contains(t)
                ==> detector::has_cidr(
                discovered(d, interfaces, gateways, neighbors).config.targets,
                t.cidr,
            ),
        d.config.targets.is_prefix_of(
            discovered(d, interfaces, gateways, neighbors).config.targets,
        ),
        discovered(d, interfaces, gateways, neighbors).health == d.health,
        discovered(d, interfaces, gateways, neighbors).default_wan == d.default_wan,
{
    let nets = seqs::flat(interfaces, detector::lan_network(gateways));
    let found = detector::found_targets(interfaces, gateways, neighbors);
    detector::law_merging_overwrites_nothing(d.config, nets, found);
    if d.config.mode != OperatingMode::Manual {
        assert forall|t: TargetView| #[trigger] found.contains(t) implies detector::has_cidr(
            discovered(d, interfaces, gateways, neighbors).config.targets,
            t.cidr,
        ) by {
            let i = choose|i: int| 0 <= i < found.len() && found[i] == t;
            assert(detector::has_cidr(
                detector::merged(d.config, nets, found).targets,
                found[i].cidr,
            ));
        }
    } else {
        assert(d.config.targets =~= d.config.targets.subrange(0, d.config.targets.len() as int));
    }
}

/// The domains of a network and its servers are told to the resolver for the first of its
/// interfaces, and those of the LAN for the first of the LAN.
pub proof fn law_links_are_of_the_first_interface(c: ConfigView, n: NetworkView)
    ensures
        n.interfaces.len() > 0 ==> link_of()(n).len() == 1 && link_of()(n)[0].interface
            == n.interfaces[0] && link_of()(n)[0].domains == n.domains && link_of()(n)[0].servers
            == n.dns,
        n.interfaces.len() == 0 ==> link_of()(n).len() == 0,
        c.lan_interfaces.len() > 0 ==> lan_link(c) is Ok && lan_link(c)->Ok_0.interface
            == c.lan_interfaces[0] && lan_link(c)->Ok_0.domains == c.lan_domains && lan_link(
            c,
        )->Ok_0.servers == c.lan_dns_servers,
        c.lan_interfaces.len() == 0 ==> lan_link(c) is Err,
{
}

/// Without a daemon a path is taken to work exactly if its interface is up and has a carrier.
pub proof fn law_live_interfaces_are_assumed_to_work(
    interfaces: Seq<InterfaceView>,
    failures: bool,
    i: int,
)
    requires
        0 <= i < interfaces.len(),
        forall|j: int| i < j < interfaces.len() ==> (#[trigger] interfaces[j]).name
            != interfaces[i].name,
    ensures
        names::ascending(names::keys(assumed_health(interfaces, failures))),
        health::available(
            policy::health_of(assumed_health(interfaces, failures), interfaces[i].name),
        ) <==> interfaces[i].is_up && interfaces[i].has_carrier,
    decreases interfaces.len(),
{
    let rest = interfaces.drop_last();
    let last = interfaces.last();
    lemma_assumed_ascending(rest, failures);
    let before = assumed_health(rest, failures);
    names::lemma_with_entry_ascending(before, last.name, assumed(last, failures));
    names::lemma_lookup_with_entry(
        before,
        last.name,
        assumed(last, failures),
        interfaces[i].name,
    );
    if i < rest.len() {
        assert(interfaces[interfaces.len() - 1].name != interfaces[i].name);
        assert forall|j: int| i < j < rest.len() implies (#[trigger] rest[j]).name
            != rest[i].name by {
            assert(interfaces[j].name != interfaces[i].name);
        }
        law_live_interfaces_are_assumed_to_work(rest, failures, i);
    }
}

proof fn lemma_assumed_ascending(interfaces: Seq<InterfaceView>, failures: bool)
    ensures
        names::ascending(names::keys(assumed_health(interfaces, failures))),
    decreases interfaces.len(),
{
    if interfaces.len() > 0 {
        lemma_assumed_ascending(interfaces.drop_last(), failures);
        names::lemma_with_entry_ascending(
            assumed_health(interfaces.drop_last(), failures),
            interfaces.last().name,
            assumed(interfaces.last(), failures),
        );
    }
}

/// What is against putting a policy in force: what the strict policy has against it or, if the LAN
/// would have to be asked for addresses in earnest, that no interface, no server or no resolver is
/// there for it.
pub proof fn law_what_is_against_a_policy(c: ConfigView, dry_run: bool, backend: Seq<char>)
    ensures
        apply_fault(c, dry_run, backend) is None <==> strict::strict(c),
        rejection(c) is None <==> strict::strict(c),
        needs_lan_dns(c) <==> exists|i: int|
            0 <= i < c.lan_domains.len() && c.local_addresses(#[trigger] c.lan_domains[i]) is None,
{
    strict::law_accepted_exactly_if_strict(c);
    if strict::strict(c) {
        assert forall|i: int| 0 <= i < c.lan_domains.len() implies c.local_addresses(
            #[trigger] c.lan_domains[i],
        ) is Some by {
            assert(strict::strict_domain(c, c.lan_domains[i]));
        }
    }
}

/// What the LAN answers for a domain is known of it afterwards, whatever was known before, and
/// nothing else changes.
pub proof fn law_answers_are_learned(d: DaemonView, domain: Seq<char>, addresses: Seq<IpAddr>)
    requires
        names::ascending(names::keys(d.config.local_dns)),
    ensures
        learned(d, domain, addresses).config.local_addresses(domain) == Some(addresses),
        learned(d, domain, addresses) == (DaemonView {
            config: ConfigView {
                local_dns: learned(d, domain, addresses).config.local_dns,
                ..d.config
            },
            ..d
        }),
{
    law_learned_addresses_are_known(d.config, domain, addresses);
}

} // verus!
