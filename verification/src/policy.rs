//! Rules, the decisions that follow from them, and the routes that put them in force.

use vstd::prelude::*;
use crate::classifier::{self, TargetClassifier};
use crate::config::{self, Config, ConfigView, NetworkView, OperatingMode, TargetView};
use crate::error::{CoreError, CoreErrorView};
use crate::health::{self, HealthStateMachine};
use crate::model::{
    self, Decision, DecisionView, FallbackAction, HealthState, Interface, InterfaceRole,
    InterfaceView, MatcherView, PathHealth, Route, RouteType, RouteView, RuleSource, TargetMatcher,
};
use crate::names::{self, NameMap};
use crate::net::{self, IpAddr, IpNet};
use crate::seqs;
use crate::strings;
use crate::text;

verus! {

/// Destinations and the interfaces that lead to them.
#[derive(Debug)]
pub struct PolicyRule {
    pub name: String,
    pub matcher: TargetMatcher,
    pub source: RuleSource,
    pub candidate_interfaces: Vec<String>,
    pub fallback: FallbackAction,
}

/// The value of a `PolicyRule` in specifications.
#[verifier::ext_equal]
pub struct RuleView {
    pub name: Seq<char>,
    pub matcher: MatcherView,
    pub source: RuleSource,
    pub candidate_interfaces: Seq<Seq<char>>,
    pub fallback: FallbackAction,
}

impl View for PolicyRule {
    type V = RuleView;

    open spec fn view(&self) -> RuleView {
        RuleView {
            name: self.name@,
            matcher: self.matcher@,
            source: self.source,
            candidate_interfaces: seqs::views(self.candidate_interfaces@),
            fallback: self.fallback,
        }
    }
}

impl Clone for PolicyRule {
    fn clone(&self) -> (r: PolicyRule)
        ensures
            r@ == self@,
    {
        PolicyRule {
            name: self.name.clone(),
            matcher: self.matcher.clone(),
            source: self.source,
            candidate_interfaces: model::copy_names(&self.candidate_interfaces),
            fallback: self.fallback,
        }
    }
}

pub struct PolicyEngine {
    pub mode: OperatingMode,
    pub table_id: u32,
    pub rules: Vec<PolicyRule>,
    pub default_wan_iface: Option<String>,
    pub local_dns: NameMap<Vec<IpAddr>>,
    pub blacklist: Vec<IpNet>,
    pub lan_interfaces: Vec<String>,
    pub lan_dns_servers: Vec<IpAddr>,
    pub wan_gateway: Option<IpAddr>,
    /// IPv6 gateway for the WAN path. Kept separate because a single
    /// interface may have different IPv4/IPv6 default gateways.
    pub wan_ipv6_gateway: Option<IpAddr>,
}

/// The value of a `PolicyEngine` in specifications.
#[verifier::ext_equal]
pub struct EngineView {
    pub mode: OperatingMode,
    pub table_id: u32,
    pub rules: Seq<RuleView>,
    pub default_wan_iface: Option<Seq<char>>,
    pub local_dns: Seq<(Seq<char>, Seq<IpAddr>)>,
    pub blacklist: Seq<IpNet>,
    pub lan_interfaces: Seq<Seq<char>>,
    pub lan_dns_servers: Seq<IpAddr>,
    pub wan_gateway: Option<IpAddr>,
    pub wan_ipv6_gateway: Option<IpAddr>,
}

impl View for PolicyEngine {
    type V = EngineView;

    open spec fn view(&self) -> EngineView {
        EngineView {
            mode: self.mode,
            table_id: self.table_id,
            rules: seqs::views(self.rules@),
            default_wan_iface: seqs::opt_view(self.default_wan_iface),
            local_dns: self.local_dns@,
            blacklist: self.blacklist@,
            lan_interfaces: seqs::views(self.lan_interfaces@),
            lan_dns_servers: self.lan_dns_servers@,
            wan_gateway: self.wan_gateway,
            wan_ipv6_gateway: self.wan_ipv6_gateway,
        }
    }
}

/// The main routing table, where the normal path is.
pub const MAIN_TABLE: u32 = 254;

// ---------------------------------------------------------------------------------------------
// Rules
// ---------------------------------------------------------------------------------------------
/// The source of a rule for a configured target.
pub open spec fn source_of(m: MatcherView) -> RuleSource {
    match m {
        MatcherView::HostIp(_) => RuleSource::ManualExact,
        MatcherView::Domain(_) => RuleSource::ManualDomain,
        MatcherView::Cidr(_) => RuleSource::ManualCidr,
        MatcherView::DomainSuffix(_) => RuleSource::ManualSuffix,
    }
}

/// The rule for a configured target, if the target can be read.
pub open spec fn target_rule() -> spec_fn(TargetView) -> Seq<RuleView> {
    |t: TargetView|
        match classifier::target_of(t.cidr) {
            Ok(m) => seq![
                RuleView {
                    name: t.name,
                    matcher: m,
                    source: source_of(m),
                    candidate_interfaces: t.via,
                    fallback: if text::to_lower(t.fallback) == "wan"@ {
                        FallbackAction::Wan
                    } else {
                        FallbackAction::Drop
                    },
                },
            ],
            Err(_) => Seq::empty(),
        }
}

/// The rule for a LAN domain.
pub open spec fn domain_rule(lan: Seq<Seq<char>>) -> spec_fn(Seq<char>) -> Seq<RuleView> {
    |d: Seq<char>|
        match classifier::target_of(d) {
            Ok(m) => seq![
                RuleView {
                    name: "lan-domain:"@ + d,
                    matcher: m,
                    source: RuleSource::ManualDomain,
                    candidate_interfaces: lan,
                    fallback: FallbackAction::Drop,
                },
            ],
            Err(_) => Seq::empty(),
        }
}

/// The rule for a domain of a network.
pub open spec fn network_rule(n: NetworkView) -> spec_fn(Seq<char>) -> Seq<RuleView> {
    |d: Seq<char>|
        match classifier::target_of(d) {
            Ok(m) => seq![
                RuleView {
                    name: n.name + ":"@ + d,
                    matcher: m,
                    source: if m is DomainSuffix {
                        RuleSource::ManualSuffix
                    } else {
                        RuleSource::ManualDomain
                    },
                    candidate_interfaces: if n.preferred.len() > 0 {
                        n.preferred
                    } else {
                        n.interfaces
                    },
                    fallback: FallbackAction::Drop,
                },
            ],
            Err(_) => Seq::empty(),
        }
}

/// The rules for the domains of a network.
pub open spec fn network_rules() -> spec_fn(NetworkView) -> Seq<RuleView> {
    |n: NetworkView| seqs::flat(n.domains, network_rule(n))
}

/// The rules that the configuration states: for targets, for LAN domains, and for the domains of
/// networks.
pub open spec fn manual_rules(c: ConfigView) -> Seq<RuleView> {
    seqs::flat(c.targets, target_rule()) + seqs::flat(c.lan_domains, domain_rule(c.lan_interfaces))
        + seqs::flat(c.networks, network_rules())
}

/// The network that an address of a LAN interface is in, unless the address means nothing
/// beyond the host or the link.
pub open spec fn lan_net(name: Seq<char>) -> spec_fn(IpNet) -> Seq<(Seq<char>, IpNet)> {
    |n: IpNet|
        if n.base().loopback() || n.base().link_local_v6() {
            Seq::empty()
        } else {
            seq![(name, n.truncated())]
        }
}

/// The networks of a LAN interface.
pub open spec fn lan_nets() -> spec_fn(InterfaceView) -> Seq<(Seq<char>, IpNet)> {
    |i: InterfaceView|
        if i.role == InterfaceRole::Lan {
            seqs::flat(i.ip_addrs, lan_net(i.name))
        } else {
            Seq::empty()
        }
}

/// Whether a rule is for a network.
pub open spec fn has_net_rule(rules: Seq<RuleView>, n: IpNet) -> bool {
    exists|i: int| 0 <= i < rules.len() && (#[trigger] rules[i]).matcher == MatcherView::Cidr(n)
}

/// The rules with one for each discovered network that no rule is for.
pub open spec fn with_discovered(rules: Seq<RuleView>, nets: Seq<(Seq<char>, IpNet)>) -> Seq<
    RuleView,
>
    decreases nets.len(),
{
    if nets.len() == 0 {
        rules
    } else {
        let before = with_discovered(rules, nets.drop_last());
        let (name, n) = nets.last();
        if has_net_rule(before, n) {
            before
        } else {
            before.push(
                RuleView {
                    name: "auto-lan:"@ + name,
                    matcher: MatcherView::Cidr(n),
                    source: RuleSource::AutoDiscovered,
                    candidate_interfaces: seq![name],
                    fallback: FallbackAction::Drop,
                },
            )
        }
    }
}

/// Whether a rule comes from `source`.
pub open spec fn from_source(source: RuleSource) -> spec_fn(RuleView) -> bool {
    |r: RuleView| r.source == source
}

/// The rules in order of precedence; those from one source keep their order.
pub open spec fn by_source(rules: Seq<RuleView>) -> Seq<RuleView> {
    seqs::keep(rules, from_source(RuleSource::ManualExact)) + seqs::keep(
        rules,
        from_source(RuleSource::ManualDomain),
    ) + seqs::keep(rules, from_source(RuleSource::ManualCidr)) + seqs::keep(
        rules,
        from_source(RuleSource::ManualSuffix),
    ) + seqs::keep(rules, from_source(RuleSource::AutoDiscovered)) + seqs::keep(
        rules,
        from_source(RuleSource::WanDefault),
    )
}

/// All rules of a configuration on a host with these interfaces.
pub open spec fn rules_of(c: ConfigView, interfaces: Seq<InterfaceView>) -> Seq<RuleView> {
    let manual = manual_rules(c);
    if c.mode == OperatingMode::Manual {
        manual
    } else {
        with_discovered(manual, seqs::flat(interfaces, lan_nets()))
    }
}

/// Whether an interface has a name.
pub open spec fn named(name: Seq<char>) -> spec_fn(InterfaceView) -> bool {
    |i: InterfaceView| i.name == name
}

/// The gateway of the interface of a name.
pub open spec fn gateway_of(interfaces: Seq<InterfaceView>, name: Option<Seq<char>>) -> Option<
    IpAddr,
> {
    match name {
        Some(n) => {
            let k = seqs::first_where(interfaces, named(n));
            if k < interfaces.len() {
                interfaces[k].gateway
            } else {
                None
            }
        },
        None => None,
    }
}

/// The engine of a configuration.
pub open spec fn engine_of(
    c: ConfigView,
    interfaces: Seq<InterfaceView>,
    default_wan: Option<Seq<char>>,
) -> EngineView {
    EngineView {
        mode: c.mode,
        table_id: c.defaults.table_id,
        rules: by_source(rules_of(c, interfaces)),
        default_wan_iface: default_wan,
        local_dns: c.local_dns,
        blacklist: c.blacklist,
        lan_interfaces: c.lan_interfaces,
        lan_dns_servers: c.lan_dns_servers,
        wan_gateway: gateway_of(interfaces, default_wan),
        wan_ipv6_gateway: None,
    }
}

fn matcher_source(m: &TargetMatcher) -> (r: RuleSource)
    ensures
        r == source_of(m@),
{
    match m {
        TargetMatcher::HostIp(_) => RuleSource::ManualExact,
        TargetMatcher::Domain(_) => RuleSource::ManualDomain,
        TargetMatcher::Cidr(_) => RuleSource::ManualCidr,
        TargetMatcher::DomainSuffix(_) => RuleSource::ManualSuffix,
    }
}

fn push_rule(rules: &mut Vec<PolicyRule>, rule: PolicyRule)
    ensures
        seqs::views(final(rules)@) == seqs::views(old(rules)@) + seq![rule@],
{
    proof {
        seqs::lemma_views_push(rules@, rule);
        assert(seqs::views(rules@).push(rule@) =~= seqs::views(rules@) + seq![rule@]);
    }
    rules.push(rule);
}

fn add_target_rules(rules: &mut Vec<PolicyRule>, config: &Config)
    ensures
        seqs::views(final(rules)@) == seqs::views(old(rules)@) + seqs::flat(
            config@.targets,
            target_rule(),
        ),
{
    let ghost all = config@.targets;
    let ghost before = seqs::views(rules@);
    let mut i: usize = 0;
    proof {
        assert(all.take(0).len() == 0);
        assert(before + seqs::flat(all.take(0), target_rule()) =~= before);
    }
    while i < config.targets.len()
        invariant
            i <= config.targets.len(),
            all == config@.targets,
            seqs::views(rules@) == before + seqs::flat(all.take(i as int), target_rule()),
        decreases config.targets.len() - i,
    {
        let ghost now = seqs::views(rules@);
        let target = &config.targets[i];
        proof {
            seqs::lemma_flat_next(all, target_rule(), i as int);
            assert(all[i as int] == target@);
        }
        if let Ok(matcher) = TargetClassifier::parse(target.cidr.as_str()) {
            let source = matcher_source(&matcher);
            let lower = strings::to_lower(target.fallback.as_str());
            let fallback = if strings::same(lower.as_str(), "wan") {
                FallbackAction::Wan
            } else {
                FallbackAction::Drop
            };
            push_rule(
                rules,
                PolicyRule {
                    name: target.name.clone(),
                    matcher,
                    source,
                    candidate_interfaces: model::copy_names(&target.via),
                    fallback,
                },
            );
        }
        proof {
            assert(seqs::views(rules@) =~= now + target_rule()(target@));
            assert(now + target_rule()(target@) =~= before + (seqs::flat(
                all.take(i as int),
                target_rule(),
            ) + target_rule()(target@)));
        }
        i += 1;
    }
    proof {
        seqs::lemma_take_all(all);
    }
}

fn add_domain_rules(rules: &mut Vec<PolicyRule>, config: &Config)
    ensures
        seqs::views(final(rules)@) == seqs::views(old(rules)@) + seqs::flat(
            config@.lan_domains,
            domain_rule(config@.lan_interfaces),
        ),
{
    let ghost all = config@.lan_domains;
    let ghost f = domain_rule(config@.lan_interfaces);
    let ghost before = seqs::views(rules@);
    let mut i: usize = 0;
    proof {
        assert(all.take(0).len() == 0);
        assert(before + seqs::flat(all.take(0), f) =~= before);
    }
    while i < config.lan_domains.len()
        invariant
            i <= config.lan_domains.len(),
            all == config@.lan_domains,
            f == domain_rule(config@.lan_interfaces),
            seqs::views(rules@) == before + seqs::flat(all.take(i as int), f),
        decreases config.lan_domains.len() - i,
    {
        let ghost now = seqs::views(rules@);
        let domain = config.lan_domains[i].as_str();
        proof {
            seqs::lemma_flat_next(all, f, i as int);
            assert(all[i as int] == domain@);
        }
        if let Ok(matcher) = TargetClassifier::parse(domain) {
            push_rule(
                rules,
                PolicyRule {
                    name: "lan-domain:".to_owned().concat(domain),
                    matcher,
                    source: RuleSource::ManualDomain,
                    candidate_interfaces: model::copy_names(&config.lan_interfaces),
                    fallback: FallbackAction::Drop,
                },
            );
        }
        proof {
            assert(seqs::views(rules@) =~= now + f(domain@));
            assert(now + f(domain@) =~= before + (seqs::flat(all.take(i as int), f) + f(domain@)));
        }
        i += 1;
    }
    proof {
        seqs::lemma_take_all(all);
    }
}

fn add_network_rules(rules: &mut Vec<PolicyRule>, net: &config::NetworkConfig)
    ensures
        seqs::views(final(rules)@) == seqs::views(old(rules)@) + network_rules()(net@),
{
    let ghost all = net@.domains;
    let ghost f = network_rule(net@);
    let ghost before = seqs::views(rules@);
    let mut i: usize = 0;
    proof {
        assert(all.take(0).len() == 0);
        assert(before + seqs::flat(all.take(0), f) =~= before);
    }
    while i < net.domains.len()
        invariant
            i <= net.domains.len(),
            all == net@.domains,
            f == network_rule(net@),
            seqs::views(rules@) == before + seqs::flat(all.take(i as int), f),
        decreases net.domains.len() - i,
    {
        let ghost now = seqs::views(rules@);
        let domain = net.domains[i].as_str();
        proof {
            seqs::lemma_flat_next(all, f, i as int);
            assert(all[i as int] == domain@);
        }
        if let Ok(matcher) = TargetClassifier::parse(domain) {
            let source = match &matcher {
                TargetMatcher::DomainSuffix(_) => RuleSource::ManualSuffix,
                _ => RuleSource::ManualDomain,
            };
            let candidates = if net.preferred.len() > 0 {
                model::copy_names(&net.preferred)
            } else {
                model::copy_names(&net.interfaces)
            };
            push_rule(
                rules,
                PolicyRule {
                    name: net.name.clone().concat(":").concat(domain),
                    matcher,
                    source,
                    candidate_interfaces: candidates,
                    fallback: FallbackAction::Drop,
                },
            );
        }
        proof {
            assert(seqs::views(rules@) =~= now + f(domain@));
            assert(now + f(domain@) =~= before + (seqs::flat(all.take(i as int), f) + f(domain@)));
        }
        i += 1;
    }
    proof {
        seqs::lemma_take_all(all);
    }
}

fn add_all_network_rules(rules: &mut Vec<PolicyRule>, config: &Config)
    ensures
        seqs::views(final(rules)@) == seqs::views(old(rules)@) + seqs::flat(
            config@.networks,
            network_rules(),
        ),
{
    let ghost all = config@.networks;
    let ghost before = seqs::views(rules@);
    let mut i: usize = 0;
    proof {
        assert(all.take(0).len() == 0);
        assert(before + seqs::flat(all.take(0), network_rules()) =~= before);
    }
    while i < config.networks.len()
        invariant
            i <= config.networks.len(),
            all == config@.networks,
            seqs::views(rules@) == before + seqs::flat(all.take(i as int), network_rules()),
        decreases config.networks.len() - i,
    {
        let ghost now = seqs::views(rules@);
        proof {
            seqs::lemma_flat_next(all, network_rules(), i as int);
            assert(all[i as int] == config.networks@[i as int]@);
            assert(now + network_rules()(all[i as int]) =~= before + (seqs::flat(
                all.take(i as int),
                network_rules(),
            ) + network_rules()(all[i as int])));
        }
        add_network_rules(rules, &config.networks[i]);
        i += 1;
    }
    proof {
        seqs::lemma_take_all(all);
    }
}

fn knows_net(rules: &Vec<PolicyRule>, n: IpNet) -> (r: bool)
    ensures
        r == has_net_rule(seqs::views(rules@), n),
{
    let ghost all = seqs::views(rules@);
    let mut i: usize = 0;
    while i < rules.len()
        invariant
            i <= rules.len(),
            all == seqs::views(rules@),
            forall|j: int| 0 <= j < i ==> (#[trigger] all[j]).matcher != MatcherView::Cidr(n),
        decreases rules.len() - i,
    {
        proof {
            assert(all[i as int] == rules@[i as int]@);
        }
        if let TargetMatcher::Cidr(m) = &rules[i].matcher {
            if *m == n {
                return true;
            }
        }
        i += 1;
    }
    false
}

pub proof fn lemma_with_discovered_concat(
    rules: Seq<RuleView>,
    a: Seq<(Seq<char>, IpNet)>,
    b: Seq<(Seq<char>, IpNet)>,
)
    ensures
        with_discovered(rules, a + b) == with_discovered(with_discovered(rules, a), b),
    decreases b.len(),
{
    if b.len() == 0 {
        assert(a + b =~= a);
    } else {
        assert((a + b).drop_last() =~= a + b.drop_last());
        assert((a + b).last() == b.last());
        lemma_with_discovered_concat(rules, a, b.drop_last());
    }
}

fn add_lan_nets(rules: &mut Vec<PolicyRule>, iface: &Interface)
    ensures
        seqs::views(final(rules)@) == with_discovered(
            seqs::views(old(rules)@),
            seqs::flat(iface@.ip_addrs, lan_net(iface@.name)),
        ),
{
    let ghost all = iface@.ip_addrs;
    let ghost f = lan_net(iface@.name);
    let ghost before = seqs::views(rules@);
    let mut i: usize = 0;
    proof {
        assert(all.take(0).len() == 0);
    }
    while i < iface.ip_addrs.len()
        invariant
            i <= iface.ip_addrs.len(),
            all == iface.ip_addrs@,
            f == lan_net(iface@.name),
            seqs::views(rules@) == with_discovered(before, seqs::flat(all.take(i as int), f)),
        decreases iface.ip_addrs.len() - i,
    {
        let n = iface.ip_addrs[i];
        proof {
            seqs::lemma_flat_next(all, f, i as int);
            lemma_with_discovered_concat(before, seqs::flat(all.take(i as int), f), f(n));
        }
        if !(n.addr().is_loopback() || n.addr().is_link_local_v6()) {
            let trunc = n.trunc();
            proof {
                assert(f(n).drop_last() =~= Seq::<(Seq<char>, IpNet)>::empty());
                reveal_with_fuel(with_discovered, 2);
            }
            if !knows_net(rules, trunc) {
                let mut candidates: Vec<String> = Vec::new();
                candidates.push(iface.name.clone());
                proof {
                    assert(seqs::views(candidates@) =~= seq![iface@.name]);
                }
                let ghost now = seqs::views(rules@);
                let rule = PolicyRule {
                    name: "auto-lan:".to_owned().concat(iface.name.as_str()),
                    matcher: TargetMatcher::Cidr(trunc),
                    source: RuleSource::AutoDiscovered,
                    candidate_interfaces: candidates,
                    fallback: FallbackAction::Drop,
                };
                proof {
                    assert(now + seq![rule@] =~= now.push(rule@));
                }
                push_rule(rules, rule);
            }
        }
        i += 1;
    }
    proof {
        seqs::lemma_take_all(all);
    }
}

fn add_discovered(rules: &mut Vec<PolicyRule>, interfaces: &[Interface])
    ensures
        seqs::views(final(rules)@) == with_discovered(
            seqs::views(old(rules)@),
            seqs::flat(seqs::views(interfaces@), lan_nets()),
        ),
{
    let ghost all = seqs::views(interfaces@);
    let ghost before = seqs::views(rules@);
    let mut i: usize = 0;
    proof {
        assert(all.take(0).len() == 0);
    }
    while i < interfaces.len()
        invariant
            i <= interfaces.len(),
            all == seqs::views(interfaces@),
            seqs::views(rules@) == with_discovered(
                before,
                seqs::flat(all.take(i as int), lan_nets()),
            ),
        decreases interfaces.len() - i,
    {
        proof {
            seqs::lemma_flat_next(all, lan_nets(), i as int);
            assert(all[i as int] == interfaces@[i as int]@);
            lemma_with_discovered_concat(
                before,
                seqs::flat(all.take(i as int), lan_nets()),
                lan_nets()(all[i as int]),
            );
        }
        if interfaces[i].role == InterfaceRole::Lan {
            add_lan_nets(rules, &interfaces[i]);
        }
        i += 1;
    }
    proof {
        seqs::lemma_take_all(all);
    }
}

fn push_from_source(out: &mut Vec<PolicyRule>, rules: &Vec<PolicyRule>, source: RuleSource)
    ensures
        seqs::views(final(out)@) == seqs::views(old(out)@) + seqs::keep(
            seqs::views(rules@),
            from_source(source),
        ),
{
    let ghost all = seqs::views(rules@);
    let ghost before = seqs::views(out@);
    let mut i: usize = 0;
    proof {
        assert(all.take(0).len() == 0);
        assert(before + seqs::keep(all.take(0), from_source(source)) =~= before);
    }
    while i < rules.len()
        invariant
            i <= rules.len(),
            all == seqs::views(rules@),
            seqs::views(out@) == before + seqs::keep(all.take(i as int), from_source(source)),
        decreases rules.len() - i,
    {
        proof {
            seqs::lemma_take_next(all, i as int);
            assert(all[i as int] == rules@[i as int]@);
        }
        if rules[i].source == source {
            let ghost kept = seqs::keep(all.take(i as int), from_source(source));
            push_rule(out, rules[i].clone());
            proof {
                assert(before + kept + seq![all[i as int]] =~= before + kept.push(all[i as int]));
            }
        }
        i += 1;
    }
    proof {
        seqs::lemma_take_all(all);
    }
}

fn sort_rules(rules: &Vec<PolicyRule>) -> (r: Vec<PolicyRule>)
    ensures
        seqs::views(r@) == by_source(seqs::views(rules@)),
{
    let mut out: Vec<PolicyRule> = Vec::new();
    push_from_source(&mut out, rules, RuleSource::ManualExact);
    push_from_source(&mut out, rules, RuleSource::ManualDomain);
    push_from_source(&mut out, rules, RuleSource::ManualCidr);
    push_from_source(&mut out, rules, RuleSource::ManualSuffix);
    push_from_source(&mut out, rules, RuleSource::AutoDiscovered);
    push_from_source(&mut out, rules, RuleSource::WanDefault);
    proof {
        assert(seqs::views(out@) =~= by_source(seqs::views(rules@)));
    }
    out
}

fn find_gateway(interfaces: &[Interface], name: &Option<String>) -> (r: Option<IpAddr>)
    ensures
        r == gateway_of(seqs::views(interfaces@), seqs::opt_view(*name)),
{
    let ghost all = seqs::views(interfaces@);
    match name {
        Some(n) => {
            let mut i: usize = 0;
            while i < interfaces.len()
                invariant
                    i <= interfaces.len(),
                    all == seqs::views(interfaces@),
                    *name == Some(*n),
                    forall|j: int| 0 <= j < i ==> !named(n@)(#[trigger] all[j]),
                decreases interfaces.len() - i,
            {
                proof {
                    assert(all[i as int] == interfaces@[i as int]@);
                }
                if strings::same(interfaces[i].name.as_str(), n.as_str()) {
                    proof {
                        seqs::lemma_first_where_is(all, named(n@), i as int);
                    }
                    return interfaces[i].gateway;
                }
                i += 1;
            }
            proof {
                seqs::lemma_first_where_is(all, named(n@), i as int);
            }
            None
        },
        None => None,
    }
}

impl PolicyEngine {
    pub fn from_config(
        config: &Config,
        interfaces: &[Interface],
        default_wan: Option<String>,
    ) -> (r: PolicyEngine)
        ensures
            r@ == engine_of(config@, seqs::views(interfaces@), seqs::opt_view(default_wan)),
    {
        let mut rules: Vec<PolicyRule> = Vec::new();
        add_target_rules(&mut rules, config);
        // Explicit LAN domains are separate from raw IP targets. Their DNS
        // transport is configured by the application layer, while any known
        // answer is routed through the configured LAN interface here.
        add_domain_rules(&mut rules, config);
        add_all_network_rules(&mut rules, config);
        proof {
            assert(seqs::views(rules@) =~= manual_rules(config@));
        }
        if config.mode != OperatingMode::Manual {
            add_discovered(&mut rules, interfaces);
        }
        let rules = sort_rules(&rules);
        let wan_gateway = find_gateway(interfaces, &default_wan);
        PolicyEngine {
            mode: config.mode,
            table_id: config.defaults.table_id,
            rules,
            default_wan_iface: default_wan,
            local_dns: names::copy_lists(&config.local_dns),
            blacklist: net::copy_nets(&config.blacklist),
            lan_interfaces: model::copy_names(&config.lan_interfaces),
            lan_dns_servers: net::copy_ips(&config.lan_dns_servers),
            wan_gateway,
            wan_ipv6_gateway: None,
        }
    }

    /// Supply the IPv6 gateway discovered by the platform backend.
    /// This is intentionally a setter so existing callers/tests that only
    /// know the IPv4 gateway remain source-compatible.
    pub fn set_wan_ipv6_gateway(&mut self, gateway: Option<IpAddr>)
        ensures
            final(self)@ == (EngineView { wan_ipv6_gateway: gateway, ..old(self)@ }),
    {
        self.wan_ipv6_gateway = gateway;
    }
}

// ---------------------------------------------------------------------------------------------
// Decisions
// ---------------------------------------------------------------------------------------------
/// The form in which names are compared here: as in the configuration, and without the marks of
/// a routing domain (`~`) or a wildcard (`*.`) before it.
pub open spec fn canonical(name: Seq<char>) -> Seq<char> {
    text::lower_ascii(
        text::strip_tail(
            text::strip_wildcards(text::strip_lead(text::trim(name), '~')),
            '.',
        ),
    )
}

fn canonical_domain(name: &str) -> (r: String)
    ensures
        r@ == canonical(name@),
{
    strings::lower_ascii(
        strings::strip_tail(
            strings::strip_wildcards(strings::strip_lead(strings::trim(name), '~')),
            '.',
        ),
    )
}

/// What is known of the path through an interface.
pub open spec fn health_of(health: Seq<(Seq<char>, PathHealth)>, name: Seq<char>) -> PathHealth {
    match names::lookup(health, name) {
        Some(h) => h,
        None => PathHealth::unknown(),
    }
}

/// Whether an interface is available.
pub open spec fn usable(health: Seq<(Seq<char>, PathHealth)>) -> spec_fn(Seq<char>) -> bool {
    |name: Seq<char>| health::available(health_of(health, name))
}

/// The address that a destination denotes: itself, or the first that the local records hold for
/// its name.
pub open spec fn address_of(e: EngineView, target: Seq<char>) -> Option<IpAddr> {
    address_from(e, target, classifier::target_of(target), net::ip_from(target))
}

/// The address of a destination that denotes `parsed` and reads as the address `own`, if as any.
pub open spec fn address_from(
    e: EngineView,
    target: Seq<char>,
    parsed: Result<MatcherView, CoreErrorView>,
    own: Option<IpAddr>,
) -> Option<IpAddr> {
    match parsed {
        Ok(MatcherView::HostIp(ip)) => Some(ip),
        _ => match own {
            Some(ip) => Some(ip),
            None => match config::record_of(e.local_dns, canonical(target)) {
                Some(ips) => if ips.len() > 0 {
                    Some(ips[0])
                } else {
                    None
                },
                None => None,
            },
        },
    }
}

/// Whether an address is on the blacklist.
pub open spec fn blacklisted(e: EngineView, ip: IpAddr) -> bool {
    exists|i: int| 0 <= i < e.blacklist.len() && (#[trigger] e.blacklist[i]).holds(ip)
}

/// Whether a matcher matches a destination that denotes `parsed` and has the address `ip`, if any.
pub open spec fn matcher_matches(
    m: MatcherView,
    target: Seq<char>,
    parsed: Result<MatcherView, CoreErrorView>,
    ip: Option<IpAddr>,
) -> bool {
    match m {
        MatcherView::HostIp(own) => ip == Some(own),
        MatcherView::Cidr(n) => match ip {
            Some(ip) => n.holds(ip),
            None => match parsed {
                Ok(MatcherView::Cidr(wanted)) => n.holds(wanted.first()),
                _ => false,
            },
        },
        MatcherView::Domain(d) => canonical(d) == canonical(target),
        MatcherView::DomainSuffix(s) => s.is_suffix_of(text::to_lower(text::trim(target))),
    }
}

/// Whether a rule matches a destination that denotes `parsed` and has the address `ip`, if any.
pub open spec fn rule_covers(
    target: Seq<char>,
    parsed: Result<MatcherView, CoreErrorView>,
    ip: Option<IpAddr>,
) -> spec_fn(RuleView) -> bool {
    |r: RuleView| matcher_matches(r.matcher, target, parsed, ip)
}

/// Whether a rule matches a destination.
pub open spec fn rule_matches(e: EngineView, target: Seq<char>) -> spec_fn(RuleView) -> bool {
    rule_covers(target, classifier::target_of(target), address_of(e, target))
}

/// The interfaces, each with its state.
pub open spec fn states(
    health: Seq<(Seq<char>, PathHealth)>,
    candidates: Seq<Seq<char>>,
) -> Seq<char>
    decreases candidates.len(),
{
    if candidates.len() == 0 {
        Seq::empty()
    } else {
        let before = states(health, candidates.drop_last());
        let c = candidates.last();
        (if before.len() > 0 {
            before + ", "@
        } else {
            before
        }) + c + ": "@ + health_of(health, c).state.text()
    }
}

/// The state of the last interface.
pub open spec fn last_state(
    health: Seq<(Seq<char>, PathHealth)>,
    candidates: Seq<Seq<char>>,
) -> HealthState {
    if candidates.len() == 0 {
        HealthState::Unknown
    } else {
        health_of(health, candidates.last()).state
    }
}

/// The decision for a destination that no LAN rule governs.
pub open spec fn wan_decision(
    e: EngineView,
    target: Seq<char>,
    ip: Option<IpAddr>,
    reason: Seq<char>,
) -> DecisionView {
    DecisionView {
        destination: target,
        resolved_ip: ip,
        matched_rule: None,
        rule_source: RuleSource::WanDefault,
        selected_interface: e.default_wan_iface,
        candidate_interfaces: match e.default_wan_iface {
            Some(w) => seq![w],
            None => Seq::empty(),
        },
        health_state: HealthState::Healthy,
        routing_table: MAIN_TABLE,
        reason,
    }
}

/// The decision for a destination that a rule governs: the first interface that is available, or
/// else the fallback of the rule.
pub open spec fn rule_decision(
    e: EngineView,
    target: Seq<char>,
    ip: Option<IpAddr>,
    rule: RuleView,
    health: Seq<(Seq<char>, PathHealth)>,
) -> DecisionView {
    let candidates = rule.candidate_interfaces;
    let k = seqs::first_where(candidates, usable(health));
    let failed = states(health, candidates);
    let base = DecisionView {
        destination: target,
        resolved_ip: ip,
        matched_rule: Some(rule.name),
        rule_source: rule.source,
        selected_interface: None,
        candidate_interfaces: candidates,
        health_state: last_state(health, candidates),
        routing_table: e.table_id,
        reason: Seq::empty(),
    };
    if k < candidates.len() {
        DecisionView {
            selected_interface: Some(candidates[k]),
            health_state: HealthState::Healthy,
            reason: "Matched "@ + rule.source.text() + " -> selected healthy "@ + candidates[k],
            ..base
        }
    } else {
        match rule.fallback {
            FallbackAction::Drop => DecisionView {
                reason: "All candidates failed ("@ + failed + "); lab target blocked (DROP)"@,
                ..base
            },
            FallbackAction::Wan => DecisionView {
                selected_interface: e.default_wan_iface,
                routing_table: MAIN_TABLE,
                reason: "All candidates failed ("@ + failed + "); fallback to WAN"@,
                ..base
            },
            FallbackAction::Unreachable => DecisionView {
                reason: "Target unreachable ("@ + failed + ")"@,
                ..base
            },
        }
    }
}

/// The decision for a destination: the blacklist goes first, then the first rule that matches,
/// then the normal path.
pub open spec fn decision(
    e: EngineView,
    target: Seq<char>,
    health: Seq<(Seq<char>, PathHealth)>,
) -> DecisionView {
    decision_from(e, target, classifier::target_of(target), address_of(e, target), health)
}

/// The decision for a destination that denotes `parsed` and has the address `ip`, if any.
pub open spec fn decision_from(
    e: EngineView,
    target: Seq<char>,
    parsed: Result<MatcherView, CoreErrorView>,
    ip: Option<IpAddr>,
    health: Seq<(Seq<char>, PathHealth)>,
) -> DecisionView {
    let k = seqs::first_where(e.rules, rule_covers(target, parsed, ip));
    if ip is Some && blacklisted(e, ip->0) {
        wan_decision(
            e,
            target,
            ip,
            "Destination matches blacklist; forced to WLAN and denied on LAN"@,
        )
    } else if k < e.rules.len() {
        rule_decision(e, target, ip, e.rules[k], health)
    } else {
        wan_decision(e, target, ip, "No lab policy matched; normal WAN routing in main table"@)
    }
}

fn path_health(health_map: &NameMap<PathHealth>, name: &str) -> (r: PathHealth)
    ensures
        r == health_of(health_map@, name@),
{
    match health_map.get(name) {
        Some(h) => *h,
        None => PathHealth::default(),
    }
}

fn first_usable(
    candidates: &Vec<String>,
    health_map: &NameMap<PathHealth>,
    health_sm: &HealthStateMachine,
) -> (r: usize)
    ensures
        r == seqs::first_where(seqs::views(candidates@), usable(health_map@)),
        r <= candidates.len(),
{
    let ghost all = seqs::views(candidates@);
    let mut i: usize = 0;
    while i < candidates.len()
        invariant
            i <= candidates.len(),
            all == seqs::views(candidates@),
            forall|j: int| 0 <= j < i ==> !usable(health_map@)(#[trigger] all[j]),
        decreases candidates.len() - i,
    {
        proof {
            assert(all[i as int] == candidates@[i as int]@);
        }
        let h = path_health(health_map, candidates[i].as_str());
        if health_sm.is_available(&h) {
            proof {
                seqs::lemma_first_where_is(all, usable(health_map@), i as int);
            }
            return i;
        }
        i += 1;
    }
    proof {
        seqs::lemma_first_where_is(all, usable(health_map@), i as int);
    }
    i
}

fn describe_states(candidates: &Vec<String>, health_map: &NameMap<PathHealth>) -> (r: (
    String,
    HealthState,
))
    ensures
        r.0@ == states(health_map@, seqs::views(candidates@)),
        r.1 == last_state(health_map@, seqs::views(candidates@)),
{
    let ghost all = seqs::views(candidates@);
    let mut out: String = "".to_owned();
    let mut last = HealthState::Unknown;
    let mut i: usize = 0;
    proof {
        assert(all.take(0).len() == 0);
        reveal_strlit("");
        assert(out@ =~= Seq::<char>::empty());
    }
    while i < candidates.len()
        invariant
            i <= candidates.len(),
            all == seqs::views(candidates@),
            out@ == states(health_map@, all.take(i as int)),
            last == last_state(health_map@, all.take(i as int)),
        decreases candidates.len() - i,
    {
        proof {
            seqs::lemma_take_next(all, i as int);
            assert(all[i as int] == candidates@[i as int]@);
        }
        let h = path_health(health_map, candidates[i].as_str());
        last = h.state;
        if out.as_str().unicode_len() > 0 {
            out = out.concat(", ");
        }
        out = out.concat(candidates[i].as_str()).concat(": ").concat(h.state.to_string().as_str());
        i += 1;
    }
    proof {
        seqs::lemma_take_all(all);
    }
    (out, last)
}

impl PolicyEngine {
    /// The address of a destination that denotes `parsed` and reads as the address `own`, if as
    /// any.
    pub fn find_address(
        &self,
        target: &str,
        parsed: &Result<TargetMatcher, CoreError>,
        own: Option<IpAddr>,
    ) -> (r: Option<IpAddr>)
        ensures
            r == address_from(self@, target@, classifier::target_view(*parsed), own),
    {
        if let Ok(TargetMatcher::HostIp(ip)) = parsed {
            return Some(*ip);
        }
        if let Some(ip) = own {
            return Some(ip);
        }
        let form = canonical_domain(target);
        match config::find_record(&self.local_dns, form.as_str()) {
            Some(ips) => if ips.len() > 0 {
                Some(ips[0])
            } else {
                None
            },
            None => None,
        }
    }

    fn is_blacklisted(&self, ip: IpAddr) -> (r: bool)
        ensures
            r == blacklisted(self@, ip),
    {
        let mut i: usize = 0;
        while i < self.blacklist.len()
            invariant
                i <= self.blacklist.len(),
                forall|j: int| 0 <= j < i ==> !(#[trigger] self@.blacklist[j]).holds(ip),
            decreases self.blacklist.len() - i,
        {
            if self.blacklist[i].contains(&ip) {
                proof {
                    assert(self@.blacklist[i as int].holds(ip));
                }
                return true;
            }
            i += 1;
        }
        false
    }

    fn decide_wan(&self, target: &str, ip: Option<IpAddr>, reason: &str) -> (r: Decision)
        ensures
            r@ == wan_decision(self@, target@, ip, reason@),
    {
        let mut candidates: Vec<String> = Vec::new();
        if let Some(w) = &self.default_wan_iface {
            candidates.push(w.clone());
        }
        let r = Decision {
            destination: target.to_owned(),
            resolved_ip: ip,
            matched_rule: None,
            rule_source: RuleSource::WanDefault,
            selected_interface: model::copy_name(&self.default_wan_iface),
            candidate_interfaces: candidates,
            health_state: HealthState::Healthy,
            routing_table: MAIN_TABLE,
            reason: reason.to_owned(),
        };
        proof {
            assert(r@ =~= wan_decision(self@, target@, ip, reason@));
        }
        r
    }

    fn decide_rule(
        &self,
        target: &str,
        ip: Option<IpAddr>,
        rule: &PolicyRule,
        health_map: &NameMap<PathHealth>,
        health_sm: &HealthStateMachine,
    ) -> (r: Decision)
        ensures
            r@ == rule_decision(self@, target@, ip, rule@, health_map@),
    {
        let k = first_usable(&rule.candidate_interfaces, health_map, health_sm);
        if k < rule.candidate_interfaces.len() {
            let iface = &rule.candidate_interfaces[k];
            return Decision {
                destination: target.to_owned(),
                resolved_ip: ip,
                matched_rule: Some(rule.name.clone()),
                rule_source: rule.source,
                selected_interface: Some(iface.clone()),
                candidate_interfaces: model::copy_names(&rule.candidate_interfaces),
                health_state: HealthState::Healthy,
                routing_table: self.table_id,
                reason: "Matched ".to_owned().concat(rule.source.to_string().as_str()).concat(
                    " -> selected healthy ",
                ).concat(iface.as_str()),
            };
        }
        let (failed, last_health) = describe_states(&rule.candidate_interfaces, health_map);
        let (table, iface, reason) = match rule.fallback {
            FallbackAction::Drop => (
                self.table_id,
                None,
                "All candidates failed (".to_owned().concat(failed.as_str()).concat(
                    "); lab target blocked (DROP)",
                ),
            ),
            FallbackAction::Wan => (
                MAIN_TABLE,
                model::copy_name(&self.default_wan_iface),
                "All candidates failed (".to_owned().concat(failed.as_str()).concat(
                    "); fallback to WAN",
                ),
            ),
            FallbackAction::Unreachable => (
                self.table_id,
                None,
                "Target unreachable (".to_owned().concat(failed.as_str()).concat(")"),
            ),
        };
        Decision {
            destination: target.to_owned(),
            resolved_ip: ip,
            matched_rule: Some(rule.name.clone()),
            rule_source: rule.source,
            selected_interface: iface,
            candidate_interfaces: model::copy_names(&rule.candidate_interfaces),
            health_state: last_health,
            routing_table: table,
            reason,
        }
    }

    fn matches(
        &self,
        matcher: &TargetMatcher,
        target: &str,
        parsed: &Result<TargetMatcher, CoreError>,
        ip: Option<IpAddr>,
    ) -> (r: bool)
        ensures
            r == matcher_matches(matcher@, target@, classifier::target_view(*parsed), ip),
    {
        match matcher {
            TargetMatcher::HostIp(own) => match ip {
                Some(ip) => *own == ip,
                None => false,
            },
            TargetMatcher::Cidr(n) => match ip {
                Some(ip) => n.contains(&ip),
                None => match parsed {
                    Ok(TargetMatcher::Cidr(wanted)) => n.contains(&wanted.network()),
                    _ => false,
                },
            },
            TargetMatcher::Domain(d) => canonical_domain(d.as_str()) == canonical_domain(target),
            TargetMatcher::DomainSuffix(s) => {
                let lower = strings::to_lower(strings::trim(target));
                strings::ends_with(lower.as_str(), s.as_str())
            },
        }
    }

    pub fn decide(
        &self,
        target_str: &str,
        health_map: &NameMap<PathHealth>,
        health_sm: &HealthStateMachine,
    ) -> (r: Decision)
        ensures
            r@ == decision(self@, target_str@, health_map@),
    {
        let parsed = TargetClassifier::parse(target_str);
        let ip = self.find_address(target_str, &parsed, IpAddr::parse(target_str));
        self.decide_parsed(target_str, &parsed, ip, health_map, health_sm)
    }

    /// The decision for a destination that denotes `parsed` and has the address `maybe_ip`, if
    /// any.
    pub fn decide_parsed(
        &self,
        target_str: &str,
        parsed: &Result<TargetMatcher, CoreError>,
        maybe_ip: Option<IpAddr>,
        health_map: &NameMap<PathHealth>,
        health_sm: &HealthStateMachine,
    ) -> (r: Decision)
        ensures
            r@ == decision_from(
                self@,
                target_str@,
                classifier::target_view(*parsed),
                maybe_ip,
                health_map@,
            ),
    {
        // A blacklist is an explicit WLAN-only override. It is checked before
        // every manual LAN rule so an overlapping target configuration cannot
        // accidentally send an agent endpoint to the LAN interface.
        if let Some(ip) = maybe_ip {
            if self.is_blacklisted(ip) {
                return self.decide_wan(
                    target_str,
                    maybe_ip,
                    "Destination matches blacklist; forced to WLAN and denied on LAN",
                );
            }
        }
        let ghost e = self@;
        let ghost p = rule_covers(target_str@, classifier::target_view(*parsed), maybe_ip);
        let mut i: usize = 0;
        while i < self.rules.len()
            invariant
                i <= self.rules.len(),
                e == self@,
                !(maybe_ip is Some && blacklisted(e, maybe_ip->0)),
                p == rule_covers(target_str@, classifier::target_view(*parsed), maybe_ip),
                forall|j: int| 0 <= j < i ==> !p(#[trigger] e.rules[j]),
            decreases self.rules.len() - i,
        {
            proof {
                assert(e.rules[i as int] == self.rules@[i as int]@);
            }
            if self.matches(&self.rules[i].matcher, target_str, parsed, maybe_ip) {
                proof {
                    seqs::lemma_first_where_is(e.rules, p, i as int);
                }
                return self.decide_rule(
                    target_str,
                    maybe_ip,
                    &self.rules[i],
                    health_map,
                    health_sm,
                );
            }
            i += 1;
        }
        proof {
            seqs::lemma_first_where_is(e.rules, p, i as int);
        }
        self.decide_wan(
            target_str,
            maybe_ip,
            "No lab policy matched; normal WAN routing in main table",
        )
    }
}

// ---------------------------------------------------------------------------------------------
// Routes
// ---------------------------------------------------------------------------------------------
/// The metric of a route that pins a blacklisted network to the normal path.
pub const PINNED_METRIC: u32 = 1;

/// The metric of a route to one host.
pub const HOST_METRIC: u32 = 50;

/// The metric of a route to a network.
pub const NETWORK_METRIC: u32 = 100;

/// One host for each address.
pub open spec fn hosts(ips: Seq<IpAddr>) -> Seq<(IpNet, u32)> {
    Seq::new(ips.len(), |i: int| (IpNet::host(ips[i]), HOST_METRIC))
}

/// Whether a name is `suffix` or ends in a dot and `suffix`.
pub open spec fn at_or_under(name: Seq<char>, suffix: Seq<char>) -> bool {
    name == suffix || ("."@ + suffix).is_suffix_of(name)
}

/// The hosts of a local record whose name, as it is written or in canonical form, is `suffix` or
/// ends in a dot and `suffix`.
pub open spec fn under(suffix: Seq<char>) -> spec_fn((Seq<char>, Seq<IpAddr>)) -> Seq<
    (IpNet, u32),
> {
    |record: (Seq<char>, Seq<IpAddr>)|
        if at_or_under(record.0, suffix) || at_or_under(config::canonical(record.0), suffix) {
            hosts(record.1)
        } else {
            Seq::empty()
        }
}

/// The networks that a matcher matches and that routes can name, each with its metric: a name
/// stands for the addresses that the local records hold for it.
pub open spec fn destinations(e: EngineView, m: MatcherView) -> Seq<(IpNet, u32)> {
    match m {
        MatcherView::Cidr(n) => seq![(n, NETWORK_METRIC)],
        MatcherView::HostIp(ip) => seq![(IpNet::host(ip), HOST_METRIC)],
        MatcherView::Domain(d) => match config::record_of(e.local_dns, canonical(d)) {
            Some(ips) => hosts(ips),
            None => Seq::empty(),
        },
        MatcherView::DomainSuffix(s) => seqs::flat(e.local_dns, under(canonical(s))),
    }
}

/// A route in the table of the engine.
pub open spec fn lan_route(
    e: EngineView,
    d: (IpNet, u32),
    iface: Seq<char>,
    route_type: RouteType,
) -> RouteView {
    RouteView {
        destination: d.0,
        output_interface: iface,
        gateway: None,
        table: e.table_id,
        metric: Some(d.1),
        route_type,
    }
}

/// One route for each destination.
pub open spec fn lan_routes(
    e: EngineView,
    ds: Seq<(IpNet, u32)>,
    iface: Seq<char>,
    route_type: RouteType,
) -> Seq<RouteView> {
    Seq::new(ds.len(), |i: int| lan_route(e, ds[i], iface, route_type))
}

/// The routes of a rule: through the first interface that is available; if none is, they reject
/// packets, so that these do not fall through to the main table, unless the rule says to use the
/// normal path then.
pub open spec fn rule_routes(
    e: EngineView,
    health: Seq<(Seq<char>, PathHealth)>,
) -> spec_fn(RuleView) -> Seq<RouteView> {
    |r: RuleView|
        {
            let k = seqs::first_where(r.candidate_interfaces, usable(health));
            let ds = destinations(e, r.matcher);
            if k < r.candidate_interfaces.len() {
                lan_routes(e, ds, r.candidate_interfaces[k], RouteType::Unicast)
            } else if r.fallback is Wan {
                Seq::empty()
            } else {
                lan_routes(e, ds, Seq::empty(), RouteType::Unreachable)
            }
        }
}

/// The route that pins a blacklisted network to the normal path.
pub open spec fn pinned_route(e: EngineView, n: IpNet, wan: Seq<char>) -> RouteView {
    RouteView {
        destination: n,
        output_interface: wan,
        gateway: if n.base() is V4 {
            e.wan_gateway
        } else {
            e.wan_ipv6_gateway
        },
        table: e.table_id,
        metric: Some(PINNED_METRIC),
        route_type: RouteType::Unicast,
    }
}

/// The routes that pin the blacklist to the normal path.
pub open spec fn pinned_routes(e: EngineView) -> Seq<RouteView> {
    match e.default_wan_iface {
        Some(wan) => Seq::new(e.blacklist.len(), |i: int| pinned_route(e, e.blacklist[i], wan)),
        None => Seq::empty(),
    }
}

/// The routes that put the rules in force, each once.
pub open spec fn desired_routes(
    e: EngineView,
    health: Seq<(Seq<char>, PathHealth)>,
) -> Seq<RouteView> {
    seqs::dedup(pinned_routes(e) + seqs::flat(e.rules, rule_routes(e, health)))
}

fn push_hosts(nets: &mut Vec<(IpNet, u32)>, ips: &Vec<IpAddr>)
    ensures
        final(nets)@ == old(nets)@ + hosts(ips@),
{
    let ghost before = nets@;
    let mut i: usize = 0;
    proof {
        assert(before + hosts(ips@).take(0) =~= before);
    }
    while i < ips.len()
        invariant
            i <= ips.len(),
            nets@ == before + hosts(ips@).take(i as int),
        decreases ips.len() - i,
    {
        nets.push((IpNet::of_host(ips[i]), HOST_METRIC));
        proof {
            seqs::lemma_take_next(hosts(ips@), i as int);
            assert(nets@ =~= before + hosts(ips@).take(i + 1));
        }
        i += 1;
    }
    proof {
        seqs::lemma_take_all(hosts(ips@));
    }
}

fn push_route(routes: &mut Vec<Route>, route: Route)
    ensures
        seqs::views(final(routes)@) == seqs::views(old(routes)@).push(route@),
{
    proof {
        seqs::lemma_views_push(routes@, route);
    }
    routes.push(route);
}

fn knows_route(routes: &Vec<Route>, route: &Route) -> (r: bool)
    ensures
        r == seqs::views(routes@).contains(route@),
{
    let ghost all = seqs::views(routes@);
    let mut i: usize = 0;
    while i < routes.len()
        invariant
            i <= routes.len(),
            all == seqs::views(routes@),
            forall|j: int| 0 <= j < i ==> #[trigger] all[j] != route@,
        decreases routes.len() - i,
    {
        proof {
            assert(all[i as int] == routes@[i as int]@);
        }
        if routes[i].same(route) {
            return true;
        }
        i += 1;
    }
    false
}

fn dedup_routes(routes: &Vec<Route>) -> (r: Vec<Route>)
    ensures
        seqs::views(r@) == seqs::dedup(seqs::views(routes@)),
{
    let ghost all = seqs::views(routes@);
    let mut out: Vec<Route> = Vec::new();
    let mut i: usize = 0;
    proof {
        assert(seqs::views(out@) =~= seqs::dedup(all.take(0)));
    }
    while i < routes.len()
        invariant
            i <= routes.len(),
            all == seqs::views(routes@),
            seqs::views(out@) == seqs::dedup(all.take(i as int)),
        decreases routes.len() - i,
    {
        proof {
            seqs::lemma_take_next(all, i as int);
            assert(all[i as int] == routes@[i as int]@);
        }
        if !knows_route(&out, &routes[i]) {
            push_route(&mut out, routes[i].clone());
        }
        i += 1;
    }
    proof {
        seqs::lemma_take_all(all);
    }
    out
}

impl PolicyEngine {
    fn find_destinations(&self, matcher: &TargetMatcher) -> (r: Vec<(IpNet, u32)>)
        ensures
            r@ == destinations(self@, matcher@),
    {
        let mut nets: Vec<(IpNet, u32)> = Vec::new();
        match matcher {
            TargetMatcher::Cidr(n) => {
                nets.push((*n, NETWORK_METRIC));
                proof {
                    assert(nets@ =~= seq![(*n, NETWORK_METRIC)]);
                }
            },
            TargetMatcher::HostIp(ip) => {
                nets.push((IpNet::of_host(*ip), HOST_METRIC));
                proof {
                    assert(nets@ =~= seq![(IpNet::host(*ip), HOST_METRIC)]);
                }
            },
            TargetMatcher::Domain(d) => {
                let form = canonical_domain(d.as_str());
                if let Some(ips) = config::find_record(&self.local_dns, form.as_str()) {
                    push_hosts(&mut nets, ips);
                    proof {
                        assert(nets@ =~= hosts(ips@));
                    }
                }
            },
            TargetMatcher::DomainSuffix(s) => {
                let suffix = canonical_domain(s.as_str());
                let dotted = ".".to_owned().concat(suffix.as_str());
                let ghost all = self.local_dns@;
                let ghost f = under(suffix@);
                let mut i: usize = 0;
                proof {
                    assert(all.take(0).len() == 0);
                }
                while i < self.local_dns.len()
                    invariant
                        i <= all.len(),
                        all == self.local_dns@,
                        f == under(suffix@),
                        dotted@ == "."@ + suffix@,
                        nets@ == seqs::flat(all.take(i as int), f),
                    decreases all.len() - i,
                {
                    let ghost now = nets@;
                    proof {
                        seqs::lemma_flat_next(all, f, i as int);
                    }
                    let name = self.local_dns.name_at(i);
                    let form = config::canonical_domain(name.as_str());
                    if strings::same(name.as_str(), suffix.as_str()) || strings::ends_with(
                        name.as_str(),
                        dotted.as_str(),
                    ) || strings::same(form.as_str(), suffix.as_str()) || strings::ends_with(
                        form.as_str(),
                        dotted.as_str(),
                    ) {
                        push_hosts(&mut nets, self.local_dns.value_at(i));
                    }
                    proof {
                        assert(nets@ =~= now + f(all[i as int]));
                    }
                    i += 1;
                }
                proof {
                    seqs::lemma_take_all(all);
                }
            },
        }
        nets
    }

    fn push_lan_routes(
        &self,
        routes: &mut Vec<Route>,
        ds: &Vec<(IpNet, u32)>,
        iface: &str,
        route_type: RouteType,
    )
        ensures
            seqs::views(final(routes)@) == seqs::views(old(routes)@) + lan_routes(
                self@,
                ds@,
                iface@,
                route_type,
            ),
    {
        let ghost before = seqs::views(routes@);
        let ghost all = lan_routes(self@, ds@, iface@, route_type);
        let mut i: usize = 0;
        proof {
            assert(before + all.take(0) =~= before);
        }
        while i < ds.len()
            invariant
                i <= ds.len(),
                all == lan_routes(self@, ds@, iface@, route_type),
                seqs::views(routes@) == before + all.take(i as int),
            decreases ds.len() - i,
        {
            let ghost now = seqs::views(routes@);
            push_route(
                routes,
                Route {
                    destination: ds[i].0,
                    output_interface: iface.to_owned(),
                    gateway: None,
                    table: self.table_id,
                    metric: Some(ds[i].1),
                    route_type,
                },
            );
            proof {
                seqs::lemma_take_next(all, i as int);
                assert(now.push(all[i as int]) =~= before + all.take(i + 1));
            }
            i += 1;
        }
        proof {
            seqs::lemma_take_all(all);
        }
    }

    fn push_pinned_routes(&self, routes: &mut Vec<Route>)
        ensures
            seqs::views(final(routes)@) == seqs::views(old(routes)@) + pinned_routes(self@),
    {
        let ghost before = seqs::views(routes@);
        let ghost all = pinned_routes(self@);
        proof {
            assert(before + all.take(0) =~= before);
        }
        if let Some(wan) = &self.default_wan_iface {
            let mut i: usize = 0;
            while i < self.blacklist.len()
                invariant
                    i <= self.blacklist.len(),
                    self.default_wan_iface == Some(*wan),
                    all == pinned_routes(self@),
                    all.len() == self.blacklist.len(),
                    seqs::views(routes@) == before + all.take(i as int),
                decreases self.blacklist.len() - i,
            {
                let ghost now = seqs::views(routes@);
                let n = self.blacklist[i];
                let gateway = match n.addr() {
                    IpAddr::V4(_) => self.wan_gateway,
                    IpAddr::V6(_) => self.wan_ipv6_gateway,
                };
                push_route(
                    routes,
                    Route {
                        destination: n,
                        output_interface: wan.clone(),
                        gateway,
                        table: self.table_id,
                        metric: Some(PINNED_METRIC),
                        route_type: RouteType::Unicast,
                    },
                );
                proof {
                    seqs::lemma_take_next(all, i as int);
                    assert(now.push(all[i as int]) =~= before + all.take(i + 1));
                }
                i += 1;
            }
            proof {
                seqs::lemma_take_all(all);
            }
        } else {
            proof {
                assert(before + all =~= before);
            }
        }
    }

    fn push_rule_routes(
        &self,
        routes: &mut Vec<Route>,
        rule: &PolicyRule,
        health_map: &NameMap<PathHealth>,
        health_sm: &HealthStateMachine,
    )
        ensures
            seqs::views(final(routes)@) == seqs::views(old(routes)@) + rule_routes(
                self@,
                health_map@,
            )(rule@),
    {
        let k = first_usable(&rule.candidate_interfaces, health_map, health_sm);
        let ds = self.find_destinations(&rule.matcher);
        if k < rule.candidate_interfaces.len() {
            self.push_lan_routes(
                routes,
                &ds,
                rule.candidate_interfaces[k].as_str(),
                RouteType::Unicast,
            );
        } else {
            match rule.fallback {
                FallbackAction::Drop | FallbackAction::Unreachable => {
                    proof {
                        reveal_strlit("");
                        assert(""@ =~= Seq::<char>::empty());
                    }
                    self.push_lan_routes(routes, &ds, "", RouteType::Unreachable);
                },
                FallbackAction::Wan => {
                    proof {
                        assert(seqs::views(routes@) + Seq::<RouteView>::empty() =~= seqs::views(
                            routes@,
                        ));
                    }
                },
            }
        }
    }

    pub fn generate_desired_routes(
        &self,
        health_map: &NameMap<PathHealth>,
        health_sm: &HealthStateMachine,
    ) -> (r: Vec<Route>)
        ensures
            seqs::views(r@) == desired_routes(self@, health_map@),
    {
        let mut routes: Vec<Route> = Vec::new();
        // There are no routes to LAN DNS servers. A route can identify only an
        // IP, not the DNS QNAME, so it would let any process query arbitrary
        // domains through the LAN.
        self.push_pinned_routes(&mut routes);
        let ghost e = self@;
        let ghost f = rule_routes(e, health_map@);
        let ghost pinned = pinned_routes(e);
        let mut i: usize = 0;
        proof {
            assert(e.rules.take(0).len() == 0);
            assert(seqs::views(routes@) =~= pinned + seqs::flat(e.rules.take(0), f));
        }
        while i < self.rules.len()
            invariant
                i <= self.rules.len(),
                e == self@,
                f == rule_routes(e, health_map@),
                seqs::views(routes@) == pinned + seqs::flat(e.rules.take(i as int), f),
            decreases self.rules.len() - i,
        {
            let ghost now = seqs::views(routes@);
            proof {
                seqs::lemma_flat_next(e.rules, f, i as int);
                assert(e.rules[i as int] == self.rules@[i as int]@);
                assert(now + f(e.rules[i as int]) =~= pinned + (seqs::flat(
                    e.rules.take(i as int),
                    f,
                ) + f(e.rules[i as int])));
            }
            self.push_rule_routes(&mut routes, &self.rules[i], health_map, health_sm);
            i += 1;
        }
        proof {
            seqs::lemma_take_all(e.rules);
        }
        dedup_routes(&routes)
    }
}

} // verus!
