//! What holds of every decision and of every set of routes.

use vstd::prelude::*;
use crate::classifier;
use crate::config::{self, ConfigView, OperatingMode, TargetView};
use crate::error::CoreErrorView;
use crate::health;
use crate::model::{
    DecisionView, FallbackAction, HealthState, InterfaceRole, InterfaceView, MatcherView,
    PathHealth, RouteType, RouteView, RuleSource,
};
use crate::net::{self, IpAddr, IpNet};
use crate::policy::{self, EngineView, RuleView};
use crate::seqs;
use crate::strict;
use crate::text;

verus! {

/// Whether rules stand in order of precedence.
pub open spec fn in_precedence(rules: Seq<RuleView>) -> bool {
    forall|i: int, j: int|
        0 <= i <= j < rules.len() ==> (#[trigger] rules[i]).source.rank() <= (
        #[trigger] rules[j]).source.rank()
}

/// Whether the rules stand in order of precedence and come from no source behind `rank`.
spec fn up_to(rules: Seq<RuleView>, rank: int) -> bool {
    in_precedence(rules) && forall|i: int|
        0 <= i < rules.len() ==> (#[trigger] rules[i]).source.rank() <= rank
}

proof fn lemma_append_source(rules: Seq<RuleView>, all: Seq<RuleView>, source: RuleSource)
    requires
        up_to(rules, source.rank() - 1),
    ensures
        up_to(rules + seqs::keep(all, policy::from_source(source)), source.rank()),
{
    let more = seqs::keep(all, policy::from_source(source));
    let r = rules + more;
    seqs::lemma_keep(all, policy::from_source(source));
    assert forall|i: int| 0 <= i < more.len() implies (#[trigger] more[i]).source == source by {
        assert(more.contains(more[i]));
    }
    assert forall|i: int, j: int| 0 <= i <= j < r.len() implies (#[trigger] r[i]).source.rank() <= (
    #[trigger] r[j]).source.rank() by {
        if i < rules.len() {
            assert(r[i] == rules[i]);
        } else {
            assert(r[i] == more[i - rules.len()]);
        }
        if j < rules.len() {
            assert(r[j] == rules[j]);
        } else {
            assert(r[j] == more[j - rules.len()]);
        }
    }
    assert forall|i: int| 0 <= i < r.len() implies (#[trigger] r[i]).source.rank()
        <= source.rank() by {
        if i < rules.len() {
            assert(r[i] == rules[i]);
        } else {
            assert(r[i] == more[i - rules.len()]);
        }
    }
}

/// Sorting puts rules in order of precedence.
pub proof fn law_rules_stand_in_precedence(rules: Seq<RuleView>)
    ensures
        in_precedence(policy::by_source(rules)),
{
    let none = Seq::<RuleView>::empty();
    assert(up_to(none, 0));
    lemma_append_source(none, rules, RuleSource::ManualExact);
    let a = none + seqs::keep(rules, policy::from_source(RuleSource::ManualExact));
    lemma_append_source(a, rules, RuleSource::ManualDomain);
    let b = a + seqs::keep(rules, policy::from_source(RuleSource::ManualDomain));
    lemma_append_source(b, rules, RuleSource::ManualCidr);
    let c = b + seqs::keep(rules, policy::from_source(RuleSource::ManualCidr));
    lemma_append_source(c, rules, RuleSource::ManualSuffix);
    let d = c + seqs::keep(rules, policy::from_source(RuleSource::ManualSuffix));
    lemma_append_source(d, rules, RuleSource::AutoDiscovered);
    let e = d + seqs::keep(rules, policy::from_source(RuleSource::AutoDiscovered));
    lemma_append_source(e, rules, RuleSource::WanDefault);
    let f = e + seqs::keep(rules, policy::from_source(RuleSource::WanDefault));
    assert(f =~= policy::by_source(rules));
}

/// Sorting keeps every rule and adds none.
pub proof fn law_sorting_keeps_the_rules(rules: Seq<RuleView>, r: RuleView)
    ensures
        policy::by_source(rules).contains(r) <==> rules.contains(r),
{
    let f = |s: RuleSource| seqs::keep(rules, policy::from_source(s));
    let sorted = policy::by_source(rules);
    seqs::lemma_keep(rules, policy::from_source(RuleSource::ManualExact));
    seqs::lemma_keep(rules, policy::from_source(RuleSource::ManualDomain));
    seqs::lemma_keep(rules, policy::from_source(RuleSource::ManualCidr));
    seqs::lemma_keep(rules, policy::from_source(RuleSource::ManualSuffix));
    seqs::lemma_keep(rules, policy::from_source(RuleSource::AutoDiscovered));
    seqs::lemma_keep(rules, policy::from_source(RuleSource::WanDefault));
    let a = f(RuleSource::ManualExact);
    let b = f(RuleSource::ManualDomain);
    let c = f(RuleSource::ManualCidr);
    let d = f(RuleSource::ManualSuffix);
    let e = f(RuleSource::AutoDiscovered);
    let w = f(RuleSource::WanDefault);
    lemma_concat_contains(a, b, r);
    lemma_concat_contains(a + b, c, r);
    lemma_concat_contains(a + b + c, d, r);
    lemma_concat_contains(a + b + c + d, e, r);
    lemma_concat_contains(a + b + c + d + e, w, r);
    assert(sorted == a + b + c + d + e + w);
    assert(a.contains(r) <==> rules.contains(r) && r.source is ManualExact);
    assert(b.contains(r) <==> rules.contains(r) && r.source is ManualDomain);
    assert(c.contains(r) <==> rules.contains(r) && r.source is ManualCidr);
    assert(d.contains(r) <==> rules.contains(r) && r.source is ManualSuffix);
    assert(e.contains(r) <==> rules.contains(r) && r.source is AutoDiscovered);
    assert(w.contains(r) <==> rules.contains(r) && r.source is WanDefault);
}

proof fn lemma_concat_contains<A>(a: Seq<A>, b: Seq<A>, x: A)
    ensures
        (a + b).contains(x) <==> a.contains(x) || b.contains(x),
{
    if a.contains(x) {
        let i = choose|i: int| 0 <= i < a.len() && a[i] == x;
        assert((a + b)[i] == x);
    }
    if b.contains(x) {
        let i = choose|i: int| 0 <= i < b.len() && b[i] == x;
        assert((a + b)[a.len() + i] == x);
    }
    if (a + b).contains(x) {
        let i = choose|i: int| 0 <= i < (a + b).len() && (a + b)[i] == x;
        if i < a.len() {
            assert(a[i] == x);
        } else {
            assert(b[i - a.len()] == x);
        }
    }
}

/// A blacklisted address is decided for the normal path, whatever the rules say.
pub proof fn law_blacklist_goes_first(
    e: EngineView,
    target: Seq<char>,
    health: Seq<(Seq<char>, PathHealth)>,
    ip: IpAddr,
)
    requires
        policy::address_of(e, target) == Some(ip),
        policy::blacklisted(e, ip),
    ensures
        policy::decision(e, target, health).selected_interface == e.default_wan_iface,
        policy::decision(e, target, health).routing_table == 254,
        policy::decision(e, target, health).rule_source is WanDefault,
        policy::decision(e, target, health).matched_rule is None,
{
}

/// Of the rules that match a destination, one from the source that wins is applied: in an engine
/// of a configuration no rule that matches has a better source.
pub proof fn law_best_source_decides(
    c: ConfigView,
    interfaces: Seq<InterfaceView>,
    wan: Option<Seq<char>>,
    target: Seq<char>,
    health: Seq<(Seq<char>, PathHealth)>,
    i: int,
)
    requires
        0 <= i < policy::engine_of(c, interfaces, wan).rules.len(),
        policy::decision(policy::engine_of(c, interfaces, wan), target, health).matched_rule is Some,
        policy::rule_matches(policy::engine_of(c, interfaces, wan), target)(
            policy::engine_of(c, interfaces, wan).rules[i],
        ),
    ensures
        policy::decision(
            policy::engine_of(c, interfaces, wan),
            target,
            health,
        ).rule_source.rank() <= policy::engine_of(c, interfaces, wan).rules[i].source.rank(),
{
    let e = policy::engine_of(c, interfaces, wan);
    law_rules_stand_in_precedence(policy::rules_of(c, interfaces));
    seqs::lemma_first_where(e.rules, policy::rule_matches(e, target));
    let k = seqs::first_where(e.rules, policy::rule_matches(e, target));
    assert(k <= i) by {
        if i < k {
            assert(!policy::rule_matches(e, target)(e.rules[i]));
        }
    }
    assert(e.rules[k].source.rank() <= e.rules[i].source.rank());
}

/// A destination whose rule does not name the normal path as its fallback never leaves by it:
/// unless it is blacklisted, it is sent through an available interface of the rule or not at
/// all, and never looked up in the main table.
pub proof fn law_failure_never_leaks(
    e: EngineView,
    target: Seq<char>,
    health: Seq<(Seq<char>, PathHealth)>,
)
    requires
        policy::address_of(e, target) matches Some(ip) ==> !policy::blacklisted(e, ip),
        seqs::first_where(e.rules, policy::rule_matches(e, target)) < e.rules.len(),
        !(e.rules[seqs::first_where(
            e.rules,
            policy::rule_matches(e, target),
        )].fallback is Wan),
    ensures
        ({
            let d = policy::decision(e, target, health);
            let r = e.rules[seqs::first_where(e.rules, policy::rule_matches(e, target))];
            &&& d.routing_table == e.table_id
            &&& match d.selected_interface {
                Some(name) => r.candidate_interfaces.contains(name) && health::available(
                    policy::health_of(health, name),
                ),
                None => forall|i: int|
                    0 <= i < r.candidate_interfaces.len() ==> !health::available(
                        policy::health_of(health, #[trigger] r.candidate_interfaces[i]),
                    ),
            }
        }),
{
    let r = e.rules[seqs::first_where(e.rules, policy::rule_matches(e, target))];
    let cs = r.candidate_interfaces;
    seqs::lemma_first_where(e.rules, policy::rule_matches(e, target));
    seqs::lemma_first_where(cs, policy::usable(health));
    let k = seqs::first_where(cs, policy::usable(health));
    if k < cs.len() {
        assert(policy::usable(health)(cs[k]));
    } else {
        assert forall|i: int| 0 <= i < cs.len() implies !health::available(
            policy::health_of(health, #[trigger] cs[i]),
        ) by {
            assert(!policy::usable(health)(cs[i]));
        }
    }
}

/// Where no rule matches and nothing is blacklisted, the normal path is taken.
pub proof fn law_unknown_goes_the_normal_way(
    e: EngineView,
    target: Seq<char>,
    health: Seq<(Seq<char>, PathHealth)>,
)
    requires
        forall|i: int|
            0 <= i < e.rules.len() ==> !policy::rule_matches(e, target)(#[trigger] e.rules[i]),
    ensures
        policy::decision(e, target, health).selected_interface == e.default_wan_iface,
        policy::decision(e, target, health).routing_table == 254,
        policy::decision(e, target, health).rule_source is WanDefault,
{
    seqs::lemma_first_where_is(e.rules, policy::rule_matches(e, target), e.rules.len() as int);
}

proof fn lemma_desired_contains(
    e: EngineView,
    health: Seq<(Seq<char>, PathHealth)>,
    r: RouteView,
)
    ensures
        policy::desired_routes(e, health).contains(r) <==> policy::pinned_routes(e).contains(r)
            || exists|i: int|
            0 <= i < e.rules.len() && #[trigger] policy::rule_routes(e, health)(
                e.rules[i],
            ).contains(r),
{
    let f = policy::rule_routes(e, health);
    seqs::lemma_dedup(policy::pinned_routes(e) + seqs::flat(e.rules, f));
    lemma_concat_contains(policy::pinned_routes(e), seqs::flat(e.rules, f), r);
    seqs::lemma_flat_contains(e.rules, f, r);
    assert(policy::desired_routes(e, health).contains(r) <==> (policy::pinned_routes(e)
        + seqs::flat(e.rules, f)).contains(r));
}

/// No route is wanted twice.
pub proof fn law_routes_are_distinct(e: EngineView, health: Seq<(Seq<char>, PathHealth)>)
    ensures
        policy::desired_routes(e, health).no_duplicates(),
{
    seqs::lemma_dedup(
        policy::pinned_routes(e) + seqs::flat(e.rules, policy::rule_routes(e, health)),
    );
}

/// Every route is in the table of the engine.
pub proof fn law_routes_stay_in_the_table(
    e: EngineView,
    health: Seq<(Seq<char>, PathHealth)>,
    r: RouteView,
)
    requires
        policy::desired_routes(e, health).contains(r),
    ensures
        r.table == e.table_id,
{
    lemma_desired_contains(e, health, r);
    if policy::pinned_routes(e).contains(r) {
        let i = choose|i: int|
            0 <= i < policy::pinned_routes(e).len() && policy::pinned_routes(e)[i] == r;
    } else {
        let i = choose|i: int|
            0 <= i < e.rules.len() && #[trigger] policy::rule_routes(e, health)(
                e.rules[i],
            ).contains(r);
        let rs = policy::rule_routes(e, health)(e.rules[i]);
        let j = choose|j: int| 0 <= j < rs.len() && rs[j] == r;
    }
}

/// Whether a route of this metric yields to one that pins a blacklisted network.
pub open spec fn behind_pinned(metric: Option<u32>) -> bool {
    match metric {
        Some(m) => policy::PINNED_METRIC < m,
        None => false,
    }
}

/// Every blacklisted network is pinned to the normal path, by a route whose metric is below that
/// of every route of a rule.
pub proof fn law_blacklist_is_pinned(
    e: EngineView,
    health: Seq<(Seq<char>, PathHealth)>,
    n: IpNet,
    wan: Seq<char>,
)
    requires
        e.default_wan_iface == Some(wan),
        e.blacklist.contains(n),
    ensures
        policy::desired_routes(e, health).contains(policy::pinned_route(e, n, wan)),
        policy::pinned_route(e, n, wan).route_type is Unicast,
        policy::pinned_route(e, n, wan).metric == Some(policy::PINNED_METRIC),
        forall|i: int, j: int|
            0 <= i < e.rules.len() && 0 <= j < policy::rule_routes(e, health)(e.rules[i]).len()
                ==> behind_pinned(
                (#[trigger] policy::rule_routes(e, health)(e.rules[i])[j]).metric,
            ),
{
    let i = choose|i: int| 0 <= i < e.blacklist.len() && e.blacklist[i] == n;
    assert(policy::pinned_routes(e)[i] == policy::pinned_route(e, n, wan));
    lemma_desired_contains(e, health, policy::pinned_route(e, n, wan));
    assert forall|i: int, j: int|
        0 <= i < e.rules.len() && 0 <= j < policy::rule_routes(e, health)(
            e.rules[i],
        ).len() implies behind_pinned(
        (#[trigger] policy::rule_routes(e, health)(e.rules[i])[j]).metric,
    ) by {
        lemma_metrics(e, e.rules[i].matcher);
    }
}

proof fn lemma_metrics(e: EngineView, m: MatcherView)
    ensures
        forall|j: int|
            0 <= j < policy::destinations(e, m).len() ==> (#[trigger] policy::destinations(
                e,
                m,
            )[j]).1 >= policy::HOST_METRIC && Some(policy::destinations(e, m)[j].1) == metric_of(m),
{
    let ds = policy::destinations(e, m);
    assert forall|j: int| 0 <= j < ds.len() implies (#[trigger] ds[j]).1 >= policy::HOST_METRIC
        && Some(ds[j].1) == metric_of(m) by {
        if let MatcherView::DomainSuffix(s) = m {
            let f = policy::under(policy::canonical(s));
            assert(ds.contains(ds[j]));
            seqs::lemma_flat_contains(e.local_dns, f, ds[j]);
            let i = choose|i: int|
                0 <= i < e.local_dns.len() && #[trigger] f(e.local_dns[i]).contains(ds[j]);
            let hs = f(e.local_dns[i]);
            let k = choose|k: int| 0 <= k < hs.len() && hs[k] == ds[j];
        }
    }
}

/// No gap is left in the table: each destination of a rule that does not fall back to the normal
/// path has a route, which delivers through the first available interface of the rule, and
/// rejects if there is none.
pub proof fn law_no_gap_in_the_table(
    e: EngineView,
    health: Seq<(Seq<char>, PathHealth)>,
    i: int,
    j: int,
)
    requires
        0 <= i < e.rules.len(),
        0 <= j < policy::destinations(e, e.rules[i].matcher).len(),
        !(e.rules[i].fallback is Wan),
    ensures
        ({
            let cs = e.rules[i].candidate_interfaces;
            let k = seqs::first_where(cs, policy::usable(health));
            let d = policy::destinations(e, e.rules[i].matcher)[j];
            policy::desired_routes(e, health).contains(
                if k < cs.len() {
                    policy::lan_route(e, d, cs[k], RouteType::Unicast)
                } else {
                    policy::lan_route(e, d, Seq::empty(), RouteType::Unreachable)
                },
            )
        }),
{
    let cs = e.rules[i].candidate_interfaces;
    let k = seqs::first_where(cs, policy::usable(health));
    seqs::lemma_first_where(cs, policy::usable(health));
    let d = policy::destinations(e, e.rules[i].matcher)[j];
    let r = if k < cs.len() {
        policy::lan_route(e, d, cs[k], RouteType::Unicast)
    } else {
        policy::lan_route(e, d, Seq::empty(), RouteType::Unreachable)
    };
    assert(policy::rule_routes(e, health)(e.rules[i])[j] == r);
    assert(policy::rule_routes(e, health)(e.rules[i]).contains(r));
    lemma_desired_contains(e, health, r);
}

/// The explanation tells the truth: where a rule decides and does not fall back to the normal
/// path, the table leads each destination of the rule through the interface that the decision
/// selects, and rejects it if the decision selects none.
pub proof fn law_decision_agrees_with_the_table(
    e: EngineView,
    target: Seq<char>,
    health: Seq<(Seq<char>, PathHealth)>,
    j: int,
)
    requires
        policy::address_of(e, target) matches Some(ip) ==> !policy::blacklisted(e, ip),
        seqs::first_where(e.rules, policy::rule_matches(e, target)) < e.rules.len(),
        !(e.rules[seqs::first_where(
            e.rules,
            policy::rule_matches(e, target),
        )].fallback is Wan),
        0 <= j < policy::destinations(
            e,
            e.rules[seqs::first_where(e.rules, policy::rule_matches(e, target))].matcher,
        ).len(),
    ensures
        ({
            let r = e.rules[seqs::first_where(e.rules, policy::rule_matches(e, target))];
            let d = policy::destinations(e, r.matcher)[j];
            policy::desired_routes(e, health).contains(
                match policy::decision(e, target, health).selected_interface {
                    Some(name) => policy::lan_route(e, d, name, RouteType::Unicast),
                    None => policy::lan_route(e, d, Seq::empty(), RouteType::Unreachable),
                },
            )
        }),
{
    let i = seqs::first_where(e.rules, policy::rule_matches(e, target));
    seqs::lemma_first_where(e.rules, policy::rule_matches(e, target));
    law_no_gap_in_the_table(e, health, i, j);
}

/// Whether a route is one of those that a rule asks for.
pub open spec fn asked_by(
    e: EngineView,
    health: Seq<(Seq<char>, PathHealth)>,
    rule: RuleView,
    r: RouteView,
) -> bool {
    &&& exists|j: int|
        0 <= j < policy::destinations(e, rule.matcher).len() && (#[trigger] policy::destinations(
            e,
            rule.matcher,
        )[j]).0 == r.destination
    &&& r.route_type is Unicast ==> rule.candidate_interfaces.contains(r.output_interface)
        && health::available(policy::health_of(health, r.output_interface))
}

/// Only what is authorized is in the table: a route pins a blacklisted network to the normal path
/// or is for a destination of a rule, and delivers that through an available interface of the
/// rule alone.
pub proof fn law_only_authorized_destinations_are_routed(
    e: EngineView,
    health: Seq<(Seq<char>, PathHealth)>,
    r: RouteView,
)
    requires
        policy::desired_routes(e, health).contains(r),
    ensures
        ({
            ||| e.blacklist.contains(r.destination) && e.default_wan_iface == Some(
                r.output_interface,
            )
            ||| exists|i: int|
                0 <= i < e.rules.len() && asked_by(e, health, #[trigger] e.rules[i], r)
        }),
{
    lemma_desired_contains(e, health, r);
    if policy::pinned_routes(e).contains(r) {
        let i = choose|i: int|
            0 <= i < policy::pinned_routes(e).len() && policy::pinned_routes(e)[i] == r;
        assert(e.blacklist[i] == r.destination);
    } else {
        let i = choose|i: int|
            0 <= i < e.rules.len() && #[trigger] policy::rule_routes(e, health)(
                e.rules[i],
            ).contains(r);
        let rule = e.rules[i];
        let rs = policy::rule_routes(e, health)(rule);
        let j = choose|j: int| 0 <= j < rs.len() && rs[j] == r;
        assert(policy::destinations(e, rule.matcher)[j].0 == r.destination);
        let cs = rule.candidate_interfaces;
        let k = seqs::first_where(cs, policy::usable(health));
        seqs::lemma_first_where(cs, policy::usable(health));
        if k < cs.len() {
            assert(policy::usable(health)(cs[k]));
        }
        assert(asked_by(e, health, rule, r));
    }
}

/// Local records are authoritative: a domain that has local addresses is decided by the first of
/// them.
pub proof fn law_local_records_answer(
    e: EngineView,
    target: Seq<char>,
    health: Seq<(Seq<char>, PathHealth)>,
    ips: Seq<IpAddr>,
)
    requires
        !(classifier::target_of(target) matches Ok(MatcherView::HostIp(_))),
        net::ip_from(target) is None,
        config::record_of(e.local_dns, policy::canonical(target)) == Some(ips),
        ips.len() > 0,
    ensures
        policy::decision(e, target, health).resolved_ip == Some(ips[0]),
{
}

/// If no interface of any rule is available, no rule has a route that delivers.
pub proof fn law_all_down_delivers_nothing(
    e: EngineView,
    health: Seq<(Seq<char>, PathHealth)>,
    i: int,
    r: RouteView,
)
    requires
        0 <= i < e.rules.len(),
        forall|k: int|
            0 <= k < e.rules[i].candidate_interfaces.len() ==> !health::available(
                policy::health_of(health, #[trigger] e.rules[i].candidate_interfaces[k]),
            ),
        policy::rule_routes(e, health)(e.rules[i]).contains(r),
    ensures
        r.route_type is Unreachable,
{
    let cs = e.rules[i].candidate_interfaces;
    assert forall|k: int| 0 <= k < cs.len() implies !policy::usable(health)(#[trigger] cs[k]) by {
        assert(!health::available(policy::health_of(health, cs[k])));
    }
    seqs::lemma_first_where_is(cs, policy::usable(health), cs.len() as int);
    let rs = policy::rule_routes(e, health)(e.rules[i]);
    let j = choose|j: int| 0 <= j < rs.len() && rs[j] == r;
}

/// The LAN DNS servers decide nothing and have no route of their own: engines that differ in
/// them alone decide alike and want the same routes.
pub proof fn law_dns_servers_get_no_route(
    e: EngineView,
    servers: Seq<IpAddr>,
    target: Seq<char>,
    health: Seq<(Seq<char>, PathHealth)>,
)
    ensures
        policy::desired_routes(EngineView { lan_dns_servers: servers, ..e }, health)
            == policy::desired_routes(e, health),
        policy::decision(EngineView { lan_dns_servers: servers, ..e }, target, health)
            == policy::decision(e, target, health),
{
    let o = EngineView { lan_dns_servers: servers, ..e };
    assert(policy::pinned_routes(o) =~= policy::pinned_routes(e));
    assert forall|r: RuleView| #[trigger]
        policy::rule_routes(o, health)(r) == policy::rule_routes(e, health)(r) by {
        assert(policy::rule_routes(o, health)(r) =~= policy::rule_routes(e, health)(r));
    }
    assert(policy::rule_routes(o, health) =~= policy::rule_routes(e, health));
    assert(policy::rule_matches(o, target) =~= policy::rule_matches(e, target));
    assert(policy::address_of(o, target) == policy::address_of(e, target));
    if let Some(ip) = policy::address_of(e, target) {
        assert(policy::blacklisted(o, ip) == policy::blacklisted(e, ip)) by {
            if policy::blacklisted(e, ip) {
                let i = choose|i: int|
                    0 <= i < e.blacklist.len() && (#[trigger] e.blacklist[i]).holds(ip);
                assert(o.blacklist[i].holds(ip));
            }
            if policy::blacklisted(o, ip) {
                let i = choose|i: int|
                    0 <= i < o.blacklist.len() && (#[trigger] o.blacklist[i]).holds(ip);
                assert(e.blacklist[i].holds(ip));
            }
        }
    }
    assert(policy::decision(o, target, health) =~= policy::decision(e, target, health));
}

proof fn lemma_manual_sources(c: ConfigView, r: RuleView)
    requires
        policy::manual_rules(c).contains(r),
    ensures
        r.source.rank() <= RuleSource::ManualSuffix.rank(),
{
    let a = seqs::flat(c.targets, policy::target_rule());
    let b = seqs::flat(c.lan_domains, policy::domain_rule(c.lan_interfaces));
    let d = seqs::flat(c.networks, policy::network_rules());
    lemma_concat_contains(a, b, r);
    lemma_concat_contains(a + b, d, r);
    seqs::lemma_flat_contains(c.targets, policy::target_rule(), r);
    seqs::lemma_flat_contains(c.lan_domains, policy::domain_rule(c.lan_interfaces), r);
    seqs::lemma_flat_contains(c.networks, policy::network_rules(), r);
    if a.contains(r) {
        let i = choose|i: int|
            0 <= i < c.targets.len() && #[trigger] policy::target_rule()(c.targets[i]).contains(r);
        assert(policy::target_rule()(c.targets[i])[0] == r);
    } else if b.contains(r) {
        let f = policy::domain_rule(c.lan_interfaces);
        let i = choose|i: int|
            0 <= i < c.lan_domains.len() && #[trigger] f(c.lan_domains[i]).contains(r);
        assert(f(c.lan_domains[i])[0] == r);
    } else {
        let i = choose|i: int|
            0 <= i < c.networks.len() && #[trigger] policy::network_rules()(c.networks[i]).contains(
                r,
            );
        let n = c.networks[i];
        seqs::lemma_flat_contains(n.domains, policy::network_rule(n), r);
        let j = choose|j: int|
            0 <= j < n.domains.len() && #[trigger] policy::network_rule(n)(n.domains[j]).contains(
                r,
            );
        assert(policy::network_rule(n)(n.domains[j])[0] == r);
    }
}

/// In manual mode no rule is discovered: every rule comes from the configuration.
pub proof fn law_manual_mode_discovers_nothing(
    c: ConfigView,
    interfaces: Seq<InterfaceView>,
    wan: Option<Seq<char>>,
    r: RuleView,
)
    requires
        c.mode == OperatingMode::Manual,
        policy::engine_of(c, interfaces, wan).rules.contains(r),
    ensures
        policy::manual_rules(c).contains(r),
        !(r.source is AutoDiscovered),
{
    law_sorting_keeps_the_rules(policy::manual_rules(c), r);
    lemma_manual_sources(c, r);
}

proof fn lemma_drop_is_not_wan(fallback: Seq<char>)
    requires
        text::same_ignoring_case(fallback, "drop"@),
    ensures
        text::to_lower(fallback) != "wan"@,
{
    reveal_strlit("drop");
    reveal_strlit("wan");
    let lower = text::lower_ascii(fallback);
    let wanted = text::lower_ascii("drop"@);
    assert(lower.len() == 4);
    assert forall|i: int| 0 <= i < fallback.len() implies (#[trigger] fallback[i] as u32)
        < 128 by {
        assert(lower[i] == wanted[i]);
        assert(text::lower_char(fallback[i]) == text::lower_char("drop"@[i]));
    }
}

/// In an accepted configuration every rule fails closed: none falls back to the normal path.
pub proof fn law_accepted_rules_fail_closed(
    c: ConfigView,
    interfaces: Seq<InterfaceView>,
    wan: Option<Seq<char>>,
    r: RuleView,
)
    requires
        strict::strict_fault(c) is None,
        policy::engine_of(c, interfaces, wan).rules.contains(r),
    ensures
        r.fallback is Drop,
{
    strict::law_accepted_exactly_if_strict(c);
    law_sorting_keeps_the_rules(policy::manual_rules(c), r);
    let a = seqs::flat(c.targets, policy::target_rule());
    let b = seqs::flat(c.lan_domains, policy::domain_rule(c.lan_interfaces));
    let n = seqs::flat(c.networks, policy::network_rules());
    lemma_concat_contains(a, b, r);
    lemma_concat_contains(a + b, n, r);
    if a.contains(r) {
        seqs::lemma_flat_contains(c.targets, policy::target_rule(), r);
        let i = choose|i: int|
            0 <= i < c.targets.len() && #[trigger] policy::target_rule()(c.targets[i]).contains(r);
        assert(strict::strict_target(c, c.targets[i]));
        lemma_drop_is_not_wan(c.targets[i].fallback);
        let rs = policy::target_rule()(c.targets[i]);
        let j = choose|j: int| 0 <= j < rs.len() && rs[j] == r;
    } else if b.contains(r) {
        let f = policy::domain_rule(c.lan_interfaces);
        seqs::lemma_flat_contains(c.lan_domains, f, r);
        let i = choose|i: int|
            0 <= i < c.lan_domains.len() && #[trigger] f(c.lan_domains[i]).contains(r);
        let rs = f(c.lan_domains[i]);
        let j = choose|j: int| 0 <= j < rs.len() && rs[j] == r;
    } else {
        seqs::lemma_flat_contains(c.networks, policy::network_rules(), r);
        let i = choose|i: int|
            0 <= i < c.networks.len() && #[trigger] policy::network_rules()(
                c.networks[i],
            ).contains(r);
        let f = policy::network_rule(c.networks[i]);
        seqs::lemma_flat_contains(c.networks[i].domains, f, r);
        let k = choose|k: int|
            0 <= k < c.networks[i].domains.len() && #[trigger] f(
                c.networks[i].domains[k],
            ).contains(r);
        let rs = f(c.networks[i].domains[k]);
        let j = choose|j: int| 0 <= j < rs.len() && rs[j] == r;
    }
}

/// Under an accepted configuration a destination that a rule is for never leaks to the normal
/// path, whatever fails: unless it is blacklisted, it is looked up in the isolated table and is
/// sent through an available interface, or it is dropped.
pub proof fn law_accepted_policy_never_leaks(
    c: ConfigView,
    interfaces: Seq<InterfaceView>,
    wan: Option<Seq<char>>,
    target: Seq<char>,
    health: Seq<(Seq<char>, PathHealth)>,
    i: int,
)
    requires
        strict::strict_fault(c) is None,
        0 <= i < policy::engine_of(c, interfaces, wan).rules.len(),
        policy::rule_matches(policy::engine_of(c, interfaces, wan), target)(
            policy::engine_of(c, interfaces, wan).rules[i],
        ),
        policy::address_of(policy::engine_of(c, interfaces, wan), target) matches Some(ip)
            ==> !policy::blacklisted(policy::engine_of(c, interfaces, wan), ip),
    ensures
        ({
            let d = policy::decision(policy::engine_of(c, interfaces, wan), target, health);
            &&& d.routing_table == c.defaults.table_id
            &&& match d.selected_interface {
                Some(name) => d.candidate_interfaces.contains(name) && health::available(
                    policy::health_of(health, name),
                ),
                None => forall|k: int|
                    0 <= k < d.candidate_interfaces.len() ==> !health::available(
                        policy::health_of(health, #[trigger] d.candidate_interfaces[k]),
                    ),
            }
        }),
{
    let e = policy::engine_of(c, interfaces, wan);
    let k = seqs::first_where(e.rules, policy::rule_matches(e, target));
    seqs::lemma_first_where(e.rules, policy::rule_matches(e, target));
    if k >= e.rules.len() {
        assert(!policy::rule_matches(e, target)(e.rules[i]));
    }
    assert(e.rules.contains(e.rules[k]));
    law_accepted_rules_fail_closed(c, interfaces, wan, e.rules[k]);
    law_failure_never_leaks(e, target, health);
}

// ---------------------------------------------------------------------------------------------
// Which rule decides
// ---------------------------------------------------------------------------------------------
/// The source of a rule for a configured target goes by what the target is: one address, one
/// name, a network or the names under a domain.
pub open spec fn source_of_its_kind(r: RuleView) -> bool {
    &&& r.matcher is HostIp <==> r.source == RuleSource::ManualExact
    &&& r.matcher is Domain <==> r.source == RuleSource::ManualDomain
    &&& r.matcher is Cidr <==> r.source == RuleSource::ManualCidr
    &&& r.matcher is DomainSuffix <==> r.source == RuleSource::ManualSuffix
}

/// Every configured target that can be read has a rule: it has the name and the interfaces of the
/// target and the source of its kind, and falls back to the normal path only if the target says
/// so.
pub proof fn law_every_target_has_its_rule(
    c: ConfigView,
    interfaces: Seq<InterfaceView>,
    wan: Option<Seq<char>>,
    i: int,
) -> (r: RuleView)
    requires
        0 <= i < c.targets.len(),
        classifier::target_of(c.targets[i].cidr) is Ok,
    ensures
        policy::engine_of(c, interfaces, wan).rules.contains(r),
        r.name == c.targets[i].name,
        Ok::<MatcherView, CoreErrorView>(r.matcher) == classifier::target_of(c.targets[i].cidr),
        r.candidate_interfaces == c.targets[i].via,
        source_of_its_kind(r),
        r.fallback is Wan <==> text::to_lower(c.targets[i].fallback) == "wan"@,
        !(r.fallback is Wan) ==> r.fallback is Drop,
{
    let t = c.targets[i];
    let r = policy::target_rule()(t)[0];
    assert(policy::target_rule()(t).contains(r));
    seqs::lemma_flat_contains(c.targets, policy::target_rule(), r);
    lemma_manual_contains(c, r);
    lemma_rules_contain(c, interfaces, r);
    law_sorting_keeps_the_rules(policy::rules_of(c, interfaces), r);
    r
}

/// Every domain of the LAN that can be read has a rule: it leads through the interfaces of the
/// LAN, counts as a name and is dropped without them.
pub proof fn law_every_lan_domain_has_its_rule(
    c: ConfigView,
    interfaces: Seq<InterfaceView>,
    wan: Option<Seq<char>>,
    i: int,
) -> (r: RuleView)
    requires
        0 <= i < c.lan_domains.len(),
        classifier::target_of(c.lan_domains[i]) is Ok,
    ensures
        policy::engine_of(c, interfaces, wan).rules.contains(r),
        Ok::<MatcherView, CoreErrorView>(r.matcher) == classifier::target_of(c.lan_domains[i]),
        r.candidate_interfaces == c.lan_interfaces,
        r.source == RuleSource::ManualDomain,
        r.fallback is Drop,
{
    let f = policy::domain_rule(c.lan_interfaces);
    let r = f(c.lan_domains[i])[0];
    assert(f(c.lan_domains[i]).contains(r));
    seqs::lemma_flat_contains(c.lan_domains, f, r);
    lemma_manual_contains(c, r);
    lemma_rules_contain(c, interfaces, r);
    law_sorting_keeps_the_rules(policy::rules_of(c, interfaces), r);
    r
}

/// Every domain of a network that can be read has a rule: it leads through the interfaces that the
/// network prefers, or else through all of its own, and is dropped without them.
pub proof fn law_every_network_domain_has_its_rule(
    c: ConfigView,
    interfaces: Seq<InterfaceView>,
    wan: Option<Seq<char>>,
    i: int,
    j: int,
) -> (r: RuleView)
    requires
        0 <= i < c.networks.len(),
        0 <= j < c.networks[i].domains.len(),
        classifier::target_of(c.networks[i].domains[j]) is Ok,
    ensures
        policy::engine_of(c, interfaces, wan).rules.contains(r),
        Ok::<MatcherView, CoreErrorView>(r.matcher) == classifier::target_of(
            c.networks[i].domains[j],
        ),
        c.networks[i].preferred.len() > 0 ==> r.candidate_interfaces == c.networks[i].preferred,
        c.networks[i].preferred.len() == 0 ==> r.candidate_interfaces == c.networks[i].interfaces,
        r.matcher is DomainSuffix ==> r.source == RuleSource::ManualSuffix,
        !(r.matcher is DomainSuffix) ==> r.source == RuleSource::ManualDomain,
        r.fallback is Drop,
{
    let n = c.networks[i];
    let f = policy::network_rule(n);
    let r = f(n.domains[j])[0];
    assert(f(n.domains[j]).contains(r));
    seqs::lemma_flat_contains(n.domains, f, r);
    assert(policy::network_rules()(n).contains(r));
    seqs::lemma_flat_contains(c.networks, policy::network_rules(), r);
    lemma_manual_contains(c, r);
    lemma_rules_contain(c, interfaces, r);
    law_sorting_keeps_the_rules(policy::rules_of(c, interfaces), r);
    r
}

proof fn lemma_manual_contains(c: ConfigView, r: RuleView)
    ensures
        policy::manual_rules(c).contains(r) <==> seqs::flat(
            c.targets,
            policy::target_rule(),
        ).contains(r) || seqs::flat(
            c.lan_domains,
            policy::domain_rule(c.lan_interfaces),
        ).contains(r) || seqs::flat(c.networks, policy::network_rules()).contains(r),
{
    let a = seqs::flat(c.targets, policy::target_rule());
    let b = seqs::flat(c.lan_domains, policy::domain_rule(c.lan_interfaces));
    let d = seqs::flat(c.networks, policy::network_rules());
    lemma_concat_contains(a, b, r);
    lemma_concat_contains(a + b, d, r);
}

proof fn lemma_discovered_keeps(rules: Seq<RuleView>, nets: Seq<(Seq<char>, IpNet)>)
    ensures
        rules.is_prefix_of(policy::with_discovered(rules, nets)),
        forall|i: int|
            0 <= i < nets.len() ==> policy::has_net_rule(
                policy::with_discovered(rules, nets),
                (#[trigger] nets[i]).1,
            ),
        forall|k: int|
            rules.len() <= k < policy::with_discovered(rules, nets).len() ==> discovered_rule(
                #[trigger] policy::with_discovered(rules, nets)[k],
            ) && policy::with_discovered(rules, nets)[k].name == "auto-lan:"@
                + policy::with_discovered(rules, nets)[k].candidate_interfaces[0] && nets.contains(
                (
                    policy::with_discovered(rules, nets)[k].candidate_interfaces[0],
                    policy::with_discovered(rules, nets)[k].matcher->Cidr_0,
                ),
            ),
    decreases nets.len(),
{
    let all = policy::with_discovered(rules, nets);
    if nets.len() > 0 {
        let rest = nets.drop_last();
        let before = policy::with_discovered(rules, rest);
        lemma_discovered_keeps(rules, rest);
        assert(before.is_prefix_of(all));
        assert forall|k: int| 0 <= k < before.len() implies before[k] == #[trigger] all[k] by {
            assert(before =~= all.subrange(0, before.len() as int));
        }
        assert(rules =~= before.subrange(0, rules.len() as int));
        assert forall|k: int| 0 <= k < rules.len() implies rules[k] == #[trigger] all[k] by {
            assert(before.subrange(0, rules.len() as int)[k] == before[k]);
        }
        assert(rules =~= all.subrange(0, rules.len() as int));
        assert forall|i: int| 0 <= i < nets.len() implies policy::has_net_rule(
            all,
            (#[trigger] nets[i]).1,
        ) by {
            if i < rest.len() {
                assert(rest[i] == nets[i]);
                let k = choose|k: int|
                    0 <= k < before.len() && (#[trigger] before[k]).matcher == MatcherView::Cidr(
                        rest[i].1,
                    );
                assert(all[k] == before[k]);
            } else if !policy::has_net_rule(before, nets.last().1) {
                assert(all[all.len() - 1].matcher == MatcherView::Cidr(nets.last().1));
            }
        }
        assert forall|k: int| rules.len() <= k < all.len() implies discovered_rule(
            #[trigger] all[k],
        ) && all[k].name == "auto-lan:"@ + all[k].candidate_interfaces[0] && nets.contains(
            (all[k].candidate_interfaces[0], all[k].matcher->Cidr_0),
        ) by {
            if k < before.len() {
                assert(all[k] == before[k]);
                let x = (before[k].candidate_interfaces[0], before[k].matcher->Cidr_0);
                assert(rest.contains(x));
                let i = choose|i: int| 0 <= i < rest.len() && rest[i] == x;
                assert(nets[i] == x);
            } else {
                assert(nets[nets.len() - 1] == (
                    all[k].candidate_interfaces[0],
                    all[k].matcher->Cidr_0,
                ));
            }
        }
    } else {
        assert(rules =~= all.subrange(0, rules.len() as int));
    }
}

/// Whether a rule is as those are that are discovered: for one network, through one interface, and
/// dropped without it.
pub open spec fn discovered_rule(r: RuleView) -> bool {
    &&& r.matcher is Cidr
    &&& r.source == RuleSource::AutoDiscovered
    &&& r.candidate_interfaces.len() == 1
    &&& r.fallback is Drop
}

proof fn lemma_rules_contain(c: ConfigView, interfaces: Seq<InterfaceView>, r: RuleView)
    requires
        policy::manual_rules(c).contains(r),
    ensures
        policy::rules_of(c, interfaces).contains(r),
{
    let nets = seqs::flat(interfaces, policy::lan_nets());
    let manual = policy::manual_rules(c);
    lemma_discovered_keeps(manual, nets);
    let k = choose|k: int| 0 <= k < manual.len() && manual[k] == r;
    let all = policy::with_discovered(manual, nets);
    assert(manual =~= all.subrange(0, manual.len() as int));
    assert(all.subrange(0, manual.len() as int)[k] == all[k]);
    assert(all[k] == r);
}

/// Unless the mode is manual, every network of a LAN interface has a rule, but for loopback and
/// link-local addresses. What a rule of the configuration is not for is discovered: through that
/// interface, and dropped without it.
pub proof fn law_every_lan_network_has_a_rule(
    c: ConfigView,
    interfaces: Seq<InterfaceView>,
    wan: Option<Seq<char>>,
    i: int,
    j: int,
) -> (r: RuleView)
    requires
        c.mode != OperatingMode::Manual,
        0 <= i < interfaces.len(),
        interfaces[i].role == InterfaceRole::Lan,
        0 <= j < interfaces[i].ip_addrs.len(),
        !interfaces[i].ip_addrs[j].base().loopback(),
        !interfaces[i].ip_addrs[j].base().link_local_v6(),
    ensures
        policy::engine_of(c, interfaces, wan).rules.contains(r),
        r.matcher == MatcherView::Cidr(interfaces[i].ip_addrs[j].truncated()),
        policy::manual_rules(c).contains(r) || discovered_rule(r),
{
    let nets = seqs::flat(interfaces, policy::lan_nets());
    let manual = policy::manual_rules(c);
    let n = interfaces[i].ip_addrs[j];
    let x = (interfaces[i].name, n.truncated());
    let f = policy::lan_net(interfaces[i].name);
    assert(f(n)[0] == x);
    assert(f(n).contains(x));
    seqs::lemma_flat_contains(interfaces[i].ip_addrs, f, x);
    assert(policy::lan_nets()(interfaces[i]).contains(x));
    seqs::lemma_flat_contains(interfaces, policy::lan_nets(), x);
    let m = choose|m: int| 0 <= m < nets.len() && nets[m] == x;
    lemma_discovered_keeps(manual, nets);
    let all = policy::with_discovered(manual, nets);
    assert(policy::has_net_rule(all, nets[m].1));
    let k = choose|k: int|
        0 <= k < all.len() && (#[trigger] all[k]).matcher == MatcherView::Cidr(x.1);
    let r = all[k];
    if k < manual.len() {
        assert(manual =~= all.subrange(0, manual.len() as int));
        assert(all.subrange(0, manual.len() as int)[k] == all[k]);
        assert(manual[k] == r);
    }
    assert(policy::rules_of(c, interfaces).contains(r));
    law_sorting_keeps_the_rules(policy::rules_of(c, interfaces), r);
    r
}

/// A rule that is discovered is for a network of the LAN interface that it leads through.
pub proof fn law_discovered_rules_are_of_the_lan(
    c: ConfigView,
    interfaces: Seq<InterfaceView>,
    wan: Option<Seq<char>>,
    r: RuleView,
) -> (ij: (int, int))
    requires
        policy::engine_of(c, interfaces, wan).rules.contains(r),
        !policy::manual_rules(c).contains(r),
    ensures
        discovered_rule(r),
        0 <= ij.0 < interfaces.len(),
        interfaces[ij.0].role == InterfaceRole::Lan,
        r.candidate_interfaces == seq![interfaces[ij.0].name],
        0 <= ij.1 < interfaces[ij.0].ip_addrs.len(),
        r.matcher == MatcherView::Cidr(interfaces[ij.0].ip_addrs[ij.1].truncated()),
        !interfaces[ij.0].ip_addrs[ij.1].base().loopback(),
        !interfaces[ij.0].ip_addrs[ij.1].base().link_local_v6(),
        r.name == "auto-lan:"@ + interfaces[ij.0].name,
{
    let nets = seqs::flat(interfaces, policy::lan_nets());
    let manual = policy::manual_rules(c);
    let all = policy::with_discovered(manual, nets);
    law_sorting_keeps_the_rules(policy::rules_of(c, interfaces), r);
    lemma_discovered_keeps(manual, nets);
    let k = choose|k: int| 0 <= k < all.len() && all[k] == r;
    if k < manual.len() {
        assert(manual =~= all.subrange(0, manual.len() as int));
        assert(all.subrange(0, manual.len() as int)[k] == all[k]);
        assert(manual[k] == r);
    }
    let x = (r.candidate_interfaces[0], r.matcher->Cidr_0);
    assert(nets.contains(x));
    seqs::lemma_flat_contains(interfaces, policy::lan_nets(), x);
    let i = choose|i: int|
        0 <= i < interfaces.len() && #[trigger] policy::lan_nets()(interfaces[i]).contains(x);
    let f = policy::lan_net(interfaces[i].name);
    seqs::lemma_flat_contains(interfaces[i].ip_addrs, f, x);
    let j = choose|j: int|
        0 <= j < interfaces[i].ip_addrs.len() && #[trigger] f(interfaces[i].ip_addrs[j]).contains(x);
    assert(f(interfaces[i].ip_addrs[j])[0] == x);
    assert(r.candidate_interfaces =~= seq![interfaces[i].name]);
    (i, j)
}

proof fn lemma_first_in_concat<A>(a: Seq<A>, b: Seq<A>, p: spec_fn(A) -> bool)
    ensures
        seqs::first_where(a, p) < a.len() ==> seqs::first_where(a + b, p) == seqs::first_where(
            a,
            p,
        ),
        seqs::first_where(a, p) == a.len() ==> seqs::first_where(a + b, p) == a.len()
            + seqs::first_where(b, p),
{
    seqs::lemma_first_where(a, p);
    seqs::lemma_first_where(b, p);
    let i = seqs::first_where(a, p);
    let j = seqs::first_where(b, p);
    let ab = a + b;
    if i < a.len() {
        assert forall|m: int| 0 <= m < i implies !p(#[trigger] ab[m]) by {
            assert(ab[m] == a[m]);
        }
        seqs::lemma_first_where_is(ab, p, i);
    } else {
        assert forall|m: int| 0 <= m < a.len() + j implies !p(#[trigger] ab[m]) by {
            if m < a.len() {
                assert(ab[m] == a[m]);
            } else {
                assert(ab[m] == b[m - a.len()]);
            }
        }
        seqs::lemma_first_where_is(ab, p, a.len() + j);
    }
}

proof fn lemma_none_kept<A>(s: Seq<A>, q: spec_fn(A) -> bool, p: spec_fn(A) -> bool)
    requires
        forall|i: int| 0 <= i < s.len() && q(#[trigger] s[i]) ==> !p(s[i]),
    ensures
        seqs::first_where(seqs::keep(s, q), p) == seqs::keep(s, q).len(),
{
    let k = seqs::keep(s, q);
    seqs::lemma_keep(s, q);
    assert forall|j: int| 0 <= j < k.len() implies !p(#[trigger] k[j]) by {
        assert(k.contains(k[j]));
        let i = choose|i: int| 0 <= i < s.len() && s[i] == k[j];
        assert(q(s[i]));
    }
    seqs::lemma_first_where_is(k, p, k.len() as int);
}

proof fn lemma_first_kept<A>(s: Seq<A>, q: spec_fn(A) -> bool, p: spec_fn(A) -> bool, i: int)
    requires
        0 <= i < s.len(),
        q(s[i]),
        p(s[i]),
        forall|j: int| 0 <= j < i && q(#[trigger] s[j]) ==> !p(s[j]),
    ensures
        seqs::first_where(seqs::keep(s, q), p) < seqs::keep(s, q).len(),
        seqs::keep(s, q)[seqs::first_where(seqs::keep(s, q), p)] == s[i],
    decreases s.len(),
{
    let t = s.drop_last();
    let k = seqs::keep(s, q);
    let kt = seqs::keep(t, q);
    seqs::lemma_first_where(kt, p);
    if i < t.len() {
        assert(t[i] == s[i]);
        assert forall|j: int| 0 <= j < i && q(#[trigger] t[j]) implies !p(t[j]) by {
            assert(t[j] == s[j]);
        }
        lemma_first_kept(t, q, p, i);
        if q(s.last()) {
            assert(k =~= kt + seq![s.last()]);
            lemma_first_in_concat(kt, seq![s.last()], p);
        }
    } else {
        assert forall|j: int| 0 <= j < t.len() && q(#[trigger] t[j]) implies !p(t[j]) by {
            assert(t[j] == s[j]);
        }
        lemma_none_kept(t, q, p);
        assert(k =~= kt + seq![s.last()]);
        lemma_first_in_concat(kt, seq![s.last()], p);
        assert(seq![s.last()][0] == s.last());
        assert(seqs::first_where(seq![s.last()], p) == 0);
    }
}

/// Whether the `i`-th rule is the one to apply: it matches, none that matches has a better source,
/// and none of the same source that matches stands before it.
pub open spec fn goes_first(rules: Seq<RuleView>, p: spec_fn(RuleView) -> bool, i: int) -> bool {
    &&& 0 <= i < rules.len()
    &&& p(rules[i])
    &&& forall|j: int|
        0 <= j < rules.len() && p(#[trigger] rules[j]) ==> rules[i].source.rank()
            < rules[j].source.rank() || (rules[i].source.rank() == rules[j].source.rank() && i
            <= j)
}

proof fn lemma_goes_first(rules: Seq<RuleView>, p: spec_fn(RuleView) -> bool, i: int)
    requires
        goes_first(rules, p, i),
    ensures
        ({
            let sorted = policy::by_source(rules);
            let k = seqs::first_where(sorted, p);
            k < sorted.len() && sorted[k] == rules[i]
        }),
{
    let f = |s: RuleSource| seqs::keep(rules, policy::from_source(s));
    let a = f(RuleSource::ManualExact);
    let b = f(RuleSource::ManualDomain);
    let c = f(RuleSource::ManualCidr);
    let d = f(RuleSource::ManualSuffix);
    let e = f(RuleSource::AutoDiscovered);
    let w = f(RuleSource::WanDefault);
    let none = Seq::<RuleView>::empty();
    let x = rules[i];
    assert(policy::by_source(rules) == a + b + c + d + e + w);
    assert forall|s: RuleSource| #[trigger] s.rank() < x.source.rank() implies seqs::first_where(
        seqs::keep(rules, policy::from_source(s)),
        p,
    ) == seqs::keep(rules, policy::from_source(s)).len() by {
        lemma_none_kept(rules, policy::from_source(s), p);
    }
    let ranks = (
        RuleSource::ManualExact.rank(),
        RuleSource::ManualDomain.rank(),
        RuleSource::ManualCidr.rank(),
        RuleSource::ManualSuffix.rank(),
        RuleSource::AutoDiscovered.rank(),
    );
    lemma_first_kept(rules, policy::from_source(x.source), p, i);
    lemma_first_in_concat(a, b, p);
    lemma_first_in_concat(a + b, c, p);
    lemma_first_in_concat(a + b + c, d, p);
    lemma_first_in_concat(a + b + c + d, e, p);
    match x.source {
        RuleSource::ManualExact => {
            assert(policy::by_source(rules) =~= none + a + (b + c + d + e + w));
            lemma_picked(none, a, b + c + d + e + w, p, x);
        },
        RuleSource::ManualDomain => {
            assert(policy::by_source(rules) =~= a + b + (c + d + e + w));
            lemma_picked(a, b, c + d + e + w, p, x);
        },
        RuleSource::ManualCidr => {
            assert(policy::by_source(rules) =~= a + b + c + (d + e + w));
            lemma_picked(a + b, c, d + e + w, p, x);
        },
        RuleSource::ManualSuffix => {
            assert(policy::by_source(rules) =~= a + b + c + d + (e + w));
            lemma_picked(a + b + c, d, e + w, p, x);
        },
        RuleSource::AutoDiscovered => {
            lemma_picked(a + b + c + d, e, w, p, x);
        },
        RuleSource::WanDefault => {
            assert(policy::by_source(rules) =~= a + b + c + d + e + w + none);
            lemma_picked(a + b + c + d + e, w, none, p, x);
        },
    }
}

proof fn lemma_picked<A>(a: Seq<A>, b: Seq<A>, c: Seq<A>, p: spec_fn(A) -> bool, x: A)
    requires
        seqs::first_where(a, p) == a.len(),
        seqs::first_where(b, p) < b.len(),
        b[seqs::first_where(b, p)] == x,
    ensures
        seqs::first_where(a + b + c, p) < (a + b + c).len(),
        (a + b + c)[seqs::first_where(a + b + c, p)] == x,
{
    lemma_first_in_concat(a, b, p);
    lemma_first_in_concat(a + b, c, p);
    seqs::lemma_first_where(b, p);
}

/// Of the rules that match a destination, the one from the best source is applied, and of those
/// from one source the first that is configured: unless its address is blacklisted, the decision
/// bears the name of this rule and goes through the first of its interfaces that is available.
pub proof fn law_first_rule_decides(
    c: ConfigView,
    interfaces: Seq<InterfaceView>,
    wan: Option<Seq<char>>,
    target: Seq<char>,
    health: Seq<(Seq<char>, PathHealth)>,
    i: int,
)
    requires
        goes_first(
            policy::rules_of(c, interfaces),
            policy::rule_matches(policy::engine_of(c, interfaces, wan), target),
            i,
        ),
        policy::address_of(policy::engine_of(c, interfaces, wan), target) matches Some(ip)
            ==> !policy::blacklisted(policy::engine_of(c, interfaces, wan), ip),
    ensures
        ({
            let r = policy::rules_of(c, interfaces)[i];
            let d = policy::decision(policy::engine_of(c, interfaces, wan), target, health);
            &&& d.destination == target
            &&& d.resolved_ip == policy::address_of(policy::engine_of(c, interfaces, wan), target)
            &&& d.matched_rule == Some(r.name)
            &&& d.rule_source == r.source
            &&& d.candidate_interfaces == r.candidate_interfaces
            &&& chosen(d, r, health, c.defaults.table_id, wan)
        }),
{
    let e = policy::engine_of(c, interfaces, wan);
    lemma_goes_first(policy::rules_of(c, interfaces), policy::rule_matches(e, target), i);
    lemma_chosen(e, target, policy::rules_of(c, interfaces)[i], health);
}

/// Whether a decision takes the interface that a rule leads to: the first that is available, in
/// the isolated table. If none is, the fallback decides between the normal path in the main table
/// and none at all.
pub open spec fn chosen(
    d: DecisionView,
    r: RuleView,
    health: Seq<(Seq<char>, PathHealth)>,
    table: u32,
    wan: Option<Seq<char>>,
) -> bool {
    &&& forall|k: int|
        first_available(r.candidate_interfaces, health, k) ==> d.selected_interface == Some(
            #[trigger] r.candidate_interfaces[k],
        ) && d.routing_table == table && d.health_state == HealthState::Healthy
    &&& none_available(r.candidate_interfaces, health) && !(r.fallback is Wan) ==> d.selected_interface is None
        && d.routing_table == table
    &&& none_available(r.candidate_interfaces, health) && r.fallback is Wan ==> d.selected_interface
        == wan && d.routing_table == 254
}

/// Whether the `k`-th interface is available and none before it is.
pub open spec fn first_available(
    names: Seq<Seq<char>>,
    health: Seq<(Seq<char>, PathHealth)>,
    k: int,
) -> bool {
    &&& 0 <= k < names.len()
    &&& health::available(policy::health_of(health, names[k]))
    &&& forall|j: int|
        0 <= j < k ==> !health::available(policy::health_of(health, #[trigger] names[j]))
}

/// Whether no interface is available.
pub open spec fn none_available(
    names: Seq<Seq<char>>,
    health: Seq<(Seq<char>, PathHealth)>,
) -> bool {
    forall|j: int|
        0 <= j < names.len() ==> !health::available(policy::health_of(health, #[trigger] names[j]))
}

proof fn lemma_first_available(names: Seq<Seq<char>>, health: Seq<(Seq<char>, PathHealth)>)
    ensures
        forall|k: int| #[trigger]
            first_available(names, health, k) ==> seqs::first_where(names, policy::usable(health))
                == k,
        none_available(names, health) ==> seqs::first_where(names, policy::usable(health))
            == names.len(),
        seqs::first_where(names, policy::usable(health)) == names.len() ==> none_available(
            names,
            health,
        ),
        seqs::first_where(names, policy::usable(health)) < names.len() ==> first_available(
            names,
            health,
            seqs::first_where(names, policy::usable(health)),
        ),
{
    let u = policy::usable(health);
    assert forall|k: int| #[trigger] first_available(names, health, k) implies seqs::first_where(
        names,
        u,
    ) == k by {
        assert(u(names[k]));
        assert forall|j: int| 0 <= j < k implies !u(#[trigger] names[j]) by {}
        seqs::lemma_first_where_is(names, u, k);
    }
    if none_available(names, health) {
        assert forall|j: int| 0 <= j < names.len() implies !u(#[trigger] names[j]) by {}
        seqs::lemma_first_where_is(names, u, names.len() as int);
    }
    seqs::lemma_first_where(names, u);
    let k = seqs::first_where(names, u);
    assert forall|j: int| 0 <= j < k implies !health::available(
        policy::health_of(health, #[trigger] names[j]),
    ) by {
        assert(!u(names[j]));
    }
    if k < names.len() {
        assert(u(names[k]));
    }
}

proof fn lemma_chosen(
    e: EngineView,
    target: Seq<char>,
    r: RuleView,
    health: Seq<(Seq<char>, PathHealth)>,
)
    ensures
        chosen(
            policy::rule_decision(e, target, policy::address_of(e, target), r, health),
            r,
            health,
            e.table_id,
            e.default_wan_iface,
        ),
{
    lemma_first_available(r.candidate_interfaces, health);
    let d = policy::rule_decision(e, target, policy::address_of(e, target), r, health);
    assert forall|k: int|
        first_available(r.candidate_interfaces, health, k) implies d.selected_interface == Some(
        #[trigger] r.candidate_interfaces[k],
    ) && d.routing_table == e.table_id && d.health_state == HealthState::Healthy by {
        assert(seqs::first_where(r.candidate_interfaces, policy::usable(health)) == k);
    }
}

/// What a rule matches: an address that the destination denotes, a network that holds this
/// address, a name in the form in which names are compared, and the names that end in a suffix.
pub proof fn law_what_a_rule_matches(e: EngineView, target: Seq<char>, r: RuleView)
    ensures
        r.matcher matches MatcherView::HostIp(own) ==> (policy::rule_matches(e, target)(r)
            <==> policy::address_of(e, target) == Some(own)),
        r.matcher matches MatcherView::Cidr(n) ==> (policy::address_of(
            e,
            target,
        ) matches Some(ip) ==> (policy::rule_matches(e, target)(r) <==> n.holds(ip))),
        r.matcher matches MatcherView::Cidr(n) ==> (policy::address_of(e, target) is None ==> (
        policy::rule_matches(e, target)(r) <==> (classifier::target_of(target) matches Ok(
            MatcherView::Cidr(w),
        ) && n.holds(w.first())))),
        r.matcher matches MatcherView::Domain(d) ==> (policy::rule_matches(e, target)(r)
            <==> policy::canonical(d) == policy::canonical(target)),
        r.matcher matches MatcherView::DomainSuffix(s) ==> (policy::rule_matches(e, target)(r)
            <==> s.is_suffix_of(text::to_lower(text::trim(target)))),
{
}

proof fn lemma_flat_prefix<A, B>(s: Seq<A>, f: spec_fn(A) -> Seq<B>, i: int)
    requires
        0 <= i < s.len(),
    ensures
        (seqs::flat(s.take(i), f) + f(s[i])).is_prefix_of(seqs::flat(s, f)),
    decreases s.len() - i,
{
    seqs::lemma_flat_next(s, f, i);
    let a = seqs::flat(s.take(i + 1), f);
    if i + 1 == s.len() {
        seqs::lemma_take_all(s);
        assert(a =~= a.subrange(0, a.len() as int));
    } else {
        lemma_flat_prefix(s, f, i + 1);
        let b = seqs::flat(s, f);
        let c = a + f(s[i + 1]);
        assert(c =~= b.subrange(0, c.len() as int));
        assert(a =~= b.subrange(0, a.len() as int)) by {
            assert forall|k: int| 0 <= k < a.len() implies a[k] == #[trigger] b[k] by {
                assert(c[k] == b.subrange(0, c.len() as int)[k]);
            }
        }
    }
}

/// The place of the rule of a target, behind the rules of the targets before it.
proof fn lemma_target_place(c: ConfigView, interfaces: Seq<InterfaceView>, i: int) -> (k: int)
    requires
        0 <= i < c.targets.len(),
        classifier::target_of(c.targets[i].cidr) is Ok,
    ensures
        0 <= k < policy::rules_of(c, interfaces).len(),
        policy::rules_of(c, interfaces)[k] == policy::target_rule()(c.targets[i])[0],
        forall|j: int|
            0 <= j < k ==> exists|m: int|
                0 <= m < i && policy::target_rule()(#[trigger] c.targets[m]).contains(
                    #[trigger] policy::rules_of(c, interfaces)[j],
                ),
{
    let f = policy::target_rule();
    let before = c.targets.take(i);
    let k = seqs::flat(before, f).len() as int;
    let own = seqs::flat(c.targets, f);
    let manual = policy::manual_rules(c);
    let nets = seqs::flat(interfaces, policy::lan_nets());
    let disc = policy::with_discovered(manual, nets);
    let all = policy::rules_of(c, interfaces);
    lemma_flat_prefix(c.targets, f, i);
    lemma_discovered_keeps(manual, nets);
    let head = seqs::flat(before, f) + f(c.targets[i]);
    assert(head =~= own.subrange(0, head.len() as int));
    assert(manual =~= disc.subrange(0, manual.len() as int));
    assert forall|j: int| 0 <= j < head.len() implies #[trigger] all[j] == head[j] by {
        assert(own.subrange(0, head.len() as int)[j] == own[j]);
        assert(manual[j] == own[j]);
        assert(disc.subrange(0, manual.len() as int)[j] == disc[j]);
    }
    assert(f(c.targets[i]).len() == 1);
    assert(all[k] == head[k]);
    assert forall|j: int| 0 <= j < k implies exists|m: int|
        0 <= m < i && f(#[trigger] c.targets[m]).contains(#[trigger] all[j]) by {
        let x = seqs::flat(before, f)[j];
        assert(all[j] == head[j]);
        assert(seqs::flat(before, f).contains(x));
        seqs::lemma_flat_contains(before, f, x);
        let m = choose|m: int| 0 <= m < before.len() && #[trigger] f(before[m]).contains(x);
        assert(before[m] == c.targets[m]);
        assert(f(c.targets[m]).contains(all[j]));
    }
    k
}

/// What a rule with the source of an exact address is: the rule of a target for one address.
proof fn lemma_exact_rules(c: ConfigView, interfaces: Seq<InterfaceView>, r: RuleView) -> (m: int)
    requires
        policy::rules_of(c, interfaces).contains(r),
        r.source is ManualExact,
    ensures
        0 <= m < c.targets.len(),
        policy::target_rule()(c.targets[m]).contains(r),
{
    let manual = policy::manual_rules(c);
    let nets = seqs::flat(interfaces, policy::lan_nets());
    let all = policy::rules_of(c, interfaces);
    let disc = policy::with_discovered(manual, nets);
    lemma_discovered_keeps(manual, nets);
    assert(manual.contains(r)) by {
        if c.mode != OperatingMode::Manual {
            let k = choose|k: int| 0 <= k < disc.len() && disc[k] == r;
            if k < manual.len() {
                assert(manual =~= disc.subrange(0, manual.len() as int));
                assert(disc.subrange(0, manual.len() as int)[k] == disc[k]);
                assert(manual[k] == r);
            } else {
                assert(discovered_rule(disc[k]));
            }
        }
    }
    lemma_manual_contains(c, r);
    seqs::lemma_flat_contains(c.targets, policy::target_rule(), r);
    seqs::lemma_flat_contains(c.lan_domains, policy::domain_rule(c.lan_interfaces), r);
    seqs::lemma_flat_contains(c.networks, policy::network_rules(), r);
    let f = policy::domain_rule(c.lan_interfaces);
    if seqs::flat(c.lan_domains, f).contains(r) {
        let i = choose|i: int|
            0 <= i < c.lan_domains.len() && #[trigger] f(c.lan_domains[i]).contains(r);
        assert(f(c.lan_domains[i])[0] == r);
    }
    if seqs::flat(c.networks, policy::network_rules()).contains(r) {
        let i = choose|i: int|
            0 <= i < c.networks.len() && #[trigger] policy::network_rules()(c.networks[i]).contains(
                r,
            );
        let n = c.networks[i];
        seqs::lemma_flat_contains(n.domains, policy::network_rule(n), r);
        let j = choose|j: int|
            0 <= j < n.domains.len() && #[trigger] policy::network_rule(n)(n.domains[j]).contains(
                r,
            );
        assert(policy::network_rule(n)(n.domains[j])[0] == r);
    }
    choose|m: int|
        0 <= m < c.targets.len() && #[trigger] policy::target_rule()(c.targets[m]).contains(r)
}

/// Whether a target is for exactly a name, in the form in which names are compared.
pub open spec fn for_name(cidr: Seq<char>, name: Seq<char>) -> bool {
    classifier::target_of(cidr) matches Ok(MatcherView::Domain(d)) && policy::canonical(d)
        == policy::canonical(name)
}

/// Whether a target is for exactly an address.
pub open spec fn for_address(cidr: Seq<char>, ip: IpAddr) -> bool {
    classifier::target_of(cidr) == Ok::<MatcherView, CoreErrorView>(MatcherView::HostIp(ip))
}

/// A target for exactly the address of a destination goes before everything else but the
/// blacklist, whatever other targets match: the first such target decides.
pub proof fn law_address_goes_first(
    c: ConfigView,
    interfaces: Seq<InterfaceView>,
    wan: Option<Seq<char>>,
    target: Seq<char>,
    health: Seq<(Seq<char>, PathHealth)>,
    ip: IpAddr,
    i: int,
)
    requires
        policy::address_of(policy::engine_of(c, interfaces, wan), target) == Some(ip),
        !policy::blacklisted(policy::engine_of(c, interfaces, wan), ip),
        0 <= i < c.targets.len(),
        for_address(c.targets[i].cidr, ip),
        forall|j: int| 0 <= j < i ==> !for_address((#[trigger] c.targets[j]).cidr, ip),
    ensures
        ({
            let d = policy::decision(policy::engine_of(c, interfaces, wan), target, health);
            &&& d.rule_source == RuleSource::ManualExact
            &&& d.matched_rule == Some(c.targets[i].name)
            &&& d.candidate_interfaces == c.targets[i].via
        }),
{
    let e = policy::engine_of(c, interfaces, wan);
    let p = policy::rule_matches(e, target);
    let all = policy::rules_of(c, interfaces);
    let k = lemma_target_place(c, interfaces, i);
    assert(p(all[k]));
    assert forall|j: int| 0 <= j < all.len() && p(#[trigger] all[j]) implies all[k].source.rank()
        < all[j].source.rank() || (all[k].source.rank() == all[j].source.rank() && k <= j) by {
        if all[j].source is ManualExact && j < k {
            let m = choose|m: int|
                0 <= m < i && policy::target_rule()(#[trigger] c.targets[m]).contains(all[j]);
            assert(policy::target_rule()(c.targets[m])[0] == all[j]);
            assert(!for_address(c.targets[m].cidr, ip));
        }
    }
    law_first_rule_decides(c, interfaces, wan, target, health, k);
}

/// A target for exactly the name that is asked for goes before every target for a network or for
/// the names under a domain: unless a target for its very address matches or the address is
/// blacklisted, the first target for the name decides.
pub proof fn law_name_goes_before_network(
    c: ConfigView,
    interfaces: Seq<InterfaceView>,
    wan: Option<Seq<char>>,
    target: Seq<char>,
    health: Seq<(Seq<char>, PathHealth)>,
    i: int,
)
    requires
        0 <= i < c.targets.len(),
        for_name(c.targets[i].cidr, target),
        forall|j: int| 0 <= j < i ==> !for_name((#[trigger] c.targets[j]).cidr, target),
        policy::address_of(policy::engine_of(c, interfaces, wan), target) matches Some(ip)
            ==> !policy::blacklisted(policy::engine_of(c, interfaces, wan), ip) && forall|j: int|
            0 <= j < c.targets.len() ==> !for_address((#[trigger] c.targets[j]).cidr, ip),
    ensures
        ({
            let d = policy::decision(policy::engine_of(c, interfaces, wan), target, health);
            &&& d.rule_source == RuleSource::ManualDomain
            &&& d.matched_rule == Some(c.targets[i].name)
            &&& d.candidate_interfaces == c.targets[i].via
        }),
{
    let e = policy::engine_of(c, interfaces, wan);
    let p = policy::rule_matches(e, target);
    let all = policy::rules_of(c, interfaces);
    let k = lemma_target_place(c, interfaces, i);
    assert(p(all[k]));
    assert forall|j: int| 0 <= j < all.len() && p(#[trigger] all[j]) implies all[k].source.rank()
        < all[j].source.rank() || (all[k].source.rank() == all[j].source.rank() && k <= j) by {
        if all[j].source is ManualExact {
            assert(all.contains(all[j]));
            let m = lemma_exact_rules(c, interfaces, all[j]);
            assert(policy::target_rule()(c.targets[m])[0] == all[j]);
            let ip = policy::address_of(e, target)->0;
            assert(!for_address(c.targets[m].cidr, ip));
        } else if all[j].source is ManualDomain && j < k {
            let m = choose|m: int|
                0 <= m < i && policy::target_rule()(#[trigger] c.targets[m]).contains(all[j]);
            assert(policy::target_rule()(c.targets[m])[0] == all[j]);
            assert(!for_name(c.targets[m].cidr, target));
        }
    }
    law_first_rule_decides(c, interfaces, wan, target, health, k);
}

/// The order of precedence: an address before a name, a name before a network, a network before a
/// suffix, a suffix before what is discovered, and the normal path last. In an engine of a
/// configuration no rule stands behind one that it goes before.
pub proof fn law_precedence_is_by_kind(
    c: ConfigView,
    interfaces: Seq<InterfaceView>,
    wan: Option<Seq<char>>,
    i: int,
    j: int,
)
    requires
        0 <= i < j < policy::engine_of(c, interfaces, wan).rules.len(),
    ensures
        ({
            let a = policy::engine_of(c, interfaces, wan).rules[i].source;
            let b = policy::engine_of(c, interfaces, wan).rules[j].source;
            &&& b is ManualExact ==> a is ManualExact
            &&& b is ManualDomain ==> a is ManualExact || a is ManualDomain
            &&& b is ManualCidr ==> a is ManualExact || a is ManualDomain || a is ManualCidr
            &&& b is ManualSuffix ==> !(a is AutoDiscovered) && !(a is WanDefault)
            &&& b is AutoDiscovered ==> !(a is WanDefault)
        }),
{
    law_rules_stand_in_precedence(policy::rules_of(c, interfaces));
    let rules = policy::engine_of(c, interfaces, wan).rules;
    assert(rules[i].source.rank() <= rules[j].source.rank());
}

// ---------------------------------------------------------------------------------------------
// Which routes there are
// ---------------------------------------------------------------------------------------------
/// Whether routes lead to a network as a rule says: through the first of its interfaces that is
/// available, and to nowhere if none is and the rule does not fall back to the normal path.
pub open spec fn led(
    e: EngineView,
    health: Seq<(Seq<char>, PathHealth)>,
    rule: RuleView,
    n: IpNet,
) -> bool {
    let names = rule.candidate_interfaces;
    &&& forall|k: int|
        first_available(names, health, k) ==> exists|r: RouteView| #[trigger]
            policy::desired_routes(e, health).contains(r) && r.destination == n
                && r.output_interface == #[trigger] names[k] && r.route_type is Unicast && r.table
                == e.table_id && r.gateway is None && r.metric == metric_of(rule.matcher)
    &&& none_available(names, health) && !(rule.fallback is Wan) ==> exists|r: RouteView| #[trigger]
        policy::desired_routes(e, health).contains(r) && r.destination == n
            && r.route_type is Unreachable && r.table == e.table_id && r.metric == metric_of(
            rule.matcher,
        )
}

/// The metric of the routes of a rule: those to single hosts go before those to networks.
pub open spec fn metric_of(m: MatcherView) -> Option<u32> {
    if m is Cidr {
        Some(100)
    } else {
        Some(50)
    }
}

/// Whether a network is one that a matcher is for: a network as it is, an address alone, each
/// address that the local records hold for a name, and each that they hold for a name under a
/// domain.
pub open spec fn meant(e: EngineView, m: MatcherView, n: IpNet) -> bool {
    match m {
        MatcherView::Cidr(c) => n == c,
        MatcherView::HostIp(ip) => n == IpNet::host(ip),
        MatcherView::Domain(d) => config::record_of(
            e.local_dns,
            policy::canonical(d),
        ) matches Some(ips) && exists|k: int|
            0 <= k < ips.len() && n == IpNet::host(#[trigger] ips[k]),
        MatcherView::DomainSuffix(s) => exists|j: int, k: int|
            0 <= j < e.local_dns.len() && 0 <= k < e.local_dns[j].1.len() && (policy::at_or_under(
                e.local_dns[j].0,
                policy::canonical(s),
            ) || policy::at_or_under(
                config::canonical(e.local_dns[j].0),
                policy::canonical(s),
            )) && n == IpNet::host(#[trigger] e.local_dns[j].1[k]),
    }
}

proof fn lemma_meant(e: EngineView, m: MatcherView, n: IpNet)
    ensures
        meant(e, m, n) <==> exists|j: int|
            0 <= j < policy::destinations(e, m).len() && (#[trigger] policy::destinations(
                e,
                m,
            )[j]).0 == n,
{
    let ds = policy::destinations(e, m);
    match m {
        MatcherView::Cidr(c) => {
            assert(ds[0].0 == c);
        },
        MatcherView::HostIp(ip) => {
            assert(ds[0].0 == IpNet::host(ip));
        },
        MatcherView::Domain(d) => {
            if let Some(ips) = config::record_of(e.local_dns, policy::canonical(d)) {
                if meant(e, m, n) {
                    let k = choose|k: int|
                        0 <= k < ips.len() && n == IpNet::host(#[trigger] ips[k]);
                    assert(ds[k].0 == n);
                }
                if exists|j: int| 0 <= j < ds.len() && (#[trigger] ds[j]).0 == n {
                    let j = choose|j: int| 0 <= j < ds.len() && (#[trigger] ds[j]).0 == n;
                    assert(n == IpNet::host(ips[j]));
                }
            }
        },
        MatcherView::DomainSuffix(s) => {
            let f = policy::under(policy::canonical(s));
            if meant(e, m, n) {
                let (j, k) = choose|j: int, k: int|
                    0 <= j < e.local_dns.len() && 0 <= k < e.local_dns[j].1.len() && (
                    policy::at_or_under(e.local_dns[j].0, policy::canonical(s))
                        || policy::at_or_under(
                        config::canonical(e.local_dns[j].0),
                        policy::canonical(s),
                    )) && n == IpNet::host(#[trigger] e.local_dns[j].1[k]);
                let x = (n, policy::HOST_METRIC);
                assert(f(e.local_dns[j])[k] == x);
                assert(f(e.local_dns[j]).contains(x));
                seqs::lemma_flat_contains(e.local_dns, f, x);
                let i = choose|i: int| 0 <= i < ds.len() && ds[i] == x;
                assert(ds[i].0 == n);
            }
            if exists|j: int| 0 <= j < ds.len() && (#[trigger] ds[j]).0 == n {
                let i = choose|i: int| 0 <= i < ds.len() && (#[trigger] ds[i]).0 == n;
                assert(ds.contains(ds[i]));
                seqs::lemma_flat_contains(e.local_dns, f, ds[i]);
                let j = choose|j: int|
                    0 <= j < e.local_dns.len() && #[trigger] f(e.local_dns[j]).contains(ds[i]);
                let hs = f(e.local_dns[j]);
                let k = choose|k: int| 0 <= k < hs.len() && hs[k] == ds[i];
                assert(n == IpNet::host(e.local_dns[j].1[k]));
            }
        },
    }
}

/// Every network that a rule is for is led as the rule says.
pub proof fn law_what_a_rule_means_is_routed(
    e: EngineView,
    health: Seq<(Seq<char>, PathHealth)>,
    i: int,
    n: IpNet,
)
    requires
        0 <= i < e.rules.len(),
        meant(e, e.rules[i].matcher, n),
    ensures
        led(e, health, e.rules[i], n),
{
    let rule = e.rules[i];
    let names = rule.candidate_interfaces;
    let ds = policy::destinations(e, rule.matcher);
    lemma_meant(e, rule.matcher, n);
    lemma_metrics(e, rule.matcher);
    lemma_first_available(names, health);
    let j = choose|j: int| 0 <= j < ds.len() && (#[trigger] ds[j]).0 == n;
    let rs = policy::rule_routes(e, health)(rule);
    let all = policy::desired_routes(e, health);
    assert forall|k: int| first_available(names, health, k) implies exists|r: RouteView| #[trigger]
        all.contains(r) && r.destination == n && r.output_interface == #[trigger] names[k]
            && r.route_type is Unicast && r.table == e.table_id && r.gateway is None && r.metric
            == metric_of(rule.matcher) by {
        let r = policy::lan_route(e, ds[j], names[k], RouteType::Unicast);
        assert(rs[j] == r);
        assert(rs.contains(r));
        lemma_desired_contains(e, health, r);
        assert(all.contains(r));
    }
    if none_available(names, health) && !(rule.fallback is Wan) {
        let r = policy::lan_route(e, ds[j], Seq::empty(), RouteType::Unreachable);
        assert(rs[j] == r);
        assert(rs.contains(r));
        lemma_desired_contains(e, health, r);
        assert(all.contains(r));
    }
}

/// Every address that the local records hold for a name that a rule is for is led as the rule
/// says, whichever place it has in the record: none of them falls through to the main table.
pub proof fn law_every_address_of_a_name_is_routed(
    e: EngineView,
    health: Seq<(Seq<char>, PathHealth)>,
    i: int,
    name: Seq<char>,
    ips: Seq<IpAddr>,
    k: int,
)
    requires
        0 <= i < e.rules.len(),
        e.rules[i].matcher == MatcherView::Domain(name),
        config::record_of(e.local_dns, policy::canonical(name)) == Some(ips),
        0 <= k < ips.len(),
    ensures
        led(e, health, e.rules[i], IpNet::host(ips[k])),
{
    assert(IpNet::host(config::record_of(e.local_dns, policy::canonical(name))->0[k])
        == IpNet::host(ips[k]));
    assert(meant(e, e.rules[i].matcher, IpNet::host(ips[k])));
    law_what_a_rule_means_is_routed(e, health, i, IpNet::host(ips[k]));
}

/// Nothing else is routed: a route pins a blacklisted network to the normal path, or it is for a
/// network that a rule is for and goes where the rule says.
pub proof fn law_nothing_else_is_routed(
    e: EngineView,
    health: Seq<(Seq<char>, PathHealth)>,
    r: RouteView,
)
    requires
        policy::desired_routes(e, health).contains(r),
    ensures
        ({
            ||| e.blacklist.contains(r.destination) && e.default_wan_iface == Some(
                r.output_interface,
            ) && r.route_type is Unicast && r.gateway == if r.destination.base() is V4 {
                e.wan_gateway
            } else {
                e.wan_ipv6_gateway
            }
            ||| exists|i: int|
                0 <= i < e.rules.len() && authorized(e, health, #[trigger] e.rules[i], r)
        }),
{
    lemma_desired_contains(e, health, r);
    if policy::pinned_routes(e).contains(r) {
        let i = choose|i: int|
            0 <= i < policy::pinned_routes(e).len() && policy::pinned_routes(e)[i] == r;
        assert(e.blacklist[i] == r.destination);
    } else {
        let i = choose|i: int|
            0 <= i < e.rules.len() && #[trigger] policy::rule_routes(e, health)(
                e.rules[i],
            ).contains(r);
        let rule = e.rules[i];
        let rs = policy::rule_routes(e, health)(rule);
        let j = choose|j: int| 0 <= j < rs.len() && rs[j] == r;
        assert(policy::destinations(e, rule.matcher)[j].0 == r.destination);
        lemma_meant(e, rule.matcher, r.destination);
        lemma_metrics(e, rule.matcher);
        lemma_first_available(rule.candidate_interfaces, health);
        let k = seqs::first_where(rule.candidate_interfaces, policy::usable(health));
        seqs::lemma_first_where(rule.candidate_interfaces, policy::usable(health));
        if k < rule.candidate_interfaces.len() {
            assert(first_available(rule.candidate_interfaces, health, k));
        }
        assert(authorized(e, health, rule, r));
    }
}

/// Whether a rule asks for a route.
pub open spec fn authorized(
    e: EngineView,
    health: Seq<(Seq<char>, PathHealth)>,
    rule: RuleView,
    r: RouteView,
) -> bool {
    &&& meant(e, rule.matcher, r.destination)
    &&& r.metric == metric_of(rule.matcher)
    &&& r.gateway is None
    &&& r.table == e.table_id
    &&& match r.route_type {
        RouteType::Unicast => exists|k: int|
            first_available(rule.candidate_interfaces, health, k) && r.output_interface
                == #[trigger] rule.candidate_interfaces[k],
        RouteType::Unreachable => none_available(rule.candidate_interfaces, health)
            && !(rule.fallback is Wan),
    }
}

/// A destination whose address lies in any network of the blacklist goes the normal way, whatever
/// the rules say.
pub proof fn law_every_blacklisted_network_goes_first(
    e: EngineView,
    target: Seq<char>,
    health: Seq<(Seq<char>, PathHealth)>,
    ip: IpAddr,
    i: int,
)
    requires
        policy::address_of(e, target) == Some(ip),
        0 <= i < e.blacklist.len(),
        e.blacklist[i].holds(ip),
    ensures
        policy::decision(e, target, health).selected_interface == e.default_wan_iface,
        policy::decision(e, target, health).routing_table == 254,
        policy::decision(e, target, health).rule_source is WanDefault,
        policy::decision(e, target, health).matched_rule is None,
        policy::decision(e, target, health).resolved_ip == Some(ip),
{
    assert(policy::blacklisted(e, ip));
}

/// Where no rule matches, or the address is blacklisted, the decision is for the normal path in
/// the main table and names no rule.
pub proof fn law_normal_way_is_the_main_table(
    e: EngineView,
    target: Seq<char>,
    health: Seq<(Seq<char>, PathHealth)>,
)
    requires
        forall|i: int|
            0 <= i < e.rules.len() ==> !policy::rule_matches(e, target)(#[trigger] e.rules[i]),
    ensures
        ({
            let d = policy::decision(e, target, health);
            &&& d.destination == target
            &&& d.resolved_ip == policy::address_of(e, target)
            &&& d.matched_rule is None
            &&& d.rule_source is WanDefault
            &&& d.selected_interface == e.default_wan_iface
            &&& d.routing_table == 254
            &&& e.default_wan_iface matches Some(w) ==> d.candidate_interfaces == seq![w]
            &&& e.default_wan_iface is None ==> d.candidate_interfaces.len() == 0
        }),
{
    seqs::lemma_first_where_is(e.rules, policy::rule_matches(e, target), e.rules.len() as int);
}

/// What a destination denotes as an address: one that is written as an address is this address,
/// whatever the local records say, and one for whose name they hold nothing is none.
pub proof fn law_an_address_is_itself(e: EngineView, target: Seq<char>)
    ensures
        classifier::target_of(target) matches Ok(MatcherView::HostIp(ip)) ==> policy::address_of(
            e,
            target,
        ) == Some(ip),
        !(classifier::target_of(target) matches Ok(MatcherView::HostIp(_))) && net::ip_from(
            target,
        ) is None && config::record_of(e.local_dns, policy::canonical(target)) is None
            ==> policy::address_of(e, target) is None,
{
}

/// Every network of the blacklist is pinned to the normal path: in the table stands a route to it
/// through the interface of the normal path, over the gateway of its family, whose metric is below
/// those of all other routes.
pub proof fn law_every_blacklisted_network_is_pinned(
    e: EngineView,
    health: Seq<(Seq<char>, PathHealth)>,
    i: int,
    wan: Seq<char>,
) -> (r: RouteView)
    requires
        e.default_wan_iface == Some(wan),
        0 <= i < e.blacklist.len(),
    ensures
        policy::desired_routes(e, health).contains(r),
        r.destination == e.blacklist[i],
        r.output_interface == wan,
        r.route_type is Unicast,
        r.table == e.table_id,
        r.metric == Some(1u32),
        e.blacklist[i].base() is V4 ==> r.gateway == e.wan_gateway,
        e.blacklist[i].base() is V6 ==> r.gateway == e.wan_ipv6_gateway,
{
    let r = policy::pinned_route(e, e.blacklist[i], wan);
    assert(policy::pinned_routes(e)[i] == r);
    lemma_desired_contains(e, health, r);
    r
}

/// The engine of a configuration takes over what the configuration says, and the gateway of the
/// interface of the normal path.
pub proof fn law_engine_takes_over_the_configuration(
    c: ConfigView,
    interfaces: Seq<InterfaceView>,
    wan: Option<Seq<char>>,
)
    ensures
        ({
            let e = policy::engine_of(c, interfaces, wan);
            &&& e.mode == c.mode
            &&& e.table_id == c.defaults.table_id
            &&& e.default_wan_iface == wan
            &&& e.local_dns == c.local_dns
            &&& e.blacklist == c.blacklist
            &&& e.lan_interfaces == c.lan_interfaces
            &&& e.lan_dns_servers == c.lan_dns_servers
            &&& wan is None ==> e.wan_gateway is None
            &&& forall|k: int|
                0 <= k < interfaces.len() && wan == Some((#[trigger] interfaces[k]).name) && (
                forall|j: int| 0 <= j < k ==> (#[trigger] interfaces[j]).name != interfaces[k].name)
                    ==> e.wan_gateway == interfaces[k].gateway
        }),
{
    let e = policy::engine_of(c, interfaces, wan);
    assert forall|k: int|
        0 <= k < interfaces.len() && wan == Some((#[trigger] interfaces[k]).name) && (forall|j: int|
            0 <= j < k ==> (#[trigger] interfaces[j]).name != interfaces[k].name) implies e.wan_gateway
        == interfaces[k].gateway by {
        seqs::lemma_first_where_is(interfaces, policy::named(interfaces[k].name), k);
    }
}

/// Every rule is made of something: it is the rule of a target, of a domain of the LAN, of a
/// domain of a network, or it is discovered.
pub proof fn law_every_rule_has_a_cause(
    c: ConfigView,
    interfaces: Seq<InterfaceView>,
    wan: Option<Seq<char>>,
    r: RuleView,
)
    requires
        policy::engine_of(c, interfaces, wan).rules.contains(r),
    ensures
        ({
            ||| exists|i: int| 0 <= i < c.targets.len() && of_target(r, #[trigger] c.targets[i])
            ||| exists|i: int|
                0 <= i < c.lan_domains.len() && r.candidate_interfaces == c.lan_interfaces
                    && Ok::<MatcherView, CoreErrorView>(r.matcher) == classifier::target_of(
                    #[trigger] c.lan_domains[i],
                )
            ||| exists|i: int, j: int|
                0 <= i < c.networks.len() && 0 <= j < c.networks[i].domains.len() && Ok::<
                    MatcherView,
                    CoreErrorView,
                >(r.matcher) == classifier::target_of(#[trigger] c.networks[i].domains[j])
            ||| discovered_rule(r) && c.mode != OperatingMode::Manual
        }),
{
    let manual = policy::manual_rules(c);
    law_sorting_keeps_the_rules(policy::rules_of(c, interfaces), r);
    if manual.contains(r) {
        lemma_manual_contains(c, r);
        seqs::lemma_flat_contains(c.targets, policy::target_rule(), r);
        seqs::lemma_flat_contains(c.lan_domains, policy::domain_rule(c.lan_interfaces), r);
        seqs::lemma_flat_contains(c.networks, policy::network_rules(), r);
        let f = policy::domain_rule(c.lan_interfaces);
        if seqs::flat(c.targets, policy::target_rule()).contains(r) {
            let i = choose|i: int|
                0 <= i < c.targets.len() && #[trigger] policy::target_rule()(
                    c.targets[i],
                ).contains(r);
            assert(policy::target_rule()(c.targets[i])[0] == r);
            assert(of_target(r, c.targets[i]));
        } else if seqs::flat(c.lan_domains, f).contains(r) {
            let i = choose|i: int|
                0 <= i < c.lan_domains.len() && #[trigger] f(c.lan_domains[i]).contains(r);
            assert(f(c.lan_domains[i])[0] == r);
        } else {
            let i = choose|i: int|
                0 <= i < c.networks.len() && #[trigger] policy::network_rules()(
                    c.networks[i],
                ).contains(r);
            let n = c.networks[i];
            let g = policy::network_rule(n);
            seqs::lemma_flat_contains(n.domains, g, r);
            let j = choose|j: int|
                0 <= j < n.domains.len() && #[trigger] g(n.domains[j]).contains(r);
            assert(g(n.domains[j])[0] == r);
            assert(Ok::<MatcherView, CoreErrorView>(r.matcher) == classifier::target_of(
                c.networks[i].domains[j],
            ));
        }
    } else {
        let ij = law_discovered_rules_are_of_the_lan(c, interfaces, wan, r);
    }
}

/// Whether a rule is as a target says.
pub open spec fn of_target(r: RuleView, t: TargetView) -> bool {
    &&& r.name == t.name
    &&& r.candidate_interfaces == t.via
    &&& Ok::<MatcherView, CoreErrorView>(r.matcher) == classifier::target_of(t.cidr)
    &&& source_of_its_kind(r)
}

// ---------------------------------------------------------------------------------------------
// Names
// ---------------------------------------------------------------------------------------------
/// The marks of a routing domain and of a wildcard before a name do not count where names are
/// compared, and a name without marks is compared as in the configuration.
pub proof fn law_marks_do_not_count(d: Seq<char>)
    requires
        classifier::plain_name(d),
    ensures
        policy::canonical("~"@ + d) == policy::canonical(d),
        policy::canonical("*."@ + d) == policy::canonical(d),
        policy::canonical(d) == config::canonical(d),
{
    reveal_strlit("~");
    reveal_strlit("*.");
    let a = "~"@ + d;
    let b = "*."@ + d;
    assert(!text::is_white(d[0]));
    assert(!text::is_white(d[d.len() - 1]));
    assert(text::trim(d) == d);
    assert(a[0] == '~' && a.last() == d.last());
    assert(text::trim(a) == a);
    assert(a.skip(1) =~= d);
    assert(text::strip_lead(d, '~') == d);
    assert(text::strip_lead(a, '~') == text::strip_lead(a.skip(1), '~'));
    assert(b[0] == '*' && b[1] == '.' && b.last() == d.last());
    assert(text::trim(b) == b);
    assert(b.skip(2) =~= d);
    assert(text::strip_lead(b, '~') == b);
    assert(text::strip_wildcards(d) == d);
    assert(text::strip_wildcards(b) == text::strip_wildcards(b.skip(2)));
}

/// A name is under a domain if it is the domain or ends in a dot and the domain: a record is
/// routed for the suffix of its own name, whatever stands before it.
pub proof fn law_names_under_a_domain(name: Seq<char>, suffix: Seq<char>)
    ensures
        policy::at_or_under(suffix, suffix),
        policy::at_or_under(name + "."@ + suffix, suffix),
        policy::at_or_under(name, suffix) ==> name == suffix || (name.len() > suffix.len()
            && name.skip(name.len() - suffix.len()) == suffix && name[name.len() - suffix.len() - 1]
            == '.'),
{
    reveal_strlit(".");
    let long = name + "."@ + suffix;
    let tail = "."@ + suffix;
    assert(long.subrange(long.len() - tail.len(), long.len() as int) =~= tail);
    if policy::at_or_under(name, suffix) && name != suffix {
        assert(tail =~= name.subrange(name.len() - tail.len(), name.len() as int));
        assert(name.skip(name.len() - suffix.len()) =~= suffix) by {
            assert forall|i: int| 0 <= i < suffix.len() implies #[trigger] name.skip(
                name.len() - suffix.len(),
            )[i] == suffix[i] by {
                assert(tail[i + 1] == suffix[i]);
                assert(name.subrange(name.len() - tail.len(), name.len() as int)[i + 1]
                    == name[name.len() - tail.len() + i + 1]);
            }
        }
        assert(tail[0] == '.');
    }
}

/// What a decision says of itself. One for an interface that is available names it and the source
/// of the rule; one for a failed rule tells the state of every interface, and whether the
/// destination is dropped, unreachable or goes the normal way.
pub proof fn law_reasons_of_decisions(
    e: EngineView,
    target: Seq<char>,
    ip: Option<IpAddr>,
    rule: RuleView,
    health: Seq<(Seq<char>, PathHealth)>,
    k: int,
)
    ensures
        ({
            let d = policy::rule_decision(e, target, ip, rule, health);
            let all = policy::states(health, rule.candidate_interfaces);
            &&& first_available(rule.candidate_interfaces, health, k) ==> d.reason == "Matched "@
                + rule.source.text() + " -> selected healthy "@ + rule.candidate_interfaces[k]
            &&& none_available(rule.candidate_interfaces, health) ==> d.reason
                == match rule.fallback {
                FallbackAction::Drop => "All candidates failed ("@ + all
                    + "); lab target blocked (DROP)"@,
                FallbackAction::Wan => "All candidates failed ("@ + all + "); fallback to WAN"@,
                FallbackAction::Unreachable => "Target unreachable ("@ + all + ")"@,
            }
            &&& none_available(rule.candidate_interfaces, health)
                && rule.candidate_interfaces.len() > 0 ==> d.health_state == policy::health_of(
                health,
                rule.candidate_interfaces.last(),
            ).state
        }),
{
    lemma_first_available(rule.candidate_interfaces, health);
}

/// The states of interfaces are told one by one, each with its name.
pub proof fn law_states_are_told(
    health: Seq<(Seq<char>, PathHealth)>,
    names: Seq<Seq<char>>,
    name: Seq<char>,
)
    ensures
        policy::states(health, seq![name]) == name + ": "@ + policy::health_of(
            health,
            name,
        ).state.text(),
        policy::states(health, names).len() > 0 ==> policy::states(health, names.push(name))
            == policy::states(health, names) + ", "@ + name + ": "@ + policy::health_of(
            health,
            name,
        ).state.text(),
{
    let one = seq![name];
    assert(one.drop_last() =~= Seq::<Seq<char>>::empty());
    assert(one.last() == name);
    reveal_with_fuel(policy::states, 2);
    assert(Seq::<char>::empty() + name =~= name);
    assert(names.push(name).drop_last() =~= names);
    assert(names.push(name).last() == name);
}

} // verus!
