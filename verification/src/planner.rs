//! From the state that is in force to the state that should be.

use vstd::prelude::*;
use crate::error::{CoreError, CoreErrorView};
use crate::model::{
    ActualState, ActualView, DesiredState, DesiredView, DiffView, Route, RouteView, RpdbRule,
    StateDiff,
};
use crate::net::IpAddr;
use crate::seqs;

verus! {

/// Whether a route is not among the given ones.
pub open spec fn not_among(routes: Seq<RouteView>) -> spec_fn(RouteView) -> bool {
    |r: RouteView| !routes.contains(r)
}

/// Whether a route is in the table and not among the given ones.
pub open spec fn stale(table: u32, routes: Seq<RouteView>) -> spec_fn(RouteView) -> bool {
    |r: RouteView| r.table == table && !routes.contains(r)
}

/// Whether a rule is not among the given ones.
pub open spec fn rule_not_among(rules: Seq<RpdbRule>) -> spec_fn(RpdbRule) -> bool {
    |r: RpdbRule| !rules.contains(r)
}

/// Whether a rule has the table and the priority and is not among the given ones.
pub open spec fn stale_rule(table: u32, priority: u32, rules: Seq<RpdbRule>) -> spec_fn(
    RpdbRule,
) -> bool {
    |r: RpdbRule| r.table == table && r.priority == priority && !rules.contains(r)
}

/// What has to change: everything wanted that is not there is added; what is there and not
/// wanted is removed if it is in the table, and for rules at the priority, that is owned.
pub open spec fn diff_of(actual: ActualView, desired: DesiredView) -> DiffView {
    DiffView {
        routes_to_add: seqs::keep(desired.routes, not_among(actual.routes)),
        routes_to_remove: seqs::keep(actual.routes, stale(actual.allocated_table, desired.routes)),
        rules_to_add: seqs::keep(desired.rules, rule_not_among(actual.rules)),
        rules_to_remove: seqs::keep(
            actual.rules,
            stale_rule(actual.allocated_table, actual.rule_priority, desired.rules),
        ),
    }
}

/// Whether a default route is wanted.
pub open spec fn wants_default_route(desired: DesiredView) -> bool {
    exists|i: int|
        0 <= i < desired.routes.len() && (#[trigger] desired.routes[i]).destination.len() == 0
}

/// What is said of a state with a default route.
pub open spec fn default_route_error() -> CoreErrorView {
    CoreErrorView::Planner(
        "Safety violation: Table 52000 MUST NOT contain a default route (0.0.0.0/0 or ::/0)"@,
    )
}

fn has_route(routes: &Vec<Route>, route: &Route) -> (r: bool)
    ensures
        r == seqs::views(routes@).contains(route@),
{
    let ghost all = seqs::views(routes@);
    let mut i: usize = 0;
    while i < routes.len()
        invariant
            i <= routes.len(),
            all == seqs::views(routes@),
            forall|j: int| 0 <= j < i ==> #[trigger] all[j] != route@,
        decreases routes.len() - i,
    {
        proof {
            assert(all[i as int] == routes@[i as int]@);
        }
        if routes[i].same(route) {
            return true;
        }
        i += 1;
    }
    false
}

fn has_rule(rules: &Vec<RpdbRule>, rule: RpdbRule) -> (r: bool)
    ensures
        r == rules@.contains(rule),
{
    let mut i: usize = 0;
    while i < rules.len()
        invariant
            i <= rules.len(),
            forall|j: int| 0 <= j < i ==> #[trigger] rules@[j] != rule,
        decreases rules.len() - i,
    {
        if rules[i] == rule {
            return true;
        }
        i += 1;
    }
    false
}

fn missing_routes(wanted: &Vec<Route>, present: &Vec<Route>) -> (r: Vec<Route>)
    ensures
        seqs::views(r@) == seqs::keep(
            seqs::views(wanted@),
            not_among(seqs::views(present@)),
        ),
{
    let ghost all = seqs::views(wanted@);
    let ghost p = not_among(seqs::views(present@));
    let mut out: Vec<Route> = Vec::new();
    let mut i: usize = 0;
    proof {
        assert(seqs::views(out@) =~= seqs::keep(all.take(0), p));
    }
    while i < wanted.len()
        invariant
            i <= wanted.len(),
            all == seqs::views(wanted@),
            p == not_among(seqs::views(present@)),
            seqs::views(out@) == seqs::keep(all.take(i as int), p),
        decreases wanted.len() - i,
    {
        proof {
            seqs::lemma_take_next(all, i as int);
            assert(all[i as int] == wanted@[i as int]@);
        }
        if !has_route(present, &wanted[i]) {
            let route = wanted[i].clone();
            proof {
                seqs::lemma_views_push(out@, route);
            }
            out.push(route);
        }
        i += 1;
    }
    proof {
        seqs::lemma_take_all(all);
    }
    out
}

fn stale_routes(present: &Vec<Route>, table: u32, wanted: &Vec<Route>) -> (r: Vec<Route>)
    ensures
        seqs::views(r@) == seqs::keep(
            seqs::views(present@),
            stale(table, seqs::views(wanted@)),
        ),
{
    let ghost all = seqs::views(present@);
    let ghost p = stale(table, seqs::views(wanted@));
    let mut out: Vec<Route> = Vec::new();
    let mut i: usize = 0;
    proof {
        assert(seqs::views(out@) =~= seqs::keep(all.take(0), p));
    }
    while i < present.len()
        invariant
            i <= present.len(),
            all == seqs::views(present@),
            p == stale(table, seqs::views(wanted@)),
            seqs::views(out@) == seqs::keep(all.take(i as int), p),
        decreases present.len() - i,
    {
        proof {
            seqs::lemma_take_next(all, i as int);
            assert(all[i as int] == present@[i as int]@);
        }
        if present[i].table == table && !has_route(wanted, &present[i]) {
            let route = present[i].clone();
            proof {
                seqs::lemma_views_push(out@, route);
            }
            out.push(route);
        }
        i += 1;
    }
    proof {
        seqs::lemma_take_all(all);
    }
    out
}

fn missing_rules(wanted: &Vec<RpdbRule>, present: &Vec<RpdbRule>) -> (r: Vec<RpdbRule>)
    ensures
        r@ == seqs::keep(wanted@, rule_not_among(present@)),
{
    let ghost p = rule_not_among(present@);
    let mut out: Vec<RpdbRule> = Vec::new();
    let mut i: usize = 0;
    proof {
        assert(out@ =~= seqs::keep(wanted@.take(0), p));
    }
    while i < wanted.len()
        invariant
            i <= wanted.len(),
            p == rule_not_among(present@),
            out@ == seqs::keep(wanted@.take(i as int), p),
        decreases wanted.len() - i,
    {
        proof {
            seqs::lemma_take_next(wanted@, i as int);
        }
        if !has_rule(present, wanted[i]) {
            out.push(wanted[i]);
        }
        i += 1;
    }
    proof {
        seqs::lemma_take_all(wanted@);
    }
    out
}

fn stale_rules(present: &Vec<RpdbRule>, table: u32, priority: u32, wanted: &Vec<RpdbRule>) -> (r:
    Vec<RpdbRule>)
    ensures
        r@ == seqs::keep(present@, stale_rule(table, priority, wanted@)),
{
    let ghost p = stale_rule(table, priority, wanted@);
    let mut out: Vec<RpdbRule> = Vec::new();
    let mut i: usize = 0;
    proof {
        assert(out@ =~= seqs::keep(present@.take(0), p));
    }
    while i < present.len()
        invariant
            i <= present.len(),
            p == stale_rule(table, priority, wanted@),
            out@ == seqs::keep(present@.take(i as int), p),
        decreases present.len() - i,
    {
        proof {
            seqs::lemma_take_next(present@, i as int);
        }
        if present[i].table == table && present[i].priority == priority && !has_rule(
            wanted,
            present[i],
        ) {
            out.push(present[i]);
        }
        i += 1;
    }
    proof {
        seqs::lemma_take_all(present@);
    }
    out
}

pub struct RoutePlanner;

impl RoutePlanner {
    pub fn plan_diff(actual: &ActualState, desired: &DesiredState) -> (r: Result<
        StateDiff,
        CoreError,
    >)
        ensures
            match r {
                Ok(diff) => !wants_default_route(desired@) && diff@ == diff_of(actual@, desired@),
                Err(e) => wants_default_route(desired@) && e@ == default_route_error(),
            },
    {
        if let Err(e) = Self::validate_desired_state(desired) {
            return Err(e);
        }
        Ok(
            StateDiff {
                routes_to_add: missing_routes(&desired.routes, &actual.routes),
                routes_to_remove: stale_routes(
                    &actual.routes,
                    actual.allocated_table,
                    &desired.routes,
                ),
                rules_to_add: missing_rules(&desired.rules, &actual.rules),
                rules_to_remove: stale_rules(
                    &actual.rules,
                    actual.allocated_table,
                    actual.rule_priority,
                    &desired.rules,
                ),
            },
        )
    }

    /// The custom table must never contain a default route.
    pub fn validate_desired_state(desired: &DesiredState) -> (r: Result<(), CoreError>)
        ensures
            match r {
                Ok(_) => !wants_default_route(desired@),
                Err(e) => wants_default_route(desired@) && e@ == default_route_error(),
            },
    {
        let mut i: usize = 0;
        while i < desired.routes.len()
            invariant
                i <= desired.routes.len(),
                forall|j: int|
                    0 <= j < i ==> (#[trigger] desired@.routes[j]).destination.len() != 0,
            decreases desired.routes.len() - i,
        {
            proof {
                assert(desired@.routes[i as int] == desired.routes@[i as int]@);
            }
            if desired.routes[i].destination.prefix_len() == 0 {
                return Err(
                    CoreError::Planner(
                        "Safety violation: Table 52000 MUST NOT contain a default route (0.0.0.0/0 or ::/0)".to_owned(),
                    ),
                );
            }
            i += 1;
        }
        Ok(())
    }

    pub fn generate_desired_state(
        table_id: u32,
        rule_priority: u32,
        routes: Vec<Route>,
        split_dns: Vec<(String, IpAddr)>,
    ) -> (r: DesiredState)
        ensures
            r@ == (DesiredView {
                routes: seqs::views(routes@),
                rules: seq![RpdbRule { priority: rule_priority, table: table_id }],
                dns_split_domains: crate::model::split_views(split_dns@),
                firewall_whitelist: Seq::empty(),
                blacklist: Seq::empty(),
                lan_interfaces: Seq::empty(),
                wan_interface: None,
            }),
    {
        let mut rules: Vec<RpdbRule> = Vec::new();
        rules.push(RpdbRule { priority: rule_priority, table: table_id });
        let mut r = DesiredState::default();
        r.routes = routes;
        r.rules = rules;
        r.dns_split_domains = split_dns;
        proof {
            assert(r@.rules =~= seq![RpdbRule { priority: rule_priority, table: table_id }]);
        }
        r
    }
}

/// The routes that are there once a diff has been carried out.
pub open spec fn routes_after(actual: ActualView, diff: DiffView, r: RouteView) -> bool {
    diff.routes_to_add.contains(r) || (actual.routes.contains(r) && !diff.routes_to_remove.contains(
        r,
    ))
}

/// The rules that are there once a diff has been carried out.
pub open spec fn rules_after(actual: ActualView, diff: DiffView, r: RpdbRule) -> bool {
    diff.rules_to_add.contains(r) || (actual.rules.contains(r) && !diff.rules_to_remove.contains(r))
}

/// Once the diff has been carried out, what is wanted is there, and of what is owned nothing
/// else; what is not owned is as it was.
pub proof fn law_diff_leads_to_the_desired_state(
    actual: ActualView,
    desired: DesiredView,
    r: RouteView,
    q: RpdbRule,
)
    ensures
        routes_after(actual, diff_of(actual, desired), r) <==> desired.routes.contains(r) || (
        actual.routes.contains(r) && r.table != actual.allocated_table),
        rules_after(actual, diff_of(actual, desired), q) <==> desired.rules.contains(q) || (
        actual.rules.contains(q) && !(q.table == actual.allocated_table && q.priority
            == actual.rule_priority)),
{
    seqs::lemma_keep(desired.routes, not_among(actual.routes));
    seqs::lemma_keep(actual.routes, stale(actual.allocated_table, desired.routes));
    seqs::lemma_keep(desired.rules, rule_not_among(actual.rules));
    seqs::lemma_keep(
        actual.rules,
        stale_rule(actual.allocated_table, actual.rule_priority, desired.rules),
    );
    let d = diff_of(actual, desired);
    assert(d.routes_to_add.contains(r) <==> desired.routes.contains(r) && !actual.routes.contains(
        r,
    ));
    assert(d.routes_to_remove.contains(r) <==> actual.routes.contains(r) && r.table
        == actual.allocated_table && !desired.routes.contains(r));
    assert(d.rules_to_add.contains(q) <==> desired.rules.contains(q) && !actual.rules.contains(q));
    assert(d.rules_to_remove.contains(q) <==> actual.rules.contains(q) && q.table
        == actual.allocated_table && q.priority == actual.rule_priority && !desired.rules.contains(
        q,
    ));
}

/// A diff takes away nothing outside the table that is owned, and no rule at another priority.
pub proof fn law_diff_touches_only_what_is_owned(
    actual: ActualView,
    desired: DesiredView,
    r: RouteView,
    q: RpdbRule,
)
    ensures
        diff_of(actual, desired).routes_to_remove.contains(r) ==> r.table
            == actual.allocated_table && actual.routes.contains(r),
        diff_of(actual, desired).rules_to_remove.contains(q) ==> q.table
            == actual.allocated_table && q.priority == actual.rule_priority
            && actual.rules.contains(q),
{
    seqs::lemma_keep(actual.routes, stale(actual.allocated_table, desired.routes));
    seqs::lemma_keep(
        actual.rules,
        stale_rule(actual.allocated_table, actual.rule_priority, desired.rules),
    );
}

/// No default route is ever added.
pub proof fn law_no_default_route_is_added(
    actual: ActualView,
    desired: DesiredView,
    r: RouteView,
)
    requires
        !wants_default_route(desired),
        diff_of(actual, desired).routes_to_add.contains(r),
    ensures
        r.destination.len() > 0,
{
    seqs::lemma_keep(desired.routes, not_among(actual.routes));
    let i = choose|i: int| 0 <= i < desired.routes.len() && desired.routes[i] == r;
    assert(desired.routes[i].destination.len() != 0);
}

/// Where what is wanted is in force, there is nothing to do.
pub proof fn law_settled_state_needs_nothing(
    desired: DesiredView,
    allocated_table: u32,
    rule_priority: u32,
)
    ensures
        diff_of(
            ActualView {
                routes: desired.routes,
                rules: desired.rules,
                allocated_table,
                rule_priority,
            },
            desired,
        ) == DiffView::empty(),
{
    lemma_keep_none(desired.routes, not_among(desired.routes));
    lemma_keep_none(desired.routes, stale(allocated_table, desired.routes));
    lemma_keep_none(desired.rules, rule_not_among(desired.rules));
    lemma_keep_none(desired.rules, stale_rule(allocated_table, rule_priority, desired.rules));
}

proof fn lemma_keep_none<A>(s: Seq<A>, p: spec_fn(A) -> bool)
    requires
        forall|a: A| s.contains(a) ==> !#[trigger] p(a),
    ensures
        seqs::keep(s, p) == Seq::<A>::empty(),
    decreases s.len(),
{
    if s.len() > 0 {
        let t = s.drop_last();
        assert forall|a: A| t.contains(a) implies !#[trigger] p(a) by {
            let i = choose|i: int| 0 <= i < t.len() && t[i] == a;
            assert(s[i] == a);
        }
        lemma_keep_none(t, p);
        assert(s.contains(s[s.len() - 1]));
        assert(!p(s.last()));
    } else {
        assert(s =~= Seq::<A>::empty());
    }
}

/// A default route of either family is refused, wherever it stands among the desired routes, and
/// nothing else is.
pub proof fn law_every_default_route_is_refused(desired: DesiredView)
    ensures
        wants_default_route(desired) <==> exists|r: RouteView|
            #[trigger] desired.routes.contains(r) && r.destination.len() == 0,
{
    if wants_default_route(desired) {
        let i = choose|i: int|
            0 <= i < desired.routes.len() && (#[trigger] desired.routes[i]).destination.len() == 0;
        assert(desired.routes.contains(desired.routes[i]));
    }
    if exists|r: RouteView| #[trigger] desired.routes.contains(r) && r.destination.len() == 0 {
        let r = choose|r: RouteView| #[trigger]
            desired.routes.contains(r) && r.destination.len() == 0;
        let i = choose|i: int| 0 <= i < desired.routes.len() && desired.routes[i] == r;
        assert(desired.routes[i].destination.len() == 0);
    }
}

} // verus!
