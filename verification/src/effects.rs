//! What a reconciliation does to the host, from its first action to its report.

use vstd::prelude::*;
use crate::error::LinuxErrorView;
use crate::model::{DesiredView, DiffView, RouteView, RpdbRule};
use crate::names;
use crate::planner;
use crate::reconcile::{self, ActionView, EventView, SessionView, StepView};
use crate::seqs;
use crate::state::RuntimeView;

verus! {

// ---------------------------------------------------------------------------------------------
// The host
// ---------------------------------------------------------------------------------------------
/// What is in force on a host: its routes, and the rules by which it looks them up.
#[verifier::ext_equal]
pub struct HostView {
    pub routes: Set<RouteView>,
    pub rules: Set<RpdbRule>,
}

/// A host that has done what it was asked.
pub open spec fn obeyed(h: HostView, action: Option<ActionView>) -> HostView {
    match action {
        Some(ActionView::AddRoute(r)) => HostView { routes: h.routes.insert(r), ..h },
        Some(ActionView::DeleteRoute(r)) => HostView { routes: h.routes.remove(r), ..h },
        Some(ActionView::EnsureRule(q)) => HostView { rules: h.rules.insert(q), ..h },
        Some(ActionView::RemoveRule(q)) => HostView { rules: h.rules.remove(q), ..h },
        _ => h,
    }
}

/// The host after a reconciliation has gone through events: it has done all that it was asked,
/// but for what it said had failed.
pub open spec fn host_after(h: HostView, s0: SessionView, events: Seq<EventView>) -> HostView
    decreases events.len(),
{
    if events.len() == 0 {
        h
    } else {
        let before = events.drop_last();
        if events.last() is Failed {
            host_after(h, s0, before)
        } else {
            obeyed(host_after(h, s0, before), reconcile::run(s0, before).action())
        }
    }
}

/// Whether an action was asked for on the way.
pub open spec fn asked(s0: SessionView, events: Seq<EventView>, action: ActionView) -> bool {
    exists|k: int|
        0 <= k < events.len() && reconcile::run(s0, #[trigger] events.take(k)).action() == Some(
            action,
        )
}

/// Whether an action was asked for on the way and did not fail.
pub open spec fn granted(s0: SessionView, events: Seq<EventView>, action: ActionView) -> bool {
    exists|k: int|
        0 <= k < events.len() && reconcile::run(s0, #[trigger] events.take(k)).action() == Some(
            action,
        ) && !(events[k] is Failed)
}

proof fn lemma_later(s0: SessionView, events: Seq<EventView>, action: ActionView)
    requires
        events.len() > 0,
    ensures
        asked(s0, events.drop_last(), action) ==> asked(s0, events, action),
        granted(s0, events.drop_last(), action) ==> granted(s0, events, action),
        reconcile::run(s0, events.drop_last()).action() == Some(action) ==> asked(
            s0,
            events,
            action,
        ) && (!(events.last() is Failed) ==> granted(s0, events, action)),
{
    let before = events.drop_last();
    let n = before.len() as int;
    assert(events.take(n) =~= before);
    assert(events[n] == events.last());
    if asked(s0, before, action) {
        let k = choose|k: int|
            0 <= k < before.len() && reconcile::run(s0, #[trigger] before.take(k)).action() == Some(
                action,
            );
        assert(before.take(k) =~= events.take(k));
    }
    if granted(s0, before, action) {
        let k = choose|k: int|
            0 <= k < before.len() && reconcile::run(s0, #[trigger] before.take(k)).action() == Some(
                action,
            ) && !(before[k] is Failed);
        assert(before.take(k) =~= events.take(k));
        assert(before[k] == events[k]);
    }
}

// ---------------------------------------------------------------------------------------------
// The way
// ---------------------------------------------------------------------------------------------
/// How far a reconciliation has come: the numbers of filters, of rules and routes added, of routes
/// and rules removed, and of routes whose interface was cleared of default routes.
struct Mark {
    filters: nat,
    rules_added: nat,
    routes_added: nat,
    routes_removed: nat,
    rules_removed: nat,
    cleared: nat,
}

/// Whether a reconciliation is on its way, or has come to its end well.
spec fn underway(s: SessionView) -> bool {
    match s.step {
        StepView::Undo(_) | StepView::Restore(_) | StepView::Failed => false,
        StepView::Done => s.claims_success(),
        _ => true,
    }
}

spec fn mark(s: SessionView) -> Mark {
    let f = s.interfaces.len();
    let q = s.diff.rules_to_add.len();
    let a = s.diff.routes_to_add.len();
    let d = s.diff.routes_to_remove.len();
    let x = s.diff.rules_to_remove.len();
    let n = s.desired.routes.len();
    let (f, q, a, d, x, n) = match s.step {
        StepView::CheckWan => (0, 0, 0, 0, 0, 0),
        StepView::Filter(i) => (i, 0, 0, 0, 0, 0),
        StepView::AddRule(i) => (f, i, 0, 0, 0, 0),
        StepView::AddRoute(i) => (f, q, i, 0, 0, 0),
        StepView::DropRoute(i) => (f, q, a, i, 0, 0),
        StepView::DropRule(i) => (f, q, a, d, i, 0),
        StepView::FindWan | StepView::Prioritize => (f, q, a, d, x, 0),
        StepView::Purge(i) => (f, q, a, d, x, i),
        _ => (f, q, a, d, x, n),
    };
    Mark {
        filters: f,
        rules_added: q,
        routes_added: a,
        routes_removed: d,
        rules_removed: x,
        cleared: n,
    }
}

/// What an event makes of the mark, but for the routes whose interface is to be left alone.
spec fn moved(s: SessionView, m: Mark) -> Mark {
    match s.step {
        StepView::Filter(i) => Mark { filters: i + 1, ..m },
        StepView::AddRule(i) => Mark { rules_added: i + 1, ..m },
        StepView::AddRoute(i) => Mark { routes_added: i + 1, ..m },
        StepView::DropRoute(i) => Mark { routes_removed: i + 1, ..m },
        StepView::DropRule(i) => Mark { rules_removed: i + 1, ..m },
        StepView::Purge(i) => Mark { cleared: i + 1, ..m },
        _ => m,
    }
}

proof fn lemma_next_elsewhere(routes: Seq<RouteView>, wan: Option<Seq<char>>, i: nat)
    requires
        i <= routes.len(),
    ensures
        i <= reconcile::next_elsewhere(routes, wan, i) <= routes.len(),
        forall|j: int|
            i <= j < reconcile::next_elsewhere(routes, wan, i) ==> !reconcile::leads_elsewhere(
                #[trigger] routes[j],
                wan,
            ),
    decreases routes.len() - i,
{
    if i < routes.len() && !reconcile::leads_elsewhere(routes[i as int], wan) {
        lemma_next_elsewhere(routes, wan, i + 1);
    }
}

/// The interface of the normal path is settled before default routes are removed.
spec fn wan_settled(s: SessionView) -> bool {
    match s.step {
        StepView::Prioritize | StepView::Purge(_) | StepView::Verify | StepView::Save =>
            s.desired.wan_interface is Some ==> s.wan == s.desired.wan_interface,
        StepView::Done => s.claims_success() && s.desired.wan_interface is Some ==> s.wan
            == s.desired.wan_interface,
        _ => true,
    }
}

/// Whether the index of a step is one that there is.
spec fn in_range(s: SessionView) -> bool {
    match s.step {
        StepView::CheckWan => s.desired.wan_interface is Some,
        StepView::Filter(i) => i < s.interfaces.len(),
        StepView::AddRule(i) => i < s.diff.rules_to_add.len(),
        StepView::AddRoute(i) => i < s.diff.routes_to_add.len(),
        StepView::DropRoute(i) => i < s.diff.routes_to_remove.len(),
        StepView::DropRule(i) => i < s.diff.rules_to_remove.len(),
        StepView::FindWan => s.desired.wan_interface is None,
        StepView::Prioritize => s.wan is Some,
        StepView::Purge(i) => i < s.desired.routes.len(),
        _ => true,
    }
}

/// One event moves the mark by what was asked, and leaves out no action.
proof fn lemma_moves(s: SessionView, e: EventView)
    requires
        underway(s),
        in_range(s),
        wan_settled(s),
    ensures
        ({
            let t = s.advanced(e);
            let m = moved(s, mark(s));
            &&& t.desired == s.desired
            &&& t.diff == s.diff
            &&& t.interfaces == s.interfaces
            &&& underway(t) ==> {
                &&& in_range(t)
                &&& wan_settled(t)
                &&& mark(t).filters == m.filters
                &&& mark(t).rules_added == m.rules_added
                &&& mark(t).routes_added == m.routes_added
                &&& mark(t).routes_removed == m.routes_removed
                &&& mark(t).rules_removed == m.rules_removed
                &&& m.cleared <= mark(t).cleared <= s.desired.routes.len()
                &&& forall|j: int|
                    m.cleared <= j < mark(t).cleared ==> !reconcile::leads_elsewhere(
                        #[trigger] s.desired.routes[j],
                        t.wan,
                    )
                &&& mark(t).cleared > 0 && !(s.step is FindWan) ==> t.wan == s.wan
                    || mark(s).cleared == 0
                &&& e is Failed ==> s.step is DropRoute || s.step is DropRule || s.step is FindWan
                    || s.step is Done
            }
        }),
{
    lemma_next_elsewhere(s.desired.routes, s.wan, 0);
    if let StepView::Purge(i) = s.step {
        lemma_next_elsewhere(s.desired.routes, s.wan, i + 1);
    }
    if s.step is FindWan {
        let w = match e {
            EventView::Wan(w) => w,
            _ => None,
        };
        lemma_next_elsewhere(s.desired.routes, w, 0);
    }
    if s.desired.wan_interface is Some {
        lemma_next_elsewhere(s.desired.routes, s.desired.wan_interface, 0);
    }
}

/// What was given up on does not come to a good end.
proof fn lemma_given_up(s: SessionView, e: EventView)
    requires
        !(s.step is Done) ==> !s.claims_success(),
    ensures
        !(s.advanced(e).step is Done) ==> !s.advanced(e).claims_success(),
        !underway(s) ==> !underway(s.advanced(e)),
{
}

/// The filter of an interface.
pub open spec fn filter_of(desired: DesiredView, iface: Seq<char>) -> ActionView {
    ActionView::Filter {
        interface: iface,
        allowed: reconcile::allowed_on(desired, iface),
        blocked: desired.blacklist,
    }
}

/// Whether a state remembers what is desired.
pub open spec fn remembers(kept: RuntimeView, desired: DesiredView) -> bool {
    &&& kept.routes_owned == desired.routes
    &&& kept.rules_owned == desired.rules
    &&& kept.firewall_whitelist == desired.firewall_whitelist
    &&& kept.firewall_blacklist == desired.blacklist
    &&& desired.rules.len() > 0 ==> kept.allocated_table == desired.rules[0].table
        && kept.rule_priority == desired.rules[0].priority
    &&& kept.firewall_interfaces == reconcile::filtered_interfaces(desired)
}

/// Every interface of the LAN and of the whitelist is filtered, each once, and no other.
pub proof fn law_which_interfaces_are_filtered(desired: DesiredView, name: Seq<char>)
    ensures
        reconcile::filtered_interfaces(desired).contains(name)
            <==> desired.lan_interfaces.contains(name) || exists|i: int|
            0 <= i < desired.firewall_whitelist.len() && (
            #[trigger] desired.firewall_whitelist[i]).0 == name,
        names::ascending(reconcile::filtered_interfaces(desired)),
{
    let more = Seq::new(
        desired.firewall_whitelist.len(),
        |i: int| desired.firewall_whitelist[i].0,
    );
    let all = desired.lan_interfaces + more;
    names::lemma_sorted(all);
    if desired.lan_interfaces.contains(name) {
        let i = choose|i: int|
            0 <= i < desired.lan_interfaces.len() && desired.lan_interfaces[i] == name;
        assert(all[i] == name);
    }
    if exists|i: int|
        0 <= i < desired.firewall_whitelist.len() && (#[trigger] desired.firewall_whitelist[i]).0
            == name {
        let i = choose|i: int|
            0 <= i < desired.firewall_whitelist.len() && (
            #[trigger] desired.firewall_whitelist[i]).0 == name;
        assert(all[desired.lan_interfaces.len() + i] == name);
    }
    if all.contains(name) {
        let i = choose|i: int| 0 <= i < all.len() && all[i] == name;
        if i < desired.lan_interfaces.len() {
            assert(desired.lan_interfaces[i] == name);
        } else {
            assert(desired.firewall_whitelist[i - desired.lan_interfaces.len()].0 == name);
        }
    }
}

spec fn filters_granted(s0: SessionView, events: Seq<EventView>, n: nat) -> bool {
    forall|j: int|
        0 <= j < n ==> granted(s0, events, filter_of(s0.desired, #[trigger] s0.interfaces[j]))
}

spec fn rules_granted(s0: SessionView, events: Seq<EventView>, n: nat) -> bool {
    forall|j: int|
        0 <= j < n ==> granted(
            s0,
            events,
            ActionView::EnsureRule(#[trigger] s0.diff.rules_to_add[j]),
        )
}

spec fn routes_granted(s0: SessionView, events: Seq<EventView>, n: nat) -> bool {
    forall|j: int|
        0 <= j < n ==> granted(
            s0,
            events,
            ActionView::AddRoute(#[trigger] s0.diff.routes_to_add[j]),
        )
}

spec fn removals_asked(s0: SessionView, events: Seq<EventView>, n: nat) -> bool {
    forall|j: int|
        0 <= j < n ==> asked(
            s0,
            events,
            ActionView::DeleteRoute(#[trigger] s0.diff.routes_to_remove[j]),
        )
}

spec fn rule_removals_asked(s0: SessionView, events: Seq<EventView>, n: nat) -> bool {
    forall|j: int|
        0 <= j < n ==> asked(
            s0,
            events,
            ActionView::RemoveRule(#[trigger] s0.diff.rules_to_remove[j]),
        )
}

spec fn clearings_granted(
    s0: SessionView,
    events: Seq<EventView>,
    wan: Option<Seq<char>>,
    n: nat,
) -> bool {
    forall|j: int|
        0 <= j < n && reconcile::leads_elsewhere(#[trigger] s0.desired.routes[j], wan) ==> granted(
            s0,
            events,
            ActionView::RemoveDefaults(s0.desired.routes[j].output_interface),
        )
}

/// What is known of a reconciliation on its way.
spec fn accounted(s0: SessionView, events: Seq<EventView>) -> bool {
    let s = reconcile::run(s0, events);
    let m = mark(s);
    &&& s.desired == s0.desired
    &&& s.diff == s0.diff
    &&& s.interfaces == s0.interfaces
    &&& !(s.step is Done) ==> !s.claims_success()
    &&& underway(s) ==> {
        &&& in_range(s)
        &&& wan_settled(s)
        &&& filters_granted(s0, events, m.filters)
        &&& rules_granted(s0, events, m.rules_added)
        &&& routes_granted(s0, events, m.routes_added)
        &&& removals_asked(s0, events, m.routes_removed)
        &&& rule_removals_asked(s0, events, m.rules_removed)
        &&& clearings_granted(s0, events, s.wan, m.cleared)
        &&& (s.step is Purge || s.step is Verify || s.step is Save || s.step is Done) ==> (
        s.wan matches Some(w) ==> granted(s0, events, ActionView::Prioritize(w)))
        &&& s.step is Save || s.step is Done ==> remembers(s.state, s.desired)
            && s.state.generation == s0.next_generation && s.next_generation == s0.next_generation
        &&& s.next_generation == s0.next_generation
        &&& s.step is Done ==> granted(s0, events, ActionView::Save(s.state))
    }
}

/// What the last steps rest on.
proof fn lemma_last_steps(s: SessionView, e: EventView)
    requires
        underway(s),
        in_range(s),
        underway(s.advanced(e)),
    ensures
        ({
            let t = s.advanced(e);
            &&& (t.step is Purge || t.step is Verify || t.step is Save || t.step is Done)
                && t.wan is Some ==> t.wan == s.wan && (s.step is Prioritize || s.step is Purge
                || s.step is Verify || s.step is Save || s.step is Done)
            &&& s.step is Prioritize ==> !(e is Failed) && s.action() == Some(
                ActionView::Prioritize(s.wan->0),
            )
            &&& t.next_generation == s.next_generation
            &&& t.step is Save ==> s.step is Verify && t.state.generation == s.next_generation && (
            s.interfaces == reconcile::filtered_interfaces(s.desired) ==> remembers(
                t.state,
                t.desired,
            ))
            &&& t.step is Done && !(s.step is Done) ==> s.step is Save && t.state == s.state
                && !(e is Failed) && s.action() == Some(ActionView::Save(s.state))
            &&& s.step is Done ==> t == s
            &&& s.step is Purge || s.step is Verify || s.step is Save ==> t.wan == s.wan
        }),
{
}

#[verifier::spinoff_prover]
#[verifier::rlimit(60)]
proof fn lemma_accounted_step(s0: SessionView, events: Seq<EventView>)
    requires
        s0.interfaces == reconcile::filtered_interfaces(s0.desired),
        events.len() > 0,
        accounted(s0, events.drop_last()),
        underway(reconcile::run(s0, events.drop_last())),
    ensures
        accounted(s0, events),
{
    let before = events.drop_last();
    let e = events.last();
    let s = reconcile::run(s0, before);
    let t = reconcile::run(s0, events);
    lemma_moves(s, e);
    lemma_given_up(s, e);
    if underway(t) {
        lemma_last_steps(s, e);
        let m = mark(t);
        assert forall|j: int| 0 <= j < m.filters implies granted(
            s0,
            events,
            filter_of(s0.desired, #[trigger] s0.interfaces[j]),
        ) by {
            lemma_later(s0, events, filter_of(s0.desired, s0.interfaces[j]));
        }
        assert forall|j: int| 0 <= j < m.rules_added implies granted(
            s0,
            events,
            ActionView::EnsureRule(#[trigger] s0.diff.rules_to_add[j]),
        ) by {
            lemma_later(s0, events, ActionView::EnsureRule(s0.diff.rules_to_add[j]));
        }
        assert forall|j: int| 0 <= j < m.routes_added implies granted(
            s0,
            events,
            ActionView::AddRoute(#[trigger] s0.diff.routes_to_add[j]),
        ) by {
            lemma_later(s0, events, ActionView::AddRoute(s0.diff.routes_to_add[j]));
        }
        assert forall|j: int| 0 <= j < m.routes_removed implies asked(
            s0,
            events,
            ActionView::DeleteRoute(#[trigger] s0.diff.routes_to_remove[j]),
        ) by {
            lemma_later(s0, events, ActionView::DeleteRoute(s0.diff.routes_to_remove[j]));
        }
        assert forall|j: int| 0 <= j < m.rules_removed implies asked(
            s0,
            events,
            ActionView::RemoveRule(#[trigger] s0.diff.rules_to_remove[j]),
        ) by {
            lemma_later(s0, events, ActionView::RemoveRule(s0.diff.rules_to_remove[j]));
        }
        assert forall|j: int|
            0 <= j < m.cleared && reconcile::leads_elsewhere(
                #[trigger] s0.desired.routes[j],
                t.wan,
            ) implies granted(
            s0,
            events,
            ActionView::RemoveDefaults(s0.desired.routes[j].output_interface),
        ) by {
            lemma_later(
                s0,
                events,
                ActionView::RemoveDefaults(s0.desired.routes[j].output_interface),
            );
        }
        if let Some(w) = t.wan {
            lemma_later(s0, events, ActionView::Prioritize(w));
        }
        lemma_later(s0, events, ActionView::Save(t.state));
    }
}

proof fn lemma_accounted(s0: SessionView, events: Seq<EventView>)
    requires
        s0.interfaces == reconcile::filtered_interfaces(s0.desired),
        accounted(s0, Seq::empty()),
    ensures
        accounted(s0, events),
    decreases events.len(),
{
    if events.len() == 0 {
        assert(events =~= Seq::empty());
    } else {
        let before = events.drop_last();
        lemma_accounted(s0, before);
        if underway(reconcile::run(s0, before)) {
            lemma_accounted_step(s0, events);
        } else {
            let s = reconcile::run(s0, before);
            lemma_given_up(s, events.last());
            lemma_keeps(s, events.last());
        }
    }
}

proof fn lemma_keeps(s: SessionView, e: EventView)
    ensures
        s.advanced(e).desired == s.desired,
        s.advanced(e).diff == s.diff,
        s.advanced(e).interfaces == s.interfaces,
        s.advanced(e).report matches Some(r) ==> s.report == s.advanced(e).report || r.diff
            == s.diff,
{
}

/// Every report tells the difference between what is in force and what is desired.
pub proof fn law_reports_tell_the_difference(
    desired: DesiredView,
    dry_run: bool,
    state: RuntimeView,
    events: Seq<EventView>,
)
    ensures
        reconcile::run(SessionView::start(desired, dry_run, state), events).report matches Some(r)
            ==> r.diff == planner::diff_of(state.actual(), desired),
        reconcile::run(SessionView::start(desired, dry_run, state), events).diff
            == planner::diff_of(state.actual(), desired),
    decreases events.len(),
{
    if events.len() > 0 {
        law_reports_tell_the_difference(desired, dry_run, state, events.drop_last());
        lemma_keeps(
            reconcile::run(SessionView::start(desired, dry_run, state), events.drop_last()),
            events.last(),
        );
    }
}

proof fn lemma_start(desired: DesiredView, dry_run: bool, state: RuntimeView)
    ensures
        accounted(SessionView::start(desired, dry_run, state), Seq::empty()),
        SessionView::start(desired, dry_run, state).desired == desired,
        SessionView::start(desired, dry_run, state).diff == planner::diff_of(
            state.actual(),
            desired,
        ),
        SessionView::start(desired, dry_run, state).interfaces == reconcile::filtered_interfaces(
            desired,
        ),
{
}

/// A reconciliation that says that the desired state was applied and verified has left nothing
/// out. Every desired route and rule that was not owned was added without a failure. Every owned
/// route of the table that is not desired was to be deleted, and so was every owned rule of the
/// table and the priority. Every interface of the LAN was filtered without a failure, and the
/// state that was kept remembers what is desired.
pub proof fn law_success_leaves_nothing_out(
    desired: DesiredView,
    dry_run: bool,
    state: RuntimeView,
    events: Seq<EventView>,
)
    requires
        state.generation < u64::MAX,
        reconcile::run(SessionView::start(desired, dry_run, state), events).claims_success(),
    ensures
        ({
            let s0 = SessionView::start(desired, dry_run, state);
            &&& forall|r: RouteView|
                desired.routes.contains(r) && !state.routes_owned.contains(r) ==> #[trigger] granted(s0, events, ActionView::AddRoute(r))
            &&& forall|r: RouteView|
                state.routes_owned.contains(r) && r.table == state.allocated_table
                    && !desired.routes.contains(r) ==> #[trigger] asked(s0, events, ActionView::DeleteRoute(r))
            &&& forall|q: RpdbRule|
                desired.rules.contains(q) && !state.rules_owned.contains(q) ==> #[trigger] granted(s0, events, ActionView::EnsureRule(q))
            &&& forall|q: RpdbRule|
                state.rules_owned.contains(q) && q.table == state.allocated_table && q.priority
                    == state.rule_priority && !desired.rules.contains(q) ==> #[trigger] asked(s0, events, ActionView::RemoveRule(q))
            &&& forall|i: int|
                0 <= i < desired.lan_interfaces.len() ==> granted(
                    s0,
                    events,
                    filter_of(desired, #[trigger] desired.lan_interfaces[i]),
                )
            &&& forall|i: int|
                0 <= i < desired.firewall_whitelist.len() ==> granted(
                    s0,
                    events,
                    filter_of(desired, (#[trigger] desired.firewall_whitelist[i]).0),
                )
            &&& exists|kept: RuntimeView|
                remembers(kept, desired) && kept.generation == state.generation + 1
                    && #[trigger] granted(s0, events, ActionView::Save(kept))
        }),
{
    let s0 = SessionView::start(desired, dry_run, state);
    let s = reconcile::run(s0, events);
    let diff = planner::diff_of(state.actual(), desired);
    lemma_start(desired, dry_run, state);
    lemma_accounted(s0, events);
    seqs::lemma_keep(desired.routes, planner::not_among(state.routes_owned));
    seqs::lemma_keep(
        state.routes_owned,
        planner::stale(state.allocated_table, desired.routes),
    );
    seqs::lemma_keep(desired.rules, planner::rule_not_among(state.rules_owned));
    seqs::lemma_keep(
        state.rules_owned,
        planner::stale_rule(state.allocated_table, state.rule_priority, desired.rules),
    );
    assert forall|r: RouteView|
        desired.routes.contains(r) && !state.routes_owned.contains(r) implies #[trigger] granted(s0, events, ActionView::AddRoute(r)) by {
        assert(diff.routes_to_add.contains(r));
        let j = choose|j: int| 0 <= j < diff.routes_to_add.len() && diff.routes_to_add[j] == r;
        assert(s0.diff.routes_to_add[j] == r);
    }
    assert forall|r: RouteView|
        state.routes_owned.contains(r) && r.table == state.allocated_table
            && !desired.routes.contains(r) implies #[trigger] asked(s0, events, ActionView::DeleteRoute(r)) by {
        assert(diff.routes_to_remove.contains(r));
        let j = choose|j: int|
            0 <= j < diff.routes_to_remove.len() && diff.routes_to_remove[j] == r;
        assert(s0.diff.routes_to_remove[j] == r);
    }
    assert forall|q: RpdbRule|
        desired.rules.contains(q) && !state.rules_owned.contains(q) implies #[trigger] granted(s0, events, ActionView::EnsureRule(q)) by {
        assert(diff.rules_to_add.contains(q));
        let j = choose|j: int| 0 <= j < diff.rules_to_add.len() && diff.rules_to_add[j] == q;
        assert(s0.diff.rules_to_add[j] == q);
    }
    assert forall|q: RpdbRule|
        state.rules_owned.contains(q) && q.table == state.allocated_table && q.priority
            == state.rule_priority && !desired.rules.contains(q) implies #[trigger] asked(s0, events, ActionView::RemoveRule(q)) by {
        assert(diff.rules_to_remove.contains(q));
        let j = choose|j: int|
            0 <= j < diff.rules_to_remove.len() && diff.rules_to_remove[j] == q;
        assert(s0.diff.rules_to_remove[j] == q);
    }
    let named = desired.lan_interfaces + Seq::new(
        desired.firewall_whitelist.len(),
        |i: int| desired.firewall_whitelist[i].0,
    );
    names::lemma_sorted(named);
    assert forall|i: int| 0 <= i < named.len() implies granted(
        s0,
        events,
        filter_of(desired, #[trigger] named[i]),
    ) by {
        assert(named.contains(named[i]));
        assert(s0.interfaces.contains(named[i]));
        let j = choose|j: int| 0 <= j < s0.interfaces.len() && s0.interfaces[j] == named[i];
        assert(granted(s0, events, filter_of(s0.desired, s0.interfaces[j])));
    }
    assert forall|i: int| 0 <= i < desired.lan_interfaces.len() implies granted(
        s0,
        events,
        filter_of(desired, #[trigger] desired.lan_interfaces[i]),
    ) by {
        assert(named[i] == desired.lan_interfaces[i]);
    }
    assert forall|i: int| 0 <= i < desired.firewall_whitelist.len() implies granted(
        s0,
        events,
        filter_of(desired, (#[trigger] desired.firewall_whitelist[i]).0),
    ) by {
        assert(named[desired.lan_interfaces.len() + i] == desired.firewall_whitelist[i].0);
    }
    assert(granted(s0, events, ActionView::Save(s.state)));
    if dry_run || reconcile::settled(state, desired) {
        lemma_stays(s0, events);
    }
}

/// A reconciliation that says that the desired state was applied and verified has put the normal
/// path first, and has taken the default routes off every other interface that a desired route
/// leads through, without a failure.
pub proof fn law_success_keeps_the_normal_path(
    desired: DesiredView,
    dry_run: bool,
    state: RuntimeView,
    events: Seq<EventView>,
    wan: Seq<char>,
)
    requires
        desired.wan_interface == Some(wan),
        reconcile::run(SessionView::start(desired, dry_run, state), events).claims_success(),
    ensures
        granted(
            SessionView::start(desired, dry_run, state),
            events,
            ActionView::Prioritize(wan),
        ),
        forall|i: int|
            0 <= i < desired.routes.len() && (#[trigger] desired.routes[i]).output_interface.len()
                > 0 && desired.routes[i].output_interface != wan ==> granted(
                SessionView::start(desired, dry_run, state),
                events,
                ActionView::RemoveDefaults(desired.routes[i].output_interface),
            ),
{
    let s0 = SessionView::start(desired, dry_run, state);
    let s = reconcile::run(s0, events);
    lemma_start(desired, dry_run, state);
    lemma_accounted(s0, events);
    assert forall|i: int|
        0 <= i < desired.routes.len() && (#[trigger] desired.routes[i]).output_interface.len() > 0
            && desired.routes[i].output_interface != wan implies granted(
        s0,
        events,
        ActionView::RemoveDefaults(desired.routes[i].output_interface),
    ) by {
        assert(reconcile::leads_elsewhere(s0.desired.routes[i], s.wan));
    }
}

// ---------------------------------------------------------------------------------------------
// What is in force at the end
// ---------------------------------------------------------------------------------------------
spec fn route_there(h: HostView, diff: DiffView, m: Mark, r: RouteView) -> bool {
    (h.routes.contains(r) || diff.routes_to_add.take(m.routes_added as int).contains(r))
        && !diff.routes_to_remove.take(m.routes_removed as int).contains(r)
}

spec fn rule_there(h: HostView, diff: DiffView, m: Mark, q: RpdbRule) -> bool {
    (h.rules.contains(q) || diff.rules_to_add.take(m.rules_added as int).contains(q))
        && !diff.rules_to_remove.take(m.rules_removed as int).contains(q)
}

proof fn lemma_take_contains<A>(s: Seq<A>, i: int, x: A)
    requires
        0 <= i < s.len(),
    ensures
        s.take(i + 1).contains(x) <==> s.take(i).contains(x) || s[i] == x,
{
    seqs::lemma_take_next(s, i);
    if s.take(i).contains(x) {
        let some = s.take(i);
        let k = choose|k: int| 0 <= k < some.len() && some[k] == x;
        assert(s.take(i + 1)[k] == x);
    }
    if s[i] == x {
        assert(s.take(i + 1)[i] == x);
    }
    if s.take(i + 1).contains(x) {
        let more = s.take(i + 1);
        let k = choose|k: int| 0 <= k < more.len() && more[k] == x;
        if k < i {
            assert(s.take(i)[k] == x);
        }
    }
}

proof fn lemma_host_step(h: HostView, s0: SessionView, events: Seq<EventView>, r: RouteView, q: RpdbRule)
    requires
        events.len() > 0,
        !(events.last() is Failed),
        accounted(s0, events.drop_last()),
        underway(reconcile::run(s0, events.drop_last())),
        underway(reconcile::run(s0, events)),
        host_after(h, s0, events.drop_last()).routes.contains(r) <==> route_there(
            h,
            s0.diff,
            mark(reconcile::run(s0, events.drop_last())),
            r,
        ),
        host_after(h, s0, events.drop_last()).rules.contains(q) <==> rule_there(
            h,
            s0.diff,
            mark(reconcile::run(s0, events.drop_last())),
            q,
        ),
    ensures
        host_after(h, s0, events).routes.contains(r) <==> route_there(
            h,
            s0.diff,
            mark(reconcile::run(s0, events)),
            r,
        ),
        host_after(h, s0, events).rules.contains(q) <==> rule_there(
            h,
            s0.diff,
            mark(reconcile::run(s0, events)),
            q,
        ),
{
    let s = reconcile::run(s0, events.drop_last());
    let t = reconcile::run(s0, events);
    lemma_moves(s, events.last());
    let d = s0.diff;
    match s.step {
        StepView::AddRule(i) => {
            lemma_take_contains(d.rules_to_add, i as int, q);
            assert(d.rules_to_remove.take(0).len() == 0);
        },
        StepView::AddRoute(i) => {
            lemma_take_contains(d.routes_to_add, i as int, r);
            assert(d.routes_to_remove.take(0).len() == 0);
        },
        StepView::DropRoute(i) => {
            lemma_take_contains(d.routes_to_remove, i as int, r);
        },
        StepView::DropRule(i) => {
            lemma_take_contains(d.rules_to_remove, i as int, q);
        },
        _ => {},
    }
}

proof fn lemma_host(h: HostView, s0: SessionView, events: Seq<EventView>, r: RouteView, q: RpdbRule)
    requires
        s0.interfaces == reconcile::filtered_interfaces(s0.desired),
        accounted(s0, Seq::empty()),
        s0.step is CheckWan || s0.step is Done || s0 == s0.at_filter(0),
        forall|k: int| 0 <= k < events.len() ==> !(#[trigger] events[k] is Failed),
        underway(reconcile::run(s0, events)),
    ensures
        host_after(h, s0, events).routes.contains(r) <==> route_there(
            h,
            s0.diff,
            mark(reconcile::run(s0, events)),
            r,
        ),
        host_after(h, s0, events).rules.contains(q) <==> rule_there(
            h,
            s0.diff,
            mark(reconcile::run(s0, events)),
            q,
        ),
    decreases events.len(),
{
    if events.len() == 0 {
        assert(events =~= Seq::empty());
        let m = mark(s0);
        assert(m.routes_added == 0 && m.routes_removed == 0 && m.rules_added == 0
            && m.rules_removed == 0);
        assert(s0.diff.routes_to_add.take(0).len() == 0);
        assert(s0.diff.routes_to_remove.take(0).len() == 0);
        assert(s0.diff.rules_to_add.take(0).len() == 0);
        assert(s0.diff.rules_to_remove.take(0).len() == 0);
    } else {
        let before = events.drop_last();
        assert forall|k: int| 0 <= k < before.len() implies !(#[trigger] before[k] is Failed) by {
            assert(before[k] == events[k]);
        }
        lemma_accounted(s0, before);
        lemma_given_up(reconcile::run(s0, before), events.last());
        lemma_host(h, s0, before, r, q);
        assert(!(events[events.len() - 1] is Failed));
        lemma_host_step(h, s0, events, r, q);
    }
}

/// A reconciliation that says that the desired state was applied and verified, and of which
/// nothing failed, leaves a host with what is desired. If the host had what was owned, it has
/// every desired route and rule at the end, and of the others it has those that it had before and
/// that were not owned in the table, or as rules not at the priority. So a host that had nothing
/// but what was owned in the table has exactly what is desired.
pub proof fn law_success_leaves_what_is_desired(
    h: HostView,
    desired: DesiredView,
    dry_run: bool,
    state: RuntimeView,
    events: Seq<EventView>,
)
    requires
        forall|r: RouteView| #[trigger] state.routes_owned.contains(r) ==> h.routes.contains(r),
        forall|q: RpdbRule| #[trigger] state.rules_owned.contains(q) ==> h.rules.contains(q),
        reconcile::run(SessionView::start(desired, dry_run, state), events).claims_success(),
        forall|k: int| 0 <= k < events.len() ==> !(#[trigger] events[k] is Failed),
    ensures
        forall|r: RouteView| #[trigger]
            host_after(
                h,
                SessionView::start(desired, dry_run, state),
                events,
            ).routes.contains(r) <==> desired.routes.contains(r) || (h.routes.contains(r) && !(
            state.routes_owned.contains(r) && r.table == state.allocated_table)),
        forall|q: RpdbRule| #[trigger]
            host_after(
                h,
                SessionView::start(desired, dry_run, state),
                events,
            ).rules.contains(q) <==> desired.rules.contains(q) || (h.rules.contains(q) && !(
            state.rules_owned.contains(q) && q.table == state.allocated_table && q.priority
                == state.rule_priority)),
{
    let s0 = SessionView::start(desired, dry_run, state);
    let diff = s0.diff;
    lemma_start(desired, dry_run, state);
    lemma_accounted(s0, events);
    seqs::lemma_keep(desired.routes, planner::not_among(state.routes_owned));
    seqs::lemma_keep(
        state.routes_owned,
        planner::stale(state.allocated_table, desired.routes),
    );
    seqs::lemma_keep(desired.rules, planner::rule_not_among(state.rules_owned));
    seqs::lemma_keep(
        state.rules_owned,
        planner::stale_rule(state.allocated_table, state.rule_priority, desired.rules),
    );
    seqs::lemma_take_all(diff.routes_to_add);
    seqs::lemma_take_all(diff.routes_to_remove);
    seqs::lemma_take_all(diff.rules_to_add);
    seqs::lemma_take_all(diff.rules_to_remove);
    let any_rule = RpdbRule { priority: 0, table: 0 };
    assert forall|r: RouteView| #[trigger]
        host_after(h, s0, events).routes.contains(r) <==> desired.routes.contains(r) || (
        h.routes.contains(r) && !(state.routes_owned.contains(r) && r.table
            == state.allocated_table)) by {
        lemma_host(h, s0, events, r, any_rule);
        assert(diff.routes_to_add.contains(r) <==> desired.routes.contains(r)
            && !state.routes_owned.contains(r));
        assert(diff.routes_to_remove.contains(r) <==> state.routes_owned.contains(r) && r.table
            == state.allocated_table && !desired.routes.contains(r));
    }
    assert forall|q: RpdbRule| #[trigger]
        host_after(h, s0, events).rules.contains(q) <==> desired.rules.contains(q) || (
        h.rules.contains(q) && !(state.rules_owned.contains(q) && q.table == state.allocated_table
            && q.priority == state.rule_priority)) by {
        let r = arbitrary::<RouteView>();
        lemma_host(h, s0, events, r, q);
        assert(diff.rules_to_add.contains(q) <==> desired.rules.contains(q)
            && !state.rules_owned.contains(q));
        assert(diff.rules_to_remove.contains(q) <==> state.rules_owned.contains(q) && q.table
            == state.allocated_table && q.priority == state.rule_priority
            && !desired.rules.contains(q));
    }
}

// ---------------------------------------------------------------------------------------------
// That it comes to an end
// ---------------------------------------------------------------------------------------------
/// Whether a host says what it should to what a reconciliation asks: that the normal path has a
/// default route, that the desired routes are in the table, and of nothing that it failed.
pub open spec fn cooperates(s: SessionView, event: EventView) -> bool {
    match s.action() {
        Some(ActionView::AskDefaultRoute(_)) => event == EventView::Answer(true),
        Some(ActionView::ShowTable(_)) => event matches EventView::Routes(routes, _)
            && forall|i: int|
            0 <= i < s.desired.routes.len() ==> routes.contains(#[trigger] s.desired.routes[i]),
        _ => !(event is Failed),
    }
}

/// A number of events after which a reconciliation with a host that cooperates is over.
pub open spec fn enough_events(desired: DesiredView, state: RuntimeView) -> nat {
    5 + desired.lan_interfaces.len() + desired.firewall_whitelist.len() + 2 * desired.routes.len()
        + desired.rules.len() + state.routes_owned.len() + state.rules_owned.len()
}

/// The number of events that are still to come at most.
spec fn events_left(s: SessionView) -> int {
    let f = s.interfaces.len() as int;
    let q = s.diff.rules_to_add.len() as int;
    let a = s.diff.routes_to_add.len() as int;
    let d = s.diff.routes_to_remove.len() as int;
    let x = s.diff.rules_to_remove.len() as int;
    let n = s.desired.routes.len() as int;
    match s.step {
        StepView::CheckWan => 5 + n + x + d + a + q + f,
        StepView::Filter(i) => 4 + n + x + d + a + q + f - i,
        StepView::AddRule(i) => 4 + n + x + d + a + q - i,
        StepView::AddRoute(i) => 4 + n + x + d + a - i,
        StepView::DropRoute(i) => 4 + n + x + d - i,
        StepView::DropRule(i) => 4 + n + x - i,
        StepView::FindWan => 4 + n,
        StepView::Prioritize => 3 + n,
        StepView::Purge(i) => 2 + n - i,
        StepView::Verify => 2,
        StepView::Save => 1,
        _ => 0,
    }
}

proof fn lemma_cooperation(s: SessionView, e: EventView)
    requires
        underway(s),
        in_range(s),
        wan_settled(s),
        cooperates(s, e),
    ensures
        underway(s.advanced(e)),
        s.step is Done || events_left(s.advanced(e)) < events_left(s),
        events_left(s) > 0 || s.step is Done,
{
    lemma_next_elsewhere(s.desired.routes, s.wan, 0);
    if let StepView::Purge(i) = s.step {
        lemma_next_elsewhere(s.desired.routes, s.wan, i + 1);
    }
    if s.step is FindWan {
        let w = match e {
            EventView::Wan(w) => w,
            _ => None,
        };
        lemma_next_elsewhere(s.desired.routes, w, 0);
    }
    if s.step is Verify {
        if let EventView::Routes(routes, _) = e {
            assert forall|i: int| 0 <= i < s.desired.routes.len() implies reconcile::observed(
                routes,
                #[trigger] s.desired.routes[i],
            ) by {
                assert(routes.contains(s.desired.routes[i]));
                let k = choose|k: int| 0 <= k < routes.len() && routes[k] == s.desired.routes[i];
                assert(routes[k].destination.truncated()
                    == s.desired.routes[i].destination.truncated());
            }
        }
    }
}

proof fn lemma_comes_to_an_end(s0: SessionView, events: Seq<EventView>)
    requires
        s0.interfaces == reconcile::filtered_interfaces(s0.desired),
        accounted(s0, Seq::empty()),
        underway(s0),
        forall|k: int|
            0 <= k < events.len() ==> cooperates(
                reconcile::run(s0, #[trigger] events.take(k)),
                events[k],
            ),
    ensures
        underway(reconcile::run(s0, events)),
        reconcile::run(s0, events).step is Done || events_left(reconcile::run(s0, events))
            + events.len() <= events_left(s0),
    decreases events.len(),
{
    if events.len() > 0 {
        let before = events.drop_last();
        assert forall|k: int| 0 <= k < before.len() implies cooperates(
            reconcile::run(s0, #[trigger] before.take(k)),
            before[k],
        ) by {
            assert(before.take(k) =~= events.take(k));
            assert(before[k] == events[k]);
        }
        lemma_comes_to_an_end(s0, before);
        lemma_accounted(s0, before);
        assert(events.take(before.len() as int) =~= before);
        assert(cooperates(reconcile::run(s0, events.take(before.len() as int)), events[before.len() as int]));
        lemma_cooperation(reconcile::run(s0, before), events.last());
    }
}

proof fn lemma_sorted_len(s: Seq<Seq<char>>)
    ensures
        names::sorted(s).len() <= s.len(),
    decreases s.len(),
{
    if s.len() > 0 {
        lemma_sorted_len(s.drop_last());
        lemma_with_name_len(names::sorted(s.drop_last()), s.last());
    }
}

proof fn lemma_with_name_len(s: Seq<Seq<char>>, x: Seq<char>)
    ensures
        names::with_name(s, x).len() <= s.len() + 1,
    decreases s.len(),
{
    if s.len() > 0 {
        lemma_with_name_len(s.skip(1), x);
    }
}

/// With a host that cooperates a reconciliation comes to a good end: there is nothing more to be
/// asked, nothing went wrong, and unless the run was dry or there was nothing to do the report
/// says that the desired state was applied and verified.
pub proof fn law_cooperation_leads_to_success(
    desired: DesiredView,
    dry_run: bool,
    state: RuntimeView,
    events: Seq<EventView>,
)
    requires
        forall|k: int|
            0 <= k < events.len() ==> cooperates(
                reconcile::run(
                    SessionView::start(desired, dry_run, state),
                    #[trigger] events.take(k),
                ),
                events[k],
            ),
        events.len() >= enough_events(desired, state),
    ensures
        ({
            let s = reconcile::run(SessionView::start(desired, dry_run, state), events);
            &&& s.action() is None
            &&& s.error is None
            &&& s.report matches Some(r) && r.verified && !r.rolled_back && r.error is None
                && r.dry_run == dry_run && (r.applied <==> !dry_run && !reconcile::settled(
                state,
                desired,
            ))
        }),
{
    let s0 = SessionView::start(desired, dry_run, state);
    lemma_start(desired, dry_run, state);
    if dry_run || reconcile::settled(state, desired) {
        lemma_stays(s0, events);
    } else {
        lemma_comes_to_an_end(s0, events);
        lemma_accounted(s0, events);
        lemma_reports(s0, events);
        seqs::lemma_keep(desired.routes, planner::not_among(state.routes_owned));
        seqs::lemma_keep(
            state.routes_owned,
            planner::stale(state.allocated_table, desired.routes),
        );
        seqs::lemma_keep(desired.rules, planner::rule_not_among(state.rules_owned));
        seqs::lemma_keep(
            state.rules_owned,
            planner::stale_rule(state.allocated_table, state.rule_priority, desired.rules),
        );
        lemma_sorted_len(
            desired.lan_interfaces + Seq::new(
                desired.firewall_whitelist.len(),
                |i: int| desired.firewall_whitelist[i].0,
            ),
        );
        assert(events_left(s0) <= enough_events(desired, state));
        if !(reconcile::run(s0, events).step is Done) {
            lemma_left(reconcile::run(s0, events));
        }
    }
}

proof fn lemma_left(s: SessionView)
    requires
        underway(s),
        in_range(s),
        !(s.step is Done),
    ensures
        events_left(s) > 0,
{
}

proof fn lemma_stays(s0: SessionView, events: Seq<EventView>)
    requires
        s0.action() is None,
    ensures
        reconcile::run(s0, events) == s0,
    decreases events.len(),
{
    if events.len() > 0 {
        lemma_stays(s0, events.drop_last());
    }
}

/// Whether a report of success is one without an error.
spec fn honest(s: SessionView) -> bool {
    &&& s.report matches Some(r) ==> (r.verified ==> !r.rolled_back && r.error is None
        && !r.dry_run && r.applied && s.error is None)
    &&& !(s.step is Failed) ==> s.error is None
    &&& s.report is Some ==> s.step is Undo || s.step is Restore || s.step is Done
}

proof fn lemma_reports(s0: SessionView, events: Seq<EventView>)
    requires
        s0.report is None,
        s0.error is None,
    ensures
        honest(reconcile::run(s0, events)),
    decreases events.len(),
{
    if events.len() > 0 {
        lemma_reports(s0, events.drop_last());
        lemma_reports_step(reconcile::run(s0, events.drop_last()), events.last());
    }
}

proof fn lemma_reports_step(s: SessionView, e: EventView)
    requires
        honest(s),
    ensures
        honest(s.advanced(e)),
{
}

/// A filter lists what is allowed on its interface: the entries of the whitelist for it or, if
/// there is no whitelist, the destinations of the routes through it.
pub proof fn law_filter_lists_what_is_allowed(
    desired: DesiredView,
    iface: Seq<char>,
    cidr: Seq<char>,
    port: Option<u16>,
)
    ensures
        desired.firewall_whitelist.len() > 0 ==> (reconcile::allowed_on(desired, iface).contains(
            (cidr, port),
        ) <==> desired.firewall_whitelist.contains((iface, cidr, port))),
        desired.firewall_whitelist.len() == 0 ==> (reconcile::allowed_on(desired, iface).contains(
            (cidr, port),
        ) <==> port is None && exists|i: int|
            0 <= i < desired.routes.len() && (#[trigger] desired.routes[i]).output_interface
                == iface && desired.routes[i].destination.text() == cidr),
{
    let w = desired.firewall_whitelist;
    let f = reconcile::listed_on(iface);
    let g = reconcile::routed_on(iface);
    seqs::lemma_flat_contains(w, f, (cidr, port));
    seqs::lemma_flat_contains(desired.routes, g, (cidr, port));
    if w.len() > 0 {
        if w.contains((iface, cidr, port)) {
            let i = choose|i: int| 0 <= i < w.len() && w[i] == (iface, cidr, port);
            assert(f(w[i])[0] == (cidr, port));
            assert(f(w[i]).contains((cidr, port)));
        }
        if reconcile::allowed_on(desired, iface).contains((cidr, port)) {
            let i = choose|i: int| 0 <= i < w.len() && #[trigger] f(w[i]).contains((cidr, port));
            assert(f(w[i])[0] == (cidr, port));
            assert(w[i] == (iface, cidr, port));
        }
    } else {
        let rs = desired.routes;
        if port is None && exists|i: int|
            0 <= i < rs.len() && (#[trigger] rs[i]).output_interface == iface
                && rs[i].destination.text() == cidr {
            let i = choose|i: int|
                0 <= i < rs.len() && (#[trigger] rs[i]).output_interface == iface
                    && rs[i].destination.text() == cidr;
            assert(g(rs[i])[0] == (cidr, port));
            assert(g(rs[i]).contains((cidr, port)));
        }
        if reconcile::allowed_on(desired, iface).contains((cidr, port)) {
            let i = choose|i: int| 0 <= i < rs.len() && #[trigger] g(rs[i]).contains((cidr, port));
            assert(g(rs[i])[0] == (cidr, port));
            assert(rs[i].output_interface == iface);
        }
    }
}

// ---------------------------------------------------------------------------------------------
// Failures
// ---------------------------------------------------------------------------------------------
/// What a failure does. If a filter or a rule cannot be put in place, the table cannot be shown or
/// the state cannot be saved, the reconciliation ends with this error and asks nothing more. If a
/// route cannot be added, the normal path not be put first or a default route not be removed, it is
/// rolled back, and its report says so. That something obsolete could not be removed stops nothing.
pub proof fn law_what_a_failure_does(s: SessionView, e: LinuxErrorView)
    ensures
        ({
            let t = s.advanced(EventView::Failed(e));
            &&& (s.step is Filter || s.step is AddRule || s.step is CheckWan || s.step is Verify
                || s.step is Save) && s.action() is Some ==> t.error == Some(e)
                && t.action() is None && t.report == s.report
            &&& (s.step is AddRoute || s.step is Prioritize || s.step is Purge)
                && s.action() is Some ==> gave_up(t, false)
            &&& (s.step is DropRoute || s.step is DropRule) && s.action() is Some ==> t
                == s.advanced(EventView::Done)
        }),
{
}

/// Whether a reconciliation was given up on and is to put the routes back.
pub open spec fn gave_up(s: SessionView, applied: bool) -> bool {
    &&& s.report matches Some(r) && r.rolled_back && !r.verified && r.applied == applied
        && r.error is Some && !r.dry_run
    &&& s.step is Undo || s.step is Restore || s.step is Done
}

/// What is not seen in the table is not verified: if a desired route is not among those that the
/// host shows, by its network and by whether it delivers, the reconciliation is rolled back.
pub proof fn law_what_is_not_seen_is_rolled_back(
    s: SessionView,
    routes: Seq<RouteView>,
    now: u64,
    i: int,
)
    requires
        s.step is Verify,
        0 <= i < s.desired.routes.len(),
        forall|k: int|
            0 <= k < routes.len() ==> (#[trigger] routes[k]).destination.truncated()
                != s.desired.routes[i].destination.truncated() || routes[k].route_type
                != s.desired.routes[i].route_type,
    ensures
        gave_up(s.advanced(EventView::Routes(routes, now)), true),
{
    assert(!reconcile::observed(routes, s.desired.routes[i]));
    assert(!reconcile::all_observed(routes, s.desired.routes));
}

/// Without a default route on the interface of the normal path nothing is changed: that is asked
/// before anything else, and if the answer is no, the reconciliation ends with an error.
pub proof fn law_normal_path_is_needed(
    desired: DesiredView,
    state: RuntimeView,
    wan: Seq<char>,
    event: EventView,
)
    requires
        desired.wan_interface == Some(wan),
        !reconcile::settled(state, desired),
        event != EventView::Answer(true),
    ensures
        ({
            let s = SessionView::start(desired, false, state);
            &&& s.action() == Some(ActionView::AskDefaultRoute(wan))
            &&& s.advanced(event).action() is None
            &&& s.advanced(event).error is Some
            &&& s.advanced(event).report is None
        }),
{
}

spec fn route_left(h: HostView, s: SessionView, k: nat, r: RouteView) -> bool {
    let n = s.diff.routes_to_add.len();
    let undone = s.diff.routes_to_add.take(if k < n { k as int } else { n as int });
    let restored = s.state.routes_owned.take(if k < n { 0 } else { k - n });
    restored.contains(r) || (h.routes.contains(r) && !undone.contains(r))
}

proof fn lemma_rollback_host(h: HostView, s: SessionView, events: Seq<EventView>, r: RouteView)
    requires
        s.step is Undo && s.step->Undo_0 == 0 && s.diff.routes_to_add.len() > 0 || s.step is Restore
            && s.step->Restore_0 == 0 && s.diff.routes_to_add.len() == 0
            && s.state.routes_owned.len() > 0 || s.step is Done && s.diff.routes_to_add.len() == 0
            && s.state.routes_owned.len() == 0,
        events.len() <= s.diff.routes_to_add.len() + s.state.routes_owned.len(),
        forall|k: int| 0 <= k < events.len() ==> !(#[trigger] events[k] is Failed),
    ensures
        host_after(h, s, events).routes.contains(r) <==> route_left(h, s, events.len(), r),
        reconcile::run(s, events).state == s.state,
        reconcile::run(s, events).diff == s.diff,
        reconcile::run(s, events).step == ({
            let n = s.diff.routes_to_add.len();
            let k = events.len();
            if k < n {
                StepView::Undo(k)
            } else if k < n + s.state.routes_owned.len() {
                StepView::Restore((k - n) as nat)
            } else {
                StepView::Done
            }
        }),
    decreases events.len(),
{
    let n = s.diff.routes_to_add.len();
    let k = events.len();
    if k == 0 {
        assert(s.diff.routes_to_add.take(0).len() == 0);
        assert(s.state.routes_owned.take(0).len() == 0);
    } else {
        let before = events.drop_last();
        assert forall|j: int| 0 <= j < before.len() implies !(#[trigger] before[j] is Failed) by {
            assert(before[j] == events[j]);
        }
        lemma_rollback_host(h, s, before, r);
        assert(!(events[k - 1] is Failed));
        if before.len() < n {
            lemma_take_contains(s.diff.routes_to_add, before.len() as int, r);
            assert(s.state.routes_owned.take(0).len() == 0);
        } else {
            lemma_take_contains(s.state.routes_owned, before.len() - n, r);
        }
    }
}

/// A rollback puts the routes back: when it is over and nothing of it failed, the host has every
/// route that was owned, none of those that were to be added, and of the others those that it had.
pub proof fn law_rollback_restores_the_routes(
    h: HostView,
    s: SessionView,
    applied: bool,
    message: Seq<char>,
    events: Seq<EventView>,
)
    requires
        events.len() == s.diff.routes_to_add.len() + s.state.routes_owned.len(),
        forall|k: int| 0 <= k < events.len() ==> !(#[trigger] events[k] is Failed),
    ensures
        reconcile::run(s.undone(applied, message), events).action() is None,
        forall|r: RouteView| #[trigger]
            host_after(h, s.undone(applied, message), events).routes.contains(r)
                <==> s.state.routes_owned.contains(r) || (h.routes.contains(r)
                && !s.diff.routes_to_add.contains(r)),
{
    let u = s.undone(applied, message);
    assert forall|r: RouteView| #[trigger]
        host_after(h, u, events).routes.contains(r) <==> s.state.routes_owned.contains(r) || (
        h.routes.contains(r) && !s.diff.routes_to_add.contains(r)) by {
        lemma_rollback_host(h, u, events, r);
        seqs::lemma_take_all(s.diff.routes_to_add);
        seqs::lemma_take_all(s.state.routes_owned);
    }
    lemma_rollback_host(h, u, events, arbitrary::<RouteView>());
}

/// The state that is kept is the one in force until the desired one is verified.
proof fn lemma_state_in_force(s0: SessionView, events: Seq<EventView>)
    requires
        !(s0.step is Save),
    ensures
        ({
            let s = reconcile::run(s0, events);
            s.step is Save || s.step is Done || s.step is Failed || s.state == s0.state
        }),
    decreases events.len(),
{
    if events.len() > 0 {
        lemma_state_in_force(s0, events.drop_last());
        lemma_state_step(reconcile::run(s0, events.drop_last()), events.last());
    }
}

proof fn lemma_state_step(s: SessionView, e: EventView)
    ensures
        s.advanced(e).step is Save || s.step is Save || s.advanced(e).state == s.state,
        s.step is Save ==> s.advanced(e).step is Done || s.advanced(e).step is Failed,
        s.step is Done || s.step is Failed ==> s.advanced(e).step == s.step,
{
}

/// What is verified is the table that is owned: whenever the host is asked to show a table, it is
/// this one.
pub proof fn law_the_owned_table_is_verified(
    desired: DesiredView,
    dry_run: bool,
    state: RuntimeView,
    events: Seq<EventView>,
    table: u32,
)
    requires
        reconcile::run(SessionView::start(desired, dry_run, state), events).action() == Some(
            ActionView::ShowTable(table),
        ),
    ensures
        table == state.allocated_table,
{
    lemma_state_in_force(SessionView::start(desired, dry_run, state), events);
}

} // verus!
