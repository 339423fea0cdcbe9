//! Bringing the host from the state in force to the desired one, action by action.

use vstd::prelude::*;
use crate::error::{LinuxError, LinuxErrorView};
use crate::model::{
    self, DesiredState, DesiredView, DiffView, Route, RouteView, RpdbRule, StateDiff,
};
use crate::names;
use crate::net::{self, IpNet};
use crate::planner::{self, RoutePlanner};
use crate::seqs;
use crate::state::{RuntimeState, RuntimeView, StateManager};
use crate::strings;

verus! {

/// What came of a reconciliation.
#[derive(Debug)]
pub struct ReconcileReport {
    pub diff: StateDiff,
    pub dry_run: bool,
    pub applied: bool,
    pub verified: bool,
    pub rolled_back: bool,
    pub error: Option<String>,
}

/// The value of a `ReconcileReport` in specifications.
#[verifier::ext_equal]
pub struct ReportView {
    pub diff: DiffView,
    pub dry_run: bool,
    pub applied: bool,
    pub verified: bool,
    pub rolled_back: bool,
    pub error: Option<Seq<char>>,
}

impl View for ReconcileReport {
    type V = ReportView;

    open spec fn view(&self) -> ReportView {
        ReportView {
            diff: self.diff@,
            dry_run: self.dry_run,
            applied: self.applied,
            verified: self.verified,
            rolled_back: self.rolled_back,
            error: seqs::opt_view(self.error),
        }
    }
}

impl Clone for ReconcileReport {
    fn clone(&self) -> (r: ReconcileReport)
        ensures
            r@ == self@,
    {
        ReconcileReport {
            diff: self.diff.clone(),
            dry_run: self.dry_run,
            applied: self.applied,
            verified: self.verified,
            rolled_back: self.rolled_back,
            error: model::copy_name(&self.error),
        }
    }
}

// ---------------------------------------------------------------------------------------------
// Actions and events
// ---------------------------------------------------------------------------------------------
/// What the host is asked to do.
pub enum Action {
    /// Tell whether an interface has a default route.
    AskDefaultRoute(String),
    /// Filter what leaves an interface.
    Filter { interface: String, allowed: Vec<(String, Option<u16>)>, blocked: Vec<IpNet> },
    EnsureRule(RpdbRule),
    AddRoute(Route),
    DeleteRoute(Route),
    RemoveRule(RpdbRule),
    /// Tell which interface has the default route.
    FindWan,
    Prioritize(String),
    RemoveDefaults(String),
    /// Tell which routes are in a table.
    ShowTable(u32),
    Save(RuntimeState),
}

/// The value of an `Action` in specifications.
pub enum ActionView {
    AskDefaultRoute(Seq<char>),
    Filter {
        interface: Seq<char>,
        allowed: Seq<(Seq<char>, Option<u16>)>,
        blocked: Seq<IpNet>,
    },
    EnsureRule(RpdbRule),
    AddRoute(RouteView),
    DeleteRoute(RouteView),
    RemoveRule(RpdbRule),
    FindWan,
    Prioritize(Seq<char>),
    RemoveDefaults(Seq<char>),
    ShowTable(u32),
    Save(RuntimeView),
}

impl View for Action {
    type V = ActionView;

    open spec fn view(&self) -> ActionView {
        match self {
            Action::AskDefaultRoute(s) => ActionView::AskDefaultRoute(s@),
            Action::Filter { interface, allowed, blocked } => ActionView::Filter {
                interface: interface@,
                allowed: crate::firewall::allowed_views(allowed@),
                blocked: blocked@,
            },
            Action::EnsureRule(r) => ActionView::EnsureRule(*r),
            Action::AddRoute(r) => ActionView::AddRoute(r@),
            Action::DeleteRoute(r) => ActionView::DeleteRoute(r@),
            Action::RemoveRule(r) => ActionView::RemoveRule(*r),
            Action::FindWan => ActionView::FindWan,
            Action::Prioritize(s) => ActionView::Prioritize(s@),
            Action::RemoveDefaults(s) => ActionView::RemoveDefaults(s@),
            Action::ShowTable(t) => ActionView::ShowTable(*t),
            Action::Save(s) => ActionView::Save(s@),
        }
    }
}

/// What the host says to an action.
pub enum Event {
    Done,
    Answer(bool),
    Wan(Option<String>),
    /// The routes in the table, and the time.
    Routes(Vec<Route>, u64),
    Failed(LinuxError),
}

/// The value of an `Event` in specifications.
pub enum EventView {
    Done,
    Answer(bool),
    Wan(Option<Seq<char>>),
    Routes(Seq<RouteView>, u64),
    Failed(LinuxErrorView),
}

impl View for Event {
    type V = EventView;

    open spec fn view(&self) -> EventView {
        match self {
            Event::Done => EventView::Done,
            Event::Answer(b) => EventView::Answer(*b),
            Event::Wan(w) => EventView::Wan(seqs::opt_view(*w)),
            Event::Routes(rs, now) => EventView::Routes(seqs::views(rs@), *now),
            Event::Failed(e) => EventView::Failed(e@),
        }
    }
}

// ---------------------------------------------------------------------------------------------
// What is filtered
// ---------------------------------------------------------------------------------------------
/// The interfaces whose egress is filtered: those of the LAN and those of the whitelist.
pub open spec fn filtered_interfaces(d: DesiredView) -> Seq<Seq<char>> {
    names::sorted(
        d.lan_interfaces + Seq::new(
            d.firewall_whitelist.len(),
            |i: int| d.firewall_whitelist[i].0,
        ),
    )
}

/// What the whitelist allows on an interface.
pub open spec fn listed_on(iface: Seq<char>) -> spec_fn((Seq<char>, Seq<char>, Option<u16>)) -> Seq<
    (Seq<char>, Option<u16>),
> {
    |e: (Seq<char>, Seq<char>, Option<u16>)|
        if e.0 == iface {
            seq![(e.1, e.2)]
        } else {
            Seq::empty()
        }
}

/// What a route leads to through an interface.
pub open spec fn routed_on(iface: Seq<char>) -> spec_fn(RouteView) -> Seq<
    (Seq<char>, Option<u16>),
> {
    |r: RouteView|
        if r.output_interface == iface {
            seq![(r.destination.text(), None)]
        } else {
            Seq::empty()
        }
}

/// What may leave through an interface: what the whitelist allows or, if there is none, what the
/// routes lead to.
pub open spec fn allowed_on(d: DesiredView, iface: Seq<char>) -> Seq<(Seq<char>, Option<u16>)> {
    if d.firewall_whitelist.len() > 0 {
        seqs::flat(d.firewall_whitelist, listed_on(iface))
    } else {
        seqs::flat(d.routes, routed_on(iface))
    }
}

/// Whether the filters that are in force are not those that are wanted.
pub open spec fn filters_differ(state: RuntimeView, d: DesiredView) -> bool {
    state.firewall_whitelist != d.firewall_whitelist || state.firewall_blacklist != d.blacklist
        || state.firewall_interfaces != filtered_interfaces(d)
}

/// Whether what is in force is what is wanted.
pub open spec fn settled(state: RuntimeView, d: DesiredView) -> bool {
    planner::diff_of(state.actual(), d) == DiffView::empty() && !filters_differ(state, d)
}

fn list_filtered(desired: &DesiredState) -> (r: Vec<String>)
    ensures
        seqs::views(r@) == filtered_interfaces(desired@),
{
    let mut all: Vec<String> = model::copy_names(&desired.lan_interfaces);
    let ghost lan = seqs::views(desired.lan_interfaces@);
    let ghost more = Seq::new(
        desired@.firewall_whitelist.len(),
        |i: int| desired@.firewall_whitelist[i].0,
    );
    let mut i: usize = 0;
    proof {
        assert(seqs::views(all@) =~= lan + more.take(0));
    }
    while i < desired.firewall_whitelist.len()
        invariant
            i <= desired.firewall_whitelist.len(),
            more == Seq::new(
                desired@.firewall_whitelist.len(),
                |i: int| desired@.firewall_whitelist[i].0,
            ),
            seqs::views(all@) == lan + more.take(i as int),
        decreases desired.firewall_whitelist.len() - i,
    {
        let name = desired.firewall_whitelist[i].0.clone();
        proof {
            seqs::lemma_take_next(more, i as int);
            seqs::lemma_views_push(all@, name);
            assert((lan + more.take(i as int)).push(name@) =~= lan + more.take(i + 1));
        }
        all.push(name);
        i += 1;
    }
    proof {
        seqs::lemma_take_all(more);
    }
    names::sort_names(&all)
}

fn list_allowed(desired: &DesiredState, iface: &str) -> (r: Vec<(String, Option<u16>)>)
    ensures
        crate::firewall::allowed_views(r@) == allowed_on(desired@, iface@),
{
    let mut out: Vec<(String, Option<u16>)> = Vec::new();
    if desired.firewall_whitelist.len() > 0 {
        let ghost all = desired@.firewall_whitelist;
        let ghost f = listed_on(iface@);
        let mut i: usize = 0;
        proof {
            assert(all.take(0).len() == 0);
            assert(crate::firewall::allowed_views(out@) =~= seqs::flat(all.take(0), f));
        }
        while i < desired.firewall_whitelist.len()
            invariant
                i <= desired.firewall_whitelist.len(),
                all == desired@.firewall_whitelist,
                f == listed_on(iface@),
                crate::firewall::allowed_views(out@) == seqs::flat(all.take(i as int), f),
            decreases desired.firewall_whitelist.len() - i,
        {
            let ghost now = crate::firewall::allowed_views(out@);
            let e = &desired.firewall_whitelist[i];
            proof {
                seqs::lemma_flat_next(all, f, i as int);
                assert(all[i as int] == (e.0@, e.1@, e.2));
            }
            if strings::same(e.0.as_str(), iface) {
                out.push((e.1.clone(), e.2));
            }
            proof {
                assert(crate::firewall::allowed_views(out@) =~= now + f(all[i as int]));
            }
            i += 1;
        }
        proof {
            seqs::lemma_take_all(all);
        }
    } else {
        let ghost all = desired@.routes;
        let ghost f = routed_on(iface@);
        let mut i: usize = 0;
        proof {
            assert(all.take(0).len() == 0);
            assert(crate::firewall::allowed_views(out@) =~= seqs::flat(all.take(0), f));
        }
        while i < desired.routes.len()
            invariant
                i <= desired.routes.len(),
                all == desired@.routes,
                f == routed_on(iface@),
                crate::firewall::allowed_views(out@) == seqs::flat(all.take(i as int), f),
            decreases desired.routes.len() - i,
        {
            let ghost now = crate::firewall::allowed_views(out@);
            proof {
                seqs::lemma_flat_next(all, f, i as int);
                assert(all[i as int] == desired.routes@[i as int]@);
            }
            if strings::same(desired.routes[i].output_interface.as_str(), iface) {
                out.push((desired.routes[i].destination.to_string(), None));
            }
            proof {
                assert(crate::firewall::allowed_views(out@) =~= now + f(all[i as int]));
            }
            i += 1;
        }
        proof {
            seqs::lemma_take_all(all);
        }
    }
    out
}

fn same_nets(a: &Vec<IpNet>, b: &Vec<IpNet>) -> (r: bool)
    ensures
        r == (a@ == b@),
{
    if a.len() != b.len() {
        return false;
    }
    let mut i: usize = 0;
    while i < a.len()
        invariant
            i <= a.len(),
            a.len() == b.len(),
            forall|j: int| 0 <= j < i ==> #[trigger] a@[j] == b@[j],
        decreases a.len() - i,
    {
        if a[i] != b[i] {
            proof {
                assert(a@[i as int] != b@[i as int]);
            }
            return false;
        }
        i += 1;
    }
    proof {
        assert(a@ =~= b@);
    }
    true
}

fn same_names(a: &Vec<String>, b: &Vec<String>) -> (r: bool)
    ensures
        r == (seqs::views(a@) == seqs::views(b@)),
{
    if a.len() != b.len() {
        proof {
            assert(seqs::views(a@).len() != seqs::views(b@).len());
        }
        return false;
    }
    let mut i: usize = 0;
    while i < a.len()
        invariant
            i <= a.len(),
            a.len() == b.len(),
            forall|j: int| 0 <= j < i ==> (#[trigger] a@[j])@ == b@[j]@,
        decreases a.len() - i,
    {
        if !strings::same(a[i].as_str(), b[i].as_str()) {
            proof {
                assert(seqs::views(a@)[i as int] != seqs::views(b@)[i as int]);
            }
            return false;
        }
        i += 1;
    }
    proof {
        assert(seqs::views(a@) =~= seqs::views(b@));
    }
    true
}

fn same_port(a: Option<u16>, b: Option<u16>) -> (r: bool)
    ensures
        r == (a == b),
{
    match (a, b) {
        (Some(x), Some(y)) => x == y,
        (None, None) => true,
        _ => false,
    }
}

fn same_whitelist(
    a: &Vec<(String, String, Option<u16>)>,
    b: &Vec<(String, String, Option<u16>)>,
) -> (r: bool)
    ensures
        r == (model::whitelist_views(a@) == model::whitelist_views(b@)),
{
    if a.len() != b.len() {
        proof {
            assert(model::whitelist_views(a@).len() != model::whitelist_views(b@).len());
        }
        return false;
    }
    let mut i: usize = 0;
    while i < a.len()
        invariant
            i <= a.len(),
            a.len() == b.len(),
            forall|j: int|
                0 <= j < i ==> model::whitelist_views(a@)[j] == #[trigger] model::whitelist_views(
                    b@,
                )[j],
        decreases a.len() - i,
    {
        let same = strings::same(a[i].0.as_str(), b[i].0.as_str()) && strings::same(
            a[i].1.as_str(),
            b[i].1.as_str(),
        ) && same_port(a[i].2, b[i].2);
        if !same {
            proof {
                assert(model::whitelist_views(a@)[i as int] != model::whitelist_views(
                    b@,
                )[i as int]);
            }
            return false;
        }
        i += 1;
    }
    proof {
        assert(model::whitelist_views(a@) =~= model::whitelist_views(b@));
    }
    true
}

// ---------------------------------------------------------------------------------------------
// The session
// ---------------------------------------------------------------------------------------------
/// Where a reconciliation stands. The filters come before any rule or route, so that a failure
/// leaves them closed; rules come before routes, so that the table is looked up.
#[derive(Debug, Clone, Copy)]
pub enum Step {
    CheckWan,
    Filter(usize),
    AddRule(usize),
    AddRoute(usize),
    DropRoute(usize),
    DropRule(usize),
    FindWan,
    Prioritize,
    Purge(usize),
    Verify,
    Save,
    Undo(usize),
    Restore(usize),
    Done,
    Failed,
}

/// The value of a `Step` in specifications.
pub enum StepView {
    CheckWan,
    Filter(nat),
    AddRule(nat),
    AddRoute(nat),
    DropRoute(nat),
    DropRule(nat),
    FindWan,
    Prioritize,
    Purge(nat),
    Verify,
    Save,
    Undo(nat),
    Restore(nat),
    Done,
    Failed,
}

impl View for Step {
    type V = StepView;

    open spec fn view(&self) -> StepView {
        match self {
            Step::CheckWan => StepView::CheckWan,
            Step::Filter(i) => StepView::Filter(*i as nat),
            Step::AddRule(i) => StepView::AddRule(*i as nat),
            Step::AddRoute(i) => StepView::AddRoute(*i as nat),
            Step::DropRoute(i) => StepView::DropRoute(*i as nat),
            Step::DropRule(i) => StepView::DropRule(*i as nat),
            Step::FindWan => StepView::FindWan,
            Step::Prioritize => StepView::Prioritize,
            Step::Purge(i) => StepView::Purge(*i as nat),
            Step::Verify => StepView::Verify,
            Step::Save => StepView::Save,
            Step::Undo(i) => StepView::Undo(*i as nat),
            Step::Restore(i) => StepView::Restore(*i as nat),
            Step::Done => StepView::Done,
            Step::Failed => StepView::Failed,
        }
    }
}

/// A reconciliation under way.
pub struct ReconcileSession {
    desired: DesiredState,
    state: RuntimeState,
    diff: StateDiff,
    interfaces: Vec<String>,
    next_generation: u64,
    wan: Option<String>,
    step: Step,
    report: Option<ReconcileReport>,
    error: Option<LinuxError>,
}

/// The value of a `ReconcileSession` in specifications.
#[verifier::ext_equal]
pub struct SessionView {
    pub desired: DesiredView,
    pub state: RuntimeView,
    pub diff: DiffView,
    pub interfaces: Seq<Seq<char>>,
    pub next_generation: u64,
    pub wan: Option<Seq<char>>,
    pub step: StepView,
    pub report: Option<ReportView>,
    pub error: Option<LinuxErrorView>,
}

impl View for ReconcileSession {
    type V = SessionView;

    closed spec fn view(&self) -> SessionView {
        SessionView {
            desired: self.desired@,
            state: self.state@,
            diff: self.diff@,
            interfaces: seqs::views(self.interfaces@),
            next_generation: self.next_generation,
            wan: seqs::opt_view(self.wan),
            step: self.step@,
            report: seqs::opt_view(self.report),
            error: seqs::opt_view(self.error),
        }
    }
}

/// Whether a route leads through an interface other than that of the normal path.
pub open spec fn leads_elsewhere(r: RouteView, wan: Option<Seq<char>>) -> bool {
    r.output_interface.len() > 0 && wan != Some(r.output_interface)
}

/// The first route from the `i`-th on that leads elsewhere, or the number of routes.
pub open spec fn next_elsewhere(routes: Seq<RouteView>, wan: Option<Seq<char>>, i: nat) -> nat
    decreases routes.len() - i,
{
    if i >= routes.len() {
        routes.len()
    } else if leads_elsewhere(routes[i as int], wan) {
        i
    } else {
        next_elsewhere(routes, wan, i + 1)
    }
}

/// Whether a route is among those of a table, by its network and by whether it delivers.
pub open spec fn observed(routes: Seq<RouteView>, r: RouteView) -> bool {
    exists|i: int|
        0 <= i < routes.len() && (#[trigger] routes[i]).destination.truncated()
            == r.destination.truncated() && routes[i].route_type == r.route_type
}

/// Whether all routes are among those of a table.
pub open spec fn all_observed(routes: Seq<RouteView>, wanted: Seq<RouteView>) -> bool {
    forall|i: int| 0 <= i < wanted.len() ==> observed(routes, #[trigger] wanted[i])
}

impl SessionView {
    pub open spec fn at(self, step: StepView) -> SessionView {
        SessionView { step, ..self }
    }

    pub open spec fn at_filter(self, i: nat) -> SessionView {
        if i < self.interfaces.len() {
            self.at(StepView::Filter(i))
        } else {
            self.at_add_rule(0)
        }
    }

    pub open spec fn at_add_rule(self, i: nat) -> SessionView {
        if i < self.diff.rules_to_add.len() {
            self.at(StepView::AddRule(i))
        } else {
            self.at_add_route(0)
        }
    }

    pub open spec fn at_add_route(self, i: nat) -> SessionView {
        if i < self.diff.routes_to_add.len() {
            self.at(StepView::AddRoute(i))
        } else {
            self.at_drop_route(0)
        }
    }

    pub open spec fn at_drop_route(self, i: nat) -> SessionView {
        if i < self.diff.routes_to_remove.len() {
            self.at(StepView::DropRoute(i))
        } else {
            self.at_drop_rule(0)
        }
    }

    pub open spec fn at_drop_rule(self, i: nat) -> SessionView {
        if i < self.diff.rules_to_remove.len() {
            self.at(StepView::DropRule(i))
        } else {
            self.at_wan()
        }
    }

    pub open spec fn at_wan(self) -> SessionView {
        match self.desired.wan_interface {
            Some(w) => SessionView { wan: Some(w), ..self }.at_prioritize(),
            None => self.at(StepView::FindWan),
        }
    }

    pub open spec fn at_prioritize(self) -> SessionView {
        if self.wan is Some {
            self.at(StepView::Prioritize)
        } else {
            self.at_purge(0)
        }
    }

    pub open spec fn at_purge(self, i: nat) -> SessionView {
        let k = next_elsewhere(self.desired.routes, self.wan, i);
        if k < self.desired.routes.len() {
            self.at(StepView::Purge(k))
        } else {
            self.at(StepView::Verify)
        }
    }

    pub open spec fn at_undo(self, i: nat) -> SessionView {
        if i < self.diff.routes_to_add.len() {
            self.at(StepView::Undo(i))
        } else {
            self.at_restore(0)
        }
    }

    pub open spec fn at_restore(self, i: nat) -> SessionView {
        if i < self.state.routes_owned.len() {
            self.at(StepView::Restore(i))
        } else {
            self.at(StepView::Done)
        }
    }

    /// The reconciliation given up on, with nothing undone.
    pub open spec fn failed(self, e: LinuxErrorView) -> SessionView {
        SessionView { step: StepView::Failed, error: Some(e), ..self }
    }

    /// The reconciliation given up on, with the routes to be put back as they were. The filters
    /// stay.
    pub open spec fn undone(self, applied: bool, message: Seq<char>) -> SessionView {
        SessionView {
            report: Some(
                ReportView {
                    diff: self.diff,
                    dry_run: false,
                    applied,
                    verified: false,
                    rolled_back: true,
                    error: Some(message),
                },
            ),
            ..self
        }.at_undo(0)
    }

    /// The state to remember once everything is in force.
    pub open spec fn committed(self, now: u64) -> RuntimeView {
        RuntimeView {
            allocated_table: if self.desired.rules.len() > 0 {
                self.desired.rules[0].table
            } else {
                self.state.allocated_table
            },
            rule_priority: if self.desired.rules.len() > 0 {
                self.desired.rules[0].priority
            } else {
                self.state.rule_priority
            },
            routes_owned: self.desired.routes,
            rules_owned: self.desired.rules,
            firewall_whitelist: self.desired.firewall_whitelist,
            firewall_blacklist: self.desired.blacklist,
            firewall_interfaces: self.interfaces,
            generation: self.next_generation,
            last_reconcile_epoch: now,
        }
    }

    /// What the host is asked to do next.
    pub open spec fn action(self) -> Option<ActionView> {
        match self.step {
            StepView::CheckWan => match self.desired.wan_interface {
                Some(w) => Some(ActionView::AskDefaultRoute(w)),
                None => None,
            },
            StepView::Filter(i) => if i < self.interfaces.len() {
                Some(
                    ActionView::Filter {
                        interface: self.interfaces[i as int],
                        allowed: allowed_on(self.desired, self.interfaces[i as int]),
                        blocked: self.desired.blacklist,
                    },
                )
            } else {
                None
            },
            StepView::AddRule(i) => if i < self.diff.rules_to_add.len() {
                Some(ActionView::EnsureRule(self.diff.rules_to_add[i as int]))
            } else {
                None
            },
            StepView::AddRoute(i) => if i < self.diff.routes_to_add.len() {
                Some(ActionView::AddRoute(self.diff.routes_to_add[i as int]))
            } else {
                None
            },
            StepView::DropRoute(i) => if i < self.diff.routes_to_remove.len() {
                Some(ActionView::DeleteRoute(self.diff.routes_to_remove[i as int]))
            } else {
                None
            },
            StepView::DropRule(i) => if i < self.diff.rules_to_remove.len() {
                Some(ActionView::RemoveRule(self.diff.rules_to_remove[i as int]))
            } else {
                None
            },
            StepView::FindWan => Some(ActionView::FindWan),
            StepView::Prioritize => match self.wan {
                Some(w) => Some(ActionView::Prioritize(w)),
                None => None,
            },
            StepView::Purge(i) => if i < self.desired.routes.len() {
                Some(ActionView::RemoveDefaults(self.desired.routes[i as int].output_interface))
            } else {
                None
            },
            StepView::Verify => Some(ActionView::ShowTable(self.state.allocated_table)),
            StepView::Save => Some(ActionView::Save(self.state)),
            StepView::Undo(i) => if i < self.diff.routes_to_add.len() {
                Some(ActionView::DeleteRoute(self.diff.routes_to_add[i as int]))
            } else {
                None
            },
            StepView::Restore(i) => if i < self.state.routes_owned.len() {
                Some(ActionView::AddRoute(self.state.routes_owned[i as int]))
            } else {
                None
            },
            StepView::Done => None,
            StepView::Failed => None,
        }
    }

    /// The reconciliation after what the host says.
    pub open spec fn advanced(self, event: EventView) -> SessionView {
        if self.action() is None {
            self
        } else {
            match self.step {
                StepView::CheckWan => match event {
                    EventView::Failed(e) => self.failed(e),
                    EventView::Answer(true) => self.at_filter(0),
                    _ => self.failed(
                        LinuxErrorView::Netlink(
                            "Refusing apply: configured WLAN interface "@ + (
                            self.desired.wan_interface->0) + " has no default route"@,
                        ),
                    ),
                },
                StepView::Filter(i) => match event {
                    EventView::Failed(e) => self.failed(e),
                    _ => self.at_filter(i + 1),
                },
                StepView::AddRule(i) => match event {
                    EventView::Failed(e) => self.failed(e),
                    _ => self.at_add_rule(i + 1),
                },
                StepView::AddRoute(i) => match event {
                    EventView::Failed(e) => self.undone(
                        false,
                        "Apply error, rolled back: "@ + e.text(),
                    ),
                    _ => self.at_add_route(i + 1),
                },
                StepView::DropRoute(i) => self.at_drop_route(i + 1),
                StepView::DropRule(i) => self.at_drop_rule(i + 1),
                StepView::FindWan => SessionView {
                    wan: match event {
                        EventView::Wan(w) => w,
                        _ => None,
                    },
                    ..self
                }.at_prioritize(),
                StepView::Prioritize => match event {
                    EventView::Failed(e) => self.undone(
                        false,
                        "failed to prioritize WLAN route; policy kept fail-closed: "@ + e.text(),
                    ),
                    _ => self.at_purge(0),
                },
                StepView::Purge(i) => match event {
                    EventView::Failed(e) => self.undone(
                        false,
                        "failed to remove LAN default route; policy kept fail-closed: "@
                            + e.text(),
                    ),
                    _ => self.at_purge(i + 1),
                },
                StepView::Verify => match event {
                    EventView::Failed(e) => self.failed(e),
                    EventView::Routes(routes, now) => if all_observed(routes, self.desired.routes) {
                        SessionView { state: self.committed(now), step: StepView::Save, ..self }
                    } else {
                        self.undone(
                            true,
                            "Kernel verification failed: routes not observed in table"@,
                        )
                    },
                    _ => self.undone(
                        true,
                        "Kernel verification failed: routes not observed in table"@,
                    ),
                },
                StepView::Save => match event {
                    EventView::Failed(e) => self.failed(e),
                    _ => SessionView {
                        report: Some(
                            ReportView {
                                diff: self.diff,
                                dry_run: false,
                                applied: true,
                                verified: true,
                                rolled_back: false,
                                error: None,
                            },
                        ),
                        step: StepView::Done,
                        ..self
                    },
                },
                StepView::Undo(i) => self.at_undo(i + 1),
                StepView::Restore(i) => self.at_restore(i + 1),
                StepView::Done => self,
                StepView::Failed => self,
            }
        }
    }

    /// Whether the report says that the desired state was applied and verified.
    pub open spec fn claims_success(self) -> bool {
        self.report matches Some(r) && r.applied && r.verified
    }

    /// The start of a reconciliation.
    pub open spec fn start(
        desired: DesiredView,
        dry_run: bool,
        state: RuntimeView,
    ) -> SessionView {
        let diff = planner::diff_of(state.actual(), desired);
        let idle = dry_run || settled(state, desired);
        let s = SessionView {
            desired,
            state,
            diff,
            interfaces: filtered_interfaces(desired),
            next_generation: if idle {
                state.generation
            } else {
                (state.generation + 1) as u64
            },
            wan: None,
            step: StepView::CheckWan,
            report: None,
            error: None,
        };
        if idle {
            SessionView {
                report: Some(
                    ReportView {
                        diff,
                        dry_run,
                        applied: false,
                        verified: true,
                        rolled_back: false,
                        error: None,
                    },
                ),
                step: StepView::Done,
                ..s
            }
        } else if desired.wan_interface is Some {
            s
        } else {
            s.at_filter(0)
        }
    }
}

fn event_error(event: &Event) -> (r: Option<LinuxError>)
    ensures
        match event@ {
            EventView::Failed(e) => r matches Some(f) && f@ == e,
            _ => r is None,
        },
{
    match event {
        Event::Failed(e) => Some(e.clone()),
        _ => None,
    }
}

fn is_observed(routes: &Vec<Route>, wanted: &Route) -> (r: bool)
    ensures
        r == observed(seqs::views(routes@), wanted@),
{
    let ghost all = seqs::views(routes@);
    let mut i: usize = 0;
    while i < routes.len()
        invariant
            i <= routes.len(),
            all == seqs::views(routes@),
            forall|j: int|
                0 <= j < i ==> !((#[trigger] all[j]).destination.truncated()
                    == wanted@.destination.truncated() && all[j].route_type == wanted@.route_type),
        decreases routes.len() - i,
    {
        proof {
            assert(all[i as int] == routes@[i as int]@);
        }
        if routes[i].destination.trunc() == wanted.destination.trunc() && routes[i].route_type
            == wanted.route_type {
            return true;
        }
        i += 1;
    }
    false
}

fn are_observed(routes: &Vec<Route>, wanted: &Vec<Route>) -> (r: bool)
    ensures
        r == all_observed(seqs::views(routes@), seqs::views(wanted@)),
{
    let ghost all = seqs::views(wanted@);
    let mut i: usize = 0;
    while i < wanted.len()
        invariant
            i <= wanted.len(),
            all == seqs::views(wanted@),
            forall|j: int| 0 <= j < i ==> observed(seqs::views(routes@), #[trigger] all[j]),
        decreases wanted.len() - i,
    {
        proof {
            assert(all[i as int] == wanted@[i as int]@);
        }
        if !is_observed(routes, &wanted[i]) {
            proof {
                assert(!observed(seqs::views(routes@), all[i as int]));
            }
            return false;
        }
        i += 1;
    }
    true
}

impl ReconcileSession {
    fn go_restore(&mut self, i: usize)
        ensures
            final(self)@ == old(self)@.at_restore(i as nat),
    {
        if i < self.state.routes_owned.len() {
            self.step = Step::Restore(i);
        } else {
            self.step = Step::Done;
        }
    }

    fn go_undo(&mut self, i: usize)
        ensures
            final(self)@ == old(self)@.at_undo(i as nat),
    {
        if i < self.diff.routes_to_add.len() {
            self.step = Step::Undo(i);
        } else {
            self.go_restore(0);
        }
    }

    fn find_elsewhere(&self, i: usize) -> (r: usize)
        ensures
            r == next_elsewhere(self@.desired.routes, self@.wan, i as nat),
    {
        let n = self.desired.routes.len();
        let ghost routes = self@.desired.routes;
        let ghost wan = self@.wan;
        let mut k: usize = i;
        while k < n
            invariant
                n == self.desired.routes.len(),
                routes == self@.desired.routes,
                wan == self@.wan,
                next_elsewhere(routes, wan, i as nat) == next_elsewhere(routes, wan, k as nat),
            decreases n - k,
        {
            proof {
                assert(routes[k as int] == self.desired.routes@[k as int]@);
            }
            let name = self.desired.routes[k].output_interface.as_str();
            let is_wan = match &self.wan {
                Some(w) => strings::same(w.as_str(), name),
                None => false,
            };
            if name.unicode_len() > 0 && !is_wan {
                return k;
            }
            k += 1;
        }
        n
    }

    fn go_purge(&mut self, i: usize)
        ensures
            final(self)@ == old(self)@.at_purge(i as nat),
    {
        let k = self.find_elsewhere(i);
        if k < self.desired.routes.len() {
            self.step = Step::Purge(k);
        } else {
            self.step = Step::Verify;
        }
    }

    fn go_prioritize(&mut self)
        ensures
            final(self)@ == old(self)@.at_prioritize(),
    {
        if self.wan.is_some() {
            self.step = Step::Prioritize;
        } else {
            self.go_purge(0);
        }
    }

    fn go_wan(&mut self)
        ensures
            final(self)@ == old(self)@.at_wan(),
    {
        if self.desired.wan_interface.is_some() {
            self.wan = model::copy_name(&self.desired.wan_interface);
            self.go_prioritize();
        } else {
            self.step = Step::FindWan;
        }
    }

    fn go_drop_rule(&mut self, i: usize)
        ensures
            final(self)@ == old(self)@.at_drop_rule(i as nat),
    {
        if i < self.diff.rules_to_remove.len() {
            self.step = Step::DropRule(i);
        } else {
            self.go_wan();
        }
    }

    fn go_drop_route(&mut self, i: usize)
        ensures
            final(self)@ == old(self)@.at_drop_route(i as nat),
    {
        if i < self.diff.routes_to_remove.len() {
            self.step = Step::DropRoute(i);
        } else {
            self.go_drop_rule(0);
        }
    }

    fn go_add_route(&mut self, i: usize)
        ensures
            final(self)@ == old(self)@.at_add_route(i as nat),
    {
        if i < self.diff.routes_to_add.len() {
            self.step = Step::AddRoute(i);
        } else {
            self.go_drop_route(0);
        }
    }

    fn go_add_rule(&mut self, i: usize)
        ensures
            final(self)@ == old(self)@.at_add_rule(i as nat),
    {
        if i < self.diff.rules_to_add.len() {
            self.step = Step::AddRule(i);
        } else {
            self.go_add_route(0);
        }
    }

    fn go_filter(&mut self, i: usize)
        ensures
            final(self)@ == old(self)@.at_filter(i as nat),
    {
        if i < self.interfaces.len() {
            self.step = Step::Filter(i);
        } else {
            self.go_add_rule(0);
        }
    }

    fn fail(&mut self, e: LinuxError)
        ensures
            final(self)@ == old(self)@.failed(e@),
    {
        self.step = Step::Failed;
        self.error = Some(e);
    }

    fn undo(&mut self, applied: bool, message: String)
        ensures
            final(self)@ == old(self)@.undone(applied, message@),
    {
        let report = ReconcileReport {
            diff: self.diff.clone(),
            dry_run: false,
            applied,
            verified: false,
            rolled_back: true,
            error: Some(message),
        };
        self.report = Some(report);
        self.go_undo(0);
    }

    fn commit(&mut self, now: u64)
        ensures
            final(self)@ == (SessionView {
                state: old(self)@.committed(now),
                step: StepView::Save,
                ..old(self)@
            }),
    {
        let ghost before = self@;
        let (table, priority) = if self.desired.rules.len() > 0 {
            (self.desired.rules[0].table, self.desired.rules[0].priority)
        } else {
            (self.state.allocated_table, self.state.rule_priority)
        };
        let state = RuntimeState {
            allocated_table: table,
            rule_priority: priority,
            routes_owned: model::copy_routes(&self.desired.routes),
            rules_owned: model::copy_rules(&self.desired.rules),
            firewall_whitelist: model::copy_whitelist(&self.desired.firewall_whitelist),
            firewall_blacklist: net::copy_nets(&self.desired.blacklist),
            firewall_interfaces: model::copy_names(&self.interfaces),
            generation: self.next_generation,
            last_reconcile_epoch: now,
        };
        proof {
            assert(state@ =~= before.committed(now));
        }
        self.state = state;
        self.step = Step::Save;
    }

    /// What the host is asked to do next.
    pub fn action(&self) -> (r: Option<Action>)
        ensures
            seqs::opt_view(r) == self@.action(),
    {
        match self.step {
            Step::CheckWan => match &self.desired.wan_interface {
                Some(w) => Some(Action::AskDefaultRoute(w.clone())),
                None => None,
            },
            Step::Filter(i) => {
                if i < self.interfaces.len() {
                    let interface = self.interfaces[i].clone();
                    proof {
                        assert(interface@ == self@.interfaces[i as int]);
                    }
                    let allowed = list_allowed(&self.desired, interface.as_str());
                    Some(
                        Action::Filter {
                            interface,
                            allowed,
                            blocked: net::copy_nets(&self.desired.blacklist),
                        },
                    )
                } else {
                    None
                }
            },
            Step::AddRule(i) => if i < self.diff.rules_to_add.len() {
                Some(Action::EnsureRule(self.diff.rules_to_add[i]))
            } else {
                None
            },
            Step::AddRoute(i) => if i < self.diff.routes_to_add.len() {
                Some(Action::AddRoute(self.diff.routes_to_add[i].clone()))
            } else {
                None
            },
            Step::DropRoute(i) => if i < self.diff.routes_to_remove.len() {
                Some(Action::DeleteRoute(self.diff.routes_to_remove[i].clone()))
            } else {
                None
            },
            Step::DropRule(i) => if i < self.diff.rules_to_remove.len() {
                Some(Action::RemoveRule(self.diff.rules_to_remove[i]))
            } else {
                None
            },
            Step::FindWan => Some(Action::FindWan),
            Step::Prioritize => match &self.wan {
                Some(w) => Some(Action::Prioritize(w.clone())),
                None => None,
            },
            Step::Purge(i) => if i < self.desired.routes.len() {
                Some(Action::RemoveDefaults(self.desired.routes[i].output_interface.clone()))
            } else {
                None
            },
            Step::Verify => Some(Action::ShowTable(self.state.allocated_table)),
            Step::Save => Some(Action::Save(self.state.clone())),
            Step::Undo(i) => if i < self.diff.routes_to_add.len() {
                Some(Action::DeleteRoute(self.diff.routes_to_add[i].clone()))
            } else {
                None
            },
            Step::Restore(i) => if i < self.state.routes_owned.len() {
                Some(Action::AddRoute(self.state.routes_owned[i].clone()))
            } else {
                None
            },
            Step::Done => None,
            Step::Failed => None,
        }
    }

    /// Takes what the host says.
    pub fn advance(&mut self, event: Event)
        ensures
            final(self)@ == old(self)@.advanced(event@),
    {
        if self.action().is_none() {
            return;
        }
        proof {
            assert(self.interfaces.len() == self@.interfaces.len());
            assert(self.diff.rules_to_add.len() == self@.diff.rules_to_add.len());
            assert(self.diff.routes_to_add.len() == self@.diff.routes_to_add.len());
            assert(self.diff.routes_to_remove.len() == self@.diff.routes_to_remove.len());
            assert(self.diff.rules_to_remove.len() == self@.diff.rules_to_remove.len());
            assert(self.desired.routes.len() == self@.desired.routes.len());
            assert(self.state.routes_owned.len() == self@.state.routes_owned.len());
        }
        let error = event_error(&event);
        match self.step {
            Step::CheckWan => {
                if let Some(e) = error {
                    self.fail(e);
                    return;
                }
                match event {
                    Event::Answer(true) => {
                        self.go_filter(0);
                    },
                    _ => {
                        let name = match &self.desired.wan_interface {
                            Some(w) => w.clone(),
                            None => {
                                return;
                            },
                        };
                        let message = "Refusing apply: configured WLAN interface ".to_owned().concat(
                            name.as_str(),
                        ).concat(" has no default route");
                        self.fail(LinuxError::Netlink(message));
                    },
                }
            },
            Step::Filter(i) => {
                match error {
                    Some(e) => {
                        self.fail(e);
                    },
                    None => {
                        self.go_filter(i + 1);
                    },
                }
            },
            Step::AddRule(i) => {
                match error {
                    Some(e) => {
                        self.fail(e);
                    },
                    None => {
                        self.go_add_rule(i + 1);
                    },
                }
            },
            Step::AddRoute(i) => {
                match error {
                    Some(e) => {
                        let message = "Apply error, rolled back: ".to_owned().concat(
                            e.to_string().as_str(),
                        );
                        self.undo(false, message);
                    },
                    None => {
                        self.go_add_route(i + 1);
                    },
                }
            },
            Step::DropRoute(i) => {
                self.go_drop_route(i + 1);
            },
            Step::DropRule(i) => {
                self.go_drop_rule(i + 1);
            },
            Step::FindWan => {
                self.wan = match event {
                    Event::Wan(w) => w,
                    _ => None,
                };
                self.go_prioritize();
            },
            Step::Prioritize => {
                match error {
                    Some(e) => {
                        let message =
                            "failed to prioritize WLAN route; policy kept fail-closed: ".to_owned().concat(
                            e.to_string().as_str(),
                        );
                        self.undo(false, message);
                    },
                    None => {
                        self.go_purge(0);
                    },
                }
            },
            Step::Purge(i) => {
                match error {
                    Some(e) => {
                        let message =
                            "failed to remove LAN default route; policy kept fail-closed: ".to_owned().concat(
                            e.to_string().as_str(),
                        );
                        self.undo(false, message);
                    },
                    None => {
                        self.go_purge(i + 1);
                    },
                }
            },
            Step::Verify => {
                if let Some(e) = error {
                    self.fail(e);
                    return;
                }
                let missing = "Kernel verification failed: routes not observed in table".to_owned();
                match event {
                    Event::Routes(routes, now) => {
                        if are_observed(&routes, &self.desired.routes) {
                            self.commit(now);
                        } else {
                            self.undo(true, missing);
                        }
                    },
                    _ => {
                        self.undo(true, missing);
                    },
                }
            },
            Step::Save => {
                match error {
                    Some(e) => {
                        self.fail(e);
                    },
                    None => {
                        let report = ReconcileReport {
                            diff: self.diff.clone(),
                            dry_run: false,
                            applied: true,
                            verified: true,
                            rolled_back: false,
                            error: None,
                        };
                        self.report = Some(report);
                        self.step = Step::Done;
                    },
                }
            },
            Step::Undo(i) => {
                self.go_undo(i + 1);
            },
            Step::Restore(i) => {
                self.go_restore(i + 1);
            },
            Step::Done => {},
            Step::Failed => {},
        }
    }

    /// What came of the reconciliation, once there is no action left.
    pub fn result(&self) -> (r: Option<Result<ReconcileReport, LinuxError>>)
        ensures
            match (self@.error, self@.report) {
                (Some(e), _) => r matches Some(Err(f)) && f@ == e,
                (None, Some(report)) => r matches Some(Ok(q)) && q@ == report,
                (None, None) => r is None,
            },
    {
        if let Some(e) = &self.error {
            return Some(Err(e.clone()));
        }
        match &self.report {
            Some(report) => Some(Ok(report.clone())),
            None => None,
        }
    }
}

// ---------------------------------------------------------------------------------------------
// The reconciler
// ---------------------------------------------------------------------------------------------
/// What taking everything away asks of the host. Failures are passed over.
pub enum ResetAction {
    /// Remove all filters.
    CleanFilters,
    DeleteRoute(Route),
    RemoveRule(RpdbRule),
    /// Forget the state that is kept.
    ClearState,
    FlushTable(u32),
    /// Restore the interface that has the default route.
    RestoreDefaultWan,
    RestoreWan(String),
}

/// The value of a `ResetAction` in specifications.
pub enum ResetView {
    CleanFilters,
    DeleteRoute(RouteView),
    RemoveRule(RpdbRule),
    ClearState,
    FlushTable(u32),
    RestoreDefaultWan,
    RestoreWan(Seq<char>),
}

impl View for ResetAction {
    type V = ResetView;

    open spec fn view(&self) -> ResetView {
        match self {
            ResetAction::CleanFilters => ResetView::CleanFilters,
            ResetAction::DeleteRoute(r) => ResetView::DeleteRoute(r@),
            ResetAction::RemoveRule(r) => ResetView::RemoveRule(*r),
            ResetAction::ClearState => ResetView::ClearState,
            ResetAction::FlushTable(t) => ResetView::FlushTable(*t),
            ResetAction::RestoreDefaultWan => ResetView::RestoreDefaultWan,
            ResetAction::RestoreWan(s) => ResetView::RestoreWan(s@),
        }
    }
}

/// One deletion for each route.
pub open spec fn route_deletions(routes: Seq<RouteView>) -> Seq<ResetView> {
    Seq::new(routes.len(), |i: int| ResetView::DeleteRoute(routes[i]))
}

/// One removal for each rule.
pub open spec fn rule_removals(rules: Seq<RpdbRule>) -> Seq<ResetView> {
    Seq::new(rules.len(), |i: int| ResetView::RemoveRule(rules[i]))
}

/// What a state that is kept says to take away.
pub open spec fn owned_removals(state: RuntimeView) -> Seq<ResetView> {
    route_deletions(state.routes_owned) + rule_removals(state.rules_owned) + seq![
        ResetView::RemoveRule(
            RpdbRule { priority: state.rule_priority, table: state.allocated_table },
        ),
    ]
}

/// What is always taken away, so that nothing is left even if no state was kept.
pub open spec fn standing_removals() -> Seq<ResetView> {
    seq![
        ResetView::RemoveRule(RpdbRule { priority: 12000, table: 52000 }),
        ResetView::FlushTable(52000),
        ResetView::RestoreDefaultWan,
        ResetView::RestoreWan("wlan0"@),
        ResetView::RestoreWan("wlan1"@),
    ]
}

/// How everything is taken away: the filters, what is kept as owned, and what is always taken.
pub open spec fn reset_plan(exists: bool, kept: Option<RuntimeView>) -> Seq<ResetView> {
    seq![ResetView::CleanFilters] + (if exists {
        (match kept {
            Some(state) => owned_removals(state),
            None => Seq::empty(),
        }) + seq![ResetView::ClearState]
    } else {
        Seq::empty()
    }) + standing_removals()
}

pub struct Reconciler {
    state_manager: StateManager,
}

fn push_reset(plan: &mut Vec<ResetAction>, a: ResetAction)
    ensures
        seqs::views(final(plan)@) == seqs::views(old(plan)@).push(a@),
{
    proof {
        seqs::lemma_views_push(plan@, a);
    }
    plan.push(a);
}

fn push_owned(plan: &mut Vec<ResetAction>, state: &RuntimeState)
    ensures
        seqs::views(final(plan)@) == seqs::views(old(plan)@) + owned_removals(state@),
{
    let ghost before = seqs::views(plan@);
    let ghost routes = route_deletions(state@.routes_owned);
    let ghost rules = rule_removals(state@.rules_owned);
    let mut i: usize = 0;
    proof {
        assert(before + routes.take(0) =~= before);
    }
    while i < state.routes_owned.len()
        invariant
            i <= state.routes_owned.len(),
            routes == route_deletions(state@.routes_owned),
            seqs::views(plan@) == before + routes.take(i as int),
        decreases state.routes_owned.len() - i,
    {
        let ghost now = seqs::views(plan@);
        push_reset(plan, ResetAction::DeleteRoute(state.routes_owned[i].clone()));
        proof {
            seqs::lemma_take_next(routes, i as int);
            assert(now.push(routes[i as int]) =~= before + routes.take(i + 1));
        }
        i += 1;
    }
    proof {
        seqs::lemma_take_all(routes);
        assert(before + routes =~= before + routes + rules.take(0));
    }
    let mut k: usize = 0;
    while k < state.rules_owned.len()
        invariant
            k <= state.rules_owned.len(),
            rules == rule_removals(state@.rules_owned),
            seqs::views(plan@) == before + routes + rules.take(k as int),
        decreases state.rules_owned.len() - k,
    {
        let ghost now = seqs::views(plan@);
        push_reset(plan, ResetAction::RemoveRule(state.rules_owned[k]));
        proof {
            seqs::lemma_take_next(rules, k as int);
            assert(now.push(rules[k as int]) =~= before + routes + rules.take(k + 1));
        }
        k += 1;
    }
    push_reset(
        plan,
        ResetAction::RemoveRule(
            RpdbRule { priority: state.rule_priority, table: state.allocated_table },
        ),
    );
    proof {
        seqs::lemma_take_all(rules);
        assert(seqs::views(plan@) =~= before + owned_removals(state@));
    }
}

fn filters_change(state: &RuntimeState, desired: &DesiredState, interfaces: &Vec<String>) -> (r:
    bool)
    requires
        seqs::views(interfaces@) == filtered_interfaces(desired@),
    ensures
        r == filters_differ(state@, desired@),
{
    !same_whitelist(&state.firewall_whitelist, &desired.firewall_whitelist) || !same_nets(
        &state.firewall_blacklist,
        &desired.blacklist,
    ) || !same_names(&state.firewall_interfaces, interfaces)
}

impl Reconciler {
    pub closed spec fn manager(&self) -> StateManager {
        self.state_manager
    }

    pub fn new(state_manager: StateManager) -> (r: Reconciler)
        ensures
            r.manager() == state_manager,
    {
        Reconciler { state_manager }
    }

    /// What would have to change, given the state that is kept.
    pub fn plan(&self, desired: &DesiredState, state: &RuntimeState) -> (r: Result<
        StateDiff,
        LinuxError,
    >)
        ensures
            match r {
                Ok(diff) => !planner::wants_default_route(desired@) && diff@ == planner::diff_of(
                    state@.actual(),
                    desired@,
                ),
                Err(e) => planner::wants_default_route(desired@) && e@ == LinuxErrorView::Core(
                    planner::default_route_error(),
                ),
            },
    {
        let actual = self.state_manager.to_actual_state(state);
        match RoutePlanner::plan_diff(&actual, desired) {
            Ok(diff) => Ok(diff),
            Err(e) => Err(LinuxError::Core(e)),
        }
    }

    /// Whether a run that is not dry would change the host, given the state that is kept.
    pub fn has_work(&self, desired: &DesiredState, state: &RuntimeState) -> (r: bool)
        ensures
            r == (!planner::wants_default_route(desired@) && !settled(state@, desired@)),
    {
        match self.plan(desired, state) {
            Ok(diff) => !diff.is_empty() || filters_change(
                state,
                desired,
                &list_filtered(desired),
            ),
            Err(_) => false,
        }
    }

    /// Begins to bring the host to the desired state, given the state that is kept.
    pub fn reconcile(&self, desired: &DesiredState, dry_run: bool, state: &RuntimeState) -> (r:
        Result<ReconcileSession, LinuxError>)
        requires
            dry_run || planner::wants_default_route(desired@) || settled(state@, desired@)
                || state@.generation < u64::MAX,
        ensures
            match r {
                Ok(s) => !planner::wants_default_route(desired@) && s@ == SessionView::start(
                    desired@,
                    dry_run,
                    state@,
                ),
                Err(e) => planner::wants_default_route(desired@) && e@ == LinuxErrorView::Core(
                    planner::default_route_error(),
                ),
            },
    {
        let diff = match self.plan(desired, state) {
            Ok(diff) => diff,
            Err(e) => {
                return Err(e);
            },
        };
        let interfaces = list_filtered(desired);
        let idle = dry_run || (diff.is_empty() && !filters_change(state, desired, &interfaces));
        let mut s = ReconcileSession {
            desired: desired.clone(),
            state: state.clone(),
            diff,
            interfaces,
            next_generation: if idle {
                state.generation
            } else {
                state.generation + 1
            },
            wan: None,
            step: Step::CheckWan,
            report: None,
            error: None,
        };
        if idle {
            s.report = Some(
                ReconcileReport {
                    diff: s.diff.clone(),
                    dry_run,
                    applied: false,
                    verified: true,
                    rolled_back: false,
                    error: None,
                },
            );
            s.step = Step::Done;
        } else if s.desired.wan_interface.is_none() {
            s.go_filter(0);
        }
        proof {
            assert(s@ =~= SessionView::start(desired@, dry_run, state@));
        }
        Ok(s)
    }

    /// How the routes are put back as they were: what was added is deleted, and what was owned
    /// is added again.
    pub fn rollback(&self, diff: &StateDiff, old_state: &RuntimeState) -> (r: Vec<Action>)
        ensures
            seqs::views(r@) == Seq::new(
                diff@.routes_to_add.len(),
                |i: int| ActionView::DeleteRoute(diff@.routes_to_add[i]),
            ) + Seq::new(
                old_state@.routes_owned.len(),
                |i: int| ActionView::AddRoute(old_state@.routes_owned[i]),
            ),
    {
        let ghost gone = Seq::new(
            diff@.routes_to_add.len(),
            |i: int| ActionView::DeleteRoute(diff@.routes_to_add[i]),
        );
        let ghost back = Seq::new(
            old_state@.routes_owned.len(),
            |i: int| ActionView::AddRoute(old_state@.routes_owned[i]),
        );
        let mut out: Vec<Action> = Vec::new();
        let mut i: usize = 0;
        while i < diff.routes_to_add.len()
            invariant
                i <= diff.routes_to_add.len(),
                out.len() == i,
                forall|j: int|
                    0 <= j < i ==> (#[trigger] out@[j])@ == ActionView::DeleteRoute(
                        diff@.routes_to_add[j],
                    ),
            decreases diff.routes_to_add.len() - i,
        {
            out.push(Action::DeleteRoute(diff.routes_to_add[i].clone()));
            i += 1;
        }
        proof {
            assert(seqs::views(out@) =~= gone + back.take(0));
        }
        let mut k: usize = 0;
        while k < old_state.routes_owned.len()
            invariant
                k <= old_state.routes_owned.len(),
                back == Seq::new(
                    old_state@.routes_owned.len(),
                    |i: int| ActionView::AddRoute(old_state@.routes_owned[i]),
                ),
                seqs::views(out@) == gone + back.take(k as int),
            decreases old_state.routes_owned.len() - k,
        {
            let a = Action::AddRoute(old_state.routes_owned[k].clone());
            proof {
                seqs::lemma_views_push(out@, a);
                seqs::lemma_take_next(back, k as int);
                assert((gone + back.take(k as int)).push(a@) =~= gone + back.take(k + 1));
            }
            out.push(a);
            k += 1;
        }
        proof {
            seqs::lemma_take_all(back);
        }
        out
    }

    /// How everything is taken away. `exists` tells whether a state is kept, and `kept` is that
    /// state if it can be read.
    pub fn reset(&self, exists: bool, kept: Option<&RuntimeState>) -> (r: Vec<ResetAction>)
        ensures
            seqs::views(r@) == reset_plan(exists, seqs::opt_view(kept)),
    {
        let mut plan: Vec<ResetAction> = Vec::new();
        push_reset(&mut plan, ResetAction::CleanFilters);
        if exists {
            if let Some(state) = kept {
                push_owned(&mut plan, state);
            }
            push_reset(&mut plan, ResetAction::ClearState);
        }
        push_reset(
            &mut plan,
            ResetAction::RemoveRule(RpdbRule { priority: 12000, table: 52000 }),
        );
        push_reset(&mut plan, ResetAction::FlushTable(52000));
        push_reset(&mut plan, ResetAction::RestoreDefaultWan);
        push_reset(&mut plan, ResetAction::RestoreWan("wlan0".to_owned()));
        push_reset(&mut plan, ResetAction::RestoreWan("wlan1".to_owned()));
        proof {
            assert(seqs::views(plan@) =~= reset_plan(exists, seqs::opt_view(kept)));
        }
        plan
    }
}

// ---------------------------------------------------------------------------------------------
// What holds of every reconciliation
// ---------------------------------------------------------------------------------------------
/// The reconciliation after a series of events.
pub open spec fn run(s: SessionView, events: Seq<EventView>) -> SessionView
    decreases events.len(),
{
    if events.len() == 0 {
        s
    } else {
        run(s, events.drop_last()).advanced(events.last())
    }
}

/// Whether a step may change rules or routes, or comes after one that may.
pub open spec fn past_filters(step: StepView) -> bool {
    !(step is CheckWan || step is Filter || step is Done || step is Failed)
}

/// Whether from the `p`-th event on all filters were put in place, in order, without a failure.
pub open spec fn filters_set(s0: SessionView, events: Seq<EventView>, s: SessionView, p: int) -> bool {
    &&& 0 <= p
    &&& p + s.interfaces.len() <= events.len()
    &&& forall|j: int|
        0 <= j < s.interfaces.len() ==> run(s0, #[trigger] events.take(p + j)).step
            == StepView::Filter(j as nat) && !(events[p + j] is Failed)
}

/// What is known at each point of a reconciliation.
spec fn sound(s0: SessionView, events: Seq<EventView>) -> bool {
    let s = run(s0, events);
    &&& s.interfaces == s0.interfaces
    &&& s.step matches StepView::Filter(i) ==> i < s.interfaces.len() && i <= events.len() && (
    forall|j: int|
        0 <= j < i ==> run(s0, #[trigger] events.take(events.len() - i + j)).step
            == StepView::Filter(j as nat) && !(events[events.len() - i + j] is Failed))
    &&& past_filters(s.step) ==> exists|p: int| #[trigger] filters_set(s0, events, s, p)
}

proof fn lemma_past_filters(s: SessionView)
    ensures
        past_filters(s.at_add_rule(0).step),
        s.at_add_rule(0).interfaces == s.interfaces,
{
}

/// The steps that lead on from a step.
proof fn lemma_steps(s: SessionView, e: EventView)
    ensures
        s.advanced(e).interfaces == s.interfaces,
        s.step is Done || s.step is Failed ==> s.advanced(e) == s,
        s.step is CheckWan && !(s.advanced(e).step is Failed) && !(s.advanced(e).step is CheckWan)
            ==> s.advanced(e) == s.at_filter(0),
        s.step matches StepView::Filter(i) ==> s.advanced(e).step is Failed || s.advanced(e) == s
            || (!(e is Failed) && s.advanced(e) == s.at_filter(i + 1)),
        past_filters(s.step) ==> past_filters(s.advanced(e).step) || s.advanced(e).step is Done
            || s.advanced(e).step is Failed,
{
}

proof fn lemma_set_later(
    s0: SessionView,
    events: Seq<EventView>,
    more: Seq<EventView>,
    s: SessionView,
    t: SessionView,
    p: int,
)
    requires
        filters_set(s0, events, s, p),
        events.len() <= more.len(),
        more.take(events.len() as int) == events,
        t.interfaces == s.interfaces,
    ensures
        filters_set(s0, more, t, p),
{
    assert forall|j: int| 0 <= j < t.interfaces.len() implies run(
        s0,
        #[trigger] more.take(p + j),
    ).step == StepView::Filter(j as nat) && !(more[p + j] is Failed) by {
        assert(events.take(p + j) =~= more.take(p + j));
        assert(events[p + j] == more.take(events.len() as int)[p + j]);
        assert(run(s0, events.take(p + j)).step == StepView::Filter(j as nat));
    }
}

proof fn lemma_sound(s0: SessionView, events: Seq<EventView>)
    requires
        s0.step is CheckWan || s0.step is Done || s0 == s0.at_filter(0),
    ensures
        sound(s0, events),
    decreases events.len(),
{
    if events.len() == 0 {
        if past_filters(s0.step) {
            assert(s0.interfaces.len() == 0);
            assert(filters_set(s0, events, s0, 0));
        }
    } else {
        let before = events.drop_last();
        let e = events.last();
        let s = run(s0, before);
        let t = run(s0, events);
        lemma_sound(s0, before);
        lemma_steps(s, e);
        lemma_past_filters(s);
        assert(events.take(before.len() as int) =~= before);
        if let StepView::Filter(i) = s.step {
            if t == s.at_filter(i + 1) && !(e is Failed) {
                let p = events.len() - (i + 1);
                assert forall|j: int| 0 <= j < i + 1 implies run(
                    s0,
                    #[trigger] events.take(p + j),
                ).step == StepView::Filter(j as nat) && !(events[p + j] is Failed) by {
                    if j < i {
                        assert(before.take(before.len() - i + j) =~= events.take(p + j));
                        assert(before[before.len() - i + j] == events[p + j]);
                    } else {
                        assert(events.take(p + j) =~= before);
                    }
                }
                if past_filters(t.step) {
                    assert(filters_set(s0, events, t, p));
                }
            }
        } else if past_filters(s.step) {
            let p = choose|p: int| #[trigger] filters_set(s0, before, s, p);
            lemma_set_later(s0, before, events, s, t, p);
        } else if past_filters(t.step) {
            assert(t.interfaces.len() == 0);
            assert(filters_set(s0, events, t, 0));
        }
    }
}

/// The filters come first: when a rule or a route is about to be changed, every interface that is
/// to be filtered has been, without a failure.
pub proof fn law_filters_come_first(
    desired: DesiredView,
    dry_run: bool,
    state: RuntimeView,
    events: Seq<EventView>,
)
    requires
        past_filters(run(SessionView::start(desired, dry_run, state), events).step),
    ensures
        exists|p: int| #[trigger]
            filters_set(
                SessionView::start(desired, dry_run, state),
                events,
                run(SessionView::start(desired, dry_run, state), events),
                p,
            ),
{
    lemma_sound(SessionView::start(desired, dry_run, state), events);
}

/// A dry run does nothing: it is over before the host is asked anything.
pub proof fn law_dry_run_changes_nothing(desired: DesiredView, state: RuntimeView)
    ensures
        SessionView::start(desired, true, state).action() is None,
        SessionView::start(desired, true, state).report matches Some(r) && r.dry_run && !r.applied
            && r.diff == planner::diff_of(state.actual(), desired),
{
}

/// What is known of the way to a report.
spec fn backed(s0: SessionView, events: Seq<EventView>) -> bool {
    let s = run(s0, events);
    &&& s.desired == s0.desired
    &&& s.step is Save ==> exists|k: int| #[trigger] verified_at(s0, events, k)
    &&& s.claims_success() ==> exists|k: int| #[trigger] verified_at(s0, events, k)
}

/// Whether the `k`-th event showed all desired routes when the table was asked for.
pub open spec fn verified_at(s0: SessionView, events: Seq<EventView>, k: int) -> bool {
    &&& 0 <= k < events.len()
    &&& run(s0, events.take(k)).step is Verify
    &&& events[k] matches EventView::Routes(routes, _) && all_observed(routes, s0.desired.routes)
}

proof fn lemma_backed_step(s: SessionView, e: EventView)
    ensures
        s.advanced(e).desired == s.desired,
        s.advanced(e).step is Save && !(s.step is Save) ==> s.step is Verify
            && (e matches EventView::Routes(routes, _) && all_observed(routes, s.desired.routes)),
        s.advanced(e).report == s.report || s.step is Save || (s.advanced(
            e,
        ).report matches Some(r) && !r.verified),
{
}

proof fn lemma_backed(s0: SessionView, events: Seq<EventView>)
    requires
        !(s0.step is Save),
        s0.report matches Some(r) ==> !r.applied,
    ensures
        backed(s0, events),
    decreases events.len(),
{
    if events.len() > 0 {
        let before = events.drop_last();
        let e = events.last();
        let s = run(s0, before);
        let t = run(s0, events);
        lemma_backed(s0, before);
        lemma_backed_step(s, e);
        assert(events.take(before.len() as int) =~= before);
        assert forall|k: int| #[trigger] verified_at(s0, before, k) implies verified_at(
            s0,
            events,
            k,
        ) by {
            assert(before.take(k) =~= events.take(k));
            assert(before[k] == events[k]);
        }
        if s.step is Verify && (e matches EventView::Routes(routes, _) && all_observed(
            routes,
            s.desired.routes,
        )) {
            assert(verified_at(s0, events, before.len() as int));
        }
        if exists|k: int| #[trigger] verified_at(s0, before, k) {
            let k = choose|k: int| #[trigger] verified_at(s0, before, k);
            assert(verified_at(s0, events, k));
        }
    }
}

/// A report that says that the desired state was applied and verified is backed by the host: it
/// has shown every desired route in the table.
pub proof fn law_verified_means_observed(
    desired: DesiredView,
    dry_run: bool,
    state: RuntimeView,
    events: Seq<EventView>,
)
    requires
        run(SessionView::start(desired, dry_run, state), events).claims_success(),
    ensures
        exists|k: int| #[trigger]
            verified_at(SessionView::start(desired, dry_run, state), events, k),
{
    lemma_backed(SessionView::start(desired, dry_run, state), events);
}

/// Once the desired state is in force, wanting it again changes nothing: the reconciliation is
/// over at once.
pub proof fn law_settled_state_is_left_alone(s: SessionView, now: u64)
    requires
        s.interfaces == filtered_interfaces(s.desired),
    ensures
        SessionView::start(s.desired, false, s.committed(now)).action() is None,
        SessionView::start(s.desired, false, s.committed(now)).report matches Some(r) && !r.applied
            && r.verified && r.diff == DiffView::empty(),
{
    let c = s.committed(now);
    planner::law_settled_state_needs_nothing(s.desired, c.allocated_table, c.rule_priority);
    assert(c.actual() =~= (crate::model::ActualView {
        routes: s.desired.routes,
        rules: s.desired.rules,
        allocated_table: c.allocated_table,
        rule_priority: c.rule_priority,
    }));
}

/// The state of a rollback after `k` events.
spec fn rolling(s: SessionView, k: nat) -> SessionView {
    let n = s.diff.routes_to_add.len();
    let m = s.state.routes_owned.len();
    if k < n {
        s.at(StepView::Undo(k))
    } else if k < n + m {
        s.at(StepView::Restore((k - n) as nat))
    } else {
        s.at(StepView::Done)
    }
}

proof fn lemma_rolling(s: SessionView, events: Seq<EventView>)
    requires
        events.len() <= s.diff.routes_to_add.len() + s.state.routes_owned.len(),
    ensures
        run(s.at_undo(0), events) == rolling(s, events.len()),
    decreases events.len(),
{
    if events.len() > 0 {
        lemma_rolling(s, events.drop_last());
    }
}

/// A failure on the way is rolled back whatever the host says to it: the routes that were to be
/// added are deleted, those that were owned are added again, each in order, and then the
/// reconciliation is over.
pub proof fn law_rollback_puts_routes_back(
    s: SessionView,
    applied: bool,
    message: Seq<char>,
    events: Seq<EventView>,
)
    requires
        events.len() <= s.diff.routes_to_add.len() + s.state.routes_owned.len(),
    ensures
        run(s.undone(applied, message), events).action() == if events.len()
            < s.diff.routes_to_add.len() {
            Some(ActionView::DeleteRoute(s.diff.routes_to_add[events.len() as int]))
        } else if events.len() < s.diff.routes_to_add.len() + s.state.routes_owned.len() {
            Some(
                ActionView::AddRoute(
                    s.state.routes_owned[events.len() - s.diff.routes_to_add.len()],
                ),
            )
        } else {
            None
        },
        run(s.undone(applied, message), events).report matches Some(r) && r.rolled_back
            && !r.verified && r.error == Some(message),
{
    let u = SessionView {
        report: Some(
            ReportView {
                diff: s.diff,
                dry_run: false,
                applied,
                verified: false,
                rolled_back: true,
                error: Some(message),
            },
        ),
        ..s
    };
    lemma_rolling(u, events);
}

/// Taking everything away always removes the filters first, and removes the standard rule and
/// empties the standard table even if no state was kept.
pub proof fn law_reset_needs_no_state(exists: bool, kept: Option<RuntimeView>)
    ensures
        reset_plan(exists, kept)[0] is CleanFilters,
        reset_plan(exists, kept).contains(
            ResetView::RemoveRule(RpdbRule { priority: 12000, table: 52000 }),
        ),
        reset_plan(exists, kept).contains(ResetView::FlushTable(52000)),
{
    let p = reset_plan(exists, kept);
    let n = p.len() - standing_removals().len();
    assert(p[n] == standing_removals()[0]);
    assert(p[n + 1] == standing_removals()[1]);
}

/// Taking everything away takes away all that is owned: if a state was kept, every route and rule
/// that it owns is removed, and its own rule with them; the state itself is cleared; and the
/// normal paths are restored in any case.
pub proof fn law_reset_takes_away_what_is_owned(exists: bool, kept: Option<RuntimeView>)
    ensures
        exists ==> (kept matches Some(state) ==> forall|r: RouteView| #[trigger]
            state.routes_owned.contains(r) ==> reset_plan(exists, kept).contains(
                ResetView::DeleteRoute(r),
            )),
        exists ==> (kept matches Some(state) ==> forall|q: RpdbRule| #[trigger]
            state.rules_owned.contains(q) ==> reset_plan(exists, kept).contains(
                ResetView::RemoveRule(q),
            )),
        exists ==> (kept matches Some(state) ==> reset_plan(exists, kept).contains(
            ResetView::RemoveRule(
                RpdbRule { priority: state.rule_priority, table: state.allocated_table },
            ),
        )),
        exists ==> reset_plan(exists, kept).contains(ResetView::ClearState),
        reset_plan(exists, kept).contains(ResetView::RestoreDefaultWan),
        reset_plan(exists, kept).contains(ResetView::RestoreWan("wlan0"@)),
        reset_plan(exists, kept).contains(ResetView::RestoreWan("wlan1"@)),
{
    let p = reset_plan(exists, kept);
    let n = p.len() - standing_removals().len();
    assert(p[n + 2] == standing_removals()[2]);
    assert(p[n + 3] == standing_removals()[3]);
    assert(p[n + 4] == standing_removals()[4]);
    if exists {
        assert(p[n - 1] == ResetView::ClearState);
        if let Some(state) = kept {
            let a = route_deletions(state.routes_owned);
            let b = rule_removals(state.rules_owned);
            let own = owned_removals(state);
            assert forall|i: int| 0 <= i < own.len() implies p[1 + i] == #[trigger] own[i] by {}
            assert forall|r: RouteView| #[trigger] state.routes_owned.contains(r) implies p.contains(
                ResetView::DeleteRoute(r),
            ) by {
                let i = choose|i: int|
                    0 <= i < state.routes_owned.len() && state.routes_owned[i] == r;
                assert(own[i] == a[i]);
                assert(p[1 + i] == ResetView::DeleteRoute(r));
            }
            assert forall|q: RpdbRule| #[trigger] state.rules_owned.contains(q) implies p.contains(
                ResetView::RemoveRule(q),
            ) by {
                let i = choose|i: int|
                    0 <= i < state.rules_owned.len() && state.rules_owned[i] == q;
                assert(own[a.len() + i] == b[i]);
                assert(p[1 + a.len() + i] == ResetView::RemoveRule(q));
            }
            assert(own[own.len() - 1] == p[own.len() as int]);
        }
    }
}

} // verus!
