//! Putting the policy of a daemon in force, action by action.

use vstd::prelude::*;
use crate::apply::{self, LinkDns, LinkView};
use crate::config::{Config, OperatingMode};
use crate::daemon::{self, DaemonState, DaemonView};
use crate::model::{self, DesiredState, DesiredView, Interface, InterfaceRole, InterfaceView};
use crate::names::NameMap;
use crate::net::IpAddr;
use crate::reconcile::{ReconcileReport, ReportView};
use crate::rpc;
use crate::seqs;

verus! {

// ---------------------------------------------------------------------------------------------
// Actions and events
// ---------------------------------------------------------------------------------------------
/// What the host is asked for.
pub enum ApplyAction {
    /// Tell which resolver can be told of domains.
    FindBackend,
    /// Tell which interfaces there are, with their gateways.
    ReadInterfaces,
    /// Tell the gateways and neighbors on interfaces.
    ReadNeighborhood(Vec<String>),
    /// Tell the IPv6 gateway of an interface.
    ReadGateway(String),
    /// Bring the host to a state.
    Reconcile(DesiredState),
    /// Tell the resolver which domains and servers belong to an interface.
    SetDns(LinkDns),
    /// Ask the resolver for the addresses of a domain.
    Lookup(String),
}

/// The value of an `ApplyAction` in specifications.
pub enum ApplyActionView {
    FindBackend,
    ReadInterfaces,
    ReadNeighborhood(Seq<Seq<char>>),
    ReadGateway(Seq<char>),
    Reconcile(DesiredView),
    SetDns(LinkView),
    Lookup(Seq<char>),
}

impl View for ApplyAction {
    type V = ApplyActionView;

    open spec fn view(&self) -> ApplyActionView {
        match self {
            ApplyAction::FindBackend => ApplyActionView::FindBackend,
            ApplyAction::ReadInterfaces => ApplyActionView::ReadInterfaces,
            ApplyAction::ReadNeighborhood(v) => ApplyActionView::ReadNeighborhood(
                seqs::views(v@),
            ),
            ApplyAction::ReadGateway(s) => ApplyActionView::ReadGateway(s@),
            ApplyAction::Reconcile(d) => ApplyActionView::Reconcile(d@),
            ApplyAction::SetDns(l) => ApplyActionView::SetDns(l@),
            ApplyAction::Lookup(s) => ApplyActionView::Lookup(s@),
        }
    }
}

/// What the host says.
pub enum ApplyEvent {
    Backend(String),
    Interfaces(Vec<Interface>),
    Neighborhood { gateways: NameMap<IpAddr>, neighbors: NameMap<Vec<IpAddr>> },
    Gateway(Option<IpAddr>),
    Reconciled(ReconcileReport),
    Done,
    Addresses(Vec<IpAddr>),
    Failed(String),
}

/// The value of an `ApplyEvent` in specifications.
pub enum ApplyEventView {
    Backend(Seq<char>),
    Interfaces(Seq<InterfaceView>),
    Neighborhood {
        gateways: Seq<(Seq<char>, IpAddr)>,
        neighbors: Seq<(Seq<char>, Seq<IpAddr>)>,
    },
    Gateway(Option<IpAddr>),
    Reconciled(ReportView),
    Done,
    Addresses(Seq<IpAddr>),
    Failed(Seq<char>),
}

impl View for ApplyEvent {
    type V = ApplyEventView;

    open spec fn view(&self) -> ApplyEventView {
        match self {
            ApplyEvent::Backend(s) => ApplyEventView::Backend(s@),
            ApplyEvent::Interfaces(v) => ApplyEventView::Interfaces(seqs::views(v@)),
            ApplyEvent::Neighborhood { gateways, neighbors } => ApplyEventView::Neighborhood {
                gateways: gateways@,
                neighbors: neighbors@,
            },
            ApplyEvent::Gateway(g) => ApplyEventView::Gateway(*g),
            ApplyEvent::Reconciled(r) => ApplyEventView::Reconciled(r@),
            ApplyEvent::Done => ApplyEventView::Done,
            ApplyEvent::Addresses(v) => ApplyEventView::Addresses(v@),
            ApplyEvent::Failed(e) => ApplyEventView::Failed(e@),
        }
    }
}

// ---------------------------------------------------------------------------------------------
// Steps
// ---------------------------------------------------------------------------------------------
/// Where an application of the policy stands, with what it has gathered so far. `lan_dns` tells
/// whether the LAN has to be asked for addresses.
pub enum ApplyStep {
    FindBackend,
    ReadInterfaces { lan_dns: bool },
    ReadNeighborhood { lan_dns: bool, interfaces: Vec<Interface> },
    ReadGateway { lan_dns: bool, interfaces: Vec<Interface>, wan: String },
    Reconcile { lan_dns: bool, desired: DesiredState },
    SetDns { lan_dns: bool, report: ReconcileReport, links: Vec<LinkDns>, next: usize },
    SetLanDns { report: ReconcileReport, link: LinkDns },
    Lookup { report: ReconcileReport, domains: Vec<String>, next: usize, changed: bool },
    Finished(Result<ReconcileReport, String>),
}

/// The value of an `ApplyStep` in specifications.
pub enum ApplyStepView {
    FindBackend,
    ReadInterfaces { lan_dns: bool },
    ReadNeighborhood { lan_dns: bool, interfaces: Seq<InterfaceView> },
    ReadGateway { lan_dns: bool, interfaces: Seq<InterfaceView>, wan: Seq<char> },
    Reconcile { lan_dns: bool, desired: DesiredView },
    SetDns { lan_dns: bool, report: ReportView, links: Seq<LinkView>, next: nat },
    SetLanDns { report: ReportView, link: LinkView },
    Lookup { report: ReportView, domains: Seq<Seq<char>>, next: nat, changed: bool },
    Finished(Result<ReportView, Seq<char>>),
}

impl View for ApplyStep {
    type V = ApplyStepView;

    open spec fn view(&self) -> ApplyStepView {
        match self {
            ApplyStep::FindBackend => ApplyStepView::FindBackend,
            ApplyStep::ReadInterfaces { lan_dns } => ApplyStepView::ReadInterfaces {
                lan_dns: *lan_dns,
            },
            ApplyStep::ReadNeighborhood { lan_dns, interfaces } => {
                ApplyStepView::ReadNeighborhood {
                    lan_dns: *lan_dns,
                    interfaces: seqs::views(interfaces@),
                }
            },
            ApplyStep::ReadGateway { lan_dns, interfaces, wan } => ApplyStepView::ReadGateway {
                lan_dns: *lan_dns,
                interfaces: seqs::views(interfaces@),
                wan: wan@,
            },
            ApplyStep::Reconcile { lan_dns, desired } => ApplyStepView::Reconcile {
                lan_dns: *lan_dns,
                desired: desired@,
            },
            ApplyStep::SetDns { lan_dns, report, links, next } => ApplyStepView::SetDns {
                lan_dns: *lan_dns,
                report: report@,
                links: seqs::views(links@),
                next: *next as nat,
            },
            ApplyStep::SetLanDns { report, link } => ApplyStepView::SetLanDns {
                report: report@,
                link: link@,
            },
            ApplyStep::Lookup { report, domains, next, changed } => ApplyStepView::Lookup {
                report: report@,
                domains: seqs::views(domains@),
                next: *next as nat,
                changed: *changed,
            },
            ApplyStep::Finished(r) => ApplyStepView::Finished(outcome(*r)),
        }
    }
}

/// The value of an outcome in specifications.
pub open spec fn outcome(r: Result<ReconcileReport, String>) -> Result<ReportView, Seq<char>> {
    match r {
        Ok(report) => Ok(report@),
        Err(e) => Err(e@),
    }
}

/// Whether an interface belongs to the LAN, and if so its name.
pub open spec fn lan_name() -> spec_fn(InterfaceView) -> Seq<Seq<char>> {
    |i: InterfaceView|
        if i.role == InterfaceRole::Lan {
            seq![i.name]
        } else {
            Seq::empty()
        }
}

/// What the host is asked for at a step.
pub open spec fn action_at(step: ApplyStepView) -> Option<ApplyActionView> {
    match step {
        ApplyStepView::FindBackend => Some(ApplyActionView::FindBackend),
        ApplyStepView::ReadInterfaces { lan_dns } => Some(ApplyActionView::ReadInterfaces),
        ApplyStepView::ReadNeighborhood { lan_dns, interfaces } => Some(
            ApplyActionView::ReadNeighborhood(seqs::flat(interfaces, lan_name())),
        ),
        ApplyStepView::ReadGateway { lan_dns, interfaces, wan } => Some(
            ApplyActionView::ReadGateway(wan),
        ),
        ApplyStepView::Reconcile { lan_dns, desired } => Some(ApplyActionView::Reconcile(desired)),
        ApplyStepView::SetDns { lan_dns, report, links, next } => if next < links.len() {
            Some(ApplyActionView::SetDns(links[next as int]))
        } else {
            None
        },
        ApplyStepView::SetLanDns { report, link } => Some(ApplyActionView::SetDns(link)),
        ApplyStepView::Lookup { report, domains, next, changed } => if next < domains.len() {
            Some(ApplyActionView::Lookup(domains[next as int]))
        } else {
            None
        },
        ApplyStepView::Finished(r) => None,
    }
}

/// The step once the interfaces are known and the configuration is complete.
pub open spec fn step_to_reconcile(
    d: DaemonView,
    lan_dns: bool,
    interfaces: Seq<InterfaceView>,
) -> ApplyStepView {
    match d.default_wan {
        Some(wan) => ApplyStepView::ReadGateway { lan_dns, interfaces, wan },
        None => ApplyStepView::Reconcile {
            lan_dns,
            desired: apply::desired_of(d, interfaces, None),
        },
    }
}

/// The step once the resolver has been told of the first `next` networks.
pub open spec fn step_to_dns(
    d: DaemonView,
    lan_dns: bool,
    report: ReportView,
    links: Seq<LinkView>,
    next: nat,
) -> ApplyStepView {
    if next < links.len() {
        ApplyStepView::SetDns { lan_dns, report, links, next }
    } else if !lan_dns {
        ApplyStepView::Finished(Ok(report))
    } else {
        match apply::lan_link(d.config) {
            Ok(link) => ApplyStepView::SetLanDns { report, link },
            Err(e) => ApplyStepView::Finished(Err(e)),
        }
    }
}

/// The first step: a configuration that is rejected ends the application before the host is
/// asked for anything.
pub open spec fn first_step(d: DaemonView) -> ApplyStepView {
    match apply::rejection(d.config) {
        Some(fault) => ApplyStepView::Finished(Err(fault)),
        None => ApplyStepView::FindBackend,
    }
}

/// The step once the first `next` domains have been looked up. If an answer changed what is
/// known, everything starts anew.
pub open spec fn step_to_lookup(
    d: DaemonView,
    report: ReportView,
    domains: Seq<Seq<char>>,
    next: nat,
    changed: bool,
) -> ApplyStepView {
    if next < domains.len() {
        ApplyStepView::Lookup { report, domains, next, changed }
    } else if changed {
        first_step(d)
    } else {
        ApplyStepView::Finished(Ok(report))
    }
}

/// The step and the daemon after an event. An event that does not answer the action of the step
/// changes nothing.
pub open spec fn stepped(
    dry_run: bool,
    step: ApplyStepView,
    d: DaemonView,
    event: ApplyEventView,
) -> (ApplyStepView, DaemonView) {
    match (step, event) {
        (ApplyStepView::FindBackend, ApplyEventView::Backend(backend)) => {
            match apply::apply_fault(d.config, dry_run, backend) {
                Some(fault) => (ApplyStepView::Finished(Err(fault)), d),
                None => (
                    ApplyStepView::ReadInterfaces { lan_dns: apply::needs_lan_dns(d.config) },
                    d,
                ),
            }
        },
        (ApplyStepView::ReadInterfaces { lan_dns }, ApplyEventView::Interfaces(found)) => {
            let interfaces = daemon::with_roles(found, d.default_wan, d.config.wan);
            if d.config.mode == OperatingMode::Manual {
                (step_to_reconcile(d, lan_dns, interfaces), d)
            } else {
                (ApplyStepView::ReadNeighborhood { lan_dns, interfaces }, d)
            }
        },
        (ApplyStepView::ReadInterfaces { lan_dns }, ApplyEventView::Failed(e)) => (
            ApplyStepView::Finished(Err(e)),
            d,
        ),
        (
            ApplyStepView::ReadNeighborhood { lan_dns, interfaces },
            ApplyEventView::Neighborhood { gateways, neighbors },
        ) => {
            let after = apply::discovered(d, interfaces, gateways, neighbors);
            (step_to_reconcile(after, lan_dns, interfaces), after)
        },
        (
            ApplyStepView::ReadGateway { lan_dns, interfaces, wan },
            ApplyEventView::Gateway(gateway),
        ) => (
            ApplyStepView::Reconcile {
                lan_dns,
                desired: apply::desired_of(d, interfaces, gateway),
            },
            d,
        ),
        (ApplyStepView::Reconcile { lan_dns, desired }, ApplyEventView::Reconciled(report)) => {
            if dry_run || !report.applied {
                (ApplyStepView::Finished(Ok(report)), d)
            } else {
                let links = seqs::flat(d.config.networks, apply::link_of());
                (step_to_dns(d, lan_dns, report, links, 0), d)
            }
        },
        (ApplyStepView::Reconcile { lan_dns, desired }, ApplyEventView::Failed(e)) => (
            ApplyStepView::Finished(Err(e)),
            d,
        ),
        (ApplyStepView::SetDns { lan_dns, report, links, next }, ApplyEventView::Done) => (
            step_past_link(d, lan_dns, report, links, next),
            d,
        ),
        (ApplyStepView::SetDns { lan_dns, report, links, next }, ApplyEventView::Failed(e)) => (
            step_past_link(d, lan_dns, report, links, next),
            d,
        ),
        (ApplyStepView::SetLanDns { report, link }, ApplyEventView::Done) => (
            step_to_lookup(d, report, d.config.lan_domains, 0, false),
            d,
        ),
        (ApplyStepView::SetLanDns { report, link }, ApplyEventView::Failed(e)) => (
            ApplyStepView::Finished(Err("failed to configure LAN split DNS: "@ + e)),
            d,
        ),
        (
            ApplyStepView::Lookup { report, domains, next, changed },
            ApplyEventView::Addresses(addresses),
        ) => {
            if next < domains.len() {
                let domain = domains[next as int];
                let differs = d.config.local_addresses(domain) != Some(addresses);
                let after = apply::learned(d, domain, addresses);
                (step_to_lookup(after, report, domains, next + 1, changed || differs), after)
            } else {
                (step, d)
            }
        },
        (ApplyStepView::Lookup { report, domains, next, changed }, ApplyEventView::Failed(e)) => {
            if next < domains.len() {
                (
                    ApplyStepView::Finished(
                        Err("LAN DNS lookup failed for "@ + domains[next as int] + ": "@ + e),
                    ),
                    d,
                )
            } else {
                (step, d)
            }
        },
        _ => (step, d),
    }
}

/// The step after the resolver has been told of a network, with success or without.
pub open spec fn step_past_link(
    d: DaemonView,
    lan_dns: bool,
    report: ReportView,
    links: Seq<LinkView>,
    next: nat,
) -> ApplyStepView {
    if next < links.len() {
        step_to_dns(d, lan_dns, report, links, next + 1)
    } else {
        ApplyStepView::SetDns { lan_dns, report, links, next }
    }
}

fn past_discovery(d: &DaemonState, lan_dns: bool, interfaces: Vec<Interface>) -> (r: ApplyStep)
    ensures
        r@ == step_to_reconcile(d@, lan_dns, seqs::views(interfaces@)),
{
    match &d.default_wan {
        Some(wan) => ApplyStep::ReadGateway { lan_dns, interfaces, wan: wan.clone() },
        None => ApplyStep::Reconcile { lan_dns, desired: d.desired_state(&interfaces, None) },
    }
}

fn to_dns(
    d: &DaemonState,
    lan_dns: bool,
    report: ReconcileReport,
    links: Vec<LinkDns>,
    next: usize,
) -> (r: ApplyStep)
    ensures
        r@ == step_to_dns(d@, lan_dns, report@, seqs::views(links@), next as nat),
{
    if next < links.len() {
        ApplyStep::SetDns { lan_dns, report, links, next }
    } else if !lan_dns {
        ApplyStep::Finished(Ok(report))
    } else {
        match d.lan_dns() {
            Ok(link) => ApplyStep::SetLanDns { report, link },
            Err(e) => ApplyStep::Finished(Err(e)),
        }
    }
}

fn past_link(
    d: &DaemonState,
    lan_dns: bool,
    report: ReconcileReport,
    links: Vec<LinkDns>,
    next: usize,
) -> (r: ApplyStep)
    ensures
        r@ == step_past_link(d@, lan_dns, report@, seqs::views(links@), next as nat),
{
    if next < links.len() {
        to_dns(d, lan_dns, report, links, next + 1)
    } else {
        ApplyStep::SetDns { lan_dns, report, links, next }
    }
}

fn begin(d: &DaemonState) -> (r: ApplyStep)
    ensures
        r@ == first_step(d@),
{
    match d.check_policy() {
        Ok(()) => ApplyStep::FindBackend,
        Err(e) => ApplyStep::Finished(Err(e)),
    }
}

fn to_lookup(
    d: &DaemonState,
    report: ReconcileReport,
    domains: Vec<String>,
    next: usize,
    changed: bool,
) -> (r: ApplyStep)
    ensures
        r@ == step_to_lookup(d@, report@, seqs::views(domains@), next as nat, changed),
{
    if next < domains.len() {
        ApplyStep::Lookup { report, domains, next, changed }
    } else if changed {
        begin(d)
    } else {
        ApplyStep::Finished(Ok(report))
    }
}

/// The names of the interfaces of the LAN.
pub fn lan_names(interfaces: &Vec<Interface>) -> (r: Vec<String>)
    ensures
        seqs::views(r@) == seqs::flat(seqs::views(interfaces@), lan_name()),
{
    let ghost all = seqs::views(interfaces@);
    let mut out: Vec<String> = Vec::new();
    let mut i: usize = 0;
    proof {
        assert(all.take(0).len() == 0);
        assert(seqs::views(out@) =~= seqs::flat(all.take(0), lan_name()));
    }
    while i < interfaces.len()
        invariant
            i <= interfaces.len(),
            all == seqs::views(interfaces@),
            seqs::views(out@) == seqs::flat(all.take(i as int), lan_name()),
        decreases interfaces.len() - i,
    {
        let ghost now = seqs::views(out@);
        proof {
            seqs::lemma_flat_next(all, lan_name(), i as int);
            assert(all[i as int] == interfaces@[i as int]@);
        }
        if interfaces[i].role == InterfaceRole::Lan {
            let name = interfaces[i].name.clone();
            proof {
                seqs::lemma_views_push(out@, name);
            }
            out.push(name);
        }
        proof {
            assert(seqs::views(out@) =~= now + lan_name()(all[i as int]));
        }
        i += 1;
    }
    proof {
        seqs::lemma_take_all(all);
    }
    out
}

/// An application of the policy of a daemon.
pub struct Application {
    pub dry_run: bool,
    pub step: ApplyStep,
}

pub struct ReversedDaemon {
    pub socket_path: String,
    pub state: DaemonState,
}

impl ReversedDaemon {
    /// A daemon that listens on the socket that is given or else on the usual one.
    pub fn new(
        config: Config,
        custom_socket: Option<String>,
        run_exists: bool,
        is_root: bool,
        found_wan: Option<String>,
    ) -> (r: ReversedDaemon)
        ensures
            r.socket_path@ == match custom_socket {
                Some(path) => path@,
                None => rpc::socket_path_of(run_exists, is_root),
            },
            r.state@ == daemon::fresh(config@, seqs::opt_view(found_wan)),
    {
        let socket_path = match custom_socket {
            Some(path) => path,
            None => rpc::default_socket_path(run_exists, is_root).to_owned(),
        };
        ReversedDaemon { socket_path, state: DaemonState::new(config, found_wan) }
    }

    /// Begins an application of the policy, for real or for show.
    pub fn execute_apply(s: &DaemonState, dry_run: bool) -> (r: Application)
        ensures
            r.dry_run == dry_run,
            r.step@ == first_step(s@),
    {
        Application { dry_run, step: begin(s) }
    }
}

impl Application {
    /// What the host is asked for, if anything is.
    pub fn action(&self) -> (r: Option<ApplyAction>)
        ensures
            seqs::opt_view(r) == action_at(self.step@),
    {
        self.step.action()
    }

    /// Takes what the host says to the action. An event that does not answer the action changes
    /// nothing.
    pub fn advance(self, d: &mut DaemonState, event: ApplyEvent) -> (r: Application)
        ensures
            r.dry_run == self.dry_run,
            (r.step@, final(d)@) == stepped(self.dry_run, self.step@, old(d)@, event@),
    {
        let Application { dry_run, step } = self;
        Application { dry_run, step: step.advance(dry_run, d, event) }
    }

    /// What came of it, once the host is asked for nothing more.
    pub fn result(self) -> (r: Option<Result<ReconcileReport, String>>)
        ensures
            match r {
                Some(o) => self.step@ == ApplyStepView::Finished(outcome(o)),
                None => !(self.step@ is Finished),
            },
    {
        match self.step {
            ApplyStep::Finished(o) => Some(o),
            _ => None,
        }
    }
}

impl ApplyStep {
    fn action(&self) -> (r: Option<ApplyAction>)
        ensures
            seqs::opt_view(r) == action_at(self@),
    {
        match self {
            ApplyStep::FindBackend => Some(ApplyAction::FindBackend),
            ApplyStep::ReadInterfaces { .. } => Some(ApplyAction::ReadInterfaces),
            ApplyStep::ReadNeighborhood { interfaces, .. } => Some(
                ApplyAction::ReadNeighborhood(lan_names(interfaces)),
            ),
            ApplyStep::ReadGateway { wan, .. } => Some(ApplyAction::ReadGateway(wan.clone())),
            ApplyStep::Reconcile { desired, .. } => Some(ApplyAction::Reconcile(desired.clone())),
            ApplyStep::SetDns { links, next, .. } => {
                if *next < links.len() {
                    Some(ApplyAction::SetDns(links[*next].clone()))
                } else {
                    None
                }
            },
            ApplyStep::SetLanDns { link, .. } => Some(ApplyAction::SetDns(link.clone())),
            ApplyStep::Lookup { domains, next, .. } => {
                if *next < domains.len() {
                    Some(ApplyAction::Lookup(domains[*next].clone()))
                } else {
                    None
                }
            },
            ApplyStep::Finished(_) => None,
        }
    }

    fn advance(self, dry_run: bool, d: &mut DaemonState, event: ApplyEvent) -> (r: ApplyStep)
        ensures
            (r@, final(d)@) == stepped(dry_run, self@, old(d)@, event@),
    {
        match (self, event) {
            (ApplyStep::FindBackend, ApplyEvent::Backend(backend)) => {
                match d.begin_apply(dry_run, backend.as_str()) {
                    Ok(lan_dns) => ApplyStep::ReadInterfaces { lan_dns },
                    Err(e) => ApplyStep::Finished(Err(e)),
                }
            },
            (ApplyStep::ReadInterfaces { lan_dns }, ApplyEvent::Interfaces(found)) => {
                let interfaces = daemon::classify_all(
                    &found,
                    &d.default_wan,
                    d.config.wan.interfaces.as_slice(),
                );
                if d.config.mode == OperatingMode::Manual {
                    past_discovery(d, lan_dns, interfaces)
                } else {
                    ApplyStep::ReadNeighborhood { lan_dns, interfaces }
                }
            },
            (ApplyStep::ReadInterfaces { .. }, ApplyEvent::Failed(e)) => ApplyStep::Finished(
                Err(e),
            ),
            (
                ApplyStep::ReadNeighborhood { lan_dns, interfaces },
                ApplyEvent::Neighborhood { gateways, neighbors },
            ) => {
                d.discover(&interfaces, &gateways, &neighbors);
                past_discovery(d, lan_dns, interfaces)
            },
            (
                ApplyStep::ReadGateway { lan_dns, interfaces, .. },
                ApplyEvent::Gateway(gateway),
            ) => {
                let desired = d.desired_state(&interfaces, gateway);
                ApplyStep::Reconcile { lan_dns, desired }
            },
            (ApplyStep::Reconcile { lan_dns, .. }, ApplyEvent::Reconciled(report)) => {
                if dry_run || !report.applied {
                    ApplyStep::Finished(Ok(report))
                } else {
                    let links = d.network_dns();
                    to_dns(d, lan_dns, report, links, 0)
                }
            },
            (ApplyStep::Reconcile { .. }, ApplyEvent::Failed(e)) => ApplyStep::Finished(Err(e)),
            (ApplyStep::SetDns { lan_dns, report, links, next }, ApplyEvent::Done) => past_link(
                d,
                lan_dns,
                report,
                links,
                next,
            ),
            (ApplyStep::SetDns { lan_dns, report, links, next }, ApplyEvent::Failed(_)) => {
                past_link(d, lan_dns, report, links, next)
            },
            (ApplyStep::SetLanDns { report, .. }, ApplyEvent::Done) => to_lookup(
                d,
                report,
                model::copy_names(&d.config.lan_domains),
                0,
                false,
            ),
            (ApplyStep::SetLanDns { .. }, ApplyEvent::Failed(e)) => ApplyStep::Finished(
                Err("failed to configure LAN split DNS: ".to_owned().concat(e.as_str())),
            ),
            (
                ApplyStep::Lookup { report, domains, next, changed },
                ApplyEvent::Addresses(addresses),
            ) => {
                if next < domains.len() {
                    let differs = d.learn(domains[next].as_str(), addresses);
                    to_lookup(d, report, domains, next + 1, changed || differs)
                } else {
                    ApplyStep::Lookup { report, domains, next, changed }
                }
            },
            (ApplyStep::Lookup { report, domains, next, changed }, ApplyEvent::Failed(e)) => {
                if next < domains.len() {
                    let text = "LAN DNS lookup failed for ".to_owned().concat(
                        domains[next].as_str(),
                    ).concat(": ").concat(e.as_str());
                    ApplyStep::Finished(Err(text))
                } else {
                    ApplyStep::Lookup { report, domains, next, changed }
                }
            },
            (step, _) => step,
        }
    }
}

// ---------------------------------------------------------------------------------------------
// What holds of it
// ---------------------------------------------------------------------------------------------
/// The step and the daemon after events.
pub open spec fn run(
    dry_run: bool,
    step: ApplyStepView,
    d: DaemonView,
    events: Seq<ApplyEventView>,
) -> (ApplyStepView, DaemonView)
    decreases events.len(),
{
    if events.len() == 0 {
        (step, d)
    } else {
        let (before, after) = run(dry_run, step, d, events.drop_last());
        stepped(dry_run, before, after, events.last())
    }
}

/// Whether a step neither discovers anything nor asks the LAN for addresses.
pub open spec fn closed_step(d: DaemonView, step: ApplyStepView) -> bool {
    match step {
        ApplyStepView::FindBackend => true,
        ApplyStepView::ReadInterfaces { lan_dns } => !lan_dns && d.config.mode
            == OperatingMode::Manual,
        ApplyStepView::ReadNeighborhood { lan_dns, interfaces } => false,
        ApplyStepView::ReadGateway { lan_dns, interfaces, wan } => !lan_dns,
        ApplyStepView::Reconcile { lan_dns, desired } => !lan_dns,
        ApplyStepView::SetDns { lan_dns, report, links, next } => !lan_dns,
        ApplyStepView::SetLanDns { report, link } => false,
        ApplyStepView::Lookup { report, domains, next, changed } => false,
        ApplyStepView::Finished(r) => true,
    }
}

/// Putting the policy in force leaves the policy as it is, whatever the host says: nothing is
/// discovered, and the LAN is not asked for addresses.
#[verifier::rlimit(50)]
pub proof fn law_application_keeps_the_policy(
    dry_run: bool,
    d: DaemonView,
    events: Seq<ApplyEventView>,
)
    ensures
        run(dry_run, first_step(d), d, events).1 == d,
        closed_step(d, run(dry_run, first_step(d), d, events).0),
    decreases events.len(),
{
    if events.len() > 0 {
        law_application_keeps_the_policy(dry_run, d, events.drop_last());
        let (before, _) = run(dry_run, first_step(d), d, events.drop_last());
        if let (ApplyStepView::FindBackend, ApplyEventView::Backend(backend)) = (
            before,
            events.last(),
        ) {
            if apply::apply_fault(d.config, dry_run, backend) is None {
                apply::law_accepted_needs_no_lan_dns(d.config, dry_run, backend);
                crate::strict::law_accepted_exactly_if_strict(d.config);
            }
        }
    }
}

/// A rejected configuration ends the application before the host is asked for anything, and
/// whatever the host says changes nothing of that.
pub proof fn law_rejected_policy_does_nothing(
    dry_run: bool,
    d: DaemonView,
    fault: Seq<char>,
    events: Seq<ApplyEventView>,
)
    requires
        apply::rejection(d.config) == Some(fault),
    ensures
        action_at(first_step(d)) is None,
        run(dry_run, first_step(d), d, events) == (ApplyStepView::Finished(Err(fault)), d),
    decreases events.len(),
{
    if events.len() > 0 {
        law_rejected_policy_does_nothing(dry_run, d, fault, events.drop_last());
    }
}

proof fn lemma_run_next(
    dry_run: bool,
    step: ApplyStepView,
    d: DaemonView,
    events: Seq<ApplyEventView>,
)
    requires
        events.len() > 0,
    ensures
        run(dry_run, step, d, events) == ({
            let (before, after) = run(dry_run, step, d, events.drop_last());
            stepped(dry_run, before, after, events.last())
        }),
{
}

proof fn lemma_end_stays(
    dry_run: bool,
    d: DaemonView,
    end: Result<ReportView, Seq<char>>,
    event: ApplyEventView,
)
    ensures
        stepped(dry_run, ApplyStepView::Finished(end), d, event) == (
            ApplyStepView::Finished(end),
            d,
        ),
{
}

proof fn lemma_fault_ends(dry_run: bool, d: DaemonView, backend: Seq<char>, fault: Seq<char>)
    requires
        apply::apply_fault(d.config, dry_run, backend) == Some(fault),
    ensures
        stepped(dry_run, first_step(d), d, ApplyEventView::Backend(backend)) == (
            ApplyStepView::Finished(Err(fault)),
            d,
        ),
{
}

/// A configuration that needs the resolver of the LAN ends the application if there is none to be
/// told, before the host is asked for anything else.
pub proof fn law_missing_resolver_ends_the_application(
    dry_run: bool,
    d: DaemonView,
    backend: Seq<char>,
    fault: Seq<char>,
    events: Seq<ApplyEventView>,
)
    requires
        apply::apply_fault(d.config, dry_run, backend) == Some(fault),
        events.len() > 0,
        events[0] == ApplyEventView::Backend(backend),
    ensures
        run(dry_run, first_step(d), d, events) == (ApplyStepView::Finished(Err(fault)), d),
    decreases events.len(),
{
    let before = events.drop_last();
    if before.len() == 0 {
        assert(run(dry_run, first_step(d), d, before) == (first_step(d), d));
        lemma_fault_ends(dry_run, d, backend, fault);
    } else {
        assert(before[0] == events[0]);
        law_missing_resolver_ends_the_application(dry_run, d, backend, fault, before);
        lemma_end_stays(dry_run, d, Err(fault), events.last());
    }
    lemma_run_next(dry_run, first_step(d), d, events);
}

/// Whether a step holds a report.
pub open spec fn reported(step: ApplyStepView, report: ReportView) -> bool {
    match step {
        ApplyStepView::SetDns { lan_dns, report: r, links, next } => r == report,
        ApplyStepView::SetLanDns { report: r, link } => r == report,
        ApplyStepView::Lookup { report: r, domains, next, changed } => r == report,
        ApplyStepView::Finished(Ok(r)) => r == report,
        _ => false,
    }
}

proof fn lemma_report_enters(
    dry_run: bool,
    step: ApplyStepView,
    d: DaemonView,
    event: ApplyEventView,
    report: ReportView,
)
    requires
        reported(stepped(dry_run, step, d, event).0, report),
    ensures
        reported(step, report) || event == ApplyEventView::Reconciled(report),
{
}

/// What an application reports is what the host reported of a reconciliation.
pub proof fn law_success_is_a_reconciliation(
    dry_run: bool,
    d: DaemonView,
    events: Seq<ApplyEventView>,
    report: ReportView,
)
    requires
        reported(run(dry_run, first_step(d), d, events).0, report),
    ensures
        events.contains(ApplyEventView::Reconciled(report)),
    decreases events.len(),
{
    if events.len() > 0 {
        let before = events.drop_last();
        let (step, after) = run(dry_run, first_step(d), d, before);
        if reported(step, report) {
            law_success_is_a_reconciliation(dry_run, d, before, report);
            let i = choose|i: int|
                0 <= i < before.len() && before[i] == ApplyEventView::Reconciled(report);
            assert(events[i] == ApplyEventView::Reconciled(report));
        } else {
            lemma_report_enters(dry_run, step, after, events.last(), report);
            assert(events[events.len() - 1] == ApplyEventView::Reconciled(report));
        }
    }
}

/// Whether the host was asked for something on the way.
pub open spec fn asked(
    dry_run: bool,
    d: DaemonView,
    events: Seq<ApplyEventView>,
    action: ApplyActionView,
) -> bool {
    exists|k: int|
        0 <= k < events.len() && action_at(
            run(dry_run, first_step(d), d, #[trigger] events.take(k)).0,
        ) == Some(action)
}

proof fn lemma_asked_later(
    dry_run: bool,
    d: DaemonView,
    events: Seq<ApplyEventView>,
    action: ApplyActionView,
)
    requires
        events.len() > 0,
    ensures
        asked(dry_run, d, events.drop_last(), action) ==> asked(dry_run, d, events, action),
        action_at(run(dry_run, first_step(d), d, events.drop_last()).0) == Some(action) ==> asked(
            dry_run,
            d,
            events,
            action,
        ),
{
    let before = events.drop_last();
    assert(events.take(before.len() as int) =~= before);
    if asked(dry_run, d, before, action) {
        let k = choose|k: int|
            0 <= k < before.len() && action_at(
                run(dry_run, first_step(d), d, #[trigger] before.take(k)).0,
            ) == Some(action);
        assert(before.take(k) =~= events.take(k));
    }
}

/// What is known of the resolver at a step.
spec fn told(
    dry_run: bool,
    d: DaemonView,
    events: Seq<ApplyEventView>,
    step: ApplyStepView,
) -> bool {
    let all = seqs::flat(d.config.networks, apply::link_of());
    match step {
        ApplyStepView::SetDns { lan_dns, report, links, next } => links == all && next
            < links.len() && !dry_run && report.applied && told_of(dry_run, d, events, all, next),
        ApplyStepView::SetLanDns { report, link } => false,
        ApplyStepView::Lookup { report, domains, next, changed } => false,
        ApplyStepView::Finished(Ok(report)) => !dry_run && report.applied ==> told_of(
            dry_run,
            d,
            events,
            all,
            all.len(),
        ),
        _ => true,
    }
}

/// Whether the resolver was told of the first `n` links.
spec fn told_of(
    dry_run: bool,
    d: DaemonView,
    events: Seq<ApplyEventView>,
    all: Seq<LinkView>,
    n: nat,
) -> bool {
    forall|j: int|
        0 <= j < n ==> asked(dry_run, d, events, ApplyActionView::SetDns(#[trigger] all[j]))
}

/// What one event makes of a step that neither discovers anything nor asks the LAN.
spec fn onward(dry_run: bool, d: DaemonView, s: ApplyStepView, t: ApplyStepView) -> bool {
    let all = seqs::flat(d.config.networks, apply::link_of());
    match t {
        ApplyStepView::SetDns { lan_dns, report, links, next } => {
            ||| t == s
            ||| s is Reconcile && links == all && next == 0 && next < links.len() && !dry_run
                && report.applied
            ||| (s matches ApplyStepView::SetDns { lan_dns: l0, report: r0, links: k0, next: n0 }
                && links == k0 && next == n0 + 1 && next < links.len() && r0 == report)
        },
        ApplyStepView::SetLanDns { report, link } => false,
        ApplyStepView::Lookup { report, domains, next, changed } => false,
        ApplyStepView::Finished(Ok(report)) => {
            ||| t == s
            ||| s is Reconcile && (dry_run || !report.applied || all.len() == 0)
            ||| (s matches ApplyStepView::SetDns { lan_dns: l0, report: r0, links: k0, next: n0 }
                && r0 == report && n0 + 1 >= k0.len())
        },
        _ => true,
    }
}

#[verifier::rlimit(50)]
proof fn lemma_onward(dry_run: bool, s: ApplyStepView, d: DaemonView, event: ApplyEventView)
    requires
        closed_step(d, s),
    ensures
        onward(dry_run, d, s, stepped(dry_run, s, d, event).0),
{
    if let ApplyStepView::FindBackend = s {
        if let ApplyEventView::Backend(backend) = event {
            if apply::apply_fault(d.config, dry_run, backend) is None {
                apply::law_accepted_needs_no_lan_dns(d.config, dry_run, backend);
            }
        }
    }
}

proof fn lemma_told_onward(
    dry_run: bool,
    d: DaemonView,
    before: Seq<ApplyEventView>,
    events: Seq<ApplyEventView>,
    s: ApplyStepView,
    t: ApplyStepView,
)
    requires
        told(dry_run, d, before, s),
        onward(dry_run, d, s, t),
        forall|a: ApplyActionView| #[trigger]
            asked(dry_run, d, before, a) ==> asked(dry_run, d, events, a),
        action_at(s) is Some ==> asked(dry_run, d, events, action_at(s)->0),
    ensures
        told(dry_run, d, events, t),
{
    let all = seqs::flat(d.config.networks, apply::link_of());
    if let ApplyStepView::SetDns { lan_dns, report, links, next } = s {
        assert(action_at(s) == Some(ApplyActionView::SetDns(all[next as int])));
        assert(told_of(dry_run, d, events, all, next + 1)) by {
            assert forall|j: int| 0 <= j < next + 1 implies asked(
                dry_run,
                d,
                events,
                ApplyActionView::SetDns(#[trigger] all[j]),
            ) by {
                if j < next {
                    assert(asked(dry_run, d, before, ApplyActionView::SetDns(all[j])));
                }
            }
        }
    }
    if let ApplyStepView::Finished(Ok(report)) = s {
        if told_of(dry_run, d, before, all, all.len()) {
            assert forall|j: int| 0 <= j < all.len() implies asked(
                dry_run,
                d,
                events,
                ApplyActionView::SetDns(#[trigger] all[j]),
            ) by {
                assert(asked(dry_run, d, before, ApplyActionView::SetDns(all[j])));
            }
        }
    }
}

proof fn lemma_told(dry_run: bool, d: DaemonView, events: Seq<ApplyEventView>)
    ensures
        told(dry_run, d, events, run(dry_run, first_step(d), d, events).0),
    decreases events.len(),
{
    if events.len() > 0 {
        let before = events.drop_last();
        let s = run(dry_run, first_step(d), d, before).0;
        let t = run(dry_run, first_step(d), d, events).0;
        lemma_told(dry_run, d, before);
        law_application_keeps_the_policy(dry_run, d, before);
        lemma_run_next(dry_run, first_step(d), d, events);
        lemma_onward(dry_run, s, d, events.last());
        assert forall|a: ApplyActionView| #[trigger]
            asked(dry_run, d, before, a) implies asked(dry_run, d, events, a) by {
            lemma_asked_later(dry_run, d, events, a);
        }
        if action_at(s) is Some {
            lemma_asked_later(dry_run, d, events, action_at(s)->0);
        }
        lemma_told_onward(dry_run, d, before, events, s, t);
    }
}

/// An application that put routes in force has told the resolver of every network: for each that
/// has an interface its domains and servers were to be set on the first of its interfaces.
pub proof fn law_success_tells_the_resolver(
    dry_run: bool,
    d: DaemonView,
    events: Seq<ApplyEventView>,
    report: ReportView,
    i: int,
)
    requires
        !dry_run,
        report.applied,
        run(dry_run, first_step(d), d, events).0 == ApplyStepView::Finished(Ok(report)),
        0 <= i < d.config.networks.len(),
        d.config.networks[i].interfaces.len() > 0,
    ensures
        asked(
            dry_run,
            d,
            events,
            ApplyActionView::SetDns(
                LinkView {
                    interface: d.config.networks[i].interfaces[0],
                    domains: d.config.networks[i].domains,
                    servers: d.config.networks[i].dns,
                },
            ),
        ),
{
    let n = d.config.networks[i];
    let f = apply::link_of();
    let all = seqs::flat(d.config.networks, f);
    let link = LinkView { interface: n.interfaces[0], domains: n.domains, servers: n.dns };
    lemma_told(dry_run, d, events);
    assert(f(n)[0] == link);
    assert(f(n).contains(link));
    seqs::lemma_flat_contains(d.config.networks, f, link);
    let j = choose|j: int| 0 <= j < all.len() && all[j] == link;
    assert(asked(dry_run, d, events, ApplyActionView::SetDns(all[j])));
}

/// Whether a state is what the policy of the daemon wants on a host that showed its interfaces
/// and, if there is a normal path, the gateway of it.
pub open spec fn wanted(d: DaemonView, events: Seq<ApplyEventView>, desired: DesiredView) -> bool {
    exists|i: int, g: Option<IpAddr>|
        0 <= i < events.len() && #[trigger] follows_from(d, events[i], g, desired) && (
        d.default_wan is Some ==> events.contains(ApplyEventView::Gateway(g))) && (
        d.default_wan is None ==> g is None)
}

/// Whether a state is what the policy wants with the interfaces that an event shows and a gateway.
pub open spec fn follows_from(
    d: DaemonView,
    event: ApplyEventView,
    gateway: Option<IpAddr>,
    desired: DesiredView,
) -> bool {
    event matches ApplyEventView::Interfaces(found) && desired == apply::desired_of(
        d,
        daemon::with_roles(found, d.default_wan, d.config.wan),
        gateway,
    )
}

spec fn shown(d: DaemonView, events: Seq<ApplyEventView>, interfaces: Seq<InterfaceView>) -> bool {
    exists|i: int|
        0 <= i < events.len() && (#[trigger] events[i] matches ApplyEventView::Interfaces(found)
            && interfaces == daemon::with_roles(found, d.default_wan, d.config.wan))
}

spec fn well_founded(dry_run: bool, d: DaemonView, events: Seq<ApplyEventView>) -> bool {
    match run(dry_run, first_step(d), d, events).0 {
        ApplyStepView::ReadGateway { lan_dns, interfaces, wan } => shown(d, events, interfaces)
            && d.default_wan == Some(wan),
        ApplyStepView::Reconcile { lan_dns, desired } => wanted(d, events, desired),
        _ => true,
    }
}

#[verifier::rlimit(50)]
proof fn lemma_well_founded(dry_run: bool, d: DaemonView, events: Seq<ApplyEventView>)
    ensures
        well_founded(dry_run, d, events),
    decreases events.len(),
{
    if events.len() > 0 {
        let before = events.drop_last();
        let s = run(dry_run, first_step(d), d, before).0;
        let t = run(dry_run, first_step(d), d, events).0;
        let n = before.len() as int;
        lemma_well_founded(dry_run, d, before);
        law_application_keeps_the_policy(dry_run, d, before);
        lemma_run_next(dry_run, first_step(d), d, events);
        lemma_founded_step(dry_run, s, d, events.last());
        assert(events[n] == events.last());
        assert forall|k: int| 0 <= k < n implies before[k] == #[trigger] events[k] by {}
        match t {
            ApplyStepView::ReadGateway { lan_dns, interfaces, wan } => {
                if t == s {
                    let i = choose|i: int|
                        0 <= i < before.len() && (#[trigger] before[i] matches
                            ApplyEventView::Interfaces(found) && interfaces == daemon::with_roles(
                            found,
                            d.default_wan,
                            d.config.wan,
                        ));
                    assert(events[i] == before[i]);
                }
            },
            ApplyStepView::Reconcile { lan_dns, desired } => {
                if t == s {
                    let (i, g) = choose|i: int, g: Option<IpAddr>|
                        0 <= i < before.len() && #[trigger] follows_from(d, before[i], g, desired)
                            && (d.default_wan is Some ==> before.contains(
                            ApplyEventView::Gateway(g),
                        )) && (d.default_wan is None ==> g is None);
                    assert(follows_from(d, events[i], g, desired));
                    if before.contains(ApplyEventView::Gateway(g)) {
                        let k = choose|k: int|
                            0 <= k < before.len() && before[k] == ApplyEventView::Gateway(g);
                        assert(events[k] == before[k]);
                    }
                } else if let ApplyStepView::ReadGateway { lan_dns: l, interfaces, wan } = s {
                    let i = choose|i: int|
                        0 <= i < before.len() && (#[trigger] before[i] matches
                            ApplyEventView::Interfaces(found) && interfaces == daemon::with_roles(
                            found,
                            d.default_wan,
                            d.config.wan,
                        ));
                    let g = events.last()->Gateway_0;
                    assert(follows_from(d, events[i], g, desired));
                    assert(events.contains(ApplyEventView::Gateway(g)));
                } else {
                    assert(follows_from(d, events[n], None, desired));
                }
            },
            _ => {},
        }
    }
}

proof fn lemma_founded_step(
    dry_run: bool,
    s: ApplyStepView,
    d: DaemonView,
    event: ApplyEventView,
)
    requires
        closed_step(d, s),
    ensures
        ({
            let t = stepped(dry_run, s, d, event).0;
            &&& t matches ApplyStepView::ReadGateway { lan_dns, interfaces, wan } ==> t == s || (
            d.default_wan == Some(wan) && (event matches ApplyEventView::Interfaces(found)
                && interfaces == daemon::with_roles(found, d.default_wan, d.config.wan)))
            &&& t matches ApplyStepView::Reconcile { lan_dns, desired } ==> {
                ||| t == s
                ||| (s matches ApplyStepView::ReadGateway { lan_dns: l0, interfaces, wan } && (
                event matches ApplyEventView::Gateway(g) && desired == apply::desired_of(
                    d,
                    interfaces,
                    g,
                )))
                ||| d.default_wan is None && (event matches ApplyEventView::Interfaces(found)
                    && desired == apply::desired_of(
                    d,
                    daemon::with_roles(found, d.default_wan, d.config.wan),
                    None,
                )) && !(s is ReadGateway)
            }
        }),
{
}

/// What the host is asked to be brought to is what the policy wants: the state that follows from
/// the configuration, from the interfaces that the host showed and from the gateway that it named
/// for the normal path, if there is one.
pub proof fn law_what_is_wanted_is_reconciled(
    dry_run: bool,
    d: DaemonView,
    events: Seq<ApplyEventView>,
    desired: DesiredView,
)
    requires
        action_at(run(dry_run, first_step(d), d, events).0) == Some(
            ApplyActionView::Reconcile(desired),
        ),
    ensures
        wanted(d, events, desired),
{
    lemma_well_founded(dry_run, d, events);
}

} // verus!
