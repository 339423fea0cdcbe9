//! The daemon: what it decides on requests, probes and applications of its policy.

use vstd::prelude::*;
use crate::activation;
use crate::classifier::{self, InterfaceClassifier};
use crate::config::{Config, ConfigView, TargetConfig, TargetView};
use crate::health::{HealthConfig, HealthStateMachine};
use crate::model::{self, Interface, InterfaceView, PathHealth};
use crate::names::NameMap;
use crate::policy::{self, PolicyEngine};
use crate::reconcile::ReconcileReport;
use crate::rpc::{
    DaemonRequest, DaemonResponse, RequestView, ResponseView, ScanReport, ScanView, StatusReport,
    StatusView,
};
use crate::seqs;
use crate::state::RuntimeState;
use crate::strings;

verus! {

pub struct DaemonState {
    pub config: Config,
    pub health_map: NameMap<PathHealth>,
    pub health_sm: HealthStateMachine,
    pub default_wan: Option<String>,
}

/// The value of a `DaemonState` in specifications.
#[verifier::ext_equal]
pub struct DaemonView {
    pub config: ConfigView,
    pub health: Seq<(Seq<char>, PathHealth)>,
    pub health_config: HealthConfig,
    pub default_wan: Option<Seq<char>>,
}

impl View for DaemonState {
    type V = DaemonView;

    open spec fn view(&self) -> DaemonView {
        DaemonView {
            config: self.config@,
            health: self.health_map@,
            health_config: self.health_sm.config(),
            default_wan: seqs::opt_view(self.default_wan),
        }
    }
}

/// The WAN interface that a configuration names, if it names one.
pub open spec fn explicit_wan(c: ConfigView) -> Option<Seq<char>> {
    if c.wan.len() > 0 && c.wan[0] != "auto"@ {
        Some(c.wan[0])
    } else {
        None
    }
}

/// The WAN interface: the one that the configuration names or else the one that was found.
pub open spec fn wan_of(c: ConfigView, found: Option<Seq<char>>) -> Option<Seq<char>> {
    match explicit_wan(c) {
        Some(w) => Some(w),
        None => found,
    }
}

/// The WAN interface: the one that the configuration names or else the one that was found.
pub fn choose_wan(config: &Config, found: Option<String>) -> (r: Option<String>)
    ensures
        seqs::opt_view(r) == wan_of(config@, seqs::opt_view(found)),
{
    if config.wan.interfaces.len() > 0 {
        let first = &config.wan.interfaces[0];
        proof {
            assert(config@.wan[0] == first@);
        }
        if !strings::same(first.as_str(), "auto") {
            return Some(first.clone());
        }
    }
    found
}

/// An interface with its role.
pub open spec fn with_role(
    i: InterfaceView,
    wan: Option<Seq<char>>,
    explicit: Seq<Seq<char>>,
) -> InterfaceView {
    InterfaceView { role: classifier::role_of(i, wan, explicit), ..i }
}

/// Interfaces with their roles.
pub open spec fn with_roles(
    s: Seq<InterfaceView>,
    wan: Option<Seq<char>>,
    explicit: Seq<Seq<char>>,
) -> Seq<InterfaceView> {
    Seq::new(s.len(), |i: int| with_role(s[i], wan, explicit))
}

/// Gives interfaces their roles.
pub fn classify_all(
    interfaces: &Vec<Interface>,
    default_wan: &Option<String>,
    explicit: &[String],
) -> (r: Vec<Interface>)
    ensures
        seqs::views(r@) == with_roles(
            seqs::views(interfaces@),
            seqs::opt_view(*default_wan),
            seqs::views(explicit@),
        ),
{
    let ghost wan = seqs::opt_view(*default_wan);
    let ghost names = seqs::views(explicit@);
    let wan_name: Option<&str> = match default_wan {
        Some(w) => Some(w.as_str()),
        None => None,
    };
    proof {
        assert(seqs::opt_view(wan_name) == wan);
    }
    let mut out: Vec<Interface> = Vec::new();
    let mut i: usize = 0;
    while i < interfaces.len()
        invariant
            i <= interfaces.len(),
            out.len() == i,
            seqs::opt_view(wan_name) == wan,
            names == seqs::views(explicit@),
            forall|j: int|
                0 <= j < i ==> (#[trigger] out@[j])@ == with_role(interfaces@[j]@, wan, names),
        decreases interfaces.len() - i,
    {
        let mut iface = interfaces[i].clone();
        let role = InterfaceClassifier::classify(&iface, wan_name, explicit);
        iface.role = role;
        out.push(iface);
        i += 1;
    }
    proof {
        assert(seqs::views(out@) =~= with_roles(seqs::views(interfaces@), wan, names));
    }
    out
}

// ---------------------------------------------------------------------------------------------
// Requests
// ---------------------------------------------------------------------------------------------
/// What the daemon does about a request: it answers, or has to gather or do something first.
pub enum Next {
    Answer(DaemonResponse),
    GatherStatus,
    GatherScan,
    Explain(String),
    Apply { dry_run: bool, config_toml: Option<String> },
    Reset,
    /// Answers and stops.
    Stop(DaemonResponse),
}

/// The value of a `Next` in specifications.
pub enum NextView {
    Answer(ResponseView),
    GatherStatus,
    GatherScan,
    Explain(Seq<char>),
    Apply { dry_run: bool, config_toml: Option<Seq<char>> },
    Reset,
    Stop(ResponseView),
}

impl View for Next {
    type V = NextView;

    open spec fn view(&self) -> NextView {
        match self {
            Next::Answer(r) => NextView::Answer(r@),
            Next::GatherStatus => NextView::GatherStatus,
            Next::GatherScan => NextView::GatherScan,
            Next::Explain(t) => NextView::Explain(t@),
            Next::Apply { dry_run, config_toml } => NextView::Apply {
                dry_run: *dry_run,
                config_toml: seqs::opt_view(*config_toml),
            },
            Next::Reset => NextView::Reset,
            Next::Stop(r) => NextView::Stop(r@),
        }
    }
}

/// What a peer is told that may not change things.
pub open spec fn permission_denied() -> ResponseView {
    ResponseView::Error(
        "Permission denied: State-mutating commands (apply, reset, shutdown, target add/remove) require root (sudo)."@,
    )
}

/// Whether a target is for another network.
pub open spec fn other_cidr(cidr: Seq<char>) -> spec_fn(TargetView) -> bool {
    |t: TargetView| t.cidr != cidr
}

/// Whether a target has another name and is for another network.
pub open spec fn not_called(name_or_cidr: Seq<char>) -> spec_fn(TargetView) -> bool {
    |t: TargetView| t.name != name_or_cidr && t.cidr != name_or_cidr
}

/// The daemon with other targets.
pub open spec fn with_targets(d: DaemonView, targets: Seq<TargetView>) -> DaemonView {
    DaemonView { config: ConfigView { targets, ..d.config }, ..d }
}

/// What the daemon does about a request, and what it is afterwards.
pub open spec fn handled(d: DaemonView, request: RequestView, authorized: bool) -> (
    DaemonView,
    NextView,
) {
    if request.mutating() && !authorized {
        (d, NextView::Answer(permission_denied()))
    } else {
        match request {
            RequestView::Ping => (d, NextView::Answer(ResponseView::Success("pong"@))),
            RequestView::Status => (d, NextView::GatherStatus),
            RequestView::Scan => (d, NextView::GatherScan),
            RequestView::Explain { target } => (d, NextView::Explain(target)),
            RequestView::Apply { dry_run, config_toml } => (
                d,
                NextView::Apply { dry_run, config_toml },
            ),
            RequestView::Reset => (d, NextView::Reset),
            RequestView::AddTarget(t) => (
                with_targets(d, seqs::keep(d.config.targets, other_cidr(t.cidr)).push(t)),
                NextView::Answer(ResponseView::Success("Target added to active policy"@)),
            ),
            RequestView::RemoveTarget { name_or_cidr } => (
                with_targets(d, seqs::keep(d.config.targets, not_called(name_or_cidr))),
                NextView::Answer(ResponseView::Success("Target removed from active policy"@)),
            ),
            RequestView::ListTargets => (
                d,
                NextView::Answer(ResponseView::Targets(d.config.targets)),
            ),
            RequestView::Reload => (d, NextView::Answer(ResponseView::Success("Daemon reloaded"@))),
            RequestView::Shutdown => (
                d,
                NextView::Stop(ResponseView::Success("Daemon stopping and resetting state"@)),
            ),
        }
    }
}

fn push_target(targets: &mut Vec<TargetConfig>, t: TargetConfig)
    ensures
        seqs::views(final(targets)@) == seqs::views(old(targets)@).push(t@),
{
    proof {
        seqs::lemma_views_push(targets@, t);
    }
    targets.push(t);
}

fn without_cidr(targets: &Vec<TargetConfig>, cidr: &str) -> (r: Vec<TargetConfig>)
    ensures
        seqs::views(r@) == seqs::keep(seqs::views(targets@), other_cidr(cidr@)),
{
    let ghost all = seqs::views(targets@);
    let ghost p = other_cidr(cidr@);
    let mut out: Vec<TargetConfig> = Vec::new();
    let mut i: usize = 0;
    proof {
        assert(seqs::views(out@) =~= seqs::keep(all.take(0), p));
    }
    while i < targets.len()
        invariant
            i <= targets.len(),
            all == seqs::views(targets@),
            p == other_cidr(cidr@),
            seqs::views(out@) == seqs::keep(all.take(i as int), p),
        decreases targets.len() - i,
    {
        proof {
            seqs::lemma_take_next(all, i as int);
            assert(all[i as int] == targets@[i as int]@);
        }
        if !strings::same(targets[i].cidr.as_str(), cidr) {
            push_target(&mut out, targets[i].clone());
        }
        i += 1;
    }
    proof {
        seqs::lemma_take_all(all);
    }
    out
}

fn without_called(targets: &Vec<TargetConfig>, name_or_cidr: &str) -> (r: Vec<TargetConfig>)
    ensures
        seqs::views(r@) == seqs::keep(seqs::views(targets@), not_called(name_or_cidr@)),
{
    let ghost all = seqs::views(targets@);
    let ghost p = not_called(name_or_cidr@);
    let mut out: Vec<TargetConfig> = Vec::new();
    let mut i: usize = 0;
    proof {
        assert(seqs::views(out@) =~= seqs::keep(all.take(0), p));
    }
    while i < targets.len()
        invariant
            i <= targets.len(),
            all == seqs::views(targets@),
            p == not_called(name_or_cidr@),
            seqs::views(out@) == seqs::keep(all.take(i as int), p),
        decreases targets.len() - i,
    {
        proof {
            seqs::lemma_take_next(all, i as int);
            assert(all[i as int] == targets@[i as int]@);
        }
        if !strings::same(targets[i].name.as_str(), name_or_cidr) && !strings::same(
            targets[i].cidr.as_str(),
            name_or_cidr,
        ) {
            push_target(&mut out, targets[i].clone());
        }
        i += 1;
    }
    proof {
        seqs::lemma_take_all(all);
    }
    out
}

fn copy_targets(targets: &Vec<TargetConfig>) -> (r: Vec<TargetConfig>)
    ensures
        seqs::views(r@) == seqs::views(targets@),
{
    let mut out: Vec<TargetConfig> = Vec::new();
    let mut i: usize = 0;
    while i < targets.len()
        invariant
            i <= targets.len(),
            out.len() == i,
            forall|j: int| 0 <= j < i ==> (#[trigger] out@[j])@ == targets@[j]@,
        decreases targets.len() - i,
    {
        out.push(targets[i].clone());
        i += 1;
    }
    proof {
        assert(seqs::views(out@) =~= seqs::views(targets@));
    }
    out
}

/// The state of a daemon that starts.
pub open spec fn fresh(c: ConfigView, found_wan: Option<Seq<char>>) -> DaemonView {
    DaemonView {
        config: c,
        health: Seq::empty(),
        health_config: HealthConfig::standard(),
        default_wan: wan_of(c, found_wan),
    }
}

impl DaemonState {
    /// The state of a daemon that starts.
    pub fn new(config: Config, found_wan: Option<String>) -> (r: DaemonState)
        ensures
            r@ == fresh(config@, seqs::opt_view(found_wan)),
    {
        let default_wan = choose_wan(&config, found_wan);
        DaemonState {
            config,
            health_map: NameMap::new(),
            health_sm: HealthStateMachine::new(HealthConfig::default()),
            default_wan,
        }
    }

    /// What the daemon does about a request.
    pub fn handle(&mut self, request: DaemonRequest, authorized: bool) -> (r: Next)
        ensures
            (final(self)@, r@) == handled(old(self)@, request@, authorized),
    {
        if request.is_mutating() && !authorized {
            return Next::Answer(
                DaemonResponse::Error(
                    "Permission denied: State-mutating commands (apply, reset, shutdown, target add/remove) require root (sudo).".to_owned(),
                ),
            );
        }
        match request {
            DaemonRequest::Ping => Next::Answer(DaemonResponse::Success("pong".to_owned())),
            DaemonRequest::Status => Next::GatherStatus,
            DaemonRequest::Scan => Next::GatherScan,
            DaemonRequest::Explain { target } => Next::Explain(target),
            DaemonRequest::Apply { dry_run, config_toml } => Next::Apply { dry_run, config_toml },
            DaemonRequest::Reset => Next::Reset,
            DaemonRequest::AddTarget(t) => {
                let mut targets = without_cidr(&self.config.targets, t.cidr.as_str());
                push_target(&mut targets, t);
                self.config.targets = targets;
                Next::Answer(DaemonResponse::Success("Target added to active policy".to_owned()))
            },
            DaemonRequest::RemoveTarget { name_or_cidr } => {
                self.config.targets = without_called(
                    &self.config.targets,
                    name_or_cidr.as_str(),
                );
                Next::Answer(DaemonResponse::Success("Target removed from active policy".to_owned()))
            },
            DaemonRequest::ListTargets => Next::Answer(
                DaemonResponse::Targets(copy_targets(&self.config.targets)),
            ),
            DaemonRequest::Reload => Next::Answer(
                DaemonResponse::Success("Daemon reloaded".to_owned()),
            ),
            DaemonRequest::Shutdown => Next::Stop(
                DaemonResponse::Success("Daemon stopping and resetting state".to_owned()),
            ),
        }
    }

    /// Takes over the configuration that came with a request for an application, if one came that
    /// could be read.
    pub fn take_config(&mut self, config: Option<Config>)
        ensures
            final(self)@ == match config {
                Some(c) => (DaemonView { config: c@, ..old(self)@ }),
                None => old(self)@,
            },
    {
        if let Some(c) = config {
            self.config = c;
        }
    }

    /// The answer to a request for an application, by what came of it.
    pub fn answer_apply(o: Result<ReconcileReport, String>) -> (r: DaemonResponse)
        ensures
            r@ == match activation::outcome(o) {
                Ok(report) => ResponseView::Apply(report),
                Err(e) => ResponseView::Error(e),
            },
    {
        match o {
            Ok(report) => DaemonResponse::Apply(report),
            Err(e) => DaemonResponse::Error(e),
        }
    }

    /// The answer to a request for a reset, which goes on whatever fails of it.
    pub fn answer_reset() -> (r: DaemonResponse)
        ensures
            r@ == ResponseView::Success("Routing tables and rules cleared"@),
    {
        DaemonResponse::Success("Routing tables and rules cleared".to_owned())
    }

    /// The answer to what is not a request, by what is wrong with it.
    pub fn answer_invalid(message: &str) -> (r: DaemonResponse)
        ensures
            r@ == ResponseView::Error("Invalid request JSON: "@ + message@),
    {
        DaemonResponse::Error("Invalid request JSON: ".to_owned().concat(message))
    }

    /// The answer to a question for the status.
    pub fn status(&self, kept: &RuntimeState, pid: u32, interface_count: usize) -> (r:
        DaemonResponse)
        ensures
            r@ == ResponseView::Status(
                StatusView {
                    daemon_running: true,
                    pid,
                    allocated_table: kept@.allocated_table,
                    rule_priority: kept@.rule_priority,
                    active_routes: kept@.routes_owned,
                    interface_count: interface_count as nat,
                    default_wan: self@.default_wan,
                    last_reconcile_epoch: kept@.last_reconcile_epoch,
                },
            ),
    {
        DaemonResponse::Status(
            StatusReport {
                daemon_running: true,
                pid,
                allocated_table: kept.allocated_table,
                rule_priority: kept.rule_priority,
                active_routes: model::copy_routes(&kept.routes_owned),
                interface_count,
                default_wan: model::copy_name(&self.default_wan),
                last_reconcile_epoch: kept.last_reconcile_epoch,
            },
        )
    }

    /// The answer to a question for the route of a destination.
    pub fn explain(&self, interfaces: &Vec<Interface>, target: &str) -> (r: DaemonResponse)
        ensures
            r@ == ResponseView::Explain(
                policy::decision(
                    policy::engine_of(
                        self@.config,
                        with_roles(
                            seqs::views(interfaces@),
                            self@.default_wan,
                            Seq::empty(),
                        ),
                        self@.default_wan,
                    ),
                    target@,
                    self@.health,
                ),
            ),
    {
        let none: [String; 0] = [];
        proof {
            assert(seqs::views(none@) =~= Seq::<Seq<char>>::empty());
        }
        let found = classify_all(interfaces, &self.default_wan, &none);
        let engine = PolicyEngine::from_config(
            &self.config,
            found.as_slice(),
            model::copy_name(&self.default_wan),
        );
        DaemonResponse::Explain(engine.decide(target, &self.health_map, &self.health_sm))
    }
}

/// The answer to a request for a scan.
pub fn scan(interfaces: &Vec<Interface>, wan: Option<String>) -> (r: DaemonResponse)
    ensures
        r@ == ResponseView::Scan(
            ScanView {
                interfaces: with_roles(
                    seqs::views(interfaces@),
                    seqs::opt_view(wan),
                    Seq::empty(),
                ),
                default_wan: seqs::opt_view(wan),
            },
        ),
{
    let none: [String; 0] = [];
    proof {
        assert(seqs::views(none@) =~= Seq::<Seq<char>>::empty());
    }
    let found = classify_all(interfaces, &wan, &none);
    DaemonResponse::Scan(ScanReport { interfaces: found, default_wan: wan })
}

/// A peer that may not change things changes nothing, whatever it asks: the daemon stays as it
/// is, and nothing is asked of the host but to gather what it shows.
pub proof fn law_unauthorized_changes_nothing(d: DaemonView, request: RequestView)
    ensures
        handled(d, request, false).0 == d,
        request.mutating() ==> handled(d, request, false).1 == NextView::Answer(
            permission_denied(),
        ),
        !(handled(d, request, false).1 is Apply),
        !(handled(d, request, false).1 is Reset),
        !(handled(d, request, false).1 is Stop),
{
}

/// Adding a target replaces those for the same network: afterwards it is the only one.
pub proof fn law_added_target_is_the_only_one(d: DaemonView, t: TargetView, i: int)
    requires
        0 <= i < handled(d, RequestView::AddTarget(t), true).0.config.targets.len(),
        handled(d, RequestView::AddTarget(t), true).0.config.targets[i].cidr == t.cidr,
    ensures
        i == handled(d, RequestView::AddTarget(t), true).0.config.targets.len() - 1,
        handled(d, RequestView::AddTarget(t), true).0.config.targets[i] == t,
{
    let kept = seqs::keep(d.config.targets, other_cidr(t.cidr));
    seqs::lemma_keep(d.config.targets, other_cidr(t.cidr));
    if i < kept.len() {
        assert(kept.contains(kept[i]));
    }
}

/// Removing a target leaves none of that name or for that network.
pub proof fn law_removed_target_is_gone(d: DaemonView, name_or_cidr: Seq<char>, i: int)
    requires
        0 <= i < handled(
            d,
            RequestView::RemoveTarget { name_or_cidr },
            true,
        ).0.config.targets.len(),
    ensures
        handled(d, RequestView::RemoveTarget { name_or_cidr }, true).0.config.targets[i].name
            != name_or_cidr,
        handled(d, RequestView::RemoveTarget { name_or_cidr }, true).0.config.targets[i].cidr
            != name_or_cidr,
{
    let kept = seqs::keep(d.config.targets, not_called(name_or_cidr));
    seqs::lemma_keep(d.config.targets, not_called(name_or_cidr));
    assert(kept.contains(kept[i]));
}

/// What each request gets of a peer that may change things. Targets that are not concerned stay.
pub proof fn law_what_requests_get(d: DaemonView, t: TargetView, name: Seq<char>, o: TargetView)
    ensures
        handled(d, RequestView::Ping, false) == (
            d,
            NextView::Answer(ResponseView::Success("pong"@)),
        ),
        handled(d, RequestView::ListTargets, false) == (
            d,
            NextView::Answer(ResponseView::Targets(d.config.targets)),
        ),
        handled(d, RequestView::Status, false) == (d, NextView::GatherStatus),
        handled(d, RequestView::Scan, false) == (d, NextView::GatherScan),
        handled(d, RequestView::Explain { target: name }, false) == (d, NextView::Explain(name)),
        handled(d, RequestView::Reset, true) == (d, NextView::Reset),
        handled(d, RequestView::Shutdown, true).0 == d,
        handled(d, RequestView::Shutdown, true).1 is Stop,
        handled(d, RequestView::AddTarget(t), true).0.config.targets.contains(t),
        handled(d, RequestView::AddTarget(t), true).0.config.targets.contains(o) <==> o == t || (
        d.config.targets.contains(o) && o.cidr != t.cidr),
        handled(
            d,
            RequestView::RemoveTarget { name_or_cidr: name },
            true,
        ).0.config.targets.contains(o) <==> d.config.targets.contains(o) && o.name != name && o.cidr
            != name,
        handled(d, RequestView::AddTarget(t), true).0 == (DaemonView {
            config: ConfigView {
                targets: handled(d, RequestView::AddTarget(t), true).0.config.targets,
                ..d.config
            },
            ..d
        }),
{
    seqs::lemma_keep(d.config.targets, other_cidr(t.cidr));
    seqs::lemma_keep(d.config.targets, not_called(name));
    let kept = seqs::keep(d.config.targets, other_cidr(t.cidr));
    let all = kept.push(t);
    assert(all[all.len() - 1] == t);
    if kept.contains(o) {
        let i = choose|i: int| 0 <= i < kept.len() && kept[i] == o;
        assert(all[i] == o);
    }
    if all.contains(o) && o != t {
        let i = choose|i: int| 0 <= i < all.len() && all[i] == o;
        assert(kept[i] == o);
    }
}

/// A request to apply is handed on as it is, whatever the configuration, and which requests need
/// permission.
pub proof fn law_which_requests_need_permission(
    d: DaemonView,
    request: RequestView,
    dry_run: bool,
    config_toml: Option<Seq<char>>,
)
    ensures
        handled(d, RequestView::Apply { dry_run, config_toml }, true) == (
            d,
            NextView::Apply { dry_run, config_toml },
        ),
        (request is Apply || request is Reset || request is AddTarget || request is RemoveTarget
            || request is Shutdown) ==> handled(d, request, false).0 == d && (handled(
            d,
            request,
            false,
        ).1 matches NextView::Answer(ResponseView::Error(_))),
{
}

/// The WAN interface is the first that the configuration names, unless that is `auto`: then it is
/// the one that was found. Giving interfaces their roles changes nothing else of them.
pub proof fn law_wan_and_roles(
    c: ConfigView,
    found: Option<Seq<char>>,
    s: Seq<InterfaceView>,
    explicit: Seq<Seq<char>>,
    i: int,
)
    ensures
        c.wan.len() > 0 && c.wan[0] != "auto"@ ==> wan_of(c, found) == Some(c.wan[0]),
        c.wan.len() == 0 || c.wan[0] == "auto"@ ==> wan_of(c, found) == found,
        with_roles(s, found, explicit).len() == s.len(),
        0 <= i < s.len() ==> with_roles(s, found, explicit)[i] == (InterfaceView {
            role: classifier::role_of(s[i], found, explicit),
            ..s[i]
        }),
{
}

} // verus!
