//! What clients ask of the daemon, and what it answers.

use vstd::prelude::*;
use crate::config::{TargetConfig, TargetView};
use crate::model::{Decision, DecisionView, Interface, InterfaceView, Route, RouteView};
use crate::reconcile::{ReconcileReport, ReportView};
use crate::seqs;
use crate::strings;
use crate::text;

verus! {

pub enum DaemonRequest {
    Ping,
    Status,
    Scan,
    Explain { target: String },
    Apply { dry_run: bool, config_toml: Option<String> },
    Reset,
    AddTarget(TargetConfig),
    RemoveTarget { name_or_cidr: String },
    ListTargets,
    Reload,
    Shutdown,
}

/// The value of a `DaemonRequest` in specifications.
pub enum RequestView {
    Ping,
    Status,
    Scan,
    Explain { target: Seq<char> },
    Apply { dry_run: bool, config_toml: Option<Seq<char>> },
    Reset,
    AddTarget(TargetView),
    RemoveTarget { name_or_cidr: Seq<char> },
    ListTargets,
    Reload,
    Shutdown,
}

impl View for DaemonRequest {
    type V = RequestView;

    open spec fn view(&self) -> RequestView {
        match self {
            DaemonRequest::Ping => RequestView::Ping,
            DaemonRequest::Status => RequestView::Status,
            DaemonRequest::Scan => RequestView::Scan,
            DaemonRequest::Explain { target } => RequestView::Explain { target: target@ },
            DaemonRequest::Apply { dry_run, config_toml } => RequestView::Apply {
                dry_run: *dry_run,
                config_toml: seqs::opt_view(*config_toml),
            },
            DaemonRequest::Reset => RequestView::Reset,
            DaemonRequest::AddTarget(t) => RequestView::AddTarget(t@),
            DaemonRequest::RemoveTarget { name_or_cidr } => RequestView::RemoveTarget {
                name_or_cidr: name_or_cidr@,
            },
            DaemonRequest::ListTargets => RequestView::ListTargets,
            DaemonRequest::Reload => RequestView::Reload,
            DaemonRequest::Shutdown => RequestView::Shutdown,
        }
    }
}

impl RequestView {
    /// Whether a request changes the state of the daemon or of the host.
    pub open spec fn mutating(self) -> bool {
        self is Apply || self is Reset || self is AddTarget || self is RemoveTarget
            || self is Shutdown
    }
}

impl DaemonRequest {
    /// Whether the request changes the state of the daemon or of the host.
    pub fn is_mutating(&self) -> (r: bool)
        ensures
            r == self@.mutating(),
    {
        match self {
            DaemonRequest::Apply { .. } => true,
            DaemonRequest::Reset => true,
            DaemonRequest::AddTarget(_) => true,
            DaemonRequest::RemoveTarget { .. } => true,
            DaemonRequest::Shutdown => true,
            _ => false,
        }
    }
}

pub struct StatusReport {
    pub daemon_running: bool,
    pub pid: u32,
    pub allocated_table: u32,
    pub rule_priority: u32,
    pub active_routes: Vec<Route>,
    pub interface_count: usize,
    pub default_wan: Option<String>,
    pub last_reconcile_epoch: u64,
}

/// The value of a `StatusReport` in specifications.
#[verifier::ext_equal]
pub struct StatusView {
    pub daemon_running: bool,
    pub pid: u32,
    pub allocated_table: u32,
    pub rule_priority: u32,
    pub active_routes: Seq<RouteView>,
    pub interface_count: nat,
    pub default_wan: Option<Seq<char>>,
    pub last_reconcile_epoch: u64,
}

impl View for StatusReport {
    type V = StatusView;

    open spec fn view(&self) -> StatusView {
        StatusView {
            daemon_running: self.daemon_running,
            pid: self.pid,
            allocated_table: self.allocated_table,
            rule_priority: self.rule_priority,
            active_routes: seqs::views(self.active_routes@),
            interface_count: self.interface_count as nat,
            default_wan: seqs::opt_view(self.default_wan),
            last_reconcile_epoch: self.last_reconcile_epoch,
        }
    }
}

pub struct ScanReport {
    pub interfaces: Vec<Interface>,
    pub default_wan: Option<String>,
}

/// The value of a `ScanReport` in specifications.
#[verifier::ext_equal]
pub struct ScanView {
    pub interfaces: Seq<InterfaceView>,
    pub default_wan: Option<Seq<char>>,
}

impl View for ScanReport {
    type V = ScanView;

    open spec fn view(&self) -> ScanView {
        ScanView {
            interfaces: seqs::views(self.interfaces@),
            default_wan: seqs::opt_view(self.default_wan),
        }
    }
}

pub enum DaemonResponse {
    Success(String),
    Status(StatusReport),
    Scan(ScanReport),
    Explain(Decision),
    Apply(ReconcileReport),
    Targets(Vec<TargetConfig>),
    Error(String),
}

/// The value of a `DaemonResponse` in specifications.
pub enum ResponseView {
    Success(Seq<char>),
    Status(StatusView),
    Scan(ScanView),
    Explain(DecisionView),
    Apply(ReportView),
    Targets(Seq<TargetView>),
    Error(Seq<char>),
}

impl View for DaemonResponse {
    type V = ResponseView;

    open spec fn view(&self) -> ResponseView {
        match self {
            DaemonResponse::Success(s) => ResponseView::Success(s@),
            DaemonResponse::Status(s) => ResponseView::Status(s@),
            DaemonResponse::Scan(s) => ResponseView::Scan(s@),
            DaemonResponse::Explain(d) => ResponseView::Explain(d@),
            DaemonResponse::Apply(r) => ResponseView::Apply(r@),
            DaemonResponse::Targets(ts) => ResponseView::Targets(seqs::views(ts@)),
            DaemonResponse::Error(s) => ResponseView::Error(s@),
        }
    }
}

impl DaemonResponse {
    /// Whether this answers a ping.
    pub fn is_pong(&self) -> (r: bool)
        ensures
            r == (self@ == ResponseView::Success("pong"@)),
    {
        match self {
            DaemonResponse::Success(s) => crate::strings::same(s.as_str(), "pong"),
            _ => false,
        }
    }
}

/// Whether a peer may change things: it is root, or the user that the daemon runs as.
pub fn is_authorized(peer_uid: Option<u32>, own_uid: u32) -> (r: bool)
    ensures
        r == (peer_uid == Some(0u32) || peer_uid == Some(own_uid)),
{
    match peer_uid {
        Some(uid) => uid == 0 || uid == own_uid,
        None => false,
    }
}

/// Where the daemon listens: in the directory of the system if the process is root and the
/// directory is there, in a temporary one otherwise.
pub open spec fn socket_path_of(run_exists: bool, is_root: bool) -> Seq<char> {
    if run_exists && is_root {
        "/run/reverse-tool/reversed.sock"@
    } else {
        "/tmp/reverse-tool/reversed.sock"@
    }
}

/// Where the daemon listens.
pub fn default_socket_path(run_exists: bool, is_root: bool) -> (r: &'static str)
    ensures
        r@ == socket_path_of(run_exists, is_root),
{
    if run_exists && is_root {
        "/run/reverse-tool/reversed.sock"
    } else {
        "/tmp/reverse-tool/reversed.sock"
    }
}

/// Where a configuration is saved: in the directory of the system if the process is root and the
/// directory is there, in the current one otherwise.
pub fn default_config_path(etc_exists: bool, is_root: bool) -> (r: &'static str)
    ensures
        r@ == if etc_exists && is_root {
            "/etc/reverse-tool/config.toml"@
        } else {
            "config.toml"@
        },
{
    if etc_exists && is_root {
        "/etc/reverse-tool/config.toml"
    } else {
        "config.toml"
    }
}

/// Where the daemon writes the number of its process.
pub fn default_pid_path(run_exists: bool, is_root: bool) -> (r: &'static str)
    ensures
        r@ == if run_exists && is_root {
            "/run/reverse-tool/reversed.pid"@
        } else {
            "/tmp/reverse-tool/reversed.pid"@
        },
{
    if run_exists && is_root {
        "/run/reverse-tool/reversed.pid"
    } else {
        "/tmp/reverse-tool/reversed.pid"
    }
}

/// Where the daemon writes its log.
pub fn default_log_path(log_exists: bool, run_exists: bool, is_root: bool) -> (r: &'static str)
    ensures
        r@ == if log_exists && is_root {
            "/var/log/reversed.log"@
        } else if run_exists && is_root {
            "/run/reverse-tool/reversed.log"@
        } else {
            "/tmp/reverse-tool/reversed.log"@
        },
{
    if log_exists && is_root {
        "/var/log/reversed.log"
    } else if run_exists && is_root {
        "/run/reverse-tool/reversed.log"
    } else {
        "/tmp/reverse-tool/reversed.log"
    }
}

/// A client of the daemon.
pub struct DaemonClient {
    socket_path: String,
}

impl DaemonClient {
    pub closed spec fn socket(&self) -> Seq<char> {
        self.socket_path@
    }

    /// A client of the daemon that listens at the given place or, if none is given, at the
    /// standard one.
    pub fn new(custom_socket: Option<String>, run_exists: bool, is_root: bool) -> (r: DaemonClient)
        ensures
            r.socket() == match custom_socket {
                Some(s) => s@,
                None => socket_path_of(run_exists, is_root),
            },
    {
        match custom_socket {
            Some(s) => DaemonClient { socket_path: s },
            None => DaemonClient {
                socket_path: default_socket_path(run_exists, is_root).to_owned(),
            },
        }
    }

    /// Where the daemon listens.
    pub fn socket_path(&self) -> (r: &str)
        ensures
            r@ == self.socket(),
    {
        self.socket_path.as_str()
    }
}

/// The process that a file names.
pub fn parse_pid(content: &str) -> (r: Option<u32>)
    ensures
        match r {
            Some(pid) => text::number(text::trim(content@), 10, u32::MAX as int) == Some(
                pid as int,
            ),
            None => text::number(text::trim(content@), 10, u32::MAX as int) is None,
        },
{
    strings::parse_u32(strings::trim(content))
}

} // verus!
