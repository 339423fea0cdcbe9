use reverse_tool::activation::{lan_names, ApplyAction, ApplyEvent, ReversedDaemon};
use reverse_tool::apply::{
    assume_health, direct_decision, direct_state, interfaces_to_probe, Tick,
};
use reverse_tool::capture::{
    check_capture, parse_connect_trace, promote, report_capture, sanitize_label, sort_endpoints,
};
use reverse_tool::config::{Config, NetworkConfig, OperatingMode, TargetConfig};
use reverse_tool::daemon::{choose_wan, classify_all, scan, DaemonState, Next};
use reverse_tool::display::{
    show_checks, show_decision, show_detected, show_interfaces, show_network, show_range,
    show_report, show_saved_state, show_status, show_targets,
};
use reverse_tool::detector::DetectedLanProfile;
use reverse_tool::doctor::run_doctor;
use reverse_tool::error::{CoreError, LinuxError};
use reverse_tool::health::HealthStateMachine;
use reverse_tool::lifecycle::{LifeAction, LifeEvent, Lifecycle, Phase};
use reverse_tool::model::{
    DesiredState, HealthState, Interface, InterfaceRole, PathHealth, Route, RouteType, RpdbRule,
    RuleSource, StateDiff,
};
use reverse_tool::names::NameMap;
use reverse_tool::net::{IpAddr, IpNet};
use reverse_tool::reconcile::{
    Action, Event, ReconcileReport, ReconcileSession, Reconciler, ResetAction,
};
use reverse_tool::rpc::{
    default_config_path, default_log_path, default_pid_path, default_socket_path, is_authorized,
    parse_pid, DaemonClient, DaemonRequest, DaemonResponse,
};
use reverse_tool::state::{RuntimeState, StateManager};

fn ip(s: &str) -> IpAddr {
    IpAddr::parse(s).unwrap()
}

fn net(s: &str) -> IpNet {
    IpNet::parse(s).unwrap()
}

fn iface(index: u32, name: &str, addr: &str, gateway: Option<&str>, role: InterfaceRole) -> Interface {
    Interface {
        index,
        name: name.into(),
        is_up: true,
        has_carrier: true,
        is_loopback: name == "lo",
        mtu: 1500,
        mac: None,
        ip_addrs: vec![net(addr)],
        gateway: gateway.map(ip),
        role,
    }
}

fn host() -> Vec<Interface> {
    vec![
        iface(2, "wlan0", "192.168.1.10/24", Some("192.168.1.1"), InterfaceRole::Unknown),
        iface(3, "eth0", "10.0.0.2/24", None, InterfaceRole::Unknown),
    ]
}

fn target(name: &str, cidr: &str, via: &str) -> TargetConfig {
    TargetConfig {
        name: name.into(),
        cidr: cidr.into(),
        port: None,
        via: vec![via.into()],
        fallback: "drop".into(),
    }
}

fn route(destination: &str, output_interface: &str) -> Route {
    Route {
        destination: net(destination),
        output_interface: output_interface.into(),
        gateway: None,
        table: 52000,
        metric: None,
        route_type: RouteType::Unicast,
    }
}

/// A strict configuration: one target and one domain with a local address, both on the LAN.
fn strict_config() -> Config {
    let mut cfg = Config {
        mode: OperatingMode::Manual,
        lan_interfaces: vec!["eth0".into()],
        lan_domains: vec!["server.lab".into()],
        ..Default::default()
    };
    cfg.wan.interfaces = vec!["wlan0".into()];
    cfg.targets.push(target("lab", "10.0.0.0/24", "eth0"));
    cfg.local_dns.insert("server.lab".into(), vec![ip("10.0.0.77")]);
    cfg
}

fn no_diff() -> StateDiff {
    StateDiff::default()
}

fn report(applied: bool) -> ReconcileReport {
    ReconcileReport {
        diff: no_diff(),
        dry_run: false,
        applied,
        verified: applied,
        rolled_back: false,
        error: None,
    }
}

// ---------------------------------------------------------------------------------------------
// Capture
// ---------------------------------------------------------------------------------------------
#[test]
fn parses_ipv4_and_ipv6_connect_metadata_only() {
    let trace = r#"connect(3, {sa_family=AF_INET, sin_port=htons(443), sin_addr=inet_addr("203.0.113.10")}, 16) = 0
[pid 42] connect(4, {sa_family=AF_INET6, sin6_port=htons(443), sin6_addr=inet_pton(AF_INET6, "2001:db8::10")}, 28) = 0
sendto(3, "Authorization: Bearer secret", 30, 0, NULL, 0) = 30"#;
    let parsed = parse_connect_trace("codex", trace, 10);
    assert_eq!(parsed.len(), 2);
    assert_eq!(parsed[0].ip, ip("203.0.113.10"));
    assert_eq!(parsed[1].ip, ip("2001:db8::10"));
    assert!(parsed.iter().all(|e| e.port == 443));
    assert_eq!(parsed[0].pid, None);
    assert_eq!(parsed[1].pid, Some(42));
    assert!(parsed.iter().all(|e| e.label == "codex" && e.timestamp_secs == 10));
}

fn connect_line(addr: &str, port: u16) -> String {
    format!(
        "connect(3, {{sa_family=AF_INET, sin_port=htons({}), sin_addr=inet_addr(\"{}\")}}, 16) = 0\n",
        port, addr
    )
}

#[test]
fn a_report_lists_each_endpoint_once_in_order() {
    let trace = connect_line("203.0.113.10", 443)
        + &connect_line("198.51.100.1", 80)
        + &connect_line("203.0.113.10", 443)
        + &connect_line("203.0.113.10", 80);
    let report = report_capture("agent", &trace, 7, true);
    assert!(report.timed_out);
    let seen: Vec<(IpAddr, u16)> = report.endpoints.iter().map(|e| (e.ip, e.port)).collect();
    assert_eq!(
        seen,
        vec![(ip("198.51.100.1"), 80), (ip("203.0.113.10"), 80), (ip("203.0.113.10"), 443)]
    );
    assert_eq!(sort_endpoints(&report.endpoints), report.endpoints);
}

#[test]
fn promotion_appends_what_is_missing() {
    let trace = connect_line("203.0.113.10", 443) + &connect_line("198.51.100.1", 80);
    let report = report_capture("agent", &trace, 7, false);
    let list = promote(&report, "# mine\n 203.0.113.10/32 \n");
    assert_eq!(list, "# mine\n 203.0.113.10/32 \n198.51.100.1/32\n");
    assert_eq!(promote(&report, &list), list);
}

#[test]
fn promotion_repeats_no_address() {
    let trace = connect_line("203.0.113.10", 443) + &connect_line("203.0.113.10", 80);
    let report = report_capture("agent", &trace, 7, false);
    assert_eq!(report.endpoints.len(), 2);
    let list = promote(&report, "");
    assert_eq!(list, "203.0.113.10/32\n");
    assert_eq!(promote(&report, &list), list);
}

#[test]
fn a_capture_needs_a_command_and_a_duration() {
    assert_eq!(check_capture(&vec![], 5).unwrap_err(), "capture requires a command after `--`");
    assert_eq!(
        check_capture(&vec!["ls".into()], 0).unwrap_err(),
        "capture duration must be greater than zero"
    );
    assert!(check_capture(&vec!["ls".into()], 1).is_ok());
    assert_eq!(sanitize_label("my agent/1-a"), "my_agent_1-a");
    assert_eq!(sanitize_label(""), "agent");
}

// ---------------------------------------------------------------------------------------------
// State and reconciliation
// ---------------------------------------------------------------------------------------------
#[test]
fn test_state_save_and_load() {
    let manager = StateManager::with_path("/tmp/reverse-tool-test/state.json");
    let state = RuntimeState { allocated_table: 52005, generation: 42, ..Default::default() };

    let loaded = manager.load(Some(Ok(state))).unwrap();
    assert_eq!(loaded.allocated_table, 52005);
    assert_eq!(loaded.generation, 42);
}

#[test]
fn a_missing_state_is_a_fresh_one_and_a_bad_one_an_error() {
    let manager = StateManager::with_path("/tmp/state.json");
    assert_eq!(manager.state_file_path(), "/tmp/state.json");
    let fresh = manager.load(None).unwrap();
    assert_eq!((fresh.allocated_table, fresh.rule_priority, fresh.generation), (52000, 12000, 1));
    assert_eq!(
        manager.load(Some(Err("bad json".into()))).unwrap_err(),
        LinuxError::Core(CoreError::Serialization("bad json".into()))
    );
    assert_eq!(
        StateManager::new(true, true).state_file_path(),
        "/run/reverse-tool/state.json"
    );
    assert_eq!(
        StateManager::new(true, false).state_file_path(),
        "/tmp/reverse-tool/state.json"
    );
}

fn reconciler() -> Reconciler {
    Reconciler::new(StateManager::with_path("/tmp/state.json"))
}

#[test]
fn test_reset_without_state_file_does_not_error() {
    let plan = reconciler().reset(false, None);
    assert!(matches!(plan[0], ResetAction::CleanFilters));
    assert!(plan
        .iter()
        .any(|a| matches!(a, ResetAction::RemoveRule(RpdbRule { priority: 12000, table: 52000 }))));
    assert!(plan.iter().any(|a| matches!(a, ResetAction::FlushTable(52000))));
    assert!(!plan.iter().any(|a| matches!(a, ResetAction::ClearState)));
}

#[test]
fn reset_takes_away_what_is_owned() {
    let state = RuntimeState {
        routes_owned: vec![route("10.0.0.0/24", "eth0")],
        rules_owned: vec![RpdbRule { priority: 12001, table: 52001 }],
        ..Default::default()
    };
    let plan = reconciler().reset(true, Some(&state));
    assert!(matches!(&plan[1], ResetAction::DeleteRoute(r) if r.output_interface == "eth0"));
    assert!(matches!(&plan[2], ResetAction::RemoveRule(r) if r.priority == 12001));
    assert!(plan.iter().any(|a| matches!(a, ResetAction::ClearState)));
}

fn wanted() -> DesiredState {
    DesiredState {
        routes: vec![route("10.0.0.0/24", "eth0")],
        rules: vec![RpdbRule { priority: 12000, table: 52000 }],
        lan_interfaces: vec!["eth0".into()],
        wan_interface: Some("wlan0".into()),
        firewall_whitelist: vec![("eth0".into(), "10.0.0.0/24".into(), None)],
        ..Default::default()
    }
}

/// Plays a host that does as it is told, but fails to add the route if asked to.
fn play(mut session: ReconcileSession, table: Vec<Route>, fail: bool) -> (Vec<Action>, ReconcileReport) {
    let mut actions = vec![];
    while let Some(action) = session.action() {
        let event = match &action {
            Action::AskDefaultRoute(_) => Event::Answer(true),
            Action::FindWan => Event::Wan(None),
            Action::ShowTable(_) => Event::Routes(table.clone(), 1000),
            Action::AddRoute(_) if fail => Event::Failed(LinuxError::Netlink("no".into())),
            _ => Event::Done,
        };
        session.advance(event);
        actions.push(action);
        assert!(actions.len() < 100);
    }
    (actions, session.result().unwrap().unwrap())
}

#[test]
fn a_reconciliation_filters_first_and_verifies_last() {
    let desired = wanted();
    let state = RuntimeState::default();
    let session = reconciler().reconcile(&desired, false, &state).unwrap();
    let (actions, rep) = play(session, vec![route("10.0.0.0/24", "eth0")], false);
    assert!(rep.applied && rep.verified && !rep.rolled_back && rep.error.is_none());
    let filter = actions.iter().position(|a| matches!(a, Action::Filter { .. })).unwrap();
    let rule = actions.iter().position(|a| matches!(a, Action::EnsureRule(_))).unwrap();
    let add = actions.iter().position(|a| matches!(a, Action::AddRoute(_))).unwrap();
    let show = actions.iter().position(|a| matches!(a, Action::ShowTable(52000))).unwrap();
    assert!(filter < rule && rule < add && add < show);
    let Some(Action::Save(saved)) = actions.last() else { panic!("nothing saved") };
    assert_eq!(saved.generation, 2);
    assert_eq!(saved.last_reconcile_epoch, 1000);
    assert_eq!(saved.firewall_interfaces, vec!["eth0"]);

    let again = reconciler().reconcile(&desired, false, saved).unwrap();
    assert!(again.action().is_none());
}

#[test]
fn only_work_needs_another_generation() {
    let state = RuntimeState { generation: u64::MAX, ..Default::default() };
    assert!(reconciler().has_work(&wanted(), &state));
    let session = reconciler().reconcile(&wanted(), true, &state).unwrap();
    assert!(session.action().is_none());
    assert_eq!(session.result().unwrap().unwrap().diff.routes_to_add.len(), 1);

    let nothing = DesiredState::default();
    assert!(!reconciler().has_work(&nothing, &state));
    let session = reconciler().reconcile(&nothing, false, &state).unwrap();
    assert!(session.action().is_none());
    assert!(session.result().unwrap().unwrap().verified);

    let everything = DesiredState { routes: vec![route("0.0.0.0/0", "eth0")], ..wanted() };
    assert!(!reconciler().has_work(&everything, &state));
    assert!(reconciler().reconcile(&everything, false, &state).is_err());
}

#[test]
fn a_failed_route_is_rolled_back() {
    let state = RuntimeState {
        routes_owned: vec![route("10.9.0.0/24", "eth0")],
        ..Default::default()
    };
    let session = reconciler().reconcile(&wanted(), false, &state).unwrap();
    let (actions, rep) = play(session, vec![], true);
    assert!(rep.rolled_back && !rep.verified);
    assert!(rep.error.is_some());
    let deleted = actions.iter().position(|a| matches!(a, Action::DeleteRoute(r) if r.destination == net("10.0.0.0/24"))).unwrap();
    let restored = actions.iter().position(|a| matches!(a, Action::AddRoute(r) if r.destination == net("10.9.0.0/24"))).unwrap();
    assert!(deleted < restored);
    assert!(!actions.iter().any(|a| matches!(a, Action::Save(_))));
    let undo = reconciler().rollback(&rep.diff, &state);
    assert_eq!(undo.len(), 2);
}

#[test]
fn a_route_that_the_table_does_not_show_is_not_verified() {
    let session = reconciler().reconcile(&wanted(), false, &RuntimeState::default()).unwrap();
    let (_, rep) = play(session, vec![], false);
    assert!(!rep.verified && rep.rolled_back);
}

#[test]
fn a_dry_run_asks_nothing_of_the_host() {
    let session = reconciler().reconcile(&wanted(), true, &RuntimeState::default()).unwrap();
    assert!(session.action().is_none());
    let rep = session.result().unwrap().unwrap();
    assert!(rep.dry_run && !rep.applied);
    assert_eq!(rep.diff.routes_to_add.len(), 1);
    let plan = reconciler().plan(&wanted(), &RuntimeState::default()).unwrap();
    assert_eq!(plan.routes_to_add.len(), 1);
}

#[test]
fn a_default_route_is_never_reconciled() {
    let mut desired = wanted();
    desired.routes = vec![route("0.0.0.0/0", "eth0")];
    let Err(error) = reconciler().reconcile(&desired, false, &RuntimeState::default()) else {
        panic!("accepted")
    };
    assert!(error.to_string().contains("Safety violation"));
}

// ---------------------------------------------------------------------------------------------
// Requests
// ---------------------------------------------------------------------------------------------
fn daemon() -> DaemonState {
    DaemonState::new(strict_config(), Some("eth9".into()))
}

fn said(next: Next) -> String {
    match next {
        Next::Answer(DaemonResponse::Success(s)) => s,
        Next::Answer(DaemonResponse::Error(s)) => s,
        Next::Stop(DaemonResponse::Success(s)) => s,
        _ => panic!("no answer"),
    }
}

#[test]
fn only_root_and_the_owner_change_things() {
    assert!(is_authorized(Some(0), 1000));
    assert!(is_authorized(Some(1000), 1000));
    assert!(!is_authorized(Some(1001), 1000));
    assert!(!is_authorized(None, 1000));
    let mut d = daemon();
    for request in [
        DaemonRequest::Apply { dry_run: false, config_toml: None },
        DaemonRequest::Reset,
        DaemonRequest::AddTarget(target("x", "10.1.0.0/16", "eth0")),
        DaemonRequest::RemoveTarget { name_or_cidr: "lab".into() },
        DaemonRequest::Shutdown,
    ] {
        assert!(said(d.handle(request, false)).starts_with("Permission denied"));
    }
    assert_eq!(d.config.targets.len(), 1);
}

#[test]
fn outcomes_are_answered() {
    let mut d = daemon();
    d.take_config(None);
    assert_eq!(d.config.lan_domains, vec!["server.lab"]);
    d.take_config(Some(Config::default()));
    assert!(d.config.lan_domains.is_empty());
    assert_eq!(d.default_wan, Some("wlan0".into()));
    assert!(matches!(
        DaemonState::answer_apply(Ok(report(true))),
        DaemonResponse::Apply(r) if r.applied && r.verified
    ));
    assert!(matches!(
        DaemonState::answer_apply(Err("no".into())),
        DaemonResponse::Error(e) if e == "no"
    ));
    assert!(matches!(
        DaemonState::answer_reset(),
        DaemonResponse::Success(s) if s == "Routing tables and rules cleared"
    ));
    assert!(matches!(
        DaemonState::answer_invalid("EOF"),
        DaemonResponse::Error(e) if e == "Invalid request JSON: EOF"
    ));
}

#[test]
fn requests_are_answered_or_handed_on() {
    let mut d = daemon();
    assert_eq!(said(d.handle(DaemonRequest::Ping, false)), "pong");
    assert_eq!(said(d.handle(DaemonRequest::Reload, false)), "Daemon reloaded");
    assert!(matches!(d.handle(DaemonRequest::Status, false), Next::GatherStatus));
    assert!(matches!(d.handle(DaemonRequest::Scan, false), Next::GatherScan));
    assert!(matches!(d.handle(DaemonRequest::Reset, true), Next::Reset));
    assert!(matches!(
        d.handle(DaemonRequest::Apply { dry_run: true, config_toml: None }, true),
        Next::Apply { dry_run: true, config_toml: None }
    ));
    assert_eq!(
        said(d.handle(DaemonRequest::Shutdown, true)),
        "Daemon stopping and resetting state"
    );
}

#[test]
fn an_added_target_replaces_those_for_its_network() {
    let mut d = daemon();
    let added = d.handle(DaemonRequest::AddTarget(target("new", "10.0.0.0/24", "eth1")), true);
    assert_eq!(said(added), "Target added to active policy");
    assert_eq!(d.config.targets.len(), 1);
    assert_eq!(d.config.targets[0].name, "new");
    let removed = d.handle(DaemonRequest::RemoveTarget { name_or_cidr: "new".into() }, true);
    assert_eq!(said(removed), "Target removed from active policy");
    assert!(d.config.targets.is_empty());
    let Next::Answer(DaemonResponse::Targets(list)) = d.handle(DaemonRequest::ListTargets, false)
    else {
        panic!("no list")
    };
    assert!(list.is_empty());
}

#[test]
fn the_configured_wan_is_taken_unless_it_is_auto() {
    assert_eq!(daemon().default_wan, Some("wlan0".into()));
    let mut cfg = Config::default();
    cfg.wan.interfaces = vec!["auto".into()];
    assert_eq!(choose_wan(&cfg, Some("eth9".into())), Some("eth9".into()));
    assert_eq!(choose_wan(&cfg, None), None);
}

#[test]
fn status_scan_and_explanation_tell_what_is_there() {
    let d = daemon();
    let kept = RuntimeState {
        routes_owned: vec![route("10.0.0.0/24", "eth0")],
        ..Default::default()
    };
    let DaemonResponse::Status(status) = d.status(&kept, 4711, 2) else { panic!("no status") };
    assert!(status.daemon_running);
    assert_eq!((status.pid, status.interface_count), (4711, 2));
    assert_eq!(status.active_routes.len(), 1);
    let DaemonResponse::Scan(found) = scan(&host(), Some("wlan0".into())) else {
        panic!("no scan")
    };
    assert_eq!(found.interfaces[0].role, InterfaceRole::Wan);
    assert_eq!(found.interfaces[1].role, InterfaceRole::Lan);
    let DaemonResponse::Explain(dec) = d.explain(&host(), "10.0.0.9") else {
        panic!("no explanation")
    };
    assert_eq!(dec.rule_source, RuleSource::ManualCidr);
    assert_eq!(dec.selected_interface, None);
}

#[test]
fn the_places_of_the_daemon_depend_on_the_user() {
    assert_eq!(default_socket_path(true, true), "/run/reverse-tool/reversed.sock");
    assert_eq!(default_socket_path(true, false), "/tmp/reverse-tool/reversed.sock");
    assert_eq!(default_config_path(true, true), "/etc/reverse-tool/config.toml");
    assert_eq!(default_config_path(true, false), "config.toml");
    assert_eq!(default_config_path(false, true), "config.toml");
    assert_eq!(default_pid_path(true, true), "/run/reverse-tool/reversed.pid");
    assert_eq!(default_pid_path(false, true), "/tmp/reverse-tool/reversed.pid");
    assert_eq!(default_log_path(true, true, true), "/var/log/reversed.log");
    assert_eq!(default_log_path(false, true, true), "/run/reverse-tool/reversed.log");
    assert_eq!(default_log_path(true, true, false), "/tmp/reverse-tool/reversed.log");
    assert_eq!(DaemonClient::new(Some("/x".into()), true, true).socket_path(), "/x");
    assert_eq!(
        DaemonClient::new(None, false, true).socket_path(),
        "/tmp/reverse-tool/reversed.sock"
    );
    assert!(DaemonResponse::Success("pong".into()).is_pong());
    assert!(!DaemonResponse::Error("pong".into()).is_pong());
    assert_eq!(parse_pid(" 4711\n"), Some(4711));
    assert_eq!(parse_pid("none"), None);
    assert_eq!(parse_pid("4294967296"), None);
}

// ---------------------------------------------------------------------------------------------
// Probes
// ---------------------------------------------------------------------------------------------
#[test]
fn the_interfaces_of_networks_and_targets_are_probed() {
    let mut cfg = strict_config();
    cfg.networks.push(NetworkConfig {
        name: "lab".into(),
        role: "lan".into(),
        interfaces: vec!["wlan1".into(), "eth0".into()],
        auto_subnets: false,
        preferred: vec![],
        domains: vec![],
        dns: vec![],
    });
    assert_eq!(interfaces_to_probe(&cfg), vec!["eth0", "wlan1"]);
}

#[test]
fn a_path_that_comes_or_goes_has_the_policy_applied() {
    let mut d = daemon();
    let up = vec![("eth0".to_string(), true)];
    assert!(d.has_room_for(&up));
    let gone = vec![("eth0".to_string(), false)];
    assert!(matches!(d.tick(&up, 1), Tick::Apply));
    assert!(matches!(d.tick(&up, 2), Tick::Guard(v) if v == vec!["eth0"]));
    assert!(matches!(d.tick(&gone, 3), Tick::Guard(_)));
    assert!(matches!(d.tick(&gone, 4), Tick::Guard(_)));
    assert!(matches!(d.tick(&gone, 5), Tick::Apply));
    assert_eq!(d.health_map.get("eth0").unwrap().state, HealthState::Degraded);
    assert_eq!(d.health_map.get("eth0").unwrap().last_check_epoch_secs, 5);
    assert!(!d.record_probes(&gone, 6));
    assert_eq!(d.health_map.get("eth0").unwrap().state, HealthState::Down);
}

#[test]
fn counters_that_are_full_leave_no_room() {
    let mut d = daemon();
    let full = PathHealth { consecutive_failures: u32::MAX, ..Default::default() };
    d.health_map.insert("eth0".into(), full);
    let of = |names: &[&str]| -> Vec<(String, bool)> {
        names.iter().map(|n| (n.to_string(), true)).collect()
    };
    assert!(d.has_room_for(&of(&[])));
    assert!(!d.has_room_for(&of(&["eth0"])));
    let nearly = PathHealth { consecutive_failures: u32::MAX - 1, ..Default::default() };
    d.health_map.insert("eth0".into(), nearly);
    assert!(d.has_room_for(&of(&["eth0", "wlan0", "wlan0", "wlan1"])));
    assert!(!d.has_room_for(&of(&["eth0", "wlan0", "eth0"])));
    d.record_probes(&of(&["eth0", "wlan0", "wlan0"]), 7);
    assert_eq!(d.health_map.get("wlan0").unwrap().consecutive_successes, 2);
}

#[test]
fn without_a_normal_path_nothing_is_guarded() {
    let mut d = daemon();
    assert_eq!(d.guard_interfaces(), vec!["eth0"]);
    d.default_wan = Some("eth0".into());
    assert!(d.guard_interfaces().is_empty());
    d.default_wan = None;
    d.config.wan.interfaces.clear();
    assert!(d.guard_interfaces().is_empty());
}

#[test]
fn a_daemon_starts_applies_and_takes_everything_away() {
    let mut life = Lifecycle::new(daemon());
    assert!(life.on(LifeEvent::Stop).is_empty());
    let started = life.on(LifeEvent::Start { leftover: true });
    assert!(matches!(
        started.as_slice(),
        [LifeAction::Reset, LifeAction::Listen, LifeAction::Apply]
    ));
    let probes = || LifeEvent::Probed { probes: vec![("eth0".to_string(), true)], now: 1 };
    assert!(matches!(life.on(probes()).as_slice(), [LifeAction::Apply]));
    assert!(matches!(life.on(probes()).as_slice(), [LifeAction::Guard(v)] if *v == vec!["eth0"]));
    let stopped = life.on(LifeEvent::Stop);
    assert!(matches!(
        stopped.as_slice(),
        [LifeAction::EndProbes, LifeAction::Reset, LifeAction::RemoveFiles]
    ));
    assert_eq!(life.phase, Phase::Stopped);
    assert!(life.on(probes()).is_empty());
    let mut fresh = Lifecycle::new(daemon());
    assert!(matches!(
        fresh.on(LifeEvent::Start { leftover: false }).as_slice(),
        [LifeAction::Listen, LifeAction::Apply]
    ));
}

// ---------------------------------------------------------------------------------------------
// Putting the policy in force
// ---------------------------------------------------------------------------------------------
/// What a host asked of a daemon, and what came of it.
fn apply(d: &mut DaemonState, dry_run: bool, rep: ReconcileReport) -> (Vec<ApplyAction>, Result<ReconcileReport, String>) {
    let mut work = ReversedDaemon::execute_apply(d, dry_run);
    let mut actions = vec![];
    while let Some(action) = work.action() {
        let event = match &action {
            ApplyAction::FindBackend => ApplyEvent::Backend("systemd-resolved".into()),
            ApplyAction::ReadInterfaces => ApplyEvent::Interfaces(host()),
            ApplyAction::ReadNeighborhood(_) => ApplyEvent::Neighborhood {
                gateways: NameMap::new(),
                neighbors: NameMap::new(),
            },
            ApplyAction::ReadGateway(_) => ApplyEvent::Gateway(None),
            ApplyAction::Reconcile(_) => ApplyEvent::Reconciled(rep.clone()),
            ApplyAction::SetDns(_) => ApplyEvent::Done,
            ApplyAction::Lookup(_) => ApplyEvent::Addresses(vec![ip("10.0.0.78")]),
        };
        work = work.advance(d, event);
        actions.push(action);
        assert!(actions.len() < 100);
    }
    (actions, work.result().unwrap())
}

#[test]
fn a_strict_policy_is_put_in_force() {
    let mut d = daemon();
    d.record_probes(&vec![("eth0".to_string(), true)], 1);
    d.config.networks.push(NetworkConfig {
        name: "lab".into(),
        role: "lan".into(),
        interfaces: vec!["eth0".into()],
        auto_subnets: false,
        preferred: vec![],
        domains: vec!["lab".into()],
        dns: vec![ip("10.0.0.53")],
    });
    let (actions, result) = apply(&mut d, false, report(true));
    assert!(result.unwrap().applied);
    let desired = actions
        .iter()
        .find_map(|a| if let ApplyAction::Reconcile(d) = a { Some(d) } else { None })
        .unwrap();
    assert_eq!(desired.wan_interface, Some("wlan0".into()));
    assert_eq!(desired.rules, vec![RpdbRule { priority: 12000, table: 52000 }]);
    assert_eq!(
        desired.firewall_whitelist,
        vec![
            ("eth0".into(), "10.0.0.0/24".into(), None),
            ("eth0".into(), "10.0.0.77/32".into(), None),
        ]
    );
    assert_eq!(desired.dns_split_domains, vec![("lab".into(), ip("10.0.0.53"))]);
    assert!(desired
        .routes
        .iter()
        .any(|r| r.destination == net("10.0.0.77/32") && r.output_interface == "eth0"));
    assert!(actions.iter().any(
        |a| matches!(a, ApplyAction::SetDns(l) if l.interface == "eth0" && l.domains == vec!["lab"])
    ));
    assert!(!actions.iter().any(|a| matches!(a, ApplyAction::Lookup(_))));
    assert!(!actions.iter().any(|a| matches!(a, ApplyAction::ReadNeighborhood(_))));
}

#[test]
fn a_policy_that_is_not_strict_is_rejected() {
    let mut d = daemon();
    d.config.mode = OperatingMode::Hybrid;
    let (actions, result) = apply(&mut d, false, report(true));
    assert!(result.unwrap_err().starts_with("configuration rejected: "));
    assert!(actions.is_empty());
}

#[test]
fn a_dry_run_tells_the_resolver_nothing() {
    let mut d = daemon();
    let (actions, result) = apply(&mut d, true, report(true));
    assert!(result.is_ok());
    assert!(!actions.iter().any(|a| matches!(a, ApplyAction::SetDns(_))));
    let (actions, result) = apply(&mut d, false, report(false));
    assert!(!result.unwrap().applied);
    assert!(!actions.iter().any(|a| matches!(a, ApplyAction::SetDns(_))));
}

#[test]
fn a_daemon_listens_where_it_is_told() {
    let d = ReversedDaemon::new(strict_config(), Some("/x.sock".into()), true, true, None);
    assert_eq!(d.socket_path, "/x.sock");
    let d = ReversedDaemon::new(strict_config(), None, true, true, None);
    assert_eq!(d.socket_path, "/run/reverse-tool/reversed.sock");
    assert_eq!(d.state.default_wan, Some("wlan0".into()));
}

#[test]
fn answers_of_the_lan_are_learned() {
    let mut d = daemon();
    assert!(d.learn("server.lab", vec![ip("10.0.0.78")]));
    assert!(!d.learn("server.lab", vec![ip("10.0.0.78")]));
    assert_eq!(d.config.resolve_local_domain("server.lab").unwrap(), &[ip("10.0.0.78")]);
    assert_eq!(d.lan_dns().unwrap().interface, "eth0");
    d.config.local_dns = NameMap::new();
    d.config.local_dns.insert("Server.LAB".into(), vec![ip("10.0.0.78")]);
    assert!(!d.learn("server.lab", vec![ip("10.0.0.78")]));
    assert!(d.learn("server.lab.", vec![ip("10.0.0.79")]));
    assert_eq!(d.config.local_dns.len(), 1);
    assert_eq!(d.config.resolve_local_domain("server.lab").unwrap(), &[ip("10.0.0.79")]);
    d.config.lan_interfaces.clear();
    assert_eq!(
        d.lan_dns().err().unwrap(),
        "LAN_DOMAINS are configured without a LAN_INTERFACE"
    );
}

#[test]
fn discovery_is_for_configurations_that_are_not_manual() {
    let interfaces = classify_all(&host(), &Some("wlan0".into()), &[]);
    let mut d = daemon();
    d.discover(&interfaces, &NameMap::new(), &NameMap::new());
    assert!(d.config.networks.is_empty());
    d.config.mode = OperatingMode::Hybrid;
    d.discover(&interfaces, &NameMap::new(), &NameMap::new());
    assert_eq!(d.config.networks[0].name, "lan-eth0");
}

#[test]
fn without_a_daemon_interfaces_with_a_carrier_are_trusted() {
    let mut interfaces = classify_all(&host(), &Some("wlan0".into()), &[]);
    let sm = HealthStateMachine::with_default_config();
    assert!(sm.is_available(assume_health(&interfaces, true).get("eth0").unwrap()));
    let cfg = strict_config();
    let state = direct_state(&cfg, &interfaces, Some("wlan0".into()));
    assert!(state.routes.iter().any(|r| r.destination == net("10.0.0.0/24")));
    assert!(state.firewall_whitelist.is_empty());
    let dec = direct_decision(&cfg, &interfaces, Some("wlan0".into()), "10.0.0.9");
    assert_eq!(dec.selected_interface, Some("eth0".into()));
    let mut written = strict_config();
    written.local_dns = NameMap::new();
    written.local_dns.insert("Server.LAB".into(), vec![ip("10.0.0.77")]);
    let dec = direct_decision(&written, &interfaces, Some("wlan0".into()), "server.lab");
    assert_eq!(dec.resolved_ip, Some(ip("10.0.0.77")));
    assert_eq!(dec.selected_interface, Some("eth0".into()));
    written.targets[0].cidr = "*.lab".into();
    let state = direct_state(&written, &interfaces, Some("wlan0".into()));
    assert!(state.routes.iter().any(|r| r.destination == net("10.0.0.77/32")));
    interfaces[1].has_carrier = false;
    assert_eq!(
        assume_health(&interfaces, false).get("eth0").unwrap().state,
        HealthState::Unknown
    );
    let dec = direct_decision(&cfg, &interfaces, Some("wlan0".into()), "10.0.0.9");
    assert_eq!(dec.selected_interface, None);
}

// ---------------------------------------------------------------------------------------------
// Checks and what is shown
// ---------------------------------------------------------------------------------------------
#[test]
fn a_check_of_the_host_tells_what_is_there() {
    let rep = run_doctor(true, &Ok(host()), Some("wlan0"), &Ok(52000), "NetworkManager", true);
    let names: Vec<&str> = rep.checks.iter().map(|c| c.0.as_str()).collect();
    assert_eq!(
        names,
        vec![
            "Privileges (CAP_NET_ADMIN)",
            "Netlink interface access",
            "Default WAN route",
            "LAN interface candidates",
            "Routing table allocation",
            "DNS Backend",
        ]
    );
    assert!(rep.checks.iter().all(|c| c.1));
    assert_eq!(rep.checks[1].2, "Discovered 2 network interfaces");
    assert_eq!(rep.checks[3].2, "Detected 1 potential LAN interface(s)");
    assert_eq!(rep.checks[4].2, "Table 52000 is free and available");
    let bad = LinuxError::Netlink("no".into());
    let rep = run_doctor(false, &Err(bad.clone()), None, &Err(bad), "Disabled", true);
    assert_eq!(rep.checks.len(), 4);
    assert!(rep.checks.iter().all(|c| !c.1));
    let shown = show_checks(&rep);
    assert!(shown.starts_with("\n=== reverse-tool Diagnostics ===\n"));
    assert!(shown.contains("\x1b[1;33m[WARN]\x1b[0m DNS Backend: Active backend: Disabled\n"));
}

#[test]
fn interfaces_are_shown_in_columns() {
    let interfaces = classify_all(&host(), &Some("wlan0".into()), &[]);
    let shown = show_interfaces(&interfaces, Some("wlan0"));
    let head = format!(
        "\n=== Network Interface Discovery ===\nDefault WAN Interface: \x1b[1;32mwlan0\x1b[0m\n{:<6} {:<12} {:<10} {:<10} {:<8} {:<24}\n{:-<75}\n",
        "IDX", "INTERFACE", "ROLE", "OPERSTATE", "CARRIER", "IP ADDRESSES", ""
    );
    let row = format!(
        "{:<6} {:<12} {:<10} {:<10} {:<8} {:<24}\n",
        3, "eth0", "\x1b[1;32mLAN\x1b[0m", "UP", "YES", "10.0.0.2/24"
    );
    assert!(shown.starts_with(&head));
    assert!(shown.ends_with(&(row + "\n")));
}

#[test]
fn what_was_detected_is_shown() {
    let interfaces = classify_all(&host(), &Some("wlan0".into()), &[]);
    assert_eq!(lan_names(&interfaces), vec!["eth0"]);
    let network = |name: &str, dns: Vec<IpAddr>| NetworkConfig {
        name: name.into(),
        role: "lan".into(),
        interfaces: vec!["eth0".into(), "a\"b".into()],
        auto_subnets: true,
        preferred: vec![],
        domains: vec![],
        dns,
    };
    let found = DetectedLanProfile {
        networks: vec![
            network("lan-eth0", vec![ip("10.0.0.1"), ip("10.0.0.2")]),
            network("lan-eth1", vec![]),
        ],
        targets: vec![target("lab", "10.0.0.0/24", "eth0")],
    };
    let expected = [
        "Detected \x1b[1;32m2\x1b[0m LAN Network(s):\n",
        "  • Network: \x1b[1mlan-eth0\x1b[0m (interfaces: [\"eth0\", \"a\\\"b\"], dns/gw: 10.0.0.1, 10.0.0.2)\n",
        "  • Network: \x1b[1mlan-eth1\x1b[0m (interfaces: [\"eth0\", \"a\\\"b\"], dns/gw: none)\n",
        "\nDetected \x1b[1;32m1\x1b[0m Target IP Range(s) & Server(s):\n",
        "  • lab                       CIDR: \x1b[1;36m10.0.0.0/24         \x1b[0m via [\"eth0\"]\n",
        "\n",
    ];
    assert_eq!(show_detected(&found), expected.concat());
    assert_eq!(
        show_network("lan", "[]", "none"),
        "  • Network: \x1b[1mlan\x1b[0m (interfaces: [], dns/gw: none)\n"
    );
    assert_eq!(
        show_range("lab", "10.0.0.0/24", "[]"),
        format!("  • {:<25} CIDR: \x1b[1;36m{:<20}\x1b[0m via []\n", "lab", "10.0.0.0/24")
    );
}

#[test]
fn decisions_and_reports_are_shown() {
    let interfaces = classify_all(&host(), &Some("wlan0".into()), &[]);
    let dec = direct_decision(&strict_config(), &interfaces, Some("wlan0".into()), "server.lab");
    let shown = show_decision(&dec);
    assert!(shown.contains("Destination:        \x1b[1mserver.lab\x1b[0m\n"));
    assert!(shown.contains("Resolved IP:        10.0.0.77\n"));
    assert!(shown.contains("Selected Interface: \x1b[1;32meth0\x1b[0m\n"));
    assert!(shown.contains("Routing Table:      52000\n"));
    let session = reconciler().reconcile(&wanted(), true, &RuntimeState::default()).unwrap();
    let shown = show_report(&session.result().unwrap().unwrap());
    assert!(shown.contains("Mode: \x1b[1;33mDRY-RUN (No changes applied)\x1b[0m\n"));
    assert!(shown.contains("Routes to Add:    1\n  + 10.0.0.0/24 dev eth0 table 52000\n"));
    assert!(shown.contains("Rules to Add:     1\n  + pref 12000 lookup 52000\n"));
    assert!(show_report(&report(true)).contains("[+] Successfully applied and verified!"));
}

#[test]
fn status_and_targets_are_shown() {
    let kept = RuntimeState {
        routes_owned: vec![route("10.0.0.0/24", "eth0")],
        ..Default::default()
    };
    assert_eq!(
        show_saved_state(&kept),
        "\n=== reverse-tool Local Status ===\nDaemon Status: \x1b[1;33mOFFLINE\x1b[0m (showing local saved state)\nAllocated Table: 52000\nRule Priority:   12000\nSaved Routes:    1\n  -> 10.0.0.0/24 via eth0\n\n"
    );
    let DaemonResponse::Status(status) = daemon().status(&kept, 1, 2) else { panic!("no status") };
    assert!(show_status(&status).contains("Monitored Interfaces: 2\nActive Lab Routes:    1\n"));
    assert_eq!(
        show_targets(&vec![target("lab", "10.0.0.0/24", "eth0")]),
        format!(
            "\n=== Configured Targets ===\n{:<15} {:<20} via [eth0] fallback: drop\n\n",
            "lab", "10.0.0.0/24"
        )
    );
}
