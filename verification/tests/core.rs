use reverse_tool::classifier::{InterfaceClassifier, TargetClassifier};
use reverse_tool::config::{Config, TargetConfig};
use reverse_tool::detector::LanDetector;
use reverse_tool::health::{HealthConfig, HealthStateMachine};
use reverse_tool::model::{
    ActualState, DesiredState, FallbackAction, HealthState, Interface, InterfaceRole, PathHealth,
    Route, RouteType, RpdbRule, RuleSource, TargetMatcher,
};
use reverse_tool::names::NameMap;
use reverse_tool::net::{IpAddr, IpNet};
use reverse_tool::planner::RoutePlanner;
use reverse_tool::policy::{PolicyEngine, PolicyRule};

fn ip(s: &str) -> IpAddr {
    IpAddr::parse(s).unwrap()
}

fn net(s: &str) -> IpNet {
    IpNet::parse(s).unwrap()
}

fn iface(index: u32, name: &str, addr: Option<&str>, gateway: Option<&str>, role: InterfaceRole) -> Interface {
    Interface {
        index,
        name: name.into(),
        is_up: true,
        has_carrier: true,
        is_loopback: name == "lo",
        mtu: if name == "lo" { 65536 } else { 1500 },
        mac: None,
        ip_addrs: addr.into_iter().map(net).collect(),
        gateway: gateway.map(ip),
        role,
    }
}

fn target(name: &str, cidr: &str, via: &[&str]) -> TargetConfig {
    TargetConfig {
        name: name.into(),
        cidr: cidr.into(),
        port: None,
        via: via.iter().map(|v| v.to_string()).collect(),
        fallback: "drop".into(),
    }
}

fn route(destination: &str, output_interface: &str) -> Route {
    Route {
        destination: net(destination),
        output_interface: output_interface.into(),
        gateway: None,
        table: 52000,
        metric: None,
        route_type: RouteType::Unicast,
    }
}

fn healthy(names: &[&str]) -> NameMap<PathHealth> {
    let sm = HealthStateMachine::new(HealthConfig::default());
    let mut map = NameMap::new();
    for name in names {
        let mut health = PathHealth::default();
        sm.record_success(&mut health, 100);
        map.insert(name.to_string(), health);
    }
    map
}

fn down() -> PathHealth {
    PathHealth { state: HealthState::Down, ..Default::default() }
}

#[test]
fn test_health_state_transitions() {
    let sm = HealthStateMachine::with_default_config();
    let mut health = PathHealth::default();

    assert_eq!(health.state, HealthState::Unknown);

    sm.record_success(&mut health, 100);
    assert_eq!(health.state, HealthState::Healthy);

    sm.record_failure(&mut health, 101);
    assert_eq!(health.state, HealthState::Healthy);

    sm.record_failure(&mut health, 102);
    assert_eq!(health.state, HealthState::Healthy);

    sm.record_failure(&mut health, 103);
    assert_eq!(health.state, HealthState::Degraded);

    sm.record_failure(&mut health, 104);
    assert_eq!(health.state, HealthState::Down);
    assert!(!sm.is_available(&health));

    sm.record_success(&mut health, 105);
    assert_eq!(health.state, HealthState::Down);

    sm.record_success(&mut health, 106);
    assert_eq!(health.state, HealthState::Recovering);
    assert!(sm.is_available(&health));

    sm.record_success(&mut health, 107);
    assert_eq!(health.state, HealthState::Healthy);
}

#[test]
fn test_classify_interfaces() {
    let lo = iface(1, "lo", None, None, InterfaceRole::Unknown);
    assert_eq!(InterfaceClassifier::classify(&lo, None, &[]), InterfaceRole::Loopback);

    let docker = iface(5, "docker0", Some("172.17.0.1/16"), None, InterfaceRole::Unknown);
    assert_eq!(InterfaceClassifier::classify(&docker, None, &[]), InterfaceRole::Virtual);

    let wlan0 =
        iface(3, "wlan0", Some("192.168.1.50/24"), Some("192.168.1.1"), InterfaceRole::Unknown);
    assert_eq!(InterfaceClassifier::classify(&wlan0, Some("wlan0"), &[]), InterfaceRole::Wan);

    let eth1 = iface(2, "eth1", Some("192.168.56.10/24"), None, InterfaceRole::Unknown);
    assert_eq!(InterfaceClassifier::classify(&eth1, Some("wlan0"), &[]), InterfaceRole::Lan);
}

#[test]
fn test_classify_targets() {
    assert_eq!(
        TargetClassifier::parse("192.168.56.20").unwrap(),
        TargetMatcher::HostIp(ip("192.168.56.20"))
    );

    assert_eq!(
        TargetClassifier::parse("192.168.56.0/24").unwrap(),
        TargetMatcher::Cidr(net("192.168.56.0/24"))
    );

    assert_eq!(
        TargetClassifier::parse("*.malware.lab").unwrap(),
        TargetMatcher::DomainSuffix(".malware.lab".into())
    );

    assert_eq!(
        TargetClassifier::parse("~malware.lab").unwrap(),
        TargetMatcher::DomainSuffix(".malware.lab".into())
    );

    assert_eq!(
        TargetClassifier::parse("victim.lab").unwrap(),
        TargetMatcher::Domain("victim.lab".into())
    );
}

#[test]
fn test_reject_default_route_safety() {
    let desired = DesiredState { routes: vec![route("0.0.0.0/0", "eth1")], ..Default::default() };

    let res = RoutePlanner::validate_desired_state(&desired);
    assert!(res.is_err());
    assert!(res.unwrap_err().to_string().contains("Safety violation"));
}

#[test]
fn test_plan_diff_calculation() {
    let actual = ActualState {
        routes: vec![route("10.0.0.0/24", "wlan1")],
        rules: vec![RpdbRule { priority: 12000, table: 52000 }],
        allocated_table: 52000,
        rule_priority: 12000,
    };

    let desired = DesiredState {
        routes: vec![route("10.0.0.0/24", "eth1")],
        rules: vec![RpdbRule { priority: 12000, table: 52000 }],
        ..Default::default()
    };

    let diff = RoutePlanner::plan_diff(&actual, &desired).unwrap();
    assert_eq!(diff.routes_to_remove.len(), 1);
    assert_eq!(diff.routes_to_remove[0].output_interface, "wlan1");
    assert_eq!(diff.routes_to_add.len(), 1);
    assert_eq!(diff.routes_to_add[0].output_interface, "eth1");
    assert!(diff.rules_to_add.is_empty());
    assert!(diff.rules_to_remove.is_empty());
}

#[test]
fn test_lan_detection() {
    let interfaces = vec![
        iface(1, "eth1", Some("192.168.56.10/24"), None, InterfaceRole::Lan),
        iface(2, "wlan0", Some("10.0.0.5/24"), None, InterfaceRole::Wan),
    ];

    let mut gateways = NameMap::new();
    gateways.insert("eth1".into(), ip("192.168.56.1"));

    let mut neighbors = NameMap::new();
    neighbors.insert("eth1".into(), vec![ip("192.168.56.1"), ip("192.168.56.20")]);

    let detected = LanDetector::detect(&interfaces, &gateways, &neighbors);
    assert_eq!(detected.networks.len(), 1);
    assert_eq!(detected.networks[0].name, "lan-eth1");

    assert_eq!(detected.targets.len(), 3);
    assert!(detected.targets.iter().any(|t| t.cidr == "192.168.56.0/24"));
    assert!(detected.targets.iter().any(|t| t.cidr == "192.168.56.1/32"));
    assert!(detected.targets.iter().any(|t| t.cidr == "192.168.56.20/32"));

    let mut cfg = Config::default();
    LanDetector::merge_into_config(&mut cfg, detected);
    assert_eq!(cfg.networks.len(), 1);
    assert_eq!(cfg.targets.len(), 3);
}

fn make_test_setup() -> (PolicyEngine, NameMap<PathHealth>, HealthStateMachine) {
    let health_sm = HealthStateMachine::new(HealthConfig::default());
    let health_map = healthy(&["eth1", "wlan1"]);

    let mut cfg = Config::default();
    cfg.targets.push(target("victim", "192.168.56.0/24", &["wlan1", "eth1"]));
    cfg.targets.push(target("specific-host", "192.168.56.20", &["eth1"]));

    let interfaces = vec![iface(2, "eth1", Some("10.200.2.2/24"), None, InterfaceRole::Lan)];

    let engine = PolicyEngine::from_config(&cfg, &interfaces, Some("wlan0".into()));
    (engine, health_map, health_sm)
}

#[test]
fn test_precedence_exact_ip_over_cidr() {
    let (engine, health_map, health_sm) = make_test_setup();

    let dec = engine.decide("192.168.56.20", &health_map, &health_sm);
    assert_eq!(dec.rule_source, RuleSource::ManualExact);
    assert_eq!(dec.selected_interface.as_deref(), Some("eth1"));
}

#[test]
fn test_cidr_matches() {
    let (engine, health_map, health_sm) = make_test_setup();
    let dec = engine.decide("192.168.56.55", &health_map, &health_sm);
    assert_eq!(dec.rule_source, RuleSource::ManualCidr);
    assert_eq!(dec.selected_interface.as_deref(), Some("wlan1"));
}

#[test]
fn test_unknown_goes_to_wan() {
    let (engine, health_map, health_sm) = make_test_setup();
    let dec = engine.decide("8.8.8.8", &health_map, &health_sm);
    assert_eq!(dec.rule_source, RuleSource::WanDefault);
    assert_eq!(dec.routing_table, 254);
    assert_eq!(dec.selected_interface.as_deref(), Some("wlan0"));
}

fn server_rule() -> PolicyRule {
    PolicyRule {
        name: "server.lab".into(),
        matcher: TargetMatcher::Domain("server.lab".into()),
        source: RuleSource::ManualDomain,
        candidate_interfaces: vec!["eth1".into()],
        fallback: FallbackAction::Drop,
    }
}

#[test]
fn test_local_dns_domain_resolves_without_system_lookup() {
    let (mut engine, health_map, health_sm) = make_test_setup();
    engine.local_dns.insert("server.lab".into(), vec![ip("10.0.0.77")]);
    engine.rules.push(server_rule());
    let decision = engine.decide("SERVER.LAB.", &health_map, &health_sm);
    assert_eq!(decision.resolved_ip, Some(ip("10.0.0.77")));
    assert_eq!(decision.selected_interface.as_deref(), Some("eth1"));
}

#[test]
fn test_local_dns_domain_generates_host_route() {
    let (mut engine, health_map, health_sm) = make_test_setup();
    engine.local_dns.insert("server.lab".into(), vec![ip("2001:db8::77")]);
    engine.rules.push(server_rule());
    let routes = engine.generate_desired_routes(&health_map, &health_sm);
    assert!(routes.iter().any(|r| r.destination == net("2001:db8::77/128")));
}

fn lan_domain_config() -> Config {
    let mut cfg = Config {
        lan_domains: vec!["server.lab".into()],
        lan_interfaces: vec!["eth0".into()],
        ..Default::default()
    };
    cfg.local_dns.insert("server.lab".into(), vec![ip("10.0.0.77")]);
    cfg
}

#[test]
fn test_configured_lan_domain_uses_lan_interface_and_static_answer() {
    let cfg = lan_domain_config();
    let interfaces = vec![iface(2, "eth0", Some("10.0.0.2/24"), None, InterfaceRole::Lan)];
    let health_sm = HealthStateMachine::with_default_config();
    let health_map = healthy(&["eth0"]);
    let engine = PolicyEngine::from_config(&cfg, &interfaces, Some("wlan0".into()));

    let decision = engine.decide("server.lab", &health_map, &health_sm);
    assert_eq!(decision.selected_interface.as_deref(), Some("eth0"));
    assert_eq!(decision.resolved_ip, Some(ip("10.0.0.77")));
    assert!(engine
        .generate_desired_routes(&health_map, &health_sm)
        .iter()
        .any(|r| r.destination == net("10.0.0.77/32") && r.output_interface == "eth0"));
}

#[test]
fn test_lan_dns_server_never_gets_a_generic_lan_route() {
    let cfg = Config {
        lan_interfaces: vec!["eth0".into()],
        lan_dns_servers: vec![ip("10.0.0.53")],
        ..Default::default()
    };
    let interfaces = vec![iface(2, "eth0", Some("10.0.0.2/24"), None, InterfaceRole::Lan)];
    let engine = PolicyEngine::from_config(&cfg, &interfaces, Some("wlan0".into()));
    let routes = engine
        .generate_desired_routes(&NameMap::new(), &HealthStateMachine::with_default_config());

    assert!(!routes
        .iter()
        .any(|r| r.destination == net("10.0.0.53/32") && r.output_interface == "eth0"));
}

#[test]
fn duplicate_static_and_domain_routes_are_emitted_once() {
    let mut cfg = lan_domain_config();
    cfg.targets.push(target("explicit", "10.0.0.77/32", &["eth0"]));
    let interfaces = vec![iface(2, "eth0", Some("10.0.0.2/24"), None, InterfaceRole::Lan)];
    let health_sm = HealthStateMachine::with_default_config();
    let engine = PolicyEngine::from_config(&cfg, &interfaces, Some("wlan0".into()));
    let routes = engine.generate_desired_routes(&healthy(&["eth0"]), &health_sm);

    assert_eq!(routes.iter().filter(|r| r.destination == net("10.0.0.77/32")).count(), 1);
}

#[test]
fn test_blacklist_destinations_are_pinned_to_wan() {
    let cfg = Config { blacklist: vec![net("203.0.113.10/32")], ..Default::default() };
    let interfaces = vec![iface(
        3,
        "wlan0",
        Some("192.168.1.104/24"),
        Some("192.168.1.1"),
        InterfaceRole::Wan,
    )];
    let engine = PolicyEngine::from_config(&cfg, &interfaces, Some("wlan0".into()));
    let routes = engine
        .generate_desired_routes(&NameMap::new(), &HealthStateMachine::with_default_config());
    assert!(routes.iter().any(|r| {
        r.destination == net("203.0.113.10/32")
            && r.output_interface == "wlan0"
            && r.gateway == Some(ip("192.168.1.1"))
    }));
}

#[test]
fn test_blacklist_wins_over_configured_lan_ip() {
    let mut cfg = Config::default();
    cfg.targets.push(target("lan-server", "10.0.0.1/32", &["eth0"]));
    cfg.blacklist = vec![net("10.0.0.1/32")];
    let interfaces = vec![
        iface(2, "eth0", Some("10.0.0.2/24"), None, InterfaceRole::Lan),
        iface(3, "wlan0", Some("192.0.2.2/24"), Some("192.0.2.1"), InterfaceRole::Wan),
    ];
    let engine = PolicyEngine::from_config(&cfg, &interfaces, Some("wlan0".into()));
    let health_sm = HealthStateMachine::with_default_config();
    let decision = engine.decide("10.0.0.1", &NameMap::new(), &health_sm);

    assert_eq!(decision.selected_interface.as_deref(), Some("wlan0"));
    assert_eq!(decision.rule_source, RuleSource::WanDefault);
    assert!(decision.reason.contains("blacklist"));
}

#[test]
fn test_lab_target_never_leaks_to_wan_on_failure() {
    let (engine, mut health_map, health_sm) = make_test_setup();

    health_map.insert("wlan1".into(), down());
    health_map.insert("eth1".into(), down());

    let dec = engine.decide("192.168.56.55", &health_map, &health_sm);
    assert_eq!(dec.selected_interface, None);
    assert!(dec.reason.contains("DROP"));

    let routes = engine.generate_desired_routes(&health_map, &health_sm);
    assert!(!routes.is_empty());
    for r in &routes {
        assert_eq!(r.route_type, RouteType::Unreachable);
        assert_eq!(r.table, 52000);
    }
}

#[test]
fn what_is_explained_is_what_the_table_does() {
    let (engine, mut health_map, health_sm) = make_test_setup();
    let explained = engine.decide("192.168.56.20", &health_map, &health_sm).selected_interface;
    let routes = engine.generate_desired_routes(&health_map, &health_sm);
    let r = routes.iter().find(|r| r.destination == net("192.168.56.20/32")).unwrap();
    assert_eq!(explained, Some(r.output_interface.clone()));
    assert_eq!(r.metric, Some(50));
    health_map.insert("eth1".into(), down());
    assert_eq!(engine.decide("192.168.56.20", &health_map, &health_sm).selected_interface, None);
    let routes = engine.generate_desired_routes(&health_map, &health_sm);
    let r = routes.iter().find(|r| r.destination == net("192.168.56.20/32")).unwrap();
    assert_eq!(r.route_type, RouteType::Unreachable);
}

#[test]
fn only_what_is_authorized_is_in_the_table() {
    let (engine, health_map, health_sm) = make_test_setup();
    let routes = engine.generate_desired_routes(&health_map, &health_sm);
    let mut found: Vec<String> = routes.iter().map(|r| r.destination.to_string()).collect();
    found.sort();
    assert_eq!(found, vec!["192.168.56.0/24", "192.168.56.20/32"]);
}

#[test]
fn an_ipv6_blacklist_entry_is_pinned_by_the_ipv6_gateway() {
    let cfg = Config { blacklist: vec![net("2001:db8::10/128")], ..Default::default() };
    let interfaces =
        vec![iface(3, "wlan0", Some("192.168.1.4/24"), Some("192.168.1.1"), InterfaceRole::Wan)];
    let mut engine = PolicyEngine::from_config(&cfg, &interfaces, Some("wlan0".into()));
    engine.set_wan_ipv6_gateway(Some(ip("fe80::1")));
    let routes = engine
        .generate_desired_routes(&NameMap::new(), &HealthStateMachine::with_default_config());
    assert_eq!(routes.len(), 1);
    assert_eq!(routes[0].gateway, Some(ip("fe80::1")));
    assert_eq!(routes[0].metric, Some(1));
}

#[test]
fn a_settled_state_needs_nothing_and_foreign_routes_stay() {
    let mut foreign = route("10.9.0.0/16", "eth9");
    foreign.table = 254;
    let actual = ActualState {
        routes: vec![route("10.0.0.0/24", "eth1"), foreign],
        rules: vec![RpdbRule { priority: 12000, table: 52000 }],
        allocated_table: 52000,
        rule_priority: 12000,
    };
    let desired = RoutePlanner::generate_desired_state(
        52000,
        12000,
        vec![route("10.0.0.0/24", "eth1")],
        vec![],
    );
    assert!(RoutePlanner::plan_diff(&actual, &desired).unwrap().is_empty());
}

#[test]
fn merging_what_was_found_twice_changes_nothing() {
    let interfaces = vec![iface(1, "eth1", Some("192.168.56.10/24"), None, InterfaceRole::Lan)];
    let mut cfg = Config::default();
    cfg.targets.push(target("mine", "192.168.56.0/24", &["eth9"]));
    for _ in 0..2 {
        let found = LanDetector::detect(&interfaces, &NameMap::new(), &NameMap::new());
        LanDetector::merge_into_config(&mut cfg, found);
    }
    assert_eq!(cfg.networks.len(), 1);
    assert_eq!(cfg.targets.len(), 1);
    assert_eq!(cfg.targets[0].name, "mine");
}

#[test]
fn targets_that_denote_nothing_are_errors() {
    assert_eq!(
        TargetClassifier::parse("  ").unwrap_err().to_string(),
        "Invalid target expression: Target cannot be empty"
    );
    assert!(TargetClassifier::parse("10.0.0.0/99").unwrap_err().to_string().contains("Malformed CIDR: 10.0.0.0/99"));
    assert_eq!(
        TargetClassifier::parse("10.0.0.1/32").unwrap(),
        TargetMatcher::HostIp(ip("10.0.0.1"))
    );
}
