use reverse_tool::config::{Config, NetworkConfig, OperatingMode, TargetConfig};
use reverse_tool::health::{HealthConfig, HealthStateMachine};
use reverse_tool::model::{
    DesiredState, HealthState, Interface, InterfaceRole, PathHealth, Route, RouteType, RuleSource,
};
use reverse_tool::names::NameMap;
use reverse_tool::net::{IpAddr, IpNet};
use reverse_tool::planner::RoutePlanner;
use reverse_tool::policy::PolicyEngine;

fn ip(s: &str) -> IpAddr {
    IpAddr::parse(s).unwrap()
}

fn net(s: &str) -> IpNet {
    IpNet::parse(s).unwrap()
}

fn iface(index: u32, name: &str, addr: &str, gateway: Option<&str>, role: InterfaceRole) -> Interface {
    Interface {
        index,
        name: name.into(),
        is_up: true,
        has_carrier: true,
        is_loopback: name == "lo",
        mtu: if name == "lo" { 65536 } else { 1500 },
        mac: None,
        ip_addrs: vec![net(addr)],
        gateway: gateway.map(ip),
        role,
    }
}

#[test]
fn test_end_to_end_policy_flow() {
    let mut config = Config::default();

    config.targets.push(TargetConfig {
        name: "lab-exact".into(),
        cidr: "192.168.56.100".into(),
        port: None,
        via: vec!["eth1".into()],
        fallback: "drop".into(),
    });

    config.targets.push(TargetConfig {
        name: "lab-subnet".into(),
        cidr: "192.168.56.0/24".into(),
        port: None,
        via: vec!["wlan1".into(), "eth1".into()],
        fallback: "drop".into(),
    });

    config.networks.push(NetworkConfig {
        name: "malware-lab".into(),
        role: "lan".into(),
        interfaces: vec!["eth1".into()],
        auto_subnets: true,
        preferred: vec!["eth1".into()],
        domains: vec!["~malware.lab".into()],
        dns: vec![ip("192.168.56.1")],
    });

    let interfaces = vec![
        iface(1, "lo", "127.0.0.1/8", None, InterfaceRole::Loopback),
        iface(2, "wlan0", "192.168.1.10/24", Some("192.168.1.1"), InterfaceRole::Wan),
        iface(3, "eth1", "192.168.56.10/24", None, InterfaceRole::Lan),
    ];

    let engine = PolicyEngine::from_config(&config, &interfaces, Some("wlan0".into()));
    let health_sm = HealthStateMachine::new(HealthConfig::default());
    let mut health_map = NameMap::new();

    let mut eth1_health = PathHealth::default();
    health_sm.record_success(&mut eth1_health, 100);
    health_map.insert("eth1".into(), eth1_health);

    let mut wlan1_health = PathHealth::default();
    health_sm.record_success(&mut wlan1_health, 100);
    health_map.insert("wlan1".into(), wlan1_health);

    let d1 = engine.decide("192.168.56.100", &health_map, &health_sm);
    assert_eq!(d1.rule_source, RuleSource::ManualExact);
    assert_eq!(d1.selected_interface.as_deref(), Some("eth1"));
    assert_eq!(d1.routing_table, 52000);

    let d2 = engine.decide("192.168.56.50", &health_map, &health_sm);
    assert_eq!(d2.rule_source, RuleSource::ManualCidr);
    assert_eq!(d2.selected_interface.as_deref(), Some("wlan1"));
    assert_eq!(d2.routing_table, 52000);

    let d3 = engine.decide("victim.malware.lab", &health_map, &health_sm);
    assert_eq!(d3.rule_source, RuleSource::ManualSuffix);
    assert_eq!(d3.selected_interface.as_deref(), Some("eth1"));
    assert_eq!(d3.routing_table, 52000);

    let d4 = engine.decide("github.com", &health_map, &health_sm);
    assert_eq!(d4.rule_source, RuleSource::WanDefault);
    assert_eq!(d4.selected_interface.as_deref(), Some("wlan0"));
    assert_eq!(d4.routing_table, 254);

    let dead_eth1 = PathHealth { state: HealthState::Down, ..Default::default() };
    health_map.insert("eth1".into(), dead_eth1);

    let d5 = engine.decide("192.168.56.100", &health_map, &health_sm);
    assert_eq!(d5.selected_interface, None);
    assert!(d5.reason.contains("DROP"));
}

#[test]
fn test_planner_safety_invariants() {
    let desired = DesiredState {
        routes: vec![Route {
            destination: net("0.0.0.0/0"),
            output_interface: "eth1".into(),
            gateway: None,
            table: 52000,
            metric: None,
            route_type: RouteType::Unicast,
        }],
        ..Default::default()
    };

    let res = RoutePlanner::validate_desired_state(&desired);
    assert!(res.is_err());
    assert!(res.unwrap_err().to_string().contains("Safety violation"));
}

#[test]
fn test_strict_env_host_port_routing_and_firewall() {
    let env_content = r#"
TARGET_SERVER=10.0.0.10:999
TARGET_IPS="http://10.0.0.20:8080/api, 10.0.0.30"
TARGET_INTERFACE=wlan1
WAN_INTERFACE=wlan0
FALLBACK=wan
"#;

    let mut config = Config::default();
    config.apply_env_str(env_content);

    assert_eq!(config.mode, OperatingMode::Manual);
    assert_eq!(config.wan.interfaces, vec!["wlan0"]);
    assert_eq!(config.targets.len(), 3);

    let interfaces = vec![
        iface(1, "lo", "127.0.0.1/8", None, InterfaceRole::Loopback),
        iface(2, "wlan0", "192.168.1.14/24", Some("192.168.1.1"), InterfaceRole::Wan),
        iface(3, "wlan1", "10.0.0.2/24", None, InterfaceRole::Lan),
    ];

    let engine = PolicyEngine::from_config(&config, &interfaces, Some("wlan0".into()));
    let health_sm = HealthStateMachine::new(HealthConfig::default());
    let mut health_map = NameMap::new();

    let mut wlan0_health = PathHealth::default();
    health_sm.record_success(&mut wlan0_health, 100);
    health_map.insert("wlan0".into(), wlan0_health);

    let mut wlan1_health = PathHealth::default();
    health_sm.record_success(&mut wlan1_health, 100);
    health_map.insert("wlan1".into(), wlan1_health);

    let d_server = engine.decide("10.0.0.10", &health_map, &health_sm);
    assert_eq!(d_server.rule_source, RuleSource::ManualExact);
    assert_eq!(d_server.selected_interface.as_deref(), Some("wlan1"));
    assert_eq!(d_server.routing_table, 52000);

    let d_url = engine.decide("10.0.0.20", &health_map, &health_sm);
    assert_eq!(d_url.rule_source, RuleSource::ManualExact);
    assert_eq!(d_url.selected_interface.as_deref(), Some("wlan1"));
    assert_eq!(d_url.routing_table, 52000);

    let d_fb = engine.decide("157.240.241.35", &health_map, &health_sm);
    assert_eq!(d_fb.rule_source, RuleSource::WanDefault);
    assert_eq!(d_fb.selected_interface.as_deref(), Some("wlan0"));
    assert_eq!(d_fb.routing_table, 254);

    let mut wlan1_down = PathHealth::default();
    wlan1_down.state = HealthState::Down;
    health_map.insert("wlan1".into(), wlan1_down);

    let d_server_fallback = engine.decide("10.0.0.10", &health_map, &health_sm);
    assert_eq!(d_server_fallback.selected_interface.as_deref(), Some("wlan0"));
    assert_eq!(d_server_fallback.routing_table, 254);

    let mut wlan1_up = PathHealth::default();
    health_sm.record_success(&mut wlan1_up, 200);
    health_map.insert("wlan1".into(), wlan1_up);

    let desired_routes = engine.generate_desired_routes(&health_map, &health_sm);
    let mut desired = RoutePlanner::generate_desired_state(
        config.defaults.table_id,
        config.defaults.rule_priority,
        desired_routes,
        vec![],
    );

    for target in &config.targets {
        for iface in &target.via {
            desired.firewall_whitelist.push((iface.clone(), target.cidr.to_string(), target.port));
        }
    }

    assert_eq!(desired.routes.len(), 3);
    assert_eq!(desired.firewall_whitelist.len(), 3);
    assert!(desired
        .firewall_whitelist
        .iter()
        .any(|(iface, cidr, port)| iface == "wlan1"
            && cidr == "10.0.0.10/32"
            && *port == Some(999)));
    assert!(desired
        .firewall_whitelist
        .iter()
        .any(|(iface, cidr, port)| iface == "wlan1"
            && cidr == "10.0.0.20/32"
            && *port == Some(8080)));
    assert!(desired
        .firewall_whitelist
        .iter()
        .any(|(iface, cidr, port)| iface == "wlan1" && cidr == "10.0.0.30/32" && *port == None));
}
