use reverse_tool::config::{Config, OperatingMode, TargetConfig};
use reverse_tool::env::parse_target_spec;
use reverse_tool::net::{IpAddr, IpNet};

fn ip(s: &str) -> IpAddr {
    IpAddr::parse(s).unwrap()
}

fn net(s: &str) -> IpNet {
    IpNet::parse(s).unwrap()
}

fn from_env(content: &str) -> Config {
    let mut cfg = Config::default();
    cfg.apply_env_str(content);
    cfg
}

#[test]
fn test_env_parsing() {
    let env_data = r#"
# Manual target configuration in .env
TARGET_IPS="10.0.0.100, 192.168.1.50"
TARGET_SUBNETS=10.0.0.0/24
TARGET_INTERFACE=wlan1
WAN_INTERFACE=wlan0
FALLBACK=drop
"#;
    let cfg = from_env(env_data);

    assert_eq!(cfg.wan.interfaces, vec!["wlan0"]);
    assert_eq!(cfg.targets.len(), 3);
    assert!(cfg.targets.iter().any(|t| t.cidr == "10.0.0.100/32" && t.via == vec!["wlan1"]));
    assert!(cfg.targets.iter().any(|t| t.cidr == "192.168.1.50/32" && t.via == vec!["wlan1"]));
    assert!(cfg.targets.iter().any(|t| t.cidr == "10.0.0.0/24" && t.via == vec!["wlan1"]));
}

#[test]
fn test_env_blacklist_and_local_dns() {
    let cfg = from_env(
        "BLACKLIST_IPS=192.0.2.10,2001:db8::10,198.51.100.0/24\nLOCAL_DNS_RECORDS=Server.LAN.=192.0.2.20,2001:db8::20;other.lan=198.51.100.20",
    );

    assert!(cfg.blacklist.contains(&net("192.0.2.10/32")));
    assert!(cfg.blacklist.contains(&net("2001:db8::10/128")));
    assert!(cfg.blacklist.contains(&net("198.51.100.0/24")));
    assert_eq!(
        cfg.resolve_local_domain("server.lan.").unwrap(),
        &[ip("192.0.2.20"), ip("2001:db8::20")]
    );
    assert!(cfg.resolve_local_domain("missing.lan").is_none());
}

#[test]
fn test_env_lan_domains_and_dns_servers_are_canonicalized() {
    let cfg = from_env(
        "LAN_DOMAINS=https://Server.LAN/api,server.lan.,api.lab\nLAN_DNS_SERVERS=10.0.0.53,2001:db8::53,10.0.0.53",
    );

    assert_eq!(cfg.lan_domains, vec!["server.lan", "api.lab"]);
    assert_eq!(cfg.lan_dns_servers, vec![ip("10.0.0.53"), ip("2001:db8::53")]);
}

#[test]
fn test_lan_ips_alias_creates_destination_only_target() {
    let cfg = from_env("LAN_IPS=10.0.0.1\nLAN_INTERFACE=eth0");

    assert!(cfg
        .targets
        .iter()
        .any(|target| target.cidr == "10.0.0.1/32" && target.via == ["eth0"]));
}

#[test]
fn test_url_target_is_lan_domain_not_a_port_limited_target() {
    let cfg = from_env(
        "TARGET_SERVER=https://server.lab:8443/api\nTARGET_INTERFACE=eth0\nLAN_DNS_SERVER=10.0.0.53",
    );

    assert_eq!(cfg.lan_domains, vec!["server.lab"]);
    assert!(cfg.targets.is_empty());
    assert_eq!(cfg.lan_dns_servers, vec![ip("10.0.0.53")]);
    assert_eq!(cfg.lan_interfaces, vec!["eth0"]);
}

#[test]
fn test_url_target_uses_local_dns_without_external_resolution() {
    let cfg = from_env(
        "TARGET_SERVER=https://server.lab\nTARGET_INTERFACE=eth0\nLOCAL_DNS_RECORDS=server.lab=192.0.2.55",
    );
    assert!(cfg.targets.iter().any(|t| t.cidr == "192.0.2.55/32" && t.port == Some(443)));
}

#[test]
fn test_parse_target_spec_formats() {
    let (cidr, port) = parse_target_spec("10.0.0.10:999").unwrap();
    assert_eq!(cidr, "10.0.0.10/32");
    assert_eq!(port, Some(999));

    let (cidr, port) = parse_target_spec("http://10.0.0.20:8080/api/v1?token=123").unwrap();
    assert_eq!(cidr, "10.0.0.20/32");
    assert_eq!(port, Some(8080));

    let (cidr, port) = parse_target_spec("http://10.0.0.25/login").unwrap();
    assert_eq!(cidr, "10.0.0.25/32");
    assert_eq!(port, Some(80));

    let (cidr, port) = parse_target_spec("https://10.0.0.30/admin").unwrap();
    assert_eq!(cidr, "10.0.0.30/32");
    assert_eq!(port, Some(443));

    let (cidr, port) = parse_target_spec("192.168.56.5").unwrap();
    assert_eq!(cidr, "192.168.56.5/32");
    assert_eq!(port, None);

    let (cidr, port) = parse_target_spec("192.168.56.0/24").unwrap();
    assert_eq!(cidr, "192.168.56.0/24");
    assert_eq!(port, None);
}

#[test]
fn test_target_server_env_host_port() {
    let cfg = from_env("\nTARGET_SERVER=10.0.0.10:999\nTARGET_INTERFACE=wlan1\nWAN_INTERFACE=wlan0\n");

    assert_eq!(cfg.mode, OperatingMode::Manual);
    assert_eq!(cfg.wan.interfaces, vec!["wlan0"]);
    assert_eq!(cfg.targets.len(), 1);
    let t = &cfg.targets[0];
    assert_eq!(t.cidr, "10.0.0.10/32");
    assert_eq!(t.port, Some(999));
    assert_eq!(t.via, vec!["wlan1"]);
}

#[test]
fn strict_policy_rejects_auto_and_wan_fallback() {
    let mut cfg = Config { mode: OperatingMode::Hybrid, ..Default::default() };
    assert!(cfg.validate_strict_lan_policy().is_err());

    cfg.mode = OperatingMode::Manual;
    cfg.wan.interfaces = vec!["wlan1".into()];
    cfg.defaults.lab_failure = "wan".into();
    assert!(cfg.validate_strict_lan_policy().is_err());
}

#[test]
fn strict_policy_rejects_blacklist_lan_overlap_even_when_prefixes_differ() {
    let mut cfg = Config::default();
    cfg.wan.interfaces = vec!["wlan1".into()];
    cfg.lan_interfaces = vec!["eth0".into()];
    cfg.blacklist = vec![net("10.0.0.0/24")];
    cfg.targets.push(TargetConfig {
        name: "overlap".into(),
        cidr: "10.0.0.99/32".into(),
        port: None,
        via: vec!["eth0".into()],
        fallback: "drop".into(),
    });

    let error = cfg.validate_strict_lan_policy().unwrap_err().to_string();
    assert!(error.contains("overlaps blacklist"));
}

#[test]
fn strict_policy_rejects_dynamic_lan_dns_instead_of_opening_port_53() {
    let mut cfg = Config::default();
    cfg.wan.interfaces = vec!["wlan1".into()];
    cfg.lan_interfaces = vec!["eth0".into()];
    cfg.lan_domains = vec!["only.example".into()];
    cfg.lan_dns_servers = vec![ip("10.0.0.53")];

    let error = cfg.validate_strict_lan_policy().unwrap_err().to_string();
    assert!(error.contains("Dynamic LAN DNS is disabled"));
}

#[test]
fn keys_are_read_in_any_case_and_once() {
    let mut cfg = from_env("blacklist_ips=192.0.2.10,192.0.2.10\nWan_Interface=wlan0\nUNKNOWN=x\n");
    assert_eq!(cfg.blacklist, vec![net("192.0.2.10/32")]);
    assert_eq!(cfg.wan.interfaces, vec!["wlan0"]);
    cfg.apply_env_str("blacklist_ips=192.0.2.10\n");
    assert_eq!(cfg.blacklist.len(), 1);
}

#[test]
fn targets_from_settings_fail_closed() {
    let cfg = from_env("TARGET_IPS=10.0.0.1\nTARGET_INTERFACE=eth0\n");
    assert_eq!(cfg.targets[0].fallback, "drop");
    let cfg = from_env("TARGET_IPS=10.0.0.1\nTARGET_INTERFACE=eth0\nFALLBACK=wan\n");
    assert_eq!(cfg.targets[0].fallback, "wan");
}

#[test]
fn only_local_records_make_a_lan_domain_strict() {
    let mut cfg = from_env(
        "WAN_INTERFACE=wlan0\nLAN_INTERFACE=eth0\nLAN_DOMAINS=server.lab\nLOCAL_DNS_RECORDS=server.lab=10.0.0.77\n",
    );
    assert!(cfg.is_lan_domain("SERVER.lab."));
    assert!(cfg.validate_strict_lan_policy().is_ok());
    cfg.blacklist = vec![net("10.0.0.0/24")];
    assert!(cfg.validate_strict_lan_policy().is_err());
}

#[test]
fn a_record_is_found_however_it_is_written() {
    let mut cfg = Config::default();
    cfg.local_dns.insert("Server.LAN".into(), vec![ip("192.0.2.20")]);
    for name in ["server.lan.", "server.lan", "SERVER.lan", " Server.LAN. "] {
        assert_eq!(cfg.resolve_local_domain(name).unwrap(), &[ip("192.0.2.20")]);
    }
    assert!(cfg.resolve_local_domain("other.lan").is_none());
    cfg.local_dns.insert("server.lan".into(), vec![ip("192.0.2.21")]);
    assert_eq!(cfg.resolve_local_domain("Server.LAN").unwrap(), &[ip("192.0.2.21")]);
}

#[test]
fn a_domain_of_the_lan_is_listed_in_canonical_form() {
    let mut cfg = Config { lan_domains: vec!["server.lan".into()], ..Default::default() };
    for name in ["server.lan", "Server.LAN.", " SERVER.lan "] {
        assert!(cfg.is_lan_domain(name));
    }
    assert!(!cfg.is_lan_domain("other.lan"));
    cfg.lan_domains = vec!["Server.LAN".into()];
    assert!(!cfg.is_lan_domain("server.lan"));
    assert!(!cfg.is_lan_domain("Server.LAN"));
}

#[test]
fn settings_add_to_what_is_found_for_a_name() {
    let mut cfg = Config::default();
    cfg.local_dns.insert("Server.LAN".into(), vec![ip("192.0.2.20")]);
    let settings = "LOCAL_DNS_RECORDS=server.lan=192.0.2.21\n";
    cfg.apply_env_str(settings);
    let known = vec![ip("192.0.2.20"), ip("192.0.2.21")];
    assert_eq!(cfg.resolve_local_domain("SERVER.LAN").unwrap(), &known);
    let once = format!("{:?}", cfg.local_dns);
    cfg.apply_env_str(settings);
    assert_eq!(format!("{:?}", cfg.local_dns), once);
}

#[test]
fn settings_apply_once_whatever_the_names() {
    let mut cfg = Config::default();
    cfg.local_dns.insert("a.".into(), vec![ip("192.0.2.2")]);
    let settings = "LOCAL_DNS_RECORDS=a=192.0.2.2;a .=192.0.2.1\n";
    cfg.apply_env_str(settings);
    let once = format!("{:?}", cfg.local_dns);
    cfg.apply_env_str(settings);
    assert_eq!(format!("{:?}", cfg.local_dns), once);
    assert_eq!(cfg.resolve_local_domain("a").unwrap(), &[ip("192.0.2.2")]);
}

#[test]
fn the_strict_policy_finds_a_record_however_it_is_written() {
    let mut cfg = from_env("WAN_INTERFACE=wlan0\nLAN_INTERFACE=eth0\nLAN_DOMAINS=server.lab\n");
    cfg.local_dns.insert("Server.LAB".into(), vec![ip("10.0.0.77")]);
    assert!(cfg.validate_strict_lan_policy().is_ok());
    cfg.blacklist = vec![net("10.0.0.0/24")];
    let fault = cfg.validate_strict_lan_policy().unwrap_err().to_string();
    assert!(fault.contains("LAN domain 'server.lab' resolves to blacklisted address 10.0.0.77"));
}

#[test]
fn each_breach_of_the_strict_policy_is_named() {
    let strict = || {
        let mut cfg = Config::default();
        cfg.wan.interfaces = vec!["wlan0".into()];
        cfg.lan_interfaces = vec!["eth0".into()];
        cfg.targets.push(TargetConfig {
            name: "lab".into(),
            cidr: "10.0.0.0/24".into(),
            port: None,
            via: vec!["eth0".into()],
            fallback: "drop".into(),
        });
        cfg
    };
    let fault = |cfg: &Config| cfg.validate_strict_lan_policy().unwrap_err().to_string();
    assert!(strict().validate_strict_lan_policy().is_ok());
    let mut cfg = strict();
    cfg.targets[0].fallback = "wan".into();
    assert!(fault(&cfg).contains("target 'lab' uses fallback='wan'; only drop is permitted"));
    let mut cfg = strict();
    cfg.targets[0].via = vec!["eth9".into()];
    assert!(cfg.validate_strict_lan_policy().is_err());
    let mut cfg = strict();
    cfg.targets[0].cidr = "nonsense".into();
    assert!(cfg.validate_strict_lan_policy().is_err());
    let mut cfg = strict();
    cfg.wan.interfaces = vec!["auto".into()];
    assert!(cfg.validate_strict_lan_policy().is_err());
}
