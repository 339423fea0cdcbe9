use reverse_tool::capabilities::CapabilityChecker;
use reverse_tool::cleanup::declared_chains;
use reverse_tool::dns::{
    detect_best_dns_backend, lookup_call, parse_system_lookup_output, preferred_backend_name,
    resolve_via_system_lookup, DisabledDnsBackend, DnsBackend, NetworkManagerDnsBackend,
    ResolvedDnsBackend,
};
use reverse_tool::error::LinuxError;
use reverse_tool::firewall::{
    chain_name, output_has_hook, output_interfaces_for_chain, FirewallController,
};
use reverse_tool::model::{Route, RouteType, RpdbRule};
use reverse_tool::net::{IpAddr, IpNet};
use reverse_tool::netlink::{InterfaceFacts, NetlinkController};
use reverse_tool::probe::{ConnectOutcome, PathProber, ProbeStep};
use reverse_tool::process::{command_ok, Call, Reply};

fn ip(s: &str) -> IpAddr {
    IpAddr::parse(s).unwrap()
}

fn net(s: &str) -> IpNet {
    IpNet::parse(s).unwrap()
}

fn wrote(stdout: &str) -> Reply {
    Reply::Ended {
        success: true,
        status: "exit status: 0".into(),
        stdout: stdout.into(),
        stderr: "".into(),
    }
}

fn failed(stderr: &str) -> Reply {
    Reply::Ended {
        success: false,
        status: "exit status: 1".into(),
        stdout: "".into(),
        stderr: stderr.into(),
    }
}

fn line(call: &Call) -> String {
    format!("{} {}", call.program, call.args.join(" "))
}

fn route(destination: &str, output_interface: &str) -> Route {
    Route {
        destination: net(destination),
        output_interface: output_interface.into(),
        gateway: None,
        table: 52000,
        metric: None,
        route_type: RouteType::Unicast,
    }
}

#[test]
fn blacklist_rule_plan_preserves_ipv4_and_ipv6_families() {
    let entries = vec![net("203.0.113.10/32"), net("2001:db8::10/128")];
    let plan = FirewallController::blacklist_rule_plan(&entries);
    assert_eq!(plan[0], (false, "-d 203.0.113.10/32 -j DROP".into()));
    assert_eq!(plan[1], (true, "-d 2001:db8::10/128 -j DROP".into()));
}

#[test]
fn lan_ip_allow_plan_is_all_port_but_dns_server_is_port_53_only() {
    let entries = vec![("10.0.0.1/32".into(), None), ("10.0.0.53/32".into(), Some(53))];
    let plan = FirewallController::lan_allow_rule_plan(&entries);

    assert!(plan.contains(&(false, "-d 10.0.0.1/32 -j ACCEPT".into())));
    assert!(!plan
        .iter()
        .any(|(_, rule)| { rule.contains("10.0.0.1/32") && rule.contains("--dport") }));
    assert!(plan.contains(&(false, "-d 10.0.0.53/32 -p udp --dport 53 -j ACCEPT".into())));
    assert!(plan.contains(&(false, "-d 10.0.0.53/32 -p tcp --dport 53 -j ACCEPT".into())));
}

#[test]
fn firewall_command_failure_is_returned_to_the_caller() {
    let error = command_ok(&Call::new("false", &[]), &failed("")).unwrap_err().to_string();
    assert!(error.contains("false"));
    assert!(error.contains("exited"));
}

#[test]
fn a_command_error_carries_what_the_command_wrote() {
    let call = Call::new("iptables", &["-w", "-F", "X"]);
    let error = command_ok(&call, &failed(" no chain \n")).unwrap_err();
    assert_eq!(
        error,
        LinuxError::Capability("iptables -w -F X exited exit status: 1: no chain".into())
    );
    let error = command_ok(&call, &Reply::NotStarted("not found".into())).unwrap_err();
    assert_eq!(error, LinuxError::Io("not found".into()));
    assert_eq!(command_ok(&call, &wrote("all good")).unwrap(), "all good");
}

#[test]
fn test_read_interfaces() {
    let controller = NetlinkController::new();
    let facts = InterfaceFacts {
        name: "lo",
        ifindex: Some("1\n"),
        operstate: Some("unknown\n"),
        carrier: Some("1\n"),
        mtu: Some("65536\n"),
        address: Some("00:00:00:00:00:00\n"),
    };
    let ips = controller
        .get_interface_ips(&wrote(
            "lo               UNKNOWN        127.0.0.1/8 ::1/128 \n",
        ))
        .unwrap();
    let found = vec![controller.read_interface(&facts, ips)];
    let ifaces = controller.get_interfaces(&found);
    assert!(!ifaces.is_empty());
    assert!(ifaces.iter().any(|i| i.name == "lo"));
    assert!(ifaces[0].is_loopback && ifaces[0].is_up && ifaces[0].has_carrier);
    assert_eq!((ifaces[0].index, ifaces[0].mtu), (1, 65536));
    assert_eq!(ifaces[0].ip_addrs, vec![net("127.0.0.1/8"), net("::1/128")]);
}

#[test]
fn interfaces_are_listed_by_index() {
    let controller = NetlinkController::new();
    let facts = |name, ifindex| InterfaceFacts {
        name,
        ifindex,
        operstate: Some("down"),
        carrier: None,
        mtu: None,
        address: None,
    };
    let found = vec![
        controller.read_interface(&facts("eth1", Some("7")), vec![]),
        controller.read_interface(&facts("eth0", Some("2")), vec![]),
    ];
    let ifaces = controller.get_interfaces(&found);
    assert_eq!(ifaces.iter().map(|i| i.index).collect::<Vec<_>>(), vec![2, 7]);
    assert!(!ifaces[0].is_up && !ifaces[0].has_carrier);
    assert_eq!(ifaces[0].mtu, 1500);
    assert_eq!(ifaces[0].mac, None);
}

#[test]
fn test_check_loopback_carrier() {
    assert!(PathProber::check_carrier(Some("1\n"), Some("unknown\n")));
}

#[test]
fn an_interface_without_a_carrier_file_is_judged_by_its_state() {
    assert!(PathProber::check_carrier(None, Some("up\n")));
    assert!(!PathProber::check_carrier(None, Some("down\n")));
    assert!(!PathProber::check_carrier(None, None));
    assert!(!PathProber::check_carrier(Some("0\n"), Some("up\n")));
}

#[test]
fn a_probe_connects_only_with_a_carrier() {
    assert_eq!(PathProber::probe_interface(false, None), ProbeStep::Known(false));
    assert_eq!(PathProber::probe_interface(true, None), ProbeStep::Known(true));
    let to = Some((ip("10.0.0.1"), 443));
    assert_eq!(PathProber::probe_interface(false, to), ProbeStep::Known(false));
    assert_eq!(
        PathProber::probe_interface(true, to),
        ProbeStep::Connect { ip: ip("10.0.0.1"), port: 443, timeout_millis: 500 }
    );
    assert!(PathProber::probe_tcp(ConnectOutcome::Connected));
    assert!(!PathProber::probe_tcp(ConnectOutcome::Refused));
    assert!(PathProber::probe_tcp(ConnectOutcome::Pending { writable: true, error: 0 }));
    assert!(!PathProber::probe_tcp(ConnectOutcome::Pending { writable: true, error: 111 }));
    assert!(!PathProber::probe_tcp(ConnectOutcome::Pending { writable: false, error: 0 }));
}

#[test]
fn test_read_caps_runs_without_panic() {
    let caps = CapabilityChecker::get_effective_caps("Name:\tx\nCapEff:\t00000000a80425fb\n");
    assert!(caps.is_ok());
    assert_eq!(caps.unwrap(), 0xa80425fb);
}

#[test]
fn network_administration_takes_root_or_the_capability() {
    let with = "CapEff:\t0000000000001000\n";
    let without = "CapEff:\t0000000000000fff\n";
    assert!(CapabilityChecker::has_cap_net_admin(false, Some(with)));
    assert!(!CapabilityChecker::has_cap_net_admin(false, Some(without)));
    assert!(CapabilityChecker::has_cap_net_admin(true, None));
    assert!(!CapabilityChecker::has_cap_net_admin(false, None));
    assert!(CapabilityChecker::check_net_admin(false, Some(with)).is_ok());
    assert!(CapabilityChecker::check_net_admin(false, Some(without)).is_err());
}

#[test]
fn capabilities_that_cannot_be_read_are_errors() {
    let missing = CapabilityChecker::get_effective_caps("Name:\tx\n").unwrap_err();
    assert!(missing.to_string().contains("CapEff line not found"));
    let bad = CapabilityChecker::get_effective_caps("CapEff:\txyz\n").unwrap_err();
    assert!(bad.to_string().contains("invalid digit found in string"));
    let large = CapabilityChecker::get_effective_caps("CapEff:\t10000000000000000\n").unwrap_err();
    assert!(large.to_string().contains("number too large to fit in target type"));
    let empty = CapabilityChecker::get_effective_caps("CapEff:\t\n").unwrap_err();
    assert!(empty.to_string().contains("cannot parse integer from empty string"));
    assert_eq!(
        u64::from_str_radix("zz", 16).unwrap_err().to_string(),
        "invalid digit found in string"
    );
    assert_eq!(
        u64::from_str_radix("10000000000000000", 16).unwrap_err().to_string(),
        "number too large to fit in target type"
    );
    assert_eq!(
        u64::from_str_radix("", 16).unwrap_err().to_string(),
        "cannot parse integer from empty string"
    );
}

#[test]
fn networkmanager_is_selected_when_resolved_is_unavailable() {
    assert_eq!(preferred_backend_name(false, true), "NetworkManager");
    assert_eq!(preferred_backend_name(true, true), "systemd-resolved");
    assert_eq!(preferred_backend_name(false, false), "Disabled");
}

#[test]
fn parses_unique_addresses_from_system_lookup_output() {
    let addresses = parse_system_lookup_output(
        "10.0.0.77 STREAM server.lab\n10.0.0.77 DGRAM\n2001:db8::77 STREAM server.lab\ninvalid STREAM server.lab\n",
    );
    assert_eq!(addresses, vec![ip("10.0.0.77"), ip("2001:db8::77")]);
}

#[test]
fn a_lookup_without_addresses_is_an_error() {
    assert_eq!(line(&lookup_call("server.lab")), "getent ahosts server.lab");
    assert_eq!(
        resolve_via_system_lookup("server.lab", &wrote("10.0.0.77 STREAM\n")).unwrap(),
        vec![ip("10.0.0.77")]
    );
    assert_eq!(
        resolve_via_system_lookup("server.lab", &wrote("nothing here\n")).unwrap_err(),
        LinuxError::Dns("system lookup returned no A/AAAA addresses for server.lab".into())
    );
    assert_eq!(
        resolve_via_system_lookup("server.lab", &failed(" refused \n")).unwrap_err(),
        LinuxError::Dns("system lookup failed for server.lab: refused".into())
    );
    assert_eq!(
        resolve_via_system_lookup("server.lab", &Reply::NotStarted("gone".into())).unwrap_err(),
        LinuxError::Io("gone".into())
    );
}

#[test]
fn domains_are_marked_for_routing_once() {
    let domains: Vec<String> =
        vec!["~a.lab".into(), ".b.lab".into(), "*.c.lab".into(), " d.lab ".into()];
    let servers = [ip("10.0.0.53"), ip("10.0.0.54")];
    let calls = ResolvedDnsBackend::new().apply_split_domains("eth0", &domains, &servers);
    assert_eq!(line(&calls[0].call), "resolvectl domain eth0 ~a.lab ~b.lab ~c.lab ~d.lab");
    assert_eq!(line(&calls[1].call), "resolvectl dns eth0 10.0.0.53 10.0.0.54");
    assert_eq!(calls.len(), 2);
    let calls = NetworkManagerDnsBackend::new().apply_split_domains("eth0", &domains, &servers);
    assert_eq!(
        calls[0].call.args,
        vec![
            "device",
            "modify",
            "eth0",
            "ipv4.dns",
            "10.0.0.53 10.0.0.54",
            "ipv4.dns-search",
            "~a.lab ~b.lab ~c.lab ~d.lab",
        ]
    );
    assert!(calls[0].result(&wrote("")).is_ok());
    assert!(calls[0].result(&failed("no")).is_err());
    assert!(ResolvedDnsBackend::new().apply_split_domains("eth0", &[], &servers).is_empty());
    let disabled = detect_best_dns_backend(false, false);
    assert_eq!(disabled.name(), "Disabled");
    assert!(disabled.apply_split_domains("eth0", &domains, &servers).is_empty());
}

#[test]
fn domains_are_taken_away_whatever_the_resolver_says() {
    let gone = || Reply::NotStarted("gone".into());
    let manager = NetworkManagerDnsBackend::new();
    let calls = manager.rollback("eth0");
    assert_eq!(calls.len(), 1);
    assert_eq!(calls[0].program, "nmcli");
    assert_eq!(calls[0].args, vec!["device", "modify", "eth0", "ipv4.dns-search", ""]);
    assert_eq!(manager.rollback_result(&vec![gone()]), Err(LinuxError::Io("gone".into())));
    assert_eq!(manager.rollback_result(&vec![failed("no such device")]), Ok(()));
    assert_eq!(manager.rollback_result(&vec![wrote("")]), Ok(()));
    let resolved = ResolvedDnsBackend::new();
    let calls = resolved.rollback("eth0");
    assert_eq!(calls[0].args, vec!["domain", "eth0", ""]);
    assert_eq!(calls[1].args, vec!["dns", "eth0", ""]);
    assert_eq!(resolved.rollback_result(&vec![gone(), gone()]), Ok(()));
    let disabled = DisabledDnsBackend::new();
    assert!(disabled.rollback("eth0").is_empty());
    assert_eq!(disabled.rollback_result(&vec![]), Ok(()));
}

#[test]
fn the_normal_path_is_the_first_default_route() {
    let netlink = NetlinkController::new();
    let out = "default via 192.168.1.1 dev eth0 proto dhcp metric 100\ndefault via 10.0.0.1 dev wlan0 metric 50\n";
    assert_eq!(netlink.get_default_wan_interface(&wrote(out)).unwrap(), Some("eth0".into()));
    assert_eq!(netlink.get_default_wan_interface(&failed("")).unwrap(), None);
    assert_eq!(
        netlink.get_default_wan_interface(&Reply::NotStarted("gone".into())).unwrap_err(),
        LinuxError::Io("gone".into())
    );
    assert_eq!(netlink.get_default_wan_interface(&wrote("")).unwrap(), None);
    assert!(netlink.has_default_route_on_interface("eth0", &wrote(out)).unwrap());
    assert!(!netlink.has_default_route_on_interface("eth1", &wrote(out)).unwrap());
    assert_eq!(
        netlink.get_interface_gateway(&wrote("default via 10.0.0.1 dev wlan0\n")),
        Some(ip("10.0.0.1"))
    );
    assert_eq!(netlink.get_interface_gateway(&failed("")), None);
}

#[test]
fn a_default_route_is_refused_and_others_are_replaced() {
    let netlink = NetlinkController::new();
    assert!(netlink.add_route(&route("0.0.0.0/0", "eth1")).is_err());
    let call = netlink.add_route(&route("10.0.0.0/24", "eth1")).unwrap();
    assert_eq!(line(&call), "ip route replace 10.0.0.0/24 dev eth1 table 52000");
    let mut closed = route("10.0.0.0/24", "");
    closed.route_type = RouteType::Unreachable;
    closed.metric = Some(50);
    let call = netlink.add_route(&closed).unwrap();
    assert_eq!(line(&call), "ip route replace unreachable 10.0.0.0/24 table 52000 metric 50");
}

#[test]
fn routes_that_are_shown_are_read_back() {
    let netlink = NetlinkController::new();
    let routes = netlink
        .get_table_routes(
            52000,
            &wrote("10.0.0.0/24 via 10.1.0.1 dev eth1 metric 100\nunreachable 10.2.0.0/16 metric 50\n10.3.0.1 dev eth2\n"),
        )
        .unwrap();
    assert_eq!(routes.len(), 3);
    assert_eq!(routes[0].destination, net("10.0.0.0/24"));
    assert_eq!(routes[0].gateway, Some(ip("10.1.0.1")));
    assert_eq!(routes[0].metric, Some(100));
    assert_eq!(routes[1].route_type, RouteType::Unreachable);
    assert_eq!(routes[2].destination, net("10.3.0.1/32"));
    assert!(routes.iter().all(|r| r.table == 52000));
}

#[test]
fn a_rule_is_added_only_if_it_is_missing() {
    let netlink = NetlinkController::new();
    let rules = netlink
        .get_rpdb_rules(&wrote("0:\tfrom all lookup local\n12000:\tfrom all lookup 52000\n"))
        .unwrap();
    assert!(rules.contains(&RpdbRule { priority: 12000, table: 52000 }));
    assert!(netlink.ensure_rpdb_rule(12000, 52000, &rules).is_none());
    let call = netlink.ensure_rpdb_rule(12001, 52000, &rules).unwrap();
    assert_eq!(line(&call), "ip rule add pref 12001 lookup 52000");
    assert!(netlink.remove_rpdb_rule(12001, 52000, &rules).is_none());
    assert!(netlink.remove_rpdb_rule(12000, 52000, &rules).is_some());
}

#[test]
fn the_first_empty_table_without_a_rule_is_allocated() {
    let netlink = NetlinkController::new();
    let rules = wrote("12000:\tfrom all lookup 52000\n");
    let mut search = netlink.allocate_table(52000, 52002, &rules).unwrap();
    assert_eq!(search.table(), Some(52001));
    search.advance(&wrote("10.0.0.0/24 dev eth1\n"));
    assert_eq!(search.table(), Some(52002));
    search.advance(&wrote(""));
    assert_eq!(search.call().is_none(), true);
    assert_eq!(search.result().unwrap(), 52002);
    let search = netlink.allocate_table(52000, 52000, &rules).unwrap();
    assert!(search.call().is_none());
    assert!(search.result().is_err());
}

#[test]
fn hooks_are_recognised_word_by_word() {
    let rules = "-P OUTPUT ACCEPT\n-A OUTPUT -o eth0 -j REV_OUT_eth0_A\n-A OUTPUT -o eth1 -j REV_OUT_eth0_A\n";
    assert!(output_has_hook(rules, "eth0", "REV_OUT_eth0_A"));
    assert!(!output_has_hook(rules, "eth0", "REV_OUT_eth0_B"));
    assert_eq!(output_interfaces_for_chain(rules, "REV_OUT_eth0_A"), vec!["eth0", "eth1"]);
    assert_ne!(chain_name("eth0", "_A"), chain_name("eth0", "_B"));
}

/// The calls of a session whose every command succeeds, except checks, and which finds no hook.
fn filter_calls(v4_list: &str) -> Vec<String> {
    let allowed: Vec<(String, Option<u16>)> = vec![("10.0.0.1/32".into(), None)];
    let blocked = vec![net("203.0.113.0/24")];
    let mut session = FirewallController::apply_egress_policy("eth0", &allowed, &blocked);
    let mut calls = vec![];
    while let Some(call) = session.call() {
        let text = line(&call);
        let reply = if text.contains(" -C ") {
            failed("")
        } else if text.contains(" -S ") && text.starts_with("iptables") && calls.is_empty() {
            wrote(v4_list)
        } else {
            wrote("")
        };
        session.advance(&reply);
        calls.push(text);
        assert!(calls.len() < 100);
    }
    assert!(session.result().is_ok());
    calls
}

#[test]
fn a_filter_is_complete_before_it_is_hooked() {
    let calls = filter_calls("");
    let chain = chain_name("eth0", "_A");
    let v4: Vec<&String> = calls.iter().filter(|c| c.starts_with("iptables")).collect();
    let hook = v4.iter().position(|c| c.contains("-I OUTPUT")).unwrap();
    let last = v4.iter().position(|c| c.ends_with(&format!("-A {} -j DROP", chain))).unwrap();
    let block = v4.iter().position(|c| c.contains("-d 203.0.113.0/24 -j DROP")).unwrap();
    let established = v4.iter().position(|c| c.contains("ESTABLISHED,RELATED")).unwrap();
    let allow = v4.iter().position(|c| c.contains("-d 10.0.0.1/32 -j ACCEPT")).unwrap();
    assert!(block < established && established < allow && allow < last && last < hook);
    assert!(calls.iter().any(|c| c.starts_with("ip6tables") && c.contains("-I OUTPUT")));
}

#[test]
fn a_filter_alternates_between_two_chains() {
    let a = chain_name("eth0", "_A");
    let b = chain_name("eth0", "_B");
    let calls = filter_calls(&format!("-A OUTPUT -o eth0 -j {}\n", a));
    assert!(calls.iter().any(|c| c.contains(&format!("-A {} -j DROP", b))));
    assert!(!calls[..calls.len() / 2].iter().any(|c| c.contains(&format!("-A {} -j DROP", a))));
}

#[test]
fn a_filter_that_cannot_be_filled_is_not_hooked() {
    let mut session = FirewallController::apply_egress_whitelist("eth0", &[]);
    let mut calls = vec![];
    while let Some(call) = session.call() {
        let text = line(&call);
        let reply = if text.contains("ESTABLISHED") { failed("bad rule") } else { wrote("") };
        session.advance(&reply);
        calls.push(text);
    }
    let error = session.result().unwrap_err().to_string();
    assert!(error.contains("bad rule"));
    assert!(!calls.iter().any(|c| c.contains("-I OUTPUT")));
}

#[test]
fn neighbors_come_from_both_sources_once() {
    let netlink = NetlinkController::new();
    let arp = "IP address       HW type     Flags       HW address            Mask     Device\n10.0.0.9         0x1         0x2         aa:bb:cc:dd:ee:ff     *        eth1\n10.0.0.8         0x1         0x2         aa:bb:cc:dd:ee:f0     *        eth2\n";
    let shown = wrote("10.0.0.9 lladdr aa:bb:cc:dd:ee:ff REACHABLE\n10.0.0.7 lladdr aa:bb:cc:dd:ee:f1 STALE\n");
    let neighbors = netlink.get_interface_neighbors("eth1", Some(arp), &shown);
    assert!(neighbors.contains(&ip("10.0.0.9")));
    assert!(!neighbors.contains(&ip("10.0.0.8")));
    assert_eq!(neighbors.iter().filter(|n| **n == ip("10.0.0.9")).count(), 1);
}

/// The calls of a clean-up on a host that has one chain of ours, hooked from one interface.
#[test]
fn a_clean_up_unhooks_and_deletes_every_chain() {
    let chain = chain_name("eth0", "_A");
    let mut hooks = 1;
    let mut session = FirewallController::cleanup_all();
    let mut calls = vec![];
    while let Some(call) = session.call() {
        let text = line(&call);
        let reply = if call.program == "iptables-save" {
            wrote(&format!("*filter\n:OUTPUT ACCEPT [0:0]\n:{} - [0:0]\nCOMMIT\n", chain))
        } else if text.contains("-S") && call.program == "iptables" && hooks > 0 {
            wrote(&format!("-A OUTPUT -o eth0 -j {}\n", chain))
        } else {
            if text.contains("-D") {
                hooks -= 1;
            }
            wrote("")
        };
        session.advance(&reply);
        calls.push(text);
        assert!(calls.len() < 100);
    }
    let unhook = calls.iter().position(|c| c.contains("-D OUTPUT -o eth0")).unwrap();
    let flush = calls.iter().position(|c| c.contains(&format!("-F {}", chain))).unwrap();
    let delete = calls.iter().position(|c| c.contains(&format!("-X {}", chain))).unwrap();
    assert!(unhook < flush && flush < delete);
    assert!(calls.iter().any(|c| c.starts_with("ip6tables-save")));
    assert_eq!(declared_chains(&format!(":{} - [0:0]\n:OTHER - [0:0]\n", chain)), vec![chain]);
}

#[test]
fn removal_goes_through_every_generation_of_both_families() {
    let mut session = FirewallController::remove_egress_whitelist("eth0");
    let mut deleted = 0;
    let mut n = 0;
    while let Some(call) = session.call() {
        if line(&call).contains("-X") {
            deleted += 1;
        }
        session.advance(&failed("no"));
        n += 1;
        assert!(n < 100);
    }
    assert_eq!(deleted, 6);
}
