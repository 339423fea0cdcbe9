use reverse_tool::classifier::TargetClassifier;
use reverse_tool::config::canonical_domain;
use reverse_tool::env::{extract_target_domain, parse_ip_net};
use reverse_tool::model::TargetMatcher;
use reverse_tool::names::{comes_before, sort_names, NameMap};
use reverse_tool::net::{insert_ip, nets_overlap, IpAddr, IpNet};
use reverse_tool::strings;

fn ip(s: &str) -> IpAddr {
    IpAddr::parse(s).unwrap()
}

fn net(s: &str) -> IpNet {
    IpNet::parse(s).unwrap()
}

#[test]
fn white_space_is_what_unicode_says() {
    let mut n: u32 = 0;
    while n <= 0x10ffff {
        if let Some(c) = char::from_u32(n) {
            assert_eq!(strings::is_white(c), c.is_whitespace(), "{:x}", n);
        }
        n += 1;
    }
}

#[test]
fn pieces_of_text_are_those_of_the_standard_library() {
    for s in ["", " a ", "\u{2003}x\u{3000}", "a b\t c", "a,b,,c", "x\r\ny\n\nz", "\n", "a\r", "ü=ß=b"] {
        assert_eq!(strings::trim(s), s.trim());
        assert_eq!(strings::words(s), s.split_whitespace().collect::<Vec<_>>());
        assert_eq!(strings::split(s, ','), s.split(',').collect::<Vec<_>>());
        assert_eq!(strings::lines(s), s.lines().collect::<Vec<_>>());
        assert_eq!(strings::split_once(s, '='), s.split_once('='));
        assert_eq!(strings::rsplit_once(s, '='), s.rsplit_once('='));
        assert_eq!(strings::lower_ascii(s), s.to_ascii_lowercase());
        assert_eq!(strings::after(s, "b"), s.split_once("b").map(|p| p.1));
        assert_eq!(strings::strip_prefix(s, "a"), s.strip_prefix("a"));
    }
}

#[test]
fn numbers_are_read_and_written_as_usual() {
    for s in ["0", "+7", "-1", "", "+", "42", "65535", "65536", "4294967295", "4294967296", "1a", " 1"] {
        assert_eq!(strings::parse_u16(s), s.parse::<u16>().ok(), "{}", s);
        assert_eq!(strings::parse_u32(s), s.parse::<u32>().ok(), "{}", s);
    }
    for n in [0u64, 9, 10, 52000, u64::MAX] {
        assert_eq!(strings::decimal(n), n.to_string());
    }
}

#[test]
fn addresses_are_read_and_written_as_usual() {
    for s in ["10.0.0.1", "255.255.255.255", "::", "::1", "2001:db8::10", "fe80::1"] {
        assert_eq!(ip(s).to_string(), s);
        assert_eq!(s.parse::<core::net::IpAddr>().unwrap().to_string(), ip(s).to_string());
    }
    for s in ["", "10.0.0", "10.0.0.256", "x", "10.0.0.1/32", ":::"] {
        assert!(IpAddr::parse(s).is_none());
    }
    assert!(ip("127.0.0.2").is_loopback() && ip("::1").is_loopback());
    assert!(!ip("10.0.0.1").is_loopback());
    assert!(ip("fe80::1").is_link_local_v6() && !ip("2001:db8::1").is_link_local_v6());
    assert!(ip("10.0.0.1").is_ipv4() && ip("::1").is_ipv6());
}

#[test]
fn networks_agree_with_the_crate_that_reads_them() {
    for s in ["10.1.2.3/8", "192.168.56.10/24", "0.0.0.0/0", "10.0.0.1/32", "2001:db8::10/64", "::/0"] {
        let outside: ipnet::IpNet = s.parse().unwrap();
        let own = net(s);
        assert_eq!(own.to_string(), outside.to_string());
        assert_eq!(own.prefix_len(), outside.prefix_len());
        assert_eq!(own.addr().to_string(), outside.addr().to_string());
        assert_eq!(own.network().to_string(), outside.network().to_string());
        assert_eq!(own.trunc().to_string(), outside.trunc().to_string());
        for a in ["10.200.0.1", "192.168.56.255", "2001:db8::ffff", "8.8.8.8"] {
            let b: core::net::IpAddr = a.parse().unwrap();
            assert_eq!(own.contains(&ip(a)), outside.contains(&b));
        }
    }
    assert!(IpNet::parse("10.0.0.0/33").is_none());
    assert!(IpNet::parse("10.0.0.0").is_none());
    assert!(IpNet::new(ip("10.0.0.1"), 33).is_none());
    assert_eq!(IpNet::new(ip("::1"), 128), Some(net("::1/128")));
    assert_eq!(IpNet::of_host(ip("10.0.0.1")), net("10.0.0.1/32"));
}

#[test]
fn networks_overlap_if_they_share_an_address() {
    assert!(nets_overlap(net("10.0.0.0/24"), net("10.0.0.99/32")));
    assert!(nets_overlap(net("10.0.0.99/32"), net("10.0.0.0/24")));
    assert!(!nets_overlap(net("10.0.0.0/24"), net("10.0.1.0/24")));
    assert!(!nets_overlap(net("0.0.0.0/0"), net("::/0")));
}

#[test]
fn names_are_kept_in_order() {
    let mut map: NameMap<Vec<IpAddr>> = NameMap::new();
    for name in ["b", "a", "c", "b"] {
        let n = map.len();
        map.insert(name.to_string(), vec![ip("10.0.0.1"); n]);
    }
    assert_eq!(map.len(), 3);
    assert_eq!(map.name_at(0), "a");
    assert_eq!(map.name_at(2), "c");
    assert_eq!(map.get("b").unwrap().len(), 3);
    assert_eq!(map.value_at(1).len(), 3);
    assert!(map.get("d").is_none());
    assert!(!map.is_empty());
    let list = vec!["b".to_string(), "a".to_string(), "b".to_string()];
    assert_eq!(sort_names(&list), vec!["a", "b"]);
    assert!(comes_before("a", "ab") && comes_before("ab", "b") && !comes_before("a", "a"));
}

#[test]
fn addresses_are_kept_in_order() {
    let mut list = vec![];
    for a in ["10.0.0.9", "::1", "10.0.0.1", "10.0.0.9"] {
        insert_ip(&mut list, ip(a));
    }
    assert_eq!(list, vec![ip("10.0.0.1"), ip("10.0.0.9"), ip("::1")]);
}

#[test]
fn domains_have_one_canonical_form() {
    assert_eq!(canonical_domain(" Server.LAB. "), "server.lab");
    assert_eq!(canonical_domain("server.lab"), canonical_domain("SERVER.LAB"));
    assert_eq!(canonical_domain("ÄÖ.Lab"), "ÄÖ.lab");
    assert_eq!(
        TargetClassifier::parse("ÄÖ.Lab").unwrap(),
        TargetMatcher::Domain("äö.lab".into())
    );
    assert_eq!(extract_target_domain("https://Server.LAN/api"), Some("server.lan".into()));
    assert_eq!(extract_target_domain("10.0.0.1"), None);
    assert_eq!(parse_ip_net("192.0.2.10"), Some(net("192.0.2.10/32")));
    assert_eq!(parse_ip_net("192.0.2.0/24"), Some(net("192.0.2.0/24")));
    assert_eq!(parse_ip_net("nonsense"), None);
}

#[test]
fn a_network_is_its_address_and_its_prefix() {
    let n = IpNet::new(ip("10.0.0.9"), 24).unwrap();
    assert_eq!((n.addr(), n.prefix_len()), (ip("10.0.0.9"), 24));
    assert!(IpNet::new(ip("10.0.0.9"), 33).is_none());
    let host = IpNet::of_host(ip("10.0.0.9"));
    assert_eq!((host.addr(), host.prefix_len()), (ip("10.0.0.9"), 32));
    assert!(host.contains(&ip("10.0.0.9")) && !host.contains(&ip("10.0.0.8")));
    let host = IpNet::of_host(ip("2001:db8::1"));
    assert_eq!((host.addr(), host.prefix_len()), (ip("2001:db8::1"), 128));
    assert_eq!(host.to_string(), "2001:db8::1/128");
}
