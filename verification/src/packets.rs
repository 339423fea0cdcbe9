//! What the rules of a chain do with a packet.

use vstd::prelude::*;
use crate::firewall;
use crate::net::{self, IpAddr, IpNet};
use crate::seqs;
use crate::text;

verus! {

// ---------------------------------------------------------------------------------------------
// Meaning
// ---------------------------------------------------------------------------------------------
/// A packet that leaves the host: its protocol, its destination, its ports, and whether it belongs
/// to a connection that exists.
pub struct PacketView {
    pub protocol: Seq<char>,
    pub destination: IpAddr,
    pub source_port: nat,
    pub destination_port: nat,
    pub established: bool,
}

/// Whether a text names a network that holds an address.
pub open spec fn reaches(written: Seq<char>, ip: IpAddr) -> bool {
    exists|n: IpNet| (net::net_from(written) == Some(n) || written == n.text()) && #[trigger] n.holds(ip)
}

/// Whether a text names a port: as one number, or as the first and the last of a range.
pub open spec fn in_ports(written: Seq<char>, port: nat) -> bool {
    match text::split_once(written, ':') {
        Some((a, b)) => text::number(a, 10, 65535) matches Some(x) && text::number(
            b,
            10,
            65535,
        ) matches Some(y) && x <= port <= y,
        None => text::number(written, 10, 65535) == Some(port as int),
    }
}

/// Whether a packet is as an option of a rule says. An option that says nothing of packets holds
/// of every packet, and one that is not known of none.
pub open spec fn option_fits(option: Seq<char>, value: Seq<char>, p: PacketView) -> bool {
    if option == "-d"@ {
        reaches(value, p.destination)
    } else if option == "-p"@ {
        p.protocol == value
    } else if option == "--dport"@ {
        in_ports(value, p.destination_port)
    } else if option == "--sport"@ {
        in_ports(value, p.source_port)
    } else if option == "--ctstate"@ {
        value == "ESTABLISHED,RELATED"@ && p.established
    } else {
        option == "-A"@ || option == "-m"@ || option == "-j"@
    }
}

/// Whether a packet is as all options of a rule say.
pub open spec fn fits(args: Seq<Seq<char>>, p: PacketView) -> bool
    decreases args.len(),
{
    if args.len() == 0 {
        true
    } else if args.len() == 1 {
        false
    } else {
        option_fits(args[0], args[1], p) && fits(args.skip(2), p)
    }
}

/// What a rule does with a packet that it is for.
pub open spec fn jump(args: Seq<Seq<char>>) -> Seq<char>
    decreases args.len(),
{
    if args.len() < 2 {
        Seq::empty()
    } else if args[0] == "-j"@ {
        args[1]
    } else {
        jump(args.skip(2))
    }
}

/// The rules that are for a packet.
pub open spec fn is_for(p: PacketView) -> spec_fn(Seq<Seq<char>>) -> bool {
    |args: Seq<Seq<char>>| fits(args, p)
}

/// What the rules do with a packet: the first that is for it decides.
pub open spec fn verdict(rules: Seq<Seq<Seq<char>>>, p: PacketView) -> Option<Seq<char>> {
    let k = seqs::first_where(rules, is_for(p));
    if k < rules.len() {
        Some(jump(rules[k]))
    } else {
        None
    }
}

// ---------------------------------------------------------------------------------------------
// Words and numbers
// ---------------------------------------------------------------------------------------------
proof fn lemma_word_then(w: Seq<char>, rest: Seq<char>)
    requires
        text::solid(w),
        w.len() > 0,
    ensures
        text::words(w + (seq![' '] + rest)) == seq![w] + text::words(rest),
{
    let s = w + (seq![' '] + rest);
    assert(text::is_white(' '));
    assert(s[w.len() as int] == ' ');
    assert forall|j: int| 0 <= j < w.len() implies !text::is_white(#[trigger] s[j]) by {
        assert(s[j] == w[j]);
    }
    text::lemma_word_len_is(s, w.len() as int);
    assert(s.take(w.len() as int) =~= w);
    let t = s.skip(w.len() as int);
    assert(t =~= seq![' '] + rest);
    assert(t[0] == ' ');
    assert(t.skip(1) =~= rest);
    assert(text::words(t) == text::words(rest));
    assert(!text::is_white(s[0]));
}

proof fn lemma_one_word(w: Seq<char>)
    requires
        text::solid(w),
        w.len() > 0,
    ensures
        text::words(w) == seq![w],
{
    text::lemma_word_len_is(w, w.len() as int);
    assert(w.take(w.len() as int) =~= w);
    assert(w.skip(w.len() as int).len() == 0);
    assert(seq![w] + text::words(w.skip(w.len() as int)) =~= seq![w]);
    assert(!text::is_white(w[0]));
}

proof fn lemma_written_port(port: u16)
    ensures
        text::decimal(port as nat).len() > 0,
        text::solid(text::decimal(port as nat)),
        forall|q: nat| #[trigger] in_ports(text::decimal(port as nat), q) <==> q == port,
{
    let s = text::decimal(port as nat);
    text::lemma_decimal(port as nat);
    assert forall|i: int| 0 <= i < s.len() implies !text::is_white(#[trigger] s[i]) by {
        assert('0' <= s[i] && s[i] <= '9');
    }
    assert forall|i: int| 0 <= i < s.len() implies !seq![':'].contains(#[trigger] s[i]) by {
        assert('0' <= s[i] && s[i] <= '9');
    }
    text::lemma_first_of_is(s, seq![':'], s.len() as int);
    assert('0' <= s[0] && s[0] <= '9');
    assert(text::number(s, 10, 65535) == Some(port as int));
}

proof fn lemma_dhcp_ports(q: nat)
    ensures
        in_ports("67:68"@, q) <==> 67 <= q <= 68,
{
    reveal_strlit("67:68");
    let s = "67:68"@;
    assert(seq![':'][0] == ':');
    text::lemma_first_of_is(s, seq![':'], 2);
    text::lemma_decimal(67);
    text::lemma_decimal(68);
    reveal_with_fuel(text::decimal, 3);
    assert(s.take(2) =~= text::decimal(67));
    assert(s.skip(3) =~= text::decimal(68));
    assert(s.take(2)[0] == '6');
    assert(s.skip(3)[0] == '6');
    assert(text::number(s.take(2), 10, 65535) == Some(67int));
    assert(text::number(s.skip(3), 10, 65535) == Some(68int));
}

/// The options differ from each other, and hold no white space.
proof fn lemma_options()
    ensures
        "-d"@ != "-p"@ && "-d"@ != "--dport"@ && "-d"@ != "--sport"@ && "-d"@ != "--ctstate"@,
        "-p"@ != "--dport"@ && "-p"@ != "--sport"@ && "-p"@ != "--ctstate"@,
        "--dport"@ != "--sport"@ && "--dport"@ != "--ctstate"@ && "--sport"@ != "--ctstate"@,
        "-A"@ != "-d"@ && "-A"@ != "-p"@ && "-A"@ != "--dport"@ && "-A"@ != "--sport"@ && "-A"@
            != "--ctstate"@ && "-A"@ != "-j"@,
        "-m"@ != "-d"@ && "-m"@ != "-p"@ && "-m"@ != "--dport"@ && "-m"@ != "--sport"@ && "-m"@
            != "--ctstate"@ && "-m"@ != "-j"@,
        "-j"@ != "-d"@ && "-j"@ != "-p"@ && "-j"@ != "--dport"@ && "-j"@ != "--sport"@ && "-j"@
            != "--ctstate"@,
        "udp"@ != "tcp"@,
        "ACCEPT"@ != "DROP"@,
{
    reveal_strlit("-d");
    reveal_strlit("-p");
    reveal_strlit("-A");
    reveal_strlit("-m");
    reveal_strlit("-j");
    reveal_strlit("--dport");
    reveal_strlit("--sport");
    reveal_strlit("--ctstate");
    reveal_strlit("udp");
    reveal_strlit("tcp");
    reveal_strlit("ACCEPT");
    reveal_strlit("DROP");
    assert("-d"@[1] == 'd' && "-p"@[1] == 'p' && "-A"@[1] == 'A' && "-m"@[1] == 'm' && "-j"@[1]
        == 'j');
    assert("--dport"@[2] == 'd' && "--sport"@[2] == 's');
    assert("udp"@[0] == 'u' && "tcp"@[0] == 't');
    assert("ACCEPT"@.len() != "DROP"@.len());
}

proof fn lemma_literals()
    ensures
        "-d "@ == "-d"@ + seq![' '],
        " -p "@ == seq![' '] + "-p"@ + seq![' '],
        " --dport "@ == seq![' '] + "--dport"@ + seq![' '],
        " -j ACCEPT"@ == seq![' '] + "-j"@ + seq![' '] + "ACCEPT"@,
        " -j DROP"@ == seq![' '] + "-j"@ + seq![' '] + "DROP"@,
        text::solid("-d"@) && text::solid("-p"@) && text::solid("--dport"@) && text::solid("-j"@),
        text::solid("udp"@) && text::solid("tcp"@) && text::solid("ACCEPT"@) && text::solid(
            "DROP"@,
        ),
        "-d"@.len() > 0 && "-p"@.len() > 0 && "--dport"@.len() > 0 && "-j"@.len() > 0,
        "udp"@.len() > 0 && "tcp"@.len() > 0 && "ACCEPT"@.len() > 0 && "DROP"@.len() > 0,
{
    reveal_strlit("-d ");
    reveal_strlit(" -p ");
    reveal_strlit(" --dport ");
    reveal_strlit(" -j ACCEPT");
    reveal_strlit(" -j DROP");
    reveal_strlit("-d");
    reveal_strlit("-p");
    reveal_strlit("--dport");
    reveal_strlit("-j");
    reveal_strlit("udp");
    reveal_strlit("tcp");
    reveal_strlit("ACCEPT");
    reveal_strlit("DROP");
    assert("-d "@ =~= "-d"@ + seq![' ']);
    assert(" -p "@ =~= seq![' '] + "-p"@ + seq![' ']);
    assert(" --dport "@ =~= seq![' '] + "--dport"@ + seq![' ']);
    assert(" -j ACCEPT"@ =~= seq![' '] + "-j"@ + seq![' '] + "ACCEPT"@);
    assert(" -j DROP"@ =~= seq![' '] + "-j"@ + seq![' '] + "DROP"@);
}

proof fn lemma_then(option: Seq<char>, value: Seq<char>, rest: Seq<Seq<char>>, p: PacketView)
    ensures
        fits(seq![option, value] + rest, p) == (option_fits(option, value, p) && fits(rest, p)),
        jump(seq![option, value] + rest) == if option == "-j"@ {
            value
        } else {
            jump(rest)
        },
{
    let all = seq![option, value] + rest;
    assert(all[0] == option && all[1] == value);
    assert(all.skip(2) =~= rest);
}

// ---------------------------------------------------------------------------------------------
// Rules
// ---------------------------------------------------------------------------------------------
/// A rule that drops a network.
proof fn lemma_drop_rule(chain: Seq<char>, written: Seq<char>, p: PacketView)
    ensures
        ({
            let rule = seq!["-A"@, chain, "-d"@, written, "-j"@, "DROP"@];
            &&& fits(rule, p) <==> reaches(written, p.destination)
            &&& jump(rule) == "DROP"@
        }),
{
    lemma_options();
    let none = Seq::<Seq<char>>::empty();
    let c = seq!["-j"@, "DROP"@] + none;
    let b = seq!["-d"@, written] + c;
    let a = seq!["-A"@, chain] + b;
    lemma_then("-j"@, "DROP"@, none, p);
    lemma_then("-d"@, written, c, p);
    lemma_then("-A"@, chain, b, p);
    assert(a =~= seq!["-A"@, chain, "-d"@, written, "-j"@, "DROP"@]);
}

/// The rule at the end, which is for every packet.
proof fn lemma_last_rule(chain: Seq<char>, p: PacketView)
    ensures
        fits(seq!["-A"@, chain, "-j"@, "DROP"@], p),
        jump(seq!["-A"@, chain, "-j"@, "DROP"@]) == "DROP"@,
{
    lemma_options();
    let none = Seq::<Seq<char>>::empty();
    let b = seq!["-j"@, "DROP"@] + none;
    lemma_then("-j"@, "DROP"@, none, p);
    lemma_then("-A"@, chain, b, p);
    assert(seq!["-A"@, chain] + b =~= seq!["-A"@, chain, "-j"@, "DROP"@]);
}

/// What goes with every policy: connections that exist, leases of addresses, and diagnostics.
proof fn lemma_standing_rules(chain: Seq<char>, v6: bool, p: PacketView)
    ensures
        ({
            let s = firewall::standing_args(chain, v6);
            &&& s.len() == 3
            &&& fits(s[0], p) <==> p.established
            &&& fits(s[1], p) <==> p.protocol == "udp"@ && 67 <= p.destination_port <= 68 && 67
                <= p.source_port <= 68
            &&& fits(s[2], p) <==> p.protocol == if v6 {
                "icmpv6"@
            } else {
                "icmp"@
            }
            &&& forall|i: int| 0 <= i < 3 ==> jump(#[trigger] s[i]) == "ACCEPT"@
        }),
{
    lemma_options();
    lemma_dhcp_ports(p.destination_port);
    lemma_dhcp_ports(p.source_port);
    let s = firewall::standing_args(chain, v6);
    let none = Seq::<Seq<char>>::empty();
    let end = seq!["-j"@, "ACCEPT"@] + none;
    lemma_then("-j"@, "ACCEPT"@, none, p);
    let a2 = seq!["--ctstate"@, "ESTABLISHED,RELATED"@] + end;
    let a1 = seq!["-m"@, "conntrack"@] + a2;
    lemma_then("--ctstate"@, "ESTABLISHED,RELATED"@, end, p);
    lemma_then("-m"@, "conntrack"@, a2, p);
    lemma_then("-A"@, chain, a1, p);
    assert(seq!["-A"@, chain] + a1 =~= s[0]);
    let b3 = seq!["--sport"@, "67:68"@] + end;
    let b2 = seq!["--dport"@, "67:68"@] + b3;
    let b1 = seq!["-p"@, "udp"@] + b2;
    lemma_then("--sport"@, "67:68"@, end, p);
    lemma_then("--dport"@, "67:68"@, b3, p);
    lemma_then("-p"@, "udp"@, b2, p);
    lemma_then("-A"@, chain, b1, p);
    assert(seq!["-A"@, chain] + b1 =~= s[1]);
    let proto = if v6 {
        "icmpv6"@
    } else {
        "icmp"@
    };
    let c1 = seq!["-p"@, proto] + end;
    lemma_then("-p"@, proto, end, p);
    lemma_then("-A"@, chain, c1, p);
    assert(seq!["-A"@, chain] + c1 =~= s[2]);
}

/// A rule that allows a network on all ports.
proof fn lemma_open_rule(chain: Seq<char>, target: Seq<char>, p: PacketView)
    requires
        text::solid(target),
        target.len() > 0,
    ensures
        ({
            let rule = firewall::append_args(chain, "-d "@ + target + " -j ACCEPT"@);
            &&& fits(rule, p) <==> reaches(target, p.destination)
            &&& jump(rule) == "ACCEPT"@
        }),
{
    lemma_options();
    lemma_literals();
    let sp = seq![' '];
    let t4 = "ACCEPT"@;
    let t3 = "-j"@ + (sp + t4);
    let t2 = target + (sp + t3);
    let t1 = "-d"@ + (sp + t2);
    assert("-d "@ + target + " -j ACCEPT"@ =~= t1);
    lemma_one_word(t4);
    lemma_word_then("-j"@, t4);
    lemma_word_then(target, t3);
    lemma_word_then("-d"@, t2);
    let none = Seq::<Seq<char>>::empty();
    let c = seq!["-j"@, "ACCEPT"@] + none;
    let b = seq!["-d"@, target] + c;
    lemma_then("-j"@, "ACCEPT"@, none, p);
    lemma_then("-d"@, target, c, p);
    lemma_then("-A"@, chain, b, p);
    assert(text::words(t1) =~= b);
}

/// A rule that allows a network on one port of a protocol.
proof fn lemma_port_rule(
    chain: Seq<char>,
    target: Seq<char>,
    protocol: Seq<char>,
    port: u16,
    p: PacketView,
)
    requires
        text::solid(target),
        target.len() > 0,
        text::solid(protocol),
        protocol.len() > 0,
    ensures
        ({
            let rule = firewall::append_args(
                chain,
                "-d "@ + target + " -p "@ + protocol + " --dport "@ + text::decimal(port as nat)
                    + " -j ACCEPT"@,
            );
            &&& fits(rule, p) <==> reaches(target, p.destination) && p.protocol == protocol
                && p.destination_port == port
            &&& jump(rule) == "ACCEPT"@
        }),
{
    lemma_options();
    lemma_literals();
    lemma_written_port(port);
    let d = text::decimal(port as nat);
    let sp = seq![' '];
    let t8 = "ACCEPT"@;
    let t7 = "-j"@ + (sp + t8);
    let t6 = d + (sp + t7);
    let t5 = "--dport"@ + (sp + t6);
    let t4 = protocol + (sp + t5);
    let t3 = "-p"@ + (sp + t4);
    let t2 = target + (sp + t3);
    let t1 = "-d"@ + (sp + t2);
    let text = "-d "@ + target + " -p "@ + protocol + " --dport "@ + d + " -j ACCEPT"@;
    assert(text =~= t1) by {
        assert(d + " -j ACCEPT"@ =~= t6);
        assert(" --dport "@ + t6 =~= sp + t5);
        assert(" -p "@ + t4 =~= sp + t3);
        assert("-d "@ + t2 =~= t1);
        assert(text =~= "-d "@ + (target + (" -p "@ + (protocol + (" --dport "@ + (d
            + " -j ACCEPT"@))))));
    }
    lemma_one_word(t8);
    lemma_word_then("-j"@, t8);
    lemma_word_then(d, t7);
    lemma_word_then("--dport"@, t6);
    lemma_word_then(protocol, t5);
    lemma_word_then("-p"@, t4);
    lemma_word_then(target, t3);
    lemma_word_then("-d"@, t2);
    let none = Seq::<Seq<char>>::empty();
    let a4 = seq!["-j"@, "ACCEPT"@] + none;
    let a3 = seq!["--dport"@, d] + a4;
    let a2 = seq!["-p"@, protocol] + a3;
    let a1 = seq!["-d"@, target] + a2;
    lemma_then("-j"@, "ACCEPT"@, none, p);
    lemma_then("--dport"@, d, a4, p);
    lemma_then("-p"@, protocol, a3, p);
    lemma_then("-d"@, target, a2, p);
    lemma_then("-A"@, chain, a1, p);
    assert(text::words(t1) =~= a1);
}

/// Whether what is allowed is written without white space inside, as far as it can be read.
pub open spec fn well_written(allowed: Seq<(Seq<char>, Option<u16>)>) -> bool {
    forall|j: int|
        0 <= j < allowed.len() && net::net_from(text::trim((#[trigger] allowed[j]).0)) is Some
            ==> text::solid(text::trim(allowed[j].0)) && text::trim(allowed[j].0).len() > 0
}

/// Whether an allowed target lets a packet through: its network holds the destination and, if it
/// has a port, the packet is of TCP or UDP and for this port.
pub open spec fn lets_through(t: (Seq<char>, Option<u16>), p: PacketView) -> bool {
    &&& net::net_from(text::trim(t.0)) is Some
    &&& reaches(text::trim(t.0), p.destination)
    &&& match t.1 {
        Some(port) => (p.protocol == "tcp"@ || p.protocol == "udp"@) && p.destination_port == port,
        None => true,
    }
}

/// The rules of one allowed target: each accepts, and one of them is for the packets that the
/// target lets through.
proof fn lemma_allow_rules(
    chain: Seq<char>,
    t: (Seq<char>, Option<u16>),
    rule: (bool, Seq<char>),
    p: PacketView,
)
    requires
        net::net_from(text::trim(t.0)) is Some ==> text::solid(text::trim(t.0)) && text::trim(
            t.0,
        ).len() > 0,
        firewall::allow_rules()(t).contains(rule),
    ensures
        jump(firewall::append_args(chain, rule.1)) == "ACCEPT"@,
        fits(firewall::append_args(chain, rule.1), p) ==> lets_through(t, p),
        net::net_from(text::trim(t.0)) matches Some(n) && rule.0 == !(n.base() is V4),
{
    lemma_options();
    lemma_literals();
    let rs = firewall::allow_rules()(t);
    let i = choose|i: int| 0 <= i < rs.len() && rs[i] == rule;
    let target = text::trim(t.0);
    match t.1 {
        Some(port) => {
            lemma_port_rule(chain, target, "udp"@, port, p);
            lemma_port_rule(chain, target, "tcp"@, port, p);
        },
        None => {
            lemma_open_rule(chain, target, p);
        },
    }
}

proof fn lemma_allows(chain: Seq<char>, t: (Seq<char>, Option<u16>), p: PacketView) -> (rule: (
    bool,
    Seq<char>,
))
    requires
        net::net_from(text::trim(t.0)) is Some ==> text::solid(text::trim(t.0)) && text::trim(
            t.0,
        ).len() > 0,
        lets_through(t, p),
    ensures
        firewall::allow_rules()(t).contains(rule),
        fits(firewall::append_args(chain, rule.1), p),
        rule.0 == !(net::net_from(text::trim(t.0))->0.base() is V4),
{
    lemma_options();
    lemma_literals();
    let rs = firewall::allow_rules()(t);
    let target = text::trim(t.0);
    match t.1 {
        Some(port) => {
            lemma_port_rule(chain, target, "udp"@, port, p);
            lemma_port_rule(chain, target, "tcp"@, port, p);
            if p.protocol == "udp"@ {
                assert(rs.contains(rs[0]));
                rs[0]
            } else {
                assert(rs.contains(rs[1]));
                rs[1]
            }
        },
        None => {
            lemma_open_rule(chain, target, p);
            assert(rs.contains(rs[0]));
            rs[0]
        },
    }
}

// ---------------------------------------------------------------------------------------------
// Chains
// ---------------------------------------------------------------------------------------------
/// The rules of a chain for the allowed targets: each accepts, and is for a packet only if one of
/// the targets lets it through.
proof fn lemma_plan(
    chain: Seq<char>,
    allowed: Seq<(Seq<char>, Option<u16>)>,
    v6: bool,
    p: PacketView,
)
    requires
        well_written(allowed),
    ensures
        ({
            let plan = seqs::flat(
                seqs::flat(allowed, firewall::allow_rules()),
                firewall::plan_args(chain, v6),
            );
            &&& forall|k: int| 0 <= k < plan.len() ==> jump(#[trigger] plan[k]) == "ACCEPT"@
            &&& forall|k: int|
                0 <= k < plan.len() && fits(#[trigger] plan[k], p) ==> exists|j: int|
                    0 <= j < allowed.len() && lets_through(#[trigger] allowed[j], p)
            &&& forall|j: int|
                0 <= j < allowed.len() && lets_through(#[trigger] allowed[j], p) && v6 == !(
                net::net_from(text::trim(allowed[j].0))->0.base() is V4) ==> exists|k: int|
                    0 <= k < plan.len() && fits(#[trigger] plan[k], p)
        }),
{
    let f = firewall::allow_rules();
    let g = firewall::plan_args(chain, v6);
    let all = seqs::flat(allowed, f);
    let plan = seqs::flat(all, g);
    assert forall|k: int| 0 <= k < plan.len() implies jump(#[trigger] plan[k]) == "ACCEPT"@ && (
    fits(plan[k], p) ==> exists|j: int|
        0 <= j < allowed.len() && lets_through(#[trigger] allowed[j], p)) by {
        assert(plan.contains(plan[k]));
        seqs::lemma_flat_contains(all, g, plan[k]);
        let i = choose|i: int| 0 <= i < all.len() && #[trigger] g(all[i]).contains(plan[k]);
        assert(g(all[i])[0] == plan[k]);
        assert(all.contains(all[i]));
        seqs::lemma_flat_contains(allowed, f, all[i]);
        let j = choose|j: int| 0 <= j < allowed.len() && #[trigger] f(allowed[j]).contains(all[i]);
        let t = allowed[j];
        assert(net::net_from(text::trim(t.0)) is Some ==> text::solid(text::trim(t.0)));
        lemma_allow_rules(chain, t, all[i], p);
    }
    assert forall|j: int|
        0 <= j < allowed.len() && lets_through(#[trigger] allowed[j], p) && v6 == !(net::net_from(
            text::trim(allowed[j].0),
        )->0.base() is V4) implies exists|k: int| 0 <= k < plan.len() && fits(#[trigger] plan[k], p) by {
        let rule = lemma_allows(chain, allowed[j], p);
        seqs::lemma_flat_contains(allowed, f, rule);
        let i = choose|i: int| 0 <= i < all.len() && all[i] == rule;
        let args = firewall::append_args(chain, rule.1);
        assert(g(all[i])[0] == args);
        assert(g(all[i]).contains(args));
        seqs::lemma_flat_contains(all, g, args);
        let k = choose|k: int| 0 <= k < plan.len() && plan[k] == args;
        assert(fits(plan[k], p));
    }
}

/// The rules of a chain for the blacklist: each drops, and one is for every packet to a
/// blacklisted network of the family.
proof fn lemma_drops(chain: Seq<char>, blocked: Seq<IpNet>, v6: bool, p: PacketView)
    ensures
        ({
            let drops = seqs::flat(blocked, firewall::block_args(chain, v6));
            &&& forall|k: int| 0 <= k < drops.len() ==> jump(#[trigger] drops[k]) == "DROP"@
            &&& forall|k: int|
                0 <= k < drops.len() && fits(#[trigger] drops[k], p) ==> exists|i: int|
                    0 <= i < blocked.len() && reaches(
                        (#[trigger] blocked[i]).text(),
                        p.destination,
                    )
            &&& forall|i: int|
                0 <= i < blocked.len() && (#[trigger] blocked[i]).holds(p.destination) && v6 == !(
                blocked[i].base() is V4) ==> exists|k: int|
                    0 <= k < drops.len() && fits(#[trigger] drops[k], p)
        }),
{
    let f = firewall::block_args(chain, v6);
    let drops = seqs::flat(blocked, f);
    assert forall|k: int| 0 <= k < drops.len() implies jump(#[trigger] drops[k]) == "DROP"@ && (
    fits(drops[k], p) ==> exists|i: int|
        0 <= i < blocked.len() && reaches((#[trigger] blocked[i]).text(), p.destination)) by {
        assert(drops.contains(drops[k]));
        seqs::lemma_flat_contains(blocked, f, drops[k]);
        let i = choose|i: int| 0 <= i < blocked.len() && #[trigger] f(blocked[i]).contains(drops[k]);
        assert(f(blocked[i])[0] == drops[k]);
        lemma_drop_rule(chain, blocked[i].text(), p);
    }
    assert forall|i: int|
        0 <= i < blocked.len() && (#[trigger] blocked[i]).holds(p.destination) && v6 == !(
        blocked[i].base() is V4) implies exists|k: int|
        0 <= k < drops.len() && fits(#[trigger] drops[k], p) by {
        let args = f(blocked[i])[0];
        assert(f(blocked[i]).contains(args));
        seqs::lemma_flat_contains(blocked, f, args);
        lemma_drop_rule(chain, blocked[i].text(), p);
        assert(reaches(blocked[i].text(), p.destination));
        let k = choose|k: int| 0 <= k < drops.len() && drops[k] == args;
        assert(fits(drops[k], p));
    }
}

/// What is on the blacklist never leaves, not even over a connection that exists.
pub proof fn law_blacklisted_packets_are_dropped(
    chain: Seq<char>,
    allowed: Seq<(Seq<char>, Option<u16>)>,
    blocked: Seq<IpNet>,
    v6: bool,
    p: PacketView,
    i: int,
)
    requires
        0 <= i < blocked.len(),
        blocked[i].holds(p.destination),
        v6 == !(p.destination is V4),
    ensures
        verdict(firewall::chain_rules(chain, allowed, blocked, v6), p) == Some("DROP"@),
{
    let rules = firewall::chain_rules(chain, allowed, blocked, v6);
    let drops = seqs::flat(blocked, firewall::block_args(chain, v6));
    lemma_drops(chain, blocked, v6, p);
    let k = choose|k: int| 0 <= k < drops.len() && fits(#[trigger] drops[k], p);
    assert(rules[k] == drops[k]);
    seqs::lemma_first_where(rules, is_for(p));
    let m = seqs::first_where(rules, is_for(p));
    if m > k {
        assert(!is_for(p)(rules[k]));
    }
    assert(rules[m] == drops[m]);
    assert(jump(drops[m]) == "DROP"@);
}

/// What is allowed leaves: a packet that an allowed target of its family lets through is accepted,
/// unless it is on the blacklist.
pub proof fn law_allowed_packets_leave(
    chain: Seq<char>,
    allowed: Seq<(Seq<char>, Option<u16>)>,
    blocked: Seq<IpNet>,
    v6: bool,
    p: PacketView,
    j: int,
    n: IpNet,
)
    requires
        well_written(allowed),
        0 <= j < allowed.len(),
        net::net_from(text::trim(allowed[j].0)) == Some(n),
        n.holds(p.destination),
        v6 == !(p.destination is V4),
        allowed[j].1 matches Some(port) ==> (p.protocol == "tcp"@ || p.protocol == "udp"@)
            && p.destination_port == port,
        forall|i: int|
            0 <= i < blocked.len() ==> !reaches((#[trigger] blocked[i]).text(), p.destination),
    ensures
        verdict(firewall::chain_rules(chain, allowed, blocked, v6), p) == Some("ACCEPT"@),
{
    let rules = firewall::chain_rules(chain, allowed, blocked, v6);
    let drops = seqs::flat(blocked, firewall::block_args(chain, v6));
    let standing = firewall::standing_args(chain, v6);
    let plan = seqs::flat(
        seqs::flat(allowed, firewall::allow_rules()),
        firewall::plan_args(chain, v6),
    );
    lemma_drops(chain, blocked, v6, p);
    lemma_standing_rules(chain, v6, p);
    lemma_plan(chain, allowed, v6, p);
    assert(reaches(text::trim(allowed[j].0), p.destination));
    assert(lets_through(allowed[j], p));
    let k = choose|k: int| 0 <= k < plan.len() && fits(#[trigger] plan[k], p);
    let at = drops.len() + 3 + k;
    assert(rules[at] == plan[k]);
    seqs::lemma_first_where(rules, is_for(p));
    let m = seqs::first_where(rules, is_for(p));
    if m > at {
        assert(!is_for(p)(rules[at]));
    }
    assert(fits(rules[m], p));
    if m < drops.len() {
        assert(rules[m] == drops[m]);
        assert(fits(drops[m], p));
    } else if m < drops.len() + 3 {
        assert(rules[m] == standing[m - drops.len()]);
        assert(jump(standing[m - drops.len()]) == "ACCEPT"@);
    } else {
        assert(rules[m] == plan[m - drops.len() - 3]);
        assert(jump(plan[m - drops.len() - 3]) == "ACCEPT"@);
    }
}

/// Whether a packet goes with every policy: it belongs to a connection that exists, is about the
/// lease of an address, or is for diagnostics.
pub open spec fn goes_always(p: PacketView, v6: bool) -> bool {
    ||| p.established
    ||| p.protocol == "udp"@ && 67 <= p.destination_port <= 68 && 67 <= p.source_port <= 68
    ||| p.protocol == if v6 {
        "icmpv6"@
    } else {
        "icmp"@
    }
}

/// Nothing else leaves: a packet that goes with no policy and that no allowed target lets through
/// is dropped. So a target with a port lets nothing out on another port.
pub proof fn law_nothing_else_leaves(
    chain: Seq<char>,
    allowed: Seq<(Seq<char>, Option<u16>)>,
    blocked: Seq<IpNet>,
    v6: bool,
    p: PacketView,
)
    requires
        well_written(allowed),
        !goes_always(p, v6),
        forall|j: int|
            0 <= j < allowed.len() ==> !reaches(text::trim((#[trigger] allowed[j]).0), p.destination)
                || (allowed[j].1 matches Some(port) && (p.destination_port != port || (p.protocol
                != "tcp"@ && p.protocol != "udp"@))),
    ensures
        verdict(firewall::chain_rules(chain, allowed, blocked, v6), p) == Some("DROP"@),
{
    let rules = firewall::chain_rules(chain, allowed, blocked, v6);
    let drops = seqs::flat(blocked, firewall::block_args(chain, v6));
    let standing = firewall::standing_args(chain, v6);
    let plan = seqs::flat(
        seqs::flat(allowed, firewall::allow_rules()),
        firewall::plan_args(chain, v6),
    );
    lemma_drops(chain, blocked, v6, p);
    lemma_standing_rules(chain, v6, p);
    lemma_plan(chain, allowed, v6, p);
    lemma_last_rule(chain, p);
    let last = rules.len() - 1;
    assert(rules[last] == seq!["-A"@, chain, "-j"@, "DROP"@]);
    seqs::lemma_first_where(rules, is_for(p));
    let m = seqs::first_where(rules, is_for(p));
    if m > last {
        assert(!is_for(p)(rules[last]));
    }
    assert(fits(rules[m], p));
    if m < drops.len() {
        assert(rules[m] == drops[m]);
        assert(jump(drops[m]) == "DROP"@);
    } else if m < drops.len() + 3 {
        assert(rules[m] == standing[m - drops.len()]);
    } else if m < last {
        assert(rules[m] == plan[m - drops.len() - 3]);
        assert(fits(plan[m - drops.len() - 3], p));
        let j = choose|j: int| 0 <= j < allowed.len() && lets_through(#[trigger] allowed[j], p);
        assert(!lets_through(allowed[j], p));
    }
}

/// A port keeps the others shut: of the new packets of TCP or UDP to an address of an allowed
/// network that no other target and no blacklist speaks of, those for the port of the target leave
/// and all others are dropped; if the target has no port, all leave.
pub proof fn law_a_port_keeps_the_others_shut(
    chain: Seq<char>,
    target: Seq<char>,
    port: Option<u16>,
    blocked: Seq<IpNet>,
    v6: bool,
    p: PacketView,
    n: IpNet,
)
    requires
        well_written(seq![(target, port)]),
        net::net_from(text::trim(target)) == Some(n),
        n.holds(p.destination),
        v6 == !(p.destination is V4),
        p.protocol == "tcp"@ || p.protocol == "udp"@,
        !goes_always(p, v6),
        forall|i: int|
            0 <= i < blocked.len() ==> !reaches((#[trigger] blocked[i]).text(), p.destination),
    ensures
        verdict(firewall::chain_rules(chain, seq![(target, port)], blocked, v6), p) == Some(
            if port is None || port->0 == p.destination_port {
                "ACCEPT"@
            } else {
                "DROP"@
            },
        ),
{
    let allowed = seq![(target, port)];
    assert(allowed[0] == (target, port));
    if port is None || port->0 == p.destination_port {
        law_allowed_packets_leave(chain, allowed, blocked, v6, p, 0, n);
    } else {
        law_nothing_else_leaves(chain, allowed, blocked, v6, p);
    }
}

/// The plan of the blacklist is what a chain has of it: the planned rule of a network stands in
/// the chain of its family, and none in the chain of the other.
pub proof fn law_planned_blacklist_is_in_the_chain(chain: Seq<char>, n: IpNet, v6: bool)
    requires
        text::solid(n.text()),
        n.text().len() > 0,
    ensures
        firewall::block_rule(n).0 == v6 ==> firewall::block_args(chain, v6)(n) == seq![
            firewall::append_args(chain, firewall::block_rule(n).1),
        ],
        firewall::block_rule(n).0 != v6 ==> firewall::block_args(chain, v6)(n).len() == 0,
        firewall::block_rule(n).0 <==> n.base() is V6,
{
    lemma_literals();
    let sp = seq![' '];
    let target = n.text();
    let t4 = "DROP"@;
    let t3 = "-j"@ + (sp + t4);
    let t2 = target + (sp + t3);
    let t1 = "-d"@ + (sp + t2);
    assert("-d "@ + target + " -j DROP"@ =~= t1);
    lemma_one_word(t4);
    lemma_word_then("-j"@, t4);
    lemma_word_then(target, t3);
    lemma_word_then("-d"@, t2);
    assert(text::words(t1) =~= seq!["-d"@, target, "-j"@, "DROP"@]);
    assert(firewall::append_args(chain, firewall::block_rule(n).1) =~= seq![
        "-A"@,
        chain,
        "-d"@,
        target,
        "-j"@,
        "DROP"@,
    ]);
}

/// What goes with every policy leaves unless it is on the blacklist: what belongs to connections
/// that exist, what is about the lease of an address, and diagnostics.
pub proof fn law_standing_packets_leave(
    chain: Seq<char>,
    allowed: Seq<(Seq<char>, Option<u16>)>,
    blocked: Seq<IpNet>,
    v6: bool,
    p: PacketView,
)
    requires
        goes_always(p, v6),
        forall|i: int|
            0 <= i < blocked.len() ==> !reaches((#[trigger] blocked[i]).text(), p.destination),
    ensures
        verdict(firewall::chain_rules(chain, allowed, blocked, v6), p) == Some("ACCEPT"@),
{
    let rules = firewall::chain_rules(chain, allowed, blocked, v6);
    let drops = seqs::flat(blocked, firewall::block_args(chain, v6));
    let standing = firewall::standing_args(chain, v6);
    lemma_drops(chain, blocked, v6, p);
    lemma_standing_rules(chain, v6, p);
    let k = if fits(standing[0], p) {
        0
    } else if fits(standing[1], p) {
        1
    } else {
        2int
    };
    assert(fits(standing[k], p));
    assert(rules[drops.len() + k] == standing[k]);
    seqs::lemma_first_where(rules, is_for(p));
    let m = seqs::first_where(rules, is_for(p));
    if m > drops.len() + k {
        assert(!is_for(p)(rules[drops.len() + k]));
    }
    assert(fits(rules[m], p));
    if m < drops.len() {
        assert(rules[m] == drops[m]);
        assert(fits(drops[m], p));
    } else {
        assert(rules[m] == standing[m - drops.len()]);
        assert(jump(standing[m - drops.len()]) == "ACCEPT"@);
    }
}

/// The rules of a chain are all appended to that chain.
pub proof fn law_rules_are_of_their_chain(
    chain: Seq<char>,
    allowed: Seq<(Seq<char>, Option<u16>)>,
    blocked: Seq<IpNet>,
    v6: bool,
    k: int,
)
    requires
        0 <= k < firewall::chain_rules(chain, allowed, blocked, v6).len(),
    ensures
        firewall::chain_rules(chain, allowed, blocked, v6)[k].len() >= 2,
        firewall::chain_rules(chain, allowed, blocked, v6)[k][0] == "-A"@,
        firewall::chain_rules(chain, allowed, blocked, v6)[k][1] == chain,
{
    let rules = firewall::chain_rules(chain, allowed, blocked, v6);
    let f = firewall::block_args(chain, v6);
    let g = firewall::plan_args(chain, v6);
    let drops = seqs::flat(blocked, f);
    let all = seqs::flat(allowed, firewall::allow_rules());
    let plan = seqs::flat(all, g);
    if k < drops.len() {
        assert(drops.contains(drops[k]));
        seqs::lemma_flat_contains(blocked, f, drops[k]);
        let i = choose|i: int| 0 <= i < blocked.len() && #[trigger] f(blocked[i]).contains(drops[k]);
        assert(f(blocked[i])[0] == drops[k]);
        assert(rules[k] == drops[k]);
    } else if k < drops.len() + 3 {
        assert(rules[k] == firewall::standing_args(chain, v6)[k - drops.len()]);
    } else if k < rules.len() - 1 {
        let x = plan[k - drops.len() - 3];
        assert(plan.contains(x));
        seqs::lemma_flat_contains(all, g, x);
        let i = choose|i: int| 0 <= i < all.len() && #[trigger] g(all[i]).contains(x);
        assert(g(all[i])[0] == x);
        assert(rules[k] == x);
    }
}

} // verus!
