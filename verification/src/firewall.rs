//! Egress filters on LAN interfaces: what is not allowed does not leave.

use vstd::prelude::*;
use crate::net::{self, IpNet};
use crate::process::Call;
use crate::seqs;
use crate::strings;
use crate::text;

verus! {

/// The name of a chain of an interface.
pub open spec fn chain_of(interface: Seq<char>, suffix: Seq<char>) -> Seq<char> {
    "RT_EGRESS_"@ + text::replace_any(interface, seq!['.', '-'], '_') + suffix
}

/// The name of a chain of an interface. Chain names are limited to 29 bytes and interface names
/// to 15, so the complete interface name fits.
pub fn chain_name(interface: &str, suffix: &str) -> (r: String)
    ensures
        r@ == chain_of(interface@, suffix@),
{
    let from: [char; 2] = ['.', '-'];
    proof {
        assert(from@ =~= seq!['.', '-']);
    }
    "RT_EGRESS_".to_owned().concat(strings::replace_any(interface, &from, '_').as_str()).concat(
        suffix,
    )
}

/// The words of a rule that sends what leaves an interface to a chain.
pub open spec fn hook_words(interface: Seq<char>, chain: Seq<char>) -> Seq<Seq<char>> {
    seq!["-A"@, "OUTPUT"@, "-o"@, interface, "-j"@, chain]
}

/// Whether one of the listed rules sends what leaves an interface to a chain.
pub open spec fn hooked(rules: Seq<char>, interface: Seq<char>, chain: Seq<char>) -> bool {
    exists|i: int|
        0 <= i < text::lines(rules).len() && text::words(#[trigger] text::lines(rules)[i])
            == hook_words(interface, chain)
}

/// Whether a list of words is the given one.
fn same_words(words: &Vec<&str>, wanted: &[&str]) -> (r: bool)
    ensures
        r == (seqs::views(words@) == seqs::views(wanted@)),
{
    if words.len() != wanted.len() {
        proof {
            assert(seqs::views(words@).len() != seqs::views(wanted@).len());
        }
        return false;
    }
    let mut i: usize = 0;
    while i < words.len()
        invariant
            i <= words.len(),
            words.len() == wanted.len(),
            forall|j: int| 0 <= j < i ==> (#[trigger] words@[j])@ == wanted@[j]@,
        decreases words.len() - i,
    {
        if !strings::same(words[i], wanted[i]) {
            proof {
                assert(seqs::views(words@)[i as int] != seqs::views(wanted@)[i as int]);
            }
            return false;
        }
        i += 1;
    }
    proof {
        assert(seqs::views(words@) =~= seqs::views(wanted@));
    }
    true
}

/// Whether one of the listed rules sends what leaves an interface to a chain.
pub fn output_has_hook(rules: &str, interface: &str, chain: &str) -> (r: bool)
    ensures
        r == hooked(rules@, interface@, chain@),
{
    let lines = strings::lines(rules);
    let ghost all = text::lines(rules@);
    let wanted: [&str; 6] = ["-A", "OUTPUT", "-o", interface, "-j", chain];
    proof {
        assert(seqs::views(wanted@) =~= hook_words(interface@, chain@));
    }
    let mut i: usize = 0;
    while i < lines.len()
        invariant
            i <= lines.len(),
            all == seqs::views(lines@),
            all == text::lines(rules@),
            seqs::views(wanted@) == hook_words(interface@, chain@),
            forall|j: int|
                0 <= j < i ==> text::words(#[trigger] all[j]) != hook_words(interface@, chain@),
        decreases lines.len() - i,
    {
        proof {
            assert(all[i as int] == lines@[i as int]@);
        }
        let words = strings::words(lines[i]);
        if same_words(&words, &wanted) {
            return true;
        }
        i += 1;
    }
    false
}

/// The interface of a rule that sends what leaves it to a chain.
pub open spec fn hook_interface(chain: Seq<char>) -> spec_fn(Seq<char>) -> Seq<Seq<char>> {
    |line: Seq<char>|
        {
            let w = text::words(line);
            if w.len() == 6 && w[0] == "-A"@ && w[1] == "OUTPUT"@ && w[2] == "-o"@ && w[4] == "-j"@
                && w[5] == chain {
                seq![w[3]]
            } else {
                Seq::empty()
            }
        }
}

/// The interfaces from which the listed rules send to a chain.
pub fn output_interfaces_for_chain(rules: &str, chain: &str) -> (r: Vec<String>)
    ensures
        seqs::views(r@) == seqs::flat(text::lines(rules@), hook_interface(chain@)),
{
    let lines = strings::lines(rules);
    let ghost all = text::lines(rules@);
    let ghost f = hook_interface(chain@);
    let mut out: Vec<String> = Vec::new();
    let mut i: usize = 0;
    proof {
        assert(all.take(0).len() == 0);
        assert(seqs::views(out@) =~= seqs::flat(all.take(0), f));
    }
    while i < lines.len()
        invariant
            i <= lines.len(),
            all == seqs::views(lines@),
            f == hook_interface(chain@),
            seqs::views(out@) == seqs::flat(all.take(i as int), f),
        decreases lines.len() - i,
    {
        let ghost now = seqs::views(out@);
        proof {
            seqs::lemma_flat_next(all, f, i as int);
            assert(all[i as int] == lines@[i as int]@);
        }
        let w = strings::words(lines[i]);
        proof {
            assert(seqs::views(w@) == text::words(all[i as int]));
            assert(seqs::views(w@).len() == w@.len());
        }
        if w.len() == 6 && strings::same(w[0], "-A") && strings::same(w[1], "OUTPUT")
            && strings::same(w[2], "-o") && strings::same(w[4], "-j") && strings::same(
            w[5],
            chain,
        ) {
            let name = w[3].to_owned();
            proof {
                seqs::lemma_views_push(out@, name);
                assert(seqs::views(w@)[3] == name@);
            }
            out.push(name);
        }
        proof {
            assert(seqs::views(w@).len() == 6 ==> seqs::views(w@)[0] == w@[0]@
                && seqs::views(w@)[1] == w@[1]@ && seqs::views(w@)[2] == w@[2]@
                && seqs::views(w@)[4] == w@[4]@ && seqs::views(w@)[5] == w@[5]@);
            assert(seqs::views(out@) =~= now + f(all[i as int]));
        }
        i += 1;
    }
    proof {
        seqs::lemma_take_all(all);
    }
    out
}

/// The value of a rule and its family in specifications.
pub open spec fn plan_views(s: Seq<(bool, String)>) -> Seq<(bool, Seq<char>)> {
    Seq::new(s.len(), |i: int| (s[i].0, s[i].1@))
}

/// The rule that drops a network, and whether it is for IPv6.
pub open spec fn block_rule(n: IpNet) -> (bool, Seq<char>) {
    (!(n.base() is V4), "-d "@ + n.text() + " -j DROP"@)
}

/// The rules that allow a target: one for all ports, or one for each of two protocols if a port
/// is given. A target that is no network has none.
pub open spec fn allow_rules() -> spec_fn((Seq<char>, Option<u16>)) -> Seq<(bool, Seq<char>)> {
    |t: (Seq<char>, Option<u16>)|
        {
            let target = text::trim(t.0);
            rules_allowing(target, net::net_from(target), t.1)
        }
}

/// The rules that allow a trimmed target that reads as the network `net`, if as any.
pub open spec fn rules_allowing(target: Seq<char>, net: Option<IpNet>, port: Option<u16>) -> Seq<
    (bool, Seq<char>),
> {
    match net {
        Some(n) => {
            let v6 = !(n.base() is V4);
            match port {
                Some(p) => seq![
                    (
                        v6,
                        "-d "@ + target + " -p "@ + "udp"@ + " --dport "@ + text::decimal(
                            p as nat,
                        ) + " -j ACCEPT"@,
                    ),
                    (
                        v6,
                        "-d "@ + target + " -p "@ + "tcp"@ + " --dport "@ + text::decimal(
                            p as nat,
                        ) + " -j ACCEPT"@,
                    ),
                ],
                None => seq![(v6, "-d "@ + target + " -j ACCEPT"@)],
            }
        },
        None => Seq::empty(),
    }
}

/// The arguments of a rule that is appended to a chain.
pub open spec fn append_args(chain: Seq<char>, rule: Seq<char>) -> Seq<Seq<char>> {
    seq!["-A"@, chain] + text::words(rule)
}

/// The rules of a family that drop networks.
pub open spec fn block_args(chain: Seq<char>, v6: bool) -> spec_fn(IpNet) -> Seq<Seq<Seq<char>>> {
    |n: IpNet|
        if v6 == !(n.base() is V4) {
            seq![seq!["-A"@, chain, "-d"@, n.text(), "-j"@, "DROP"@]]
        } else {
            Seq::empty()
        }
}

/// The rules of a family among planned ones.
pub open spec fn plan_args(chain: Seq<char>, v6: bool) -> spec_fn((bool, Seq<char>)) -> Seq<
    Seq<Seq<char>>,
> {
    |rule: (bool, Seq<char>)|
        if rule.0 == v6 {
            seq![append_args(chain, rule.1)]
        } else {
            Seq::empty()
        }
}

/// What goes with every policy after the blacklist: what belongs to connections that exist, what
/// keeps the address of the interface, and diagnostics.
pub open spec fn standing_args(chain: Seq<char>, v6: bool) -> Seq<Seq<Seq<char>>> {
    seq![
        seq![
            "-A"@,
            chain,
            "-m"@,
            "conntrack"@,
            "--ctstate"@,
            "ESTABLISHED,RELATED"@,
            "-j"@,
            "ACCEPT"@,
        ],
        seq![
            "-A"@,
            chain,
            "-p"@,
            "udp"@,
            "--dport"@,
            "67:68"@,
            "--sport"@,
            "67:68"@,
            "-j"@,
            "ACCEPT"@,
        ],
        seq![
            "-A"@,
            chain,
            "-p"@,
            if v6 {
                "icmpv6"@
            } else {
                "icmp"@
            },
            "-j"@,
            "ACCEPT"@,
        ],
    ]
}

/// The rules of a chain, in order: the blacklist, which existing connections cannot bypass, what
/// goes with every policy, the allowed targets, and a rule that drops the rest.
pub open spec fn chain_rules(
    chain: Seq<char>,
    allowed: Seq<(Seq<char>, Option<u16>)>,
    blocked: Seq<IpNet>,
    v6: bool,
) -> Seq<Seq<Seq<char>>> {
    seqs::flat(blocked, block_args(chain, v6)) + standing_args(chain, v6) + seqs::flat(
        seqs::flat(allowed, allow_rules()),
        plan_args(chain, v6),
    ) + seq![seq!["-A"@, chain, "-j"@, "DROP"@]]
}

/// The value of allowed targets in specifications.
pub open spec fn allowed_views(s: Seq<(String, Option<u16>)>) -> Seq<(Seq<char>, Option<u16>)> {
    Seq::new(s.len(), |i: int| (s[i].0@, s[i].1))
}

/// The rules that allow a trimmed target that reads as the network `net`, if as any.
pub fn allow_target(target: &str, net: Option<IpNet>, port: Option<u16>) -> (r: Vec<(bool, String)>)
    ensures
        plan_views(r@) == rules_allowing(target@, net, port),
{
    let mut out: Vec<(bool, String)> = Vec::new();
    if let Some(n) = net {
        let v6 = n.addr().is_ipv6();
        match port {
            Some(port) => {
                let udp = "-d ".to_owned().concat(target).concat(" -p ").concat("udp").concat(
                    " --dport ",
                ).concat(strings::decimal(port as u64).as_str()).concat(" -j ACCEPT");
                let tcp = "-d ".to_owned().concat(target).concat(" -p ").concat("tcp").concat(
                    " --dport ",
                ).concat(strings::decimal(port as u64).as_str()).concat(" -j ACCEPT");
                out.push((v6, udp));
                out.push((v6, tcp));
            },
            None => {
                out.push((v6, "-d ".to_owned().concat(target).concat(" -j ACCEPT")));
            },
        }
    }
    proof {
        assert(plan_views(out@) =~= rules_allowing(target@, net, port));
    }
    out
}

pub struct FirewallController;

impl FirewallController {
    /// Returns the blacklist rule order for deterministic, unprivileged tests.
    pub fn blacklist_rule_plan(blocked_targets: &[IpNet]) -> (r: Vec<(bool, String)>)
        ensures
            plan_views(r@) == Seq::new(
                blocked_targets@.len(),
                |i: int| block_rule(blocked_targets@[i]),
            ),
    {
        let ghost wanted = Seq::new(blocked_targets@.len(), |i: int| block_rule(blocked_targets@[i]));
        let mut out: Vec<(bool, String)> = Vec::new();
        let mut i: usize = 0;
        while i < blocked_targets.len()
            invariant
                i <= blocked_targets.len(),
                out.len() == i,
                forall|j: int|
                    0 <= j < i ==> ((#[trigger] out@[j]).0, out@[j].1@) == block_rule(
                        blocked_targets@[j],
                    ),
            decreases blocked_targets.len() - i,
        {
            let n = blocked_targets[i];
            out.push(
                (
                    n.addr().is_ipv6(),
                    "-d ".to_owned().concat(n.to_string().as_str()).concat(" -j DROP"),
                ),
            );
            i += 1;
        }
        proof {
            assert(plan_views(out@) =~= wanted);
        }
        out
    }

    /// Produces deterministic destination allow rules. A `None` port is an
    /// all-port authorization for that configured LAN destination; DNS
    /// resolvers are represented explicitly with `Some(53)`.
    pub fn lan_allow_rule_plan(allowed_targets: &[(String, Option<u16>)]) -> (r: Vec<
        (bool, String),
    >)
        ensures
            plan_views(r@) == seqs::flat(allowed_views(allowed_targets@), allow_rules()),
    {
        let ghost all = allowed_views(allowed_targets@);
        let mut out: Vec<(bool, String)> = Vec::new();
        let mut i: usize = 0;
        proof {
            assert(all.take(0).len() == 0);
            assert(plan_views(out@) =~= seqs::flat(all.take(0), allow_rules()));
        }
        while i < allowed_targets.len()
            invariant
                i <= allowed_targets.len(),
                all == allowed_views(allowed_targets@),
                plan_views(out@) == seqs::flat(all.take(i as int), allow_rules()),
            decreases allowed_targets.len() - i,
        {
            let ghost now = plan_views(out@);
            proof {
                seqs::lemma_flat_next(all, allow_rules(), i as int);
                assert(all[i as int] == (
                    allowed_targets@[i as int].0@,
                    allowed_targets@[i as int].1,
                ));
            }
            let target = strings::trim(allowed_targets[i].0.as_str());
            let mut rules = allow_target(target, IpNet::parse(target), allowed_targets[i].1);
            let ghost more = rules@;
            let ghost before = out@;
            out.append(&mut rules);
            proof {
                assert(out@ =~= before + more);
                assert(plan_views(out@) =~= now + allow_rules()(all[i as int]));
            }
            i += 1;
        }
        proof {
            seqs::lemma_take_all(all);
        }
        out
    }
}

/// The value of lists of arguments in specifications.
pub open spec fn args_views(s: Seq<Vec<String>>) -> Seq<Seq<Seq<char>>> {
    Seq::new(s.len(), |i: int| seqs::views(s[i]@))
}

fn push_args(rules: &mut Vec<Vec<String>>, args: &[&str])
    ensures
        args_views(final(rules)@) == args_views(old(rules)@).push(seqs::views(args@)),
{
    let call = Call::new("", args);
    let ghost before = args_views(rules@);
    rules.push(call.args);
    proof {
        assert(args_views(rules@) =~= before.push(seqs::views(args@)));
    }
}

fn push_planned(rules: &mut Vec<Vec<String>>, chain: &str, rule: &str)
    ensures
        args_views(final(rules)@) == args_views(old(rules)@).push(append_args(chain@, rule@)),
{
    let words = strings::words(rule);
    let mut args: Vec<&str> = Vec::new();
    args.push("-A");
    args.push(chain);
    let ghost head = seq!["-A"@, chain@];
    let ghost all = text::words(rule@);
    let mut i: usize = 0;
    proof {
        assert(seqs::views(args@) =~= head + all.take(0));
    }
    while i < words.len()
        invariant
            i <= words.len(),
            all == seqs::views(words@),
            seqs::views(args@) == head + all.take(i as int),
        decreases words.len() - i,
    {
        proof {
            seqs::lemma_take_next(all, i as int);
            seqs::lemma_views_push(args@, words@[i as int]);
            assert(head + all.take(i + 1) =~= (head + all.take(i as int)).push(all[i as int]));
        }
        args.push(words[i]);
        i += 1;
    }
    proof {
        seqs::lemma_take_all(all);
    }
    push_args(rules, args.as_slice());
}

/// The rules of a chain.
pub fn list_chain_rules(
    chain: &str,
    allowed: &Vec<(String, Option<u16>)>,
    blocked: &Vec<IpNet>,
    v6: bool,
) -> (r: Vec<Vec<String>>)
    ensures
        args_views(r@) == chain_rules(chain@, allowed_views(allowed@), blocked@, v6),
{
    let mut rules: Vec<Vec<String>> = Vec::new();
    let ghost f = block_args(chain@, v6);
    let mut i: usize = 0;
    proof {
        assert(blocked@.take(0).len() == 0);
        assert(args_views(rules@) =~= seqs::flat(blocked@.take(0), f));
    }
    while i < blocked.len()
        invariant
            i <= blocked.len(),
            f == block_args(chain@, v6),
            args_views(rules@) == seqs::flat(blocked@.take(i as int), f),
        decreases blocked.len() - i,
    {
        let ghost now = args_views(rules@);
        let n = blocked[i];
        proof {
            seqs::lemma_flat_next(blocked@, f, i as int);
        }
        if n.addr().is_ipv6() == v6 {
            let text = n.to_string();
            let args: [&str; 6] = ["-A", chain, "-d", text.as_str(), "-j", "DROP"];
            proof {
                assert(seqs::views(args@) =~= seq!["-A"@, chain@, "-d"@, n.text(), "-j"@, "DROP"@]);
            }
            push_args(&mut rules, &args);
        }
        proof {
            assert(args_views(rules@) =~= now + f(n));
        }
        i += 1;
    }
    let ghost drops = seqs::flat(blocked@, f);
    proof {
        seqs::lemma_take_all(blocked@);
    }
    let conntrack: [&str; 8] = [
        "-A",
        chain,
        "-m",
        "conntrack",
        "--ctstate",
        "ESTABLISHED,RELATED",
        "-j",
        "ACCEPT",
    ];
    let dhcp: [&str; 10] = [
        "-A",
        chain,
        "-p",
        "udp",
        "--dport",
        "67:68",
        "--sport",
        "67:68",
        "-j",
        "ACCEPT",
    ];
    let proto = if v6 {
        "icmpv6"
    } else {
        "icmp"
    };
    let ping: [&str; 6] = ["-A", chain, "-p", proto, "-j", "ACCEPT"];
    proof {
        assert(seqs::views(conntrack@) =~= standing_args(chain@, v6)[0]);
        assert(seqs::views(dhcp@) =~= standing_args(chain@, v6)[1]);
        assert(seqs::views(ping@) =~= standing_args(chain@, v6)[2]);
    }
    push_args(&mut rules, &conntrack);
    push_args(&mut rules, &dhcp);
    push_args(&mut rules, &ping);
    let ghost fixed = drops + standing_args(chain@, v6);
    let plan = FirewallController::lan_allow_rule_plan(allowed.as_slice());
    let ghost all = plan_views(plan@);
    let ghost g = plan_args(chain@, v6);
    let mut k: usize = 0;
    proof {
        assert(all.take(0).len() == 0);
        assert(args_views(rules@) =~= fixed + seqs::flat(all.take(0), g));
    }
    while k < plan.len()
        invariant
            k <= plan.len(),
            all == plan_views(plan@),
            g == plan_args(chain@, v6),
            args_views(rules@) == fixed + seqs::flat(all.take(k as int), g),
        decreases plan.len() - k,
    {
        let ghost now = args_views(rules@);
        proof {
            seqs::lemma_flat_next(all, g, k as int);
            assert(all[k as int] == (plan@[k as int].0, plan@[k as int].1@));
        }
        if plan[k].0 == v6 {
            push_planned(&mut rules, chain, plan[k].1.as_str());
        }
        proof {
            assert(args_views(rules@) =~= now + g(all[k as int]));
            assert(now + g(all[k as int]) =~= fixed + (seqs::flat(all.take(k as int), g) + g(
                all[k as int],
            )));
        }
        k += 1;
    }
    proof {
        seqs::lemma_take_all(all);
    }
    let last: [&str; 4] = ["-A", chain, "-j", "DROP"];
    proof {
        assert(seqs::views(last@) =~= seq!["-A"@, chain@, "-j"@, "DROP"@]);
    }
    push_args(&mut rules, &last);
    proof {
        assert(args_views(rules@) =~= chain_rules(
            chain@,
            allowed_views(allowed@),
            blocked@,
            v6,
        ));
    }
    rules
}

/// The name of a chain is made of the mark of ours, the interface and the suffix: dots and hyphens
/// of the interface become underscores, and everything else of it stays.
pub proof fn law_names_of_chains(interface: Seq<char>, suffix: Seq<char>, i: int)
    ensures
        chain_of(interface, suffix).len() == 10 + interface.len() + suffix.len(),
        "RT_EGRESS_"@.is_prefix_of(chain_of(interface, suffix)),
        suffix.is_suffix_of(chain_of(interface, suffix)),
        0 <= i < interface.len() ==> chain_of(interface, suffix)[10 + i] == if interface[i] == '.'
            || interface[i] == '-' {
            '_'
        } else {
            interface[i]
        },
{
    reveal_strlit("RT_EGRESS_");
    let c = chain_of(interface, suffix);
    let marks = seq!['.', '-'];
    assert("RT_EGRESS_"@ =~= c.subrange(0, 10));
    assert(suffix =~= c.subrange(c.len() - suffix.len(), c.len() as int));
    if 0 <= i < interface.len() {
        assert(marks[0] == '.' && marks[1] == '-');
        if marks.contains(interface[i]) {
            let k = choose|k: int| 0 <= k < marks.len() && marks[k] == interface[i];
        }
    }
}

/// A hook is recognised by the rule that makes it: one of the listed rules sends what leaves the
/// interface to the chain.
pub proof fn law_hooks_are_recognised(rules: Seq<char>, interface: Seq<char>, chain: Seq<char>)
    ensures
        hooked(rules, interface, chain) <==> exists|i: int|
            0 <= i < text::lines(rules).len() && text::words(#[trigger] text::lines(rules)[i])
                == seq!["-A"@, "OUTPUT"@, "-o"@, interface, "-j"@, chain],
        hooked(rules, interface, chain) <==> seqs::flat(
            text::lines(rules),
            hook_interface(chain),
        ).contains(interface),
{
    let f = hook_interface(chain);
    let all = text::lines(rules);
    seqs::lemma_flat_contains(all, f, interface);
    if hooked(rules, interface, chain) {
        let i = choose|i: int|
            0 <= i < all.len() && text::words(#[trigger] all[i]) == hook_words(interface, chain);
        assert(f(all[i])[0] == interface);
        assert(f(all[i]).contains(interface));
    }
    if seqs::flat(all, f).contains(interface) {
        let i = choose|i: int| 0 <= i < all.len() && #[trigger] f(all[i]).contains(interface);
        assert(f(all[i])[0] == interface);
        assert(text::words(all[i]) =~= hook_words(interface, chain));
    }
}

} // verus!
