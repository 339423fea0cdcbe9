//! The strict policy: manual LAN allowlists and one explicit default path.

use vstd::prelude::*;
use crate::config::{Config, ConfigView, OperatingMode, TargetConfig, TargetView};
use crate::env;
use crate::error::{CoreError, CoreErrorView};
use crate::model;
use crate::net::{self, IpAddr, IpNet};
use crate::seqs;
use crate::strings;
use crate::text;

verus! {

/// Whether a network has an address in common with `net`.
pub open spec fn meets(net: IpNet) -> spec_fn(IpNet) -> bool {
    |blocked: IpNet| blocked.overlaps(net)
}

/// Whether a network holds an address.
pub open spec fn holding(ip: IpAddr) -> spec_fn(IpNet) -> bool {
    |blocked: IpNet| blocked.holds(ip)
}

/// Whether an address is in one of the networks.
pub open spec fn held_by(blacklist: Seq<IpNet>) -> spec_fn(IpAddr) -> bool {
    |ip: IpAddr| seqs::first_where(blacklist, holding(ip)) < blacklist.len()
}

/// What the strict policy has against a target.
pub open spec fn target_fault(c: ConfigView) -> spec_fn(TargetView) -> Option<Seq<char>> {
    |t: TargetView| fault_of_target(c, t, env::net_of(t.cidr))
}

/// What the strict policy has against a target that denotes the network `net`, if any.
pub open spec fn fault_of_target(c: ConfigView, t: TargetView, net: Option<IpNet>) -> Option<
    Seq<char>,
> {
    if !text::same_ignoring_case(t.fallback, "drop"@) {
        Some(
            "target '"@ + t.name + "' uses fallback='"@ + t.fallback
                + "'; only drop is permitted"@,
        )
    } else if t.via.len() == 0 {
        Some("target '"@ + t.name + "' has no explicit LAN interface"@)
    } else if exists|i: int| 0 <= i < t.via.len() && !c.lan_interfaces.contains(#[trigger] t.via[i]) {
        Some("target '"@ + t.name + "' uses an interface outside LAN_INTERFACE"@)
    } else {
        match net {
            None => Some("target '"@ + t.name + "' must be an explicit IP address or CIDR"@),
            Some(n) => {
                let k = seqs::first_where(c.blacklist, meets(n));
                if k < c.blacklist.len() {
                    Some(
                        "target '"@ + t.name + "' ("@ + n.text() + ") overlaps blacklist "@
                            + c.blacklist[k].text() + "; refusing ambiguous LAN route"@,
                    )
                } else {
                    None
                }
            },
        }
    }
}

/// What the strict policy has against a LAN domain.
pub open spec fn domain_fault(c: ConfigView) -> spec_fn(Seq<char>) -> Option<Seq<char>> {
    |d: Seq<char>|
        match c.local_addresses(d) {
            None => Some(
                "LAN domain '"@ + d
                    + "' has no LOCAL_DNS_RECORDS. Dynamic LAN DNS is disabled until a restricted DNS proxy is configured"@,
            ),
            Some(ips) => {
                let k = seqs::first_where(ips, held_by(c.blacklist));
                if k < ips.len() {
                    let j = seqs::first_where(c.blacklist, holding(ips[k]));
                    Some(
                        "LAN domain '"@ + d + "' resolves to blacklisted address "@ + net::ip_text(
                            ips[k],
                        ) + " ("@ + c.blacklist[j].text() + ")"@,
                    )
                } else {
                    None
                }
            },
        }
}

/// The first thing that the strict policy has against a configuration.
pub open spec fn strict_fault(c: ConfigView) -> Option<Seq<char>> {
    if c.mode != OperatingMode::Manual {
        Some("only mode=manual is permitted by the strict LAN/WLAN policy"@)
    } else if !text::same_ignoring_case(c.defaults.unknown, "wan"@) {
        Some("defaults.unknown must be 'wan' so non-allowlisted traffic uses WLAN"@)
    } else if !text::same_ignoring_case(c.defaults.lab_failure, "drop"@) {
        Some("defaults.lab_failure must be 'drop' (LAN targets may not fall back to WLAN)"@)
    } else if c.wan.len() != 1 || text::trim(c.wan[0]).len() == 0 || c.wan[0] == "auto"@ {
        Some("exactly one explicit WAN_INTERFACE is required; auto detection is disabled"@)
    } else if exists|i: int| 0 <= i < c.networks.len() && (#[trigger] c.networks[i]).auto_subnets {
        Some("networks.auto_subnets is not allowed in manual-only mode"@)
    } else if (c.targets.len() > 0 || c.lan_domains.len() > 0) && c.lan_interfaces.len() == 0 {
        Some("LAN targets/domains require an explicit LAN_INTERFACE"@)
    } else {
        match seqs::first_some(c.targets, target_fault(c)) {
            Some(fault) => Some(fault),
            None => seqs::first_some(c.lan_domains, domain_fault(c)),
        }
    }
}

/// The text between two pieces, with a piece on either side.
fn quoted(before: &str, name: &str, behind: &str) -> (r: String)
    ensures
        r@ == before@ + name@ + behind@,
{
    before.to_owned().concat(name).concat(behind)
}

fn first_overlap(blacklist: &Vec<IpNet>, target: IpNet) -> (r: usize)
    ensures
        r == seqs::first_where(blacklist@, meets(target)),
{
    let mut i: usize = 0;
    while i < blacklist.len()
        invariant
            i <= blacklist.len(),
            forall|j: int| 0 <= j < i ==> !meets(target)(#[trigger] blacklist@[j]),
        decreases blacklist.len() - i,
    {
        if net::nets_overlap(blacklist[i], target) {
            proof {
                seqs::lemma_first_where_is(blacklist@, meets(target), i as int);
            }
            return i;
        }
        i += 1;
    }
    proof {
        seqs::lemma_first_where_is(blacklist@, meets(target), i as int);
    }
    i
}

fn first_holding(blacklist: &Vec<IpNet>, ip: IpAddr) -> (r: usize)
    ensures
        r == seqs::first_where(blacklist@, holding(ip)),
        r <= blacklist.len(),
{
    let mut i: usize = 0;
    while i < blacklist.len()
        invariant
            i <= blacklist.len(),
            forall|j: int| 0 <= j < i ==> !holding(ip)(#[trigger] blacklist@[j]),
        decreases blacklist.len() - i,
    {
        if blacklist[i].contains(&ip) {
            proof {
                seqs::lemma_first_where_is(blacklist@, holding(ip), i as int);
            }
            return i;
        }
        i += 1;
    }
    proof {
        seqs::lemma_first_where_is(blacklist@, holding(ip), i as int);
    }
    i
}

/// Whether every name of a list is in another.
fn all_named(list: &Vec<String>, allowed: &Vec<String>) -> (r: bool)
    ensures
        r == !(exists|i: int|
            0 <= i < seqs::views(list@).len() && !seqs::views(allowed@).contains(
                #[trigger] seqs::views(list@)[i],
            )),
{
    let mut i: usize = 0;
    while i < list.len()
        invariant
            i <= list.len(),
            forall|j: int|
                0 <= j < i ==> seqs::views(allowed@).contains(#[trigger] seqs::views(list@)[j]),
        decreases list.len() - i,
    {
        if !model::has_name(allowed.as_slice(), list[i].as_str()) {
            proof {
                assert(!seqs::views(allowed@).contains(seqs::views(list@)[i as int]));
            }
            return false;
        }
        i += 1;
    }
    true
}

impl Config {
    /// What the strict policy has against a target that denotes the network `net`, if any.
    pub fn check_target(&self, target: &TargetConfig, net: Option<IpNet>) -> (r: Option<String>)
        ensures
            seqs::opt_view(r) == fault_of_target(self@, target@, net),
    {
        if !strings::same_ignoring_case(target.fallback.as_str(), "drop") {
            let head = quoted("target '", target.name.as_str(), "' uses fallback='");
            return Some(
                quoted(head.as_str(), target.fallback.as_str(), "'; only drop is permitted"),
            );
        }
        if target.via.len() == 0 {
            return Some(
                quoted("target '", target.name.as_str(), "' has no explicit LAN interface"),
            );
        }
        if !all_named(&target.via, &self.lan_interfaces) {
            return Some(
                quoted(
                    "target '",
                    target.name.as_str(),
                    "' uses an interface outside LAN_INTERFACE",
                ),
            );
        }
        match net {
            None => Some(
                quoted(
                    "target '",
                    target.name.as_str(),
                    "' must be an explicit IP address or CIDR",
                ),
            ),
            Some(n) => {
                let k = first_overlap(&self.blacklist, n);
                if k < self.blacklist.len() {
                    let head = quoted("target '", target.name.as_str(), "' (");
                    let mid = quoted(head.as_str(), n.to_string().as_str(), ") overlaps blacklist ");
                    Some(
                        quoted(
                            mid.as_str(),
                            self.blacklist[k].to_string().as_str(),
                            "; refusing ambiguous LAN route",
                        ),
                    )
                } else {
                    None
                }
            },
        }
    }

    fn check_domain(&self, domain: &str) -> (r: Option<String>)
        ensures
            seqs::opt_view(r) == domain_fault(self@)(domain@),
    {
        match self.resolve_local_domain(domain) {
            None => Some(
                quoted(
                    "LAN domain '",
                    domain,
                    "' has no LOCAL_DNS_RECORDS. Dynamic LAN DNS is disabled until a restricted DNS proxy is configured",
                ),
            ),
            Some(ips) => {
                let ghost list = self.blacklist@;
                let mut i: usize = 0;
                while i < ips.len()
                    invariant
                        i <= ips.len(),
                        list == self.blacklist@,
                        self@.local_addresses(domain@) == Some(ips@),
                        forall|j: int| 0 <= j < i ==> !held_by(list)(#[trigger] ips@[j]),
                    decreases ips.len() - i,
                {
                    let k = first_holding(&self.blacklist, ips[i]);
                    if k < self.blacklist.len() {
                        proof {
                            seqs::lemma_first_where_is(ips@, held_by(list), i as int);
                        }
                        let head = quoted(
                            "LAN domain '",
                            domain,
                            "' resolves to blacklisted address ",
                        );
                        let mid = quoted(head.as_str(), ips[i].to_string().as_str(), " (");
                        return Some(
                            quoted(mid.as_str(), self.blacklist[k].to_string().as_str(), ")"),
                        );
                    }
                    i += 1;
                }
                proof {
                    seqs::lemma_first_where_is(ips@, held_by(list), i as int);
                }
                None
            },
        }
    }

    fn any_auto_subnets(&self) -> (r: bool)
        ensures
            r == exists|i: int|
                0 <= i < self@.networks.len() && (#[trigger] self@.networks[i]).auto_subnets,
    {
        let mut i: usize = 0;
        while i < self.networks.len()
            invariant
                i <= self.networks.len(),
                forall|j: int| 0 <= j < i ==> !(#[trigger] self@.networks[j]).auto_subnets,
            decreases self.networks.len() - i,
        {
            if self.networks[i].auto_subnets {
                proof {
                    assert(self@.networks[i as int].auto_subnets);
                }
                return true;
            }
            i += 1;
        }
        false
    }

    /// Validates the deliberately narrow production profile used by this
    /// tool: manual LAN allowlists and a WLAN default path.  This validation
    /// runs before reconciliation so malformed or overlapping configuration
    /// can never reach the kernel routing table.
    pub fn validate_strict_lan_policy(&self) -> (r: Result<(), CoreError>)
        ensures
            match r {
                Ok(_) => strict_fault(self@) is None,
                Err(e) => strict_fault(self@) is Some && e@ == CoreErrorView::Config(
                    strict_fault(self@)->0,
                ),
            },
    {
        if self.mode != OperatingMode::Manual {
            return Err(
                CoreError::Config(
                    "only mode=manual is permitted by the strict LAN/WLAN policy".to_owned(),
                ),
            );
        }
        if !strings::same_ignoring_case(self.defaults.unknown.as_str(), "wan") {
            return Err(
                CoreError::Config(
                    "defaults.unknown must be 'wan' so non-allowlisted traffic uses WLAN".to_owned(),
                ),
            );
        }
        if !strings::same_ignoring_case(self.defaults.lab_failure.as_str(), "drop") {
            return Err(
                CoreError::Config(
                    "defaults.lab_failure must be 'drop' (LAN targets may not fall back to WLAN)".to_owned(),
                ),
            );
        }
        if self.wan.interfaces.len() != 1 || strings::trim(
            self.wan.interfaces[0].as_str(),
        ).unicode_len() == 0 || strings::same(self.wan.interfaces[0].as_str(), "auto") {
            return Err(
                CoreError::Config(
                    "exactly one explicit WAN_INTERFACE is required; auto detection is disabled".to_owned(),
                ),
            );
        }
        if self.any_auto_subnets() {
            return Err(
                CoreError::Config(
                    "networks.auto_subnets is not allowed in manual-only mode".to_owned(),
                ),
            );
        }
        if (self.targets.len() > 0 || self.lan_domains.len() > 0) && self.lan_interfaces.len()
            == 0 {
            return Err(
                CoreError::Config(
                    "LAN targets/domains require an explicit LAN_INTERFACE".to_owned(),
                ),
            );
        }
        let ghost c = self@;
        let mut i: usize = 0;
        while i < self.targets.len()
            invariant
                i <= self.targets.len(),
                c == self@,
                forall|j: int| 0 <= j < i ==> target_fault(c)(#[trigger] c.targets[j]) is None,
                strict_fault(c) == match seqs::first_some(c.targets, target_fault(c)) {
                    Some(fault) => Some(fault),
                    None => seqs::first_some(c.lan_domains, domain_fault(c)),
                },
            decreases self.targets.len() - i,
        {
            let net = env::parse_ip_net(self.targets[i].cidr.as_str());
            if let Some(fault) = self.check_target(&self.targets[i], net) {
                proof {
                    assert(c.targets[i as int] == self.targets@[i as int]@);
                    seqs::lemma_first_some_is(c.targets, target_fault(c), i as int);
                }
                return Err(CoreError::Config(fault));
            }
            i += 1;
        }
        proof {
            seqs::lemma_first_some_is(c.targets, target_fault(c), i as int);
        }
        let mut k: usize = 0;
        while k < self.lan_domains.len()
            invariant
                k <= self.lan_domains.len(),
                c == self@,
                forall|j: int| 0 <= j < k ==> domain_fault(c)(#[trigger] c.lan_domains[j]) is None,
                strict_fault(c) == seqs::first_some(c.lan_domains, domain_fault(c)),
            decreases self.lan_domains.len() - k,
        {
            if let Some(fault) = self.check_domain(self.lan_domains[k].as_str()) {
                proof {
                    assert(c.lan_domains[k as int] == self.lan_domains@[k as int]@);
                    seqs::lemma_first_some_is(c.lan_domains, domain_fault(c), k as int);
                }
                return Err(CoreError::Config(fault));
            }
            k += 1;
        }
        proof {
            seqs::lemma_first_some_is(c.lan_domains, domain_fault(c), k as int);
        }
        Ok(())
    }
}

/// What a configuration is that the strict policy accepts.
pub open spec fn strict(c: ConfigView) -> bool {
    &&& c.mode == OperatingMode::Manual
    &&& text::same_ignoring_case(c.defaults.unknown, "wan"@)
    &&& text::same_ignoring_case(c.defaults.lab_failure, "drop"@)
    &&& c.wan.len() == 1 && text::trim(c.wan[0]).len() > 0 && c.wan[0] != "auto"@
    &&& forall|i: int| 0 <= i < c.networks.len() ==> !(#[trigger] c.networks[i]).auto_subnets
    &&& c.targets.len() > 0 || c.lan_domains.len() > 0 ==> c.lan_interfaces.len() > 0
    &&& forall|i: int| 0 <= i < c.targets.len() ==> strict_target(c, #[trigger] c.targets[i])
    &&& forall|i: int|
        0 <= i < c.lan_domains.len() ==> strict_domain(c, #[trigger] c.lan_domains[i])
}

/// What a target is that the strict policy accepts: it is dropped when its path fails, leads
/// through LAN interfaces alone, and is an address or a network apart from the blacklist.
pub open spec fn strict_target(c: ConfigView, t: TargetView) -> bool {
    &&& text::same_ignoring_case(t.fallback, "drop"@)
    &&& t.via.len() > 0
    &&& forall|i: int| 0 <= i < t.via.len() ==> c.lan_interfaces.contains(#[trigger] t.via[i])
    &&& env::net_of(t.cidr) is Some
    &&& forall|j: int|
        0 <= j < c.blacklist.len() ==> !(#[trigger] c.blacklist[j]).overlaps(env::net_of(t.cidr)->0)
}

/// What a LAN domain is that the strict policy accepts: one with local addresses, none of which
/// is on the blacklist.
pub open spec fn strict_domain(c: ConfigView, d: Seq<char>) -> bool {
    match c.local_addresses(d) {
        Some(ips) => forall|i: int, j: int|
            0 <= i < ips.len() && 0 <= j < c.blacklist.len() ==> !(#[trigger] c.blacklist[j]).holds(
                #[trigger] ips[i],
            ),
        None => false,
    }
}

proof fn lemma_strict_target(c: ConfigView, t: TargetView)
    ensures
        target_fault(c)(t) is None <==> strict_target(c, t),
{
    if env::net_of(t.cidr) is Some {
        let n = env::net_of(t.cidr)->0;
        seqs::lemma_first_where(c.blacklist, meets(n));
        if strict_target(c, t) {
            let k = seqs::first_where(c.blacklist, meets(n));
            if k < c.blacklist.len() {
                assert(!c.blacklist[k].overlaps(n));
            }
        }
        if target_fault(c)(t) is None {
            assert forall|j: int| 0 <= j < c.blacklist.len() implies !(
            #[trigger] c.blacklist[j]).overlaps(n) by {
                assert(!meets(n)(c.blacklist[j]));
            }
        }
    }
}

proof fn lemma_strict_domain(c: ConfigView, d: Seq<char>)
    ensures
        domain_fault(c)(d) is None <==> strict_domain(c, d),
{
    if let Some(ips) = c.local_addresses(d) {
        seqs::lemma_first_where(ips, held_by(c.blacklist));
        if strict_domain(c, d) {
            let k = seqs::first_where(ips, held_by(c.blacklist));
            if k < ips.len() {
                seqs::lemma_first_where(c.blacklist, holding(ips[k]));
                let j = seqs::first_where(c.blacklist, holding(ips[k]));
                assert(!c.blacklist[j].holds(ips[k]));
            }
        }
        if domain_fault(c)(d) is None {
            assert forall|i: int, j: int| 0 <= i < ips.len() && 0 <= j < c.blacklist.len() implies !(
            #[trigger] c.blacklist[j]).holds(#[trigger] ips[i]) by {
                assert(!held_by(c.blacklist)(ips[i]));
                seqs::lemma_first_where(c.blacklist, holding(ips[i]));
                assert(!holding(ips[i])(c.blacklist[j]));
            }
        }
    }
}

/// A configuration is accepted exactly if it is strict.
pub proof fn law_accepted_exactly_if_strict(c: ConfigView)
    ensures
        strict_fault(c) is None <==> strict(c),
{
    seqs::lemma_first_some(c.targets, target_fault(c));
    seqs::lemma_first_some(c.lan_domains, domain_fault(c));
    assert forall|i: int| 0 <= i < c.targets.len() implies (target_fault(c)(
        #[trigger] c.targets[i],
    ) is None <==> strict_target(c, c.targets[i])) by {
        lemma_strict_target(c, c.targets[i]);
    }
    assert forall|i: int| 0 <= i < c.lan_domains.len() implies (domain_fault(c)(
        #[trigger] c.lan_domains[i],
    ) is None <==> strict_domain(c, c.lan_domains[i])) by {
        lemma_strict_domain(c, c.lan_domains[i]);
    }
}

/// In an accepted configuration no address is both in the network of a target and on the
/// blacklist.
pub proof fn law_targets_avoid_the_blacklist(c: ConfigView, i: int, j: int, ip: IpAddr)
    requires
        strict_fault(c) is None,
        0 <= i < c.targets.len(),
        0 <= j < c.blacklist.len(),
        c.blacklist[j].wf(),
    ensures
        env::net_of(c.targets[i].cidr) matches Some(n) && (n.wf() ==> !(n.holds(ip)
            && c.blacklist[j].holds(ip))),
{
    law_accepted_exactly_if_strict(c);
    assert(strict_target(c, c.targets[i]));
    let n = env::net_of(c.targets[i].cidr)->0;
    assert(!c.blacklist[j].overlaps(n));
    if n.wf() && n.holds(ip) && c.blacklist[j].holds(ip) {
        net::law_overlap_is_a_common_address(c.blacklist[j], n);
    }
}

} // verus!
