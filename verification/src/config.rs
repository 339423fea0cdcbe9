//! The configuration: networks, targets, the blacklist and local names.

use vstd::prelude::*;
use crate::model;
use crate::names::{self, NameMap};
use crate::net::{self, IpAddr, IpNet};
use crate::seqs;
use crate::strings;
use crate::text;

verus! {

/// Whether LAN destinations are found by discovery, by configuration alone, or by both.
#[derive(Debug, Clone, Copy, PartialEq, Eq, Structural)]
pub enum OperatingMode {
    Auto,
    Manual,
    Hybrid,
}

impl Default for OperatingMode {
    fn default() -> (r: OperatingMode)
        ensures
            r == OperatingMode::Manual,
    {
        OperatingMode::Manual
    }
}

#[derive(Debug)]
pub struct DefaultsConfig {
    /// What happens to destinations that no rule matches.
    pub unknown: String,
    /// What happens to LAN destinations when the LAN path fails.
    pub lab_failure: String,
    pub auto_failback: bool,
    pub table_id: u32,
    pub rule_priority: u32,
}

/// The value of a `DefaultsConfig` in specifications.
#[verifier::ext_equal]
pub struct DefaultsView {
    pub unknown: Seq<char>,
    pub lab_failure: Seq<char>,
    pub auto_failback: bool,
    pub table_id: u32,
    pub rule_priority: u32,
}

impl View for DefaultsConfig {
    type V = DefaultsView;

    open spec fn view(&self) -> DefaultsView {
        DefaultsView {
            unknown: self.unknown@,
            lab_failure: self.lab_failure@,
            auto_failback: self.auto_failback,
            table_id: self.table_id,
            rule_priority: self.rule_priority,
        }
    }
}

impl DefaultsView {
    pub open spec fn standard() -> DefaultsView {
        DefaultsView {
            unknown: "wan"@,
            lab_failure: "drop"@,
            auto_failback: true,
            table_id: 52000,
            rule_priority: 12000,
        }
    }
}

impl Default for DefaultsConfig {
    fn default() -> (r: DefaultsConfig)
        ensures
            r@ == DefaultsView::standard(),
    {
        DefaultsConfig {
            unknown: "wan".to_owned(),
            lab_failure: "drop".to_owned(),
            auto_failback: true,
            table_id: 52000,
            rule_priority: 12000,
        }
    }
}

impl Clone for DefaultsConfig {
    fn clone(&self) -> (r: DefaultsConfig)
        ensures
            r@ == self@,
    {
        DefaultsConfig {
            unknown: self.unknown.clone(),
            lab_failure: self.lab_failure.clone(),
            auto_failback: self.auto_failback,
            table_id: self.table_id,
            rule_priority: self.rule_priority,
        }
    }
}

/// The interfaces of the normal path; `auto` stands for the one with the default route.
#[derive(Debug)]
pub struct WanConfig {
    pub interfaces: Vec<String>,
}

impl Default for WanConfig {
    fn default() -> (r: WanConfig)
        ensures
            r.interfaces@.len() == 0,
    {
        WanConfig { interfaces: Vec::new() }
    }
}

#[derive(Debug)]
pub struct NetworkConfig {
    pub name: String,
    pub role: String,
    pub interfaces: Vec<String>,
    pub auto_subnets: bool,
    pub preferred: Vec<String>,
    pub domains: Vec<String>,
    pub dns: Vec<IpAddr>,
}

/// The value of a `NetworkConfig` in specifications.
#[verifier::ext_equal]
pub struct NetworkView {
    pub name: Seq<char>,
    pub role: Seq<char>,
    pub interfaces: Seq<Seq<char>>,
    pub auto_subnets: bool,
    pub preferred: Seq<Seq<char>>,
    pub domains: Seq<Seq<char>>,
    pub dns: Seq<IpAddr>,
}

impl View for NetworkConfig {
    type V = NetworkView;

    open spec fn view(&self) -> NetworkView {
        NetworkView {
            name: self.name@,
            role: self.role@,
            interfaces: seqs::views(self.interfaces@),
            auto_subnets: self.auto_subnets,
            preferred: seqs::views(self.preferred@),
            domains: seqs::views(self.domains@),
            dns: self.dns@,
        }
    }
}

impl Clone for NetworkConfig {
    fn clone(&self) -> (r: NetworkConfig)
        ensures
            r@ == self@,
    {
        NetworkConfig {
            name: self.name.clone(),
            role: self.role.clone(),
            interfaces: model::copy_names(&self.interfaces),
            auto_subnets: self.auto_subnets,
            preferred: model::copy_names(&self.preferred),
            domains: model::copy_names(&self.domains),
            dns: net::copy_ips(&self.dns),
        }
    }
}

/// A destination that belongs to the LAN.
#[derive(Debug)]
pub struct TargetConfig {
    pub name: String,
    /// An address, a network or a domain.
    pub cidr: String,
    pub port: Option<u16>,
    /// The interfaces that lead to it, the best first.
    pub via: Vec<String>,
    /// What happens when none of them is available: `drop` or `wan`.
    pub fallback: String,
}

/// The value of a `TargetConfig` in specifications.
#[verifier::ext_equal]
pub struct TargetView {
    pub name: Seq<char>,
    pub cidr: Seq<char>,
    pub port: Option<u16>,
    pub via: Seq<Seq<char>>,
    pub fallback: Seq<char>,
}

impl View for TargetConfig {
    type V = TargetView;

    open spec fn view(&self) -> TargetView {
        TargetView {
            name: self.name@,
            cidr: self.cidr@,
            port: self.port,
            via: seqs::views(self.via@),
            fallback: self.fallback@,
        }
    }
}

impl Clone for TargetConfig {
    fn clone(&self) -> (r: TargetConfig)
        ensures
            r@ == self@,
    {
        TargetConfig {
            name: self.name.clone(),
            cidr: self.cidr.clone(),
            port: self.port,
            via: model::copy_names(&self.via),
            fallback: self.fallback.clone(),
        }
    }
}

/// Networks and targets that go together.
#[derive(Debug)]
pub struct ProfileConfig {
    pub networks: Vec<NetworkConfig>,
    pub targets: Vec<TargetConfig>,
}

/// The value of a `ProfileConfig` in specifications.
#[verifier::ext_equal]
pub struct ProfileView {
    pub networks: Seq<NetworkView>,
    pub targets: Seq<TargetView>,
}

impl View for ProfileConfig {
    type V = ProfileView;

    open spec fn view(&self) -> ProfileView {
        ProfileView {
            networks: seqs::views(self.networks@),
            targets: seqs::views(self.targets@),
        }
    }
}

impl Default for ProfileConfig {
    fn default() -> (r: ProfileConfig)
        ensures
            r@ == (ProfileView { networks: Seq::empty(), targets: Seq::empty() }),
    {
        ProfileConfig { networks: Vec::new(), targets: Vec::new() }
    }
}

#[derive(Debug)]
pub struct Config {
    pub mode: OperatingMode,
    pub defaults: DefaultsConfig,
    pub wan: WanConfig,
    pub networks: Vec<NetworkConfig>,
    pub targets: Vec<TargetConfig>,
    pub profiles: NameMap<ProfileConfig>,
    /// Addresses that must never egress through a configured target interface.
    pub blacklist: Vec<IpNet>,
    /// Static authoritative records used by policy decisions before system DNS.
    pub local_dns: NameMap<Vec<IpAddr>>,
    /// Host names that are authorized to resolve through the LAN DNS server.
    pub lan_domains: Vec<String>,
    /// Explicit DNS resolvers used only for `lan_domains`.
    pub lan_dns_servers: Vec<IpAddr>,
    /// Interfaces permitted to carry configured LAN destinations and LAN DNS.
    pub lan_interfaces: Vec<String>,
}

/// The value of a `Config` in specifications.
#[verifier::ext_equal]
pub struct ConfigView {
    pub mode: OperatingMode,
    pub defaults: DefaultsView,
    pub wan: Seq<Seq<char>>,
    pub networks: Seq<NetworkView>,
    pub targets: Seq<TargetView>,
    pub profiles: Seq<(Seq<char>, ProfileView)>,
    pub blacklist: Seq<IpNet>,
    pub local_dns: Seq<(Seq<char>, Seq<IpAddr>)>,
    pub lan_domains: Seq<Seq<char>>,
    pub lan_dns_servers: Seq<IpAddr>,
    pub lan_interfaces: Seq<Seq<char>>,
}

impl View for Config {
    type V = ConfigView;

    open spec fn view(&self) -> ConfigView {
        ConfigView {
            mode: self.mode,
            defaults: self.defaults@,
            wan: seqs::views(self.wan.interfaces@),
            networks: seqs::views(self.networks@),
            targets: seqs::views(self.targets@),
            profiles: self.profiles@,
            blacklist: self.blacklist@,
            local_dns: self.local_dns@,
            lan_domains: seqs::views(self.lan_domains@),
            lan_dns_servers: self.lan_dns_servers@,
            lan_interfaces: seqs::views(self.lan_interfaces@),
        }
    }
}

impl ConfigView {
    /// Manual mode, the standard defaults, the WAN interface found by its default route, and
    /// nothing else.
    pub open spec fn standard() -> ConfigView {
        ConfigView {
            mode: OperatingMode::Manual,
            defaults: DefaultsView::standard(),
            wan: seq!["auto"@],
            networks: Seq::empty(),
            targets: Seq::empty(),
            profiles: Seq::empty(),
            blacklist: Seq::empty(),
            local_dns: Seq::empty(),
            lan_domains: Seq::empty(),
            lan_dns_servers: Seq::empty(),
            lan_interfaces: Seq::empty(),
        }
    }

    /// The addresses that the local records hold for a name, whatever the case of its letters
    /// and with or without dots at its end, in the record and here.
    pub open spec fn local_addresses(self, name: Seq<char>) -> Option<Seq<IpAddr>> {
        record_of(self.local_dns, canonical(name))
    }
}

impl Default for Config {
    fn default() -> (r: Config)
        ensures
            r@ == ConfigView::standard(),
    {
        let mut wan: Vec<String> = Vec::new();
        wan.push("auto".to_owned());
        let r = Config {
            mode: OperatingMode::Manual,
            defaults: DefaultsConfig::default(),
            wan: WanConfig { interfaces: wan },
            networks: Vec::new(),
            targets: Vec::new(),
            profiles: NameMap::new(),
            blacklist: Vec::new(),
            local_dns: NameMap::new(),
            lan_domains: Vec::new(),
            lan_dns_servers: Vec::new(),
            lan_interfaces: Vec::new(),
        };
        proof {
            assert(r@.wan =~= ConfigView::standard().wan);
            assert(r@ =~= ConfigView::standard());
        }
        r
    }
}

/// The form in which names are compared: without white space around them and without dots at the
/// end, in lower case.
pub open spec fn canonical(name: Seq<char>) -> Seq<char> {
    text::lower_ascii(text::strip_tail(text::trim(name), '.'))
}

/// The canonical form of a name.
pub fn canonical_domain(name: &str) -> (r: String)
    ensures
        r@ == canonical(name@),
{
    strings::lower_ascii(strings::strip_tail(strings::trim(name), '.'))
}

/// Whether a name has the canonical form `form`.
pub open spec fn written_as(form: Seq<char>) -> spec_fn(Seq<char>) -> bool {
    |name: Seq<char>| canonical(name) == form
}

/// The name under which local records hold what belongs to a canonical form: the form itself or
/// else the first name that has this form. A new record goes under the form itself.
pub open spec fn record_key(records: Seq<(Seq<char>, Seq<IpAddr>)>, form: Seq<char>) -> Seq<char> {
    let written = names::keys(records);
    let k = seqs::first_where(written, written_as(form));
    if names::lookup(records, form) is None && k < written.len() {
        written[k]
    } else {
        form
    }
}

/// The addresses that local records hold for a canonical form.
pub open spec fn record_of(records: Seq<(Seq<char>, Seq<IpAddr>)>, form: Seq<char>) -> Option<
    Seq<IpAddr>,
> {
    names::lookup(records, record_key(records, form))
}

/// The name under which local records hold what belongs to a canonical form.
pub fn find_record_key(records: &NameMap<Vec<IpAddr>>, form: &str) -> (r: String)
    ensures
        r@ == record_key(records@, form@),
{
    let ghost written = names::keys(records@);
    let ghost p = written_as(form@);
    if records.get(form).is_some() {
        return form.to_owned();
    }
    let mut i: usize = 0;
    while i < records.len()
        invariant
            i <= records@.len(),
            written == names::keys(records@),
            p == written_as(form@),
            names::lookup(records@, form@) is None,
            forall|j: int| 0 <= j < i ==> !p(#[trigger] written[j]),
        decreases records@.len() - i,
    {
        let name = records.name_at(i);
        if canonical_domain(name.as_str()) == form.to_owned() {
            proof {
                assert(p(written[i as int]));
                seqs::lemma_first_where_is(written, p, i as int);
            }
            return name.clone();
        }
        proof {
            assert(!p(written[i as int]));
        }
        i += 1;
    }
    proof {
        seqs::lemma_first_where_is(written, p, i as int);
    }
    form.to_owned()
}

/// The addresses that local records hold for a canonical form.
pub fn find_record<'a>(records: &'a NameMap<Vec<IpAddr>>, form: &str) -> (r: Option<&'a Vec<IpAddr>>)
    ensures
        match r {
            Some(ips) => record_of(records@, form@) == Some(ips@),
            None => record_of(records@, form@) is None,
        },
{
    let key = find_record_key(records, form);
    records.get(key.as_str())
}

impl Config {
    /// Resolve a domain from the static local map. Matching is case-insensitive
    /// and accepts the trailing dot form emitted by DNS clients.
    pub fn resolve_local_domain(&self, name: &str) -> (r: Option<&[IpAddr]>)
        ensures
            match r {
                Some(ips) => self@.local_addresses(name@) == Some(ips@),
                None => self@.local_addresses(name@) is None,
            },
    {
        let form = canonical_domain(name);
        match find_record(&self.local_dns, form.as_str()) {
            Some(list) => Some(list.as_slice()),
            None => None,
        }
    }

    /// Whether a host name is explicitly allowed to use the LAN DNS path.
    pub fn is_lan_domain(&self, name: &str) -> (r: bool)
        ensures
            r == self@.lan_domains.contains(canonical(name@)),
    {
        let form = canonical_domain(name);
        let ghost all = self@.lan_domains;
        let mut i: usize = 0;
        while i < self.lan_domains.len()
            invariant
                i <= self.lan_domains.len(),
                all == self@.lan_domains,
                form@ == canonical(name@),
                forall|j: int| 0 <= j < i ==> #[trigger] all[j] != form@,
            decreases self.lan_domains.len() - i,
        {
            proof {
                assert(all[i as int] == self.lan_domains@[i as int]@);
            }
            if self.lan_domains[i] == form {
                return true;
            }
            i += 1;
        }
        false
    }
}

/// Names that have the same canonical form have the same local addresses, and belong to the LAN
/// together.
pub proof fn law_answers_depend_on_the_form_alone(c: ConfigView, a: Seq<char>, b: Seq<char>)
    requires
        canonical(a) == canonical(b),
    ensures
        c.local_addresses(a) == c.local_addresses(b),
        c.lan_domains.contains(canonical(a)) == c.lan_domains.contains(canonical(b)),
{
}

/// A record is found however it was written: a name whose canonical form is that of the record's
/// name has local addresses, and those of the record if no other record has this form.
pub proof fn law_record_is_found_however_written(c: ConfigView, i: int, name: Seq<char>)
    requires
        0 <= i < c.local_dns.len(),
        canonical(c.local_dns[i].0) == canonical(name),
        names::ascending(names::keys(c.local_dns)),
    ensures
        c.local_addresses(name) is Some,
        (forall|j: int|
            0 <= j < c.local_dns.len() && j != i ==> canonical((#[trigger] c.local_dns[j]).0)
                != canonical(name) && c.local_dns[j].0 != canonical(name))
            ==> c.local_addresses(name) == Some(c.local_dns[i].1),
{
    let m = c.local_dns;
    let form = canonical(name);
    let written = names::keys(m);
    let p = written_as(form);
    let k = seqs::first_where(written, p);
    seqs::lemma_first_where(written, p);
    assert(p(written[i]));
    assert(k <= i);
    names::lemma_lookup_keys(m, form);
    if names::lookup(m, form) is None {
        assert(written[k] == m[k].0);
        names::lemma_lookup_at(m, k);
    } else {
        let j = choose|j: int|
            0 <= j < m.len() && (#[trigger] m[j]).0 == form && names::lookup(m, form) == Some(
                m[j].1,
            );
        assert(m[j].0 == form);
    }
}

/// What is written for a canonical form is what is found for it.
pub proof fn lemma_record_written(
    m: Seq<(Seq<char>, Seq<IpAddr>)>,
    form: Seq<char>,
    ips: Seq<IpAddr>,
)
    requires
        names::ascending(names::keys(m)),
    ensures
        names::ascending(names::keys(names::with_entry(m, record_key(m, form), ips))),
        record_of(names::with_entry(m, record_key(m, form), ips), form) == Some(ips),
{
    let key = record_key(m, form);
    let n = names::with_entry(m, key, ips);
    names::lemma_with_entry_ascending(m, key, ips);
    names::lemma_lookup_with_entry(m, key, ips, key);
    names::lemma_lookup_with_entry(m, key, ips, form);
    if key != form {
        seqs::lemma_first_where(names::keys(m), written_as(form));
        names::lemma_with_name_known(names::keys(m), key);
        assert(names::keys(n) == names::keys(m));
    } else if names::lookup(m, form) is None {
        assert(names::lookup(n, form) is Some);
    }
}

/// Two names that differ in the case of ASCII letters alone have the same canonical form.
pub proof fn law_canonical_ignores_case(a: Seq<char>, b: Seq<char>)
    requires
        text::same_ignoring_case(a, b),
    ensures
        canonical(a) == canonical(b),
{
    text::lemma_trim_ignores_case(a, b);
    text::lemma_strip_tail_ignores_case(text::trim(a), text::trim(b), '.');
}

/// A name and the same name with a dot behind it have the same canonical form, unless there is
/// white space before the dot.
pub proof fn law_canonical_ignores_trailing_dot(a: Seq<char>)
    requires
        a.len() > 0 ==> !text::is_white(a.last()),
    ensures
        canonical(a + seq!['.']) == canonical(a),
{
    let t = text::trim_start(a);
    text::lemma_trim_start_append(a, '.');
    text::lemma_trim_start(a);
    assert(t.len() > 0 ==> t.last() == a.last());
    assert((t + seq!['.']).drop_last() =~= t);
}

/// What holds unless something else is configured: the manual mode, the WAN interface found by its
/// default route, unknown destinations on the normal path, failed targets dropped, and the table
/// and priority of the isolated routes.
pub proof fn law_standard_configuration()
    ensures
        ({
            let c = ConfigView::standard();
            &&& c.mode == OperatingMode::Manual
            &&& c.wan == seq!["auto"@]
            &&& c.defaults.unknown == "wan"@
            &&& c.defaults.lab_failure == "drop"@
            &&& c.defaults.table_id == 52000
            &&& c.defaults.rule_priority == 12000
            &&& c.networks.len() == 0 && c.targets.len() == 0 && c.blacklist.len() == 0
            &&& c.local_dns.len() == 0 && c.lan_domains.len() == 0 && c.lan_dns_servers.len() == 0
            &&& c.lan_interfaces.len() == 0
        }),
{
}

} // verus!
