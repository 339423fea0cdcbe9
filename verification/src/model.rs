//! Interfaces, routes, rules and decisions.

use vstd::prelude::*;
use crate::net::{IpAddr, IpNet};
use crate::seqs;

verus! {

#[derive(Debug, Clone, Copy, PartialEq, Eq, Structural)]
pub enum InterfaceRole {
    Wan,
    Lan,
    Vpn,
    Virtual,
    Loopback,
    Unknown,
}

impl InterfaceRole {
    pub open spec fn text(self) -> Seq<char> {
        match self {
            InterfaceRole::Wan => "WAN"@,
            InterfaceRole::Lan => "LAN"@,
            InterfaceRole::Vpn => "VPN"@,
            InterfaceRole::Virtual => "Virtual"@,
            InterfaceRole::Loopback => "Loopback"@,
            InterfaceRole::Unknown => "Unknown"@,
        }
    }

    pub fn to_string(&self) -> (r: String)
        ensures
            r@ == self.text(),
    {
        match self {
            InterfaceRole::Wan => "WAN".to_owned(),
            InterfaceRole::Lan => "LAN".to_owned(),
            InterfaceRole::Vpn => "VPN".to_owned(),
            InterfaceRole::Virtual => "Virtual".to_owned(),
            InterfaceRole::Loopback => "Loopback".to_owned(),
            InterfaceRole::Unknown => "Unknown".to_owned(),
        }
    }
}

/// A network interface of the host.
#[derive(Debug, PartialEq, Eq)]
pub struct Interface {
    pub index: u32,
    pub name: String,
    pub is_up: bool,
    pub has_carrier: bool,
    pub is_loopback: bool,
    pub mtu: u32,
    pub mac: Option<String>,
    pub ip_addrs: Vec<IpNet>,
    pub gateway: Option<IpAddr>,
    pub role: InterfaceRole,
}

/// The value of an `Interface` in specifications.
#[verifier::ext_equal]
pub struct InterfaceView {
    pub index: u32,
    pub name: Seq<char>,
    pub is_up: bool,
    pub has_carrier: bool,
    pub is_loopback: bool,
    pub mtu: u32,
    pub mac: Option<Seq<char>>,
    pub ip_addrs: Seq<IpNet>,
    pub gateway: Option<IpAddr>,
    pub role: InterfaceRole,
}

impl View for Interface {
    type V = InterfaceView;

    open spec fn view(&self) -> InterfaceView {
        InterfaceView {
            index: self.index,
            name: self.name@,
            is_up: self.is_up,
            has_carrier: self.has_carrier,
            is_loopback: self.is_loopback,
            mtu: self.mtu,
            mac: seqs::opt_view(self.mac),
            ip_addrs: self.ip_addrs@,
            gateway: self.gateway,
            role: self.role,
        }
    }
}

impl Clone for Interface {
    fn clone(&self) -> (r: Interface)
        ensures
            r@ == self@,
    {
        Interface {
            index: self.index,
            name: self.name.clone(),
            is_up: self.is_up,
            has_carrier: self.has_carrier,
            is_loopback: self.is_loopback,
            mtu: self.mtu,
            mac: copy_name(&self.mac),
            ip_addrs: crate::net::copy_nets(&self.ip_addrs),
            gateway: self.gateway,
            role: self.role,
        }
    }
}

/// What a rule matches.
#[derive(Debug, PartialEq, Eq, Hash)]
pub enum TargetMatcher {
    HostIp(IpAddr),
    Cidr(IpNet),
    Domain(String),
    DomainSuffix(String),
}

/// The value of a `TargetMatcher` in specifications.
pub enum MatcherView {
    HostIp(IpAddr),
    Cidr(IpNet),
    Domain(Seq<char>),
    DomainSuffix(Seq<char>),
}

impl View for TargetMatcher {
    type V = MatcherView;

    open spec fn view(&self) -> MatcherView {
        match self {
            TargetMatcher::HostIp(ip) => MatcherView::HostIp(*ip),
            TargetMatcher::Cidr(net) => MatcherView::Cidr(*net),
            TargetMatcher::Domain(s) => MatcherView::Domain(s@),
            TargetMatcher::DomainSuffix(s) => MatcherView::DomainSuffix(s@),
        }
    }
}

impl MatcherView {
    pub open spec fn text(self) -> Seq<char> {
        match self {
            MatcherView::HostIp(ip) => crate::net::ip_text(ip),
            MatcherView::Cidr(net) => net.text(),
            MatcherView::Domain(s) => s,
            MatcherView::DomainSuffix(s) => "*"@ + s,
        }
    }
}

impl TargetMatcher {
    pub fn to_string(&self) -> (r: String)
        ensures
            r@ == self@.text(),
    {
        match self {
            TargetMatcher::HostIp(ip) => ip.to_string(),
            TargetMatcher::Cidr(net) => net.to_string(),
            TargetMatcher::Domain(s) => s.clone(),
            TargetMatcher::DomainSuffix(s) => "*".to_owned().concat(s.as_str()),
        }
    }
}

impl Clone for TargetMatcher {
    fn clone(&self) -> (r: TargetMatcher)
        ensures
            r@ == self@,
    {
        match self {
            TargetMatcher::HostIp(ip) => TargetMatcher::HostIp(*ip),
            TargetMatcher::Cidr(net) => TargetMatcher::Cidr(*net),
            TargetMatcher::Domain(s) => TargetMatcher::Domain(s.clone()),
            TargetMatcher::DomainSuffix(s) => TargetMatcher::DomainSuffix(s.clone()),
        }
    }
}

/// Where a rule comes from, in order of precedence: what comes first wins.
#[derive(Debug, Clone, Copy, PartialEq, Eq, PartialOrd, Ord, Structural)]
pub enum RuleSource {
    ManualExact,
    ManualDomain,
    ManualCidr,
    ManualSuffix,
    AutoDiscovered,
    WanDefault,
}

impl RuleSource {
    /// The place of the source in the order of precedence.
    pub open spec fn rank(self) -> int {
        match self {
            RuleSource::ManualExact => 1,
            RuleSource::ManualDomain => 2,
            RuleSource::ManualCidr => 3,
            RuleSource::ManualSuffix => 4,
            RuleSource::AutoDiscovered => 5,
            RuleSource::WanDefault => 6,
        }
    }

    pub open spec fn text(self) -> Seq<char> {
        match self {
            RuleSource::ManualExact => "manual exact IP"@,
            RuleSource::ManualDomain => "manual domain"@,
            RuleSource::ManualCidr => "manual CIDR"@,
            RuleSource::ManualSuffix => "manual domain suffix"@,
            RuleSource::AutoDiscovered => "auto-discovered LAN"@,
            RuleSource::WanDefault => "default WAN"@,
        }
    }

    pub fn to_string(&self) -> (r: String)
        ensures
            r@ == self.text(),
    {
        match self {
            RuleSource::ManualExact => "manual exact IP".to_owned(),
            RuleSource::ManualDomain => "manual domain".to_owned(),
            RuleSource::ManualCidr => "manual CIDR".to_owned(),
            RuleSource::ManualSuffix => "manual domain suffix".to_owned(),
            RuleSource::AutoDiscovered => "auto-discovered LAN".to_owned(),
            RuleSource::WanDefault => "default WAN".to_owned(),
        }
    }
}

#[derive(Debug, Clone, Copy, PartialEq, Eq, Structural)]
pub enum HealthState {
    Unknown,
    Healthy,
    Degraded,
    Down,
    Recovering,
}

impl HealthState {
    pub open spec fn text(self) -> Seq<char> {
        match self {
            HealthState::Unknown => "UNKNOWN"@,
            HealthState::Healthy => "HEALTHY"@,
            HealthState::Degraded => "DEGRADED"@,
            HealthState::Down => "DOWN"@,
            HealthState::Recovering => "RECOVERING"@,
        }
    }

    pub fn to_string(&self) -> (r: String)
        ensures
            r@ == self.text(),
    {
        match self {
            HealthState::Unknown => "UNKNOWN".to_owned(),
            HealthState::Healthy => "HEALTHY".to_owned(),
            HealthState::Degraded => "DEGRADED".to_owned(),
            HealthState::Down => "DOWN".to_owned(),
            HealthState::Recovering => "RECOVERING".to_owned(),
        }
    }
}

/// What is known of the path through an interface.
#[derive(Debug, Clone, Copy, PartialEq, Eq, Structural)]
pub struct PathHealth {
    pub state: HealthState,
    pub link_up: bool,
    pub gateway_reachable: bool,
    pub target_reachable: bool,
    pub consecutive_failures: u32,
    pub consecutive_successes: u32,
    pub last_check_epoch_secs: u64,
}

impl View for PathHealth {
    type V = PathHealth;

    open spec fn view(&self) -> PathHealth {
        *self
    }
}

impl PathHealth {
    /// A path of which nothing is known.
    pub open spec fn unknown() -> PathHealth {
        PathHealth {
            state: HealthState::Unknown,
            link_up: false,
            gateway_reachable: false,
            target_reachable: false,
            consecutive_failures: 0,
            consecutive_successes: 0,
            last_check_epoch_secs: 0,
        }
    }
}

impl Default for PathHealth {
    fn default() -> (r: PathHealth)
        ensures
            r == PathHealth::unknown(),
    {
        PathHealth {
            state: HealthState::Unknown,
            link_up: false,
            gateway_reachable: false,
            target_reachable: false,
            consecutive_failures: 0,
            consecutive_successes: 0,
            last_check_epoch_secs: 0,
        }
    }
}

/// What happens to a target none of whose interfaces is available.
#[derive(Debug, Clone, Copy, PartialEq, Eq, Structural)]
pub enum FallbackAction {
    Drop,
    Wan,
    Unreachable,
}

/// Whether a route delivers packets or rejects them.
#[derive(Debug, Clone, Copy, PartialEq, Eq, Hash, Structural)]
pub enum RouteType {
    Unicast,
    Unreachable,
}

#[derive(Debug, PartialEq, Eq, Hash)]
pub struct Route {
    pub destination: IpNet,
    pub output_interface: String,
    pub gateway: Option<IpAddr>,
    pub table: u32,
    pub metric: Option<u32>,
    pub route_type: RouteType,
}

/// The value of a `Route` in specifications.
#[verifier::ext_equal]
pub struct RouteView {
    pub destination: IpNet,
    pub output_interface: Seq<char>,
    pub gateway: Option<IpAddr>,
    pub table: u32,
    pub metric: Option<u32>,
    pub route_type: RouteType,
}

impl View for Route {
    type V = RouteView;

    open spec fn view(&self) -> RouteView {
        RouteView {
            destination: self.destination,
            output_interface: self.output_interface@,
            gateway: self.gateway,
            table: self.table,
            metric: self.metric,
            route_type: self.route_type,
        }
    }
}

fn same_gateway(a: Option<IpAddr>, b: Option<IpAddr>) -> (r: bool)
    ensures
        r == (a == b),
{
    match (a, b) {
        (Some(x), Some(y)) => x == y,
        (None, None) => true,
        _ => false,
    }
}

fn same_metric(a: Option<u32>, b: Option<u32>) -> (r: bool)
    ensures
        r == (a == b),
{
    match (a, b) {
        (Some(x), Some(y)) => x == y,
        (None, None) => true,
        _ => false,
    }
}

impl Clone for Route {
    fn clone(&self) -> (r: Route)
        ensures
            r@ == self@,
    {
        Route {
            destination: self.destination,
            output_interface: self.output_interface.clone(),
            gateway: self.gateway,
            table: self.table,
            metric: self.metric,
            route_type: self.route_type,
        }
    }
}

impl Route {
    /// Whether two routes agree in every field.
    pub fn same(&self, other: &Route) -> (r: bool)
        ensures
            r == (self@ == other@),
    {
        self.destination == other.destination && self.output_interface == other.output_interface
            && same_gateway(self.gateway, other.gateway) && self.table == other.table
            && same_metric(self.metric, other.metric) && self.route_type == other.route_type
    }
}

/// A rule of the routing policy database: packets look up `table` at `priority`.
#[derive(Debug, Clone, Copy, PartialEq, Eq, Hash, Structural)]
pub struct RpdbRule {
    pub priority: u32,
    pub table: u32,
}

/// How a destination is routed, and why.
#[derive(Debug, Clone, PartialEq, Eq)]
pub struct Decision {
    pub destination: String,
    pub resolved_ip: Option<IpAddr>,
    pub matched_rule: Option<String>,
    pub rule_source: RuleSource,
    pub selected_interface: Option<String>,
    pub candidate_interfaces: Vec<String>,
    pub health_state: HealthState,
    pub routing_table: u32,
    pub reason: String,
}

/// The value of a `Decision` in specifications.
#[verifier::ext_equal]
pub struct DecisionView {
    pub destination: Seq<char>,
    pub resolved_ip: Option<IpAddr>,
    pub matched_rule: Option<Seq<char>>,
    pub rule_source: RuleSource,
    pub selected_interface: Option<Seq<char>>,
    pub candidate_interfaces: Seq<Seq<char>>,
    pub health_state: HealthState,
    pub routing_table: u32,
    pub reason: Seq<char>,
}

impl View for Decision {
    type V = DecisionView;

    open spec fn view(&self) -> DecisionView {
        DecisionView {
            destination: self.destination@,
            resolved_ip: self.resolved_ip,
            matched_rule: seqs::opt_view(self.matched_rule),
            rule_source: self.rule_source,
            selected_interface: seqs::opt_view(self.selected_interface),
            candidate_interfaces: seqs::views(self.candidate_interfaces@),
            health_state: self.health_state,
            routing_table: self.routing_table,
            reason: self.reason@,
        }
    }
}

/// The interfaces of the host at one time.
#[derive(Debug, Clone, PartialEq, Eq)]
pub struct TopologySnapshot {
    pub interfaces: Vec<Interface>,
    pub default_wan_interface: Option<String>,
    pub timestamp_secs: u64,
}

/// The routes, rules and firewall entries that should be in force.
#[derive(Debug, PartialEq, Eq)]
pub struct DesiredState {
    pub routes: Vec<Route>,
    pub rules: Vec<RpdbRule>,
    /// Pairs of a domain and the server that answers for it.
    pub dns_split_domains: Vec<(String, IpAddr)>,
    /// Triples of an interface, a destination that may leave through it, and a port.
    pub firewall_whitelist: Vec<(String, String, Option<u16>)>,
    pub blacklist: Vec<IpNet>,
    pub lan_interfaces: Vec<String>,
    pub wan_interface: Option<String>,
}

/// The value of a `DesiredState` in specifications.
#[verifier::ext_equal]
pub struct DesiredView {
    pub routes: Seq<RouteView>,
    pub rules: Seq<RpdbRule>,
    pub dns_split_domains: Seq<(Seq<char>, IpAddr)>,
    pub firewall_whitelist: Seq<(Seq<char>, Seq<char>, Option<u16>)>,
    pub blacklist: Seq<IpNet>,
    pub lan_interfaces: Seq<Seq<char>>,
    pub wan_interface: Option<Seq<char>>,
}

/// The values of pairs of a domain and a server.
pub open spec fn split_views(s: Seq<(String, IpAddr)>) -> Seq<(Seq<char>, IpAddr)> {
    Seq::new(s.len(), |i: int| (s[i].0@, s[i].1))
}

/// The values of triples of an interface, a destination and a port.
pub open spec fn whitelist_views(s: Seq<(String, String, Option<u16>)>) -> Seq<
    (Seq<char>, Seq<char>, Option<u16>),
> {
    Seq::new(s.len(), |i: int| (s[i].0@, s[i].1@, s[i].2))
}

impl View for DesiredState {
    type V = DesiredView;

    open spec fn view(&self) -> DesiredView {
        DesiredView {
            routes: seqs::views(self.routes@),
            rules: self.rules@,
            dns_split_domains: split_views(self.dns_split_domains@),
            firewall_whitelist: whitelist_views(self.firewall_whitelist@),
            blacklist: self.blacklist@,
            lan_interfaces: seqs::views(self.lan_interfaces@),
            wan_interface: seqs::opt_view(self.wan_interface),
        }
    }
}

impl Clone for DesiredState {
    fn clone(&self) -> (r: DesiredState)
        ensures
            r@ == self@,
    {
        DesiredState {
            routes: copy_routes(&self.routes),
            rules: copy_rules(&self.rules),
            dns_split_domains: copy_split(&self.dns_split_domains),
            firewall_whitelist: copy_whitelist(&self.firewall_whitelist),
            blacklist: crate::net::copy_nets(&self.blacklist),
            lan_interfaces: copy_names(&self.lan_interfaces),
            wan_interface: copy_name(&self.wan_interface),
        }
    }
}

impl Default for DesiredState {
    fn default() -> (r: DesiredState)
        ensures
            r@ == (DesiredView {
                routes: Seq::empty(),
                rules: Seq::empty(),
                dns_split_domains: Seq::empty(),
                firewall_whitelist: Seq::empty(),
                blacklist: Seq::empty(),
                lan_interfaces: Seq::empty(),
                wan_interface: None,
            }),
    {
        DesiredState {
            routes: Vec::new(),
            rules: Vec::new(),
            dns_split_domains: Vec::new(),
            firewall_whitelist: Vec::new(),
            blacklist: Vec::new(),
            lan_interfaces: Vec::new(),
            wan_interface: None,
        }
    }
}

/// The routes and rules that were put in force, with the table and the priority they own.
#[derive(Debug, Clone, PartialEq, Eq)]
pub struct ActualState {
    pub routes: Vec<Route>,
    pub rules: Vec<RpdbRule>,
    pub allocated_table: u32,
    pub rule_priority: u32,
}

/// The value of an `ActualState` in specifications.
#[verifier::ext_equal]
pub struct ActualView {
    pub routes: Seq<RouteView>,
    pub rules: Seq<RpdbRule>,
    pub allocated_table: u32,
    pub rule_priority: u32,
}

impl View for ActualState {
    type V = ActualView;

    open spec fn view(&self) -> ActualView {
        ActualView {
            routes: seqs::views(self.routes@),
            rules: self.rules@,
            allocated_table: self.allocated_table,
            rule_priority: self.rule_priority,
        }
    }
}

impl Default for ActualState {
    fn default() -> (r: ActualState)
        ensures
            r@ == (ActualView {
                routes: Seq::empty(),
                rules: Seq::empty(),
                allocated_table: 0,
                rule_priority: 0,
            }),
    {
        ActualState { routes: Vec::new(), rules: Vec::new(), allocated_table: 0, rule_priority: 0 }
    }
}

/// What has to change to get from one state to another.
#[derive(Debug, PartialEq, Eq)]
pub struct StateDiff {
    pub routes_to_add: Vec<Route>,
    pub routes_to_remove: Vec<Route>,
    pub rules_to_add: Vec<RpdbRule>,
    pub rules_to_remove: Vec<RpdbRule>,
}

/// The value of a `StateDiff` in specifications.
#[verifier::ext_equal]
pub struct DiffView {
    pub routes_to_add: Seq<RouteView>,
    pub routes_to_remove: Seq<RouteView>,
    pub rules_to_add: Seq<RpdbRule>,
    pub rules_to_remove: Seq<RpdbRule>,
}

impl View for StateDiff {
    type V = DiffView;

    open spec fn view(&self) -> DiffView {
        DiffView {
            routes_to_add: seqs::views(self.routes_to_add@),
            routes_to_remove: seqs::views(self.routes_to_remove@),
            rules_to_add: self.rules_to_add@,
            rules_to_remove: self.rules_to_remove@,
        }
    }
}

impl Clone for StateDiff {
    fn clone(&self) -> (r: StateDiff)
        ensures
            r@ == self@,
    {
        StateDiff {
            routes_to_add: copy_routes(&self.routes_to_add),
            routes_to_remove: copy_routes(&self.routes_to_remove),
            rules_to_add: copy_rules(&self.rules_to_add),
            rules_to_remove: copy_rules(&self.rules_to_remove),
        }
    }
}

impl DiffView {
    /// Nothing has to change.
    pub open spec fn empty() -> DiffView {
        DiffView {
            routes_to_add: Seq::empty(),
            routes_to_remove: Seq::empty(),
            rules_to_add: Seq::empty(),
            rules_to_remove: Seq::empty(),
        }
    }
}

impl Default for StateDiff {
    fn default() -> (r: StateDiff)
        ensures
            r@ == DiffView::empty(),
    {
        StateDiff {
            routes_to_add: Vec::new(),
            routes_to_remove: Vec::new(),
            rules_to_add: Vec::new(),
            rules_to_remove: Vec::new(),
        }
    }
}

impl StateDiff {
    pub fn is_empty(&self) -> (r: bool)
        ensures
            r == (self@ == DiffView::empty()),
    {
        let r = self.routes_to_add.len() == 0 && self.routes_to_remove.len() == 0
            && self.rules_to_add.len() == 0 && self.rules_to_remove.len() == 0;
        proof {
            if r {
                assert(self@ =~= DiffView::empty());
            } else {
                assert(self@.routes_to_add.len() == self.routes_to_add@.len());
                assert(self@.routes_to_remove.len() == self.routes_to_remove@.len());
            }
        }
        r
    }
}

/// A list of names once more.
pub fn copy_names(list: &Vec<String>) -> (r: Vec<String>)
    ensures
        seqs::views(r@) == seqs::views(list@),
{
    let mut out: Vec<String> = Vec::new();
    let mut i: usize = 0;
    while i < list.len()
        invariant
            i <= list.len(),
            out.len() == i,
            forall|j: int| 0 <= j < i ==> (#[trigger] out@[j])@ == list@[j]@,
        decreases list.len() - i,
    {
        out.push(list[i].clone());
        i += 1;
    }
    proof {
        assert(seqs::views(out@) =~= seqs::views(list@));
    }
    out
}

/// An optional name once more.
pub fn copy_name(name: &Option<String>) -> (r: Option<String>)
    ensures
        seqs::opt_view(r) == seqs::opt_view(*name),
{
    match name {
        Some(s) => Some(s.clone()),
        None => None,
    }
}

/// A list of routes once more.
pub fn copy_routes(list: &Vec<Route>) -> (r: Vec<Route>)
    ensures
        seqs::views(r@) == seqs::views(list@),
{
    let mut out: Vec<Route> = Vec::new();
    let mut i: usize = 0;
    while i < list.len()
        invariant
            i <= list.len(),
            out.len() == i,
            forall|j: int| 0 <= j < i ==> (#[trigger] out@[j])@ == list@[j]@,
        decreases list.len() - i,
    {
        out.push(list[i].clone());
        i += 1;
    }
    proof {
        assert(seqs::views(out@) =~= seqs::views(list@));
    }
    out
}

/// A list of rules once more.
pub fn copy_rules(list: &Vec<RpdbRule>) -> (r: Vec<RpdbRule>)
    ensures
        r@ == list@,
{
    let mut out: Vec<RpdbRule> = Vec::new();
    let mut i: usize = 0;
    while i < list.len()
        invariant
            i <= list.len(),
            out@ == list@.take(i as int),
        decreases list.len() - i,
    {
        out.push(list[i]);
        i += 1;
    }
    out
}

/// A whitelist once more.
pub fn copy_whitelist(list: &Vec<(String, String, Option<u16>)>) -> (r: Vec<
    (String, String, Option<u16>),
>)
    ensures
        whitelist_views(r@) == whitelist_views(list@),
{
    let mut out: Vec<(String, String, Option<u16>)> = Vec::new();
    let mut i: usize = 0;
    while i < list.len()
        invariant
            i <= list.len(),
            out.len() == i,
            forall|j: int|
                0 <= j < i ==> (#[trigger] out@[j]).0@ == list@[j].0@ && out@[j].1@ == list@[j].1@
                    && out@[j].2 == list@[j].2,
        decreases list.len() - i,
    {
        out.push((list[i].0.clone(), list[i].1.clone(), list[i].2));
        i += 1;
    }
    proof {
        assert(whitelist_views(out@) =~= whitelist_views(list@));
    }
    out
}

/// A list of pairs of a domain and a server once more.
pub fn copy_split(list: &Vec<(String, IpAddr)>) -> (r: Vec<(String, IpAddr)>)
    ensures
        split_views(r@) == split_views(list@),
{
    let mut out: Vec<(String, IpAddr)> = Vec::new();
    let mut i: usize = 0;
    while i < list.len()
        invariant
            i <= list.len(),
            out.len() == i,
            forall|j: int|
                0 <= j < i ==> (#[trigger] out@[j]).0@ == list@[j].0@ && out@[j].1 == list@[j].1,
        decreases list.len() - i,
    {
        out.push((list[i].0.clone(), list[i].1));
        i += 1;
    }
    proof {
        assert(split_views(out@) =~= split_views(list@));
    }
    out
}

/// Whether a list holds a name.
pub fn has_name(list: &[String], name: &str) -> (r: bool)
    ensures
        r == seqs::views(list@).contains(name@),
{
    let mut i: usize = 0;
    while i < list.len()
        invariant
            i <= list.len(),
            forall|j: int| 0 <= j < i ==> (#[trigger] seqs::views(list@)[j]) != name@,
        decreases list.len() - i,
    {
        if crate::strings::same(list[i].as_str(), name) {
            proof {
                assert(seqs::views(list@)[i as int] == name@);
            }
            return true;
        }
        i += 1;
    }
    false
}

} // verus!
