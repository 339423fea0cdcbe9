//! The routing tables and interfaces of the host, as the `ip` program shows and changes them.

use vstd::prelude::*;
use crate::env;
use crate::error::{LinuxError, LinuxErrorView};
use crate::model::{Interface, InterfaceRole, InterfaceView, RouteType, RouteView, RpdbRule};
use crate::net::{self, IpAddr, IpNet};
use crate::process::{Call, CallView, Reply, ReplyView};
use crate::seqs;
use crate::strings;
use crate::text;

verus! {

// ---------------------------------------------------------------------------------------------
// Words
// ---------------------------------------------------------------------------------------------
/// The word behind the first occurrence of `key`.
pub open spec fn word_after(words: Seq<Seq<char>>, key: Seq<char>) -> Option<Seq<char>>
    decreases words.len(),
{
    if words.len() < 2 {
        None
    } else if words[0] == key {
        Some(words[1])
    } else {
        word_after(words.skip(1), key)
    }
}

/// The word behind the last occurrence of `key` that has a word behind it.
pub open spec fn last_word_after(words: Seq<Seq<char>>, key: Seq<char>) -> Option<Seq<char>>
    decreases words.len(),
{
    if words.len() < 2 {
        None
    } else if words[words.len() - 2] == key {
        Some(words.last())
    } else {
        last_word_after(words.drop_last(), key)
    }
}

pub(crate) fn find_word_after<'a>(words: &Vec<&'a str>, key: &str) -> (r: Option<&'a str>)
    ensures
        seqs::opt_view(r) == word_after(seqs::views(words@), key@),
{
    let ghost all = seqs::views(words@);
    let n = words.len();
    let mut i: usize = 0;
    proof {
        assert(all.skip(0) =~= all);
    }
    while n >= 2 && i < n - 1
        invariant
            n == words.len(),
            n >= 2 ==> i <= n - 1,
            n < 2 ==> i == 0,
            all == seqs::views(words@),
            word_after(all, key@) == word_after(all.skip(i as int), key@),
        decreases n - i,
    {
        proof {
            assert(all.skip(i as int)[0] == words@[i as int]@);
            assert(all.skip(i as int)[1] == words@[i + 1]@);
            assert(all.skip(i as int).skip(1) =~= all.skip(i + 1));
        }
        if strings::same(words[i], key) {
            return Some(words[i + 1]);
        }
        i += 1;
    }
    None
}

pub(crate) fn find_last_word_after<'a>(words: &Vec<&'a str>, key: &str) -> (r: Option<&'a str>)
    ensures
        seqs::opt_view(r) == last_word_after(seqs::views(words@), key@),
{
    let ghost all = seqs::views(words@);
    let mut n: usize = words.len();
    proof {
        assert(all.take(n as int) =~= all);
    }
    while n >= 2
        invariant
            n <= words.len(),
            all == seqs::views(words@),
            last_word_after(all, key@) == last_word_after(all.take(n as int), key@),
        decreases n,
    {
        proof {
            assert(all.take(n as int)[n - 2] == words@[n - 2]@);
            assert(all.take(n as int).last() == words@[n - 1]@);
            assert(all.take(n as int).drop_last() =~= all.take(n - 1));
        }
        if strings::same(words[n - 2], key) {
            return Some(words[n - 1]);
        }
        n -= 1;
    }
    None
}

/// The number that a text denotes, of a table, a priority, a metric or an index.
pub open spec fn number_of(s: Seq<char>) -> Option<u32> {
    match text::number(s, 10, u32::MAX as int) {
        Some(n) => Some(n as u32),
        None => None,
    }
}

pub(crate) fn parse_number(s: &str) -> (r: Option<u32>)
    ensures
        r == number_of(s@),
{
    strings::parse_u32(s)
}

/// What a command wrote. That it could not be started is an error; a command that ended badly
/// counts as one that wrote nothing.
pub open spec fn shown(reply: ReplyView) -> Result<Seq<char>, LinuxErrorView> {
    match reply {
        ReplyView::NotStarted(e) => Err(LinuxErrorView::Io(e)),
        _ => Ok(reply.out()),
    }
}

pub(crate) fn read_shown<'a>(reply: &'a Reply) -> (r: Result<&'a str, LinuxError>)
    ensures
        match r {
            Ok(s) => shown(reply@) == Ok::<Seq<char>, LinuxErrorView>(s@),
            Err(e) => shown(reply@) == Err::<Seq<char>, LinuxErrorView>(e@),
        },
{
    match reply {
        Reply::NotStarted(e) => Err(LinuxError::Io(e.clone())),
        Reply::Ended { success, stdout, .. } => {
            if *success {
                Ok(stdout.as_str())
            } else {
                proof {
                    reveal_strlit("");
                    assert(""@ =~= Seq::<char>::empty());
                }
                Ok("")
            }
        },
    }
}

// ---------------------------------------------------------------------------------------------
// Lines
// ---------------------------------------------------------------------------------------------
/// The networks that a line of the brief address list names: all words but the first two.
pub open spec fn nets_on() -> spec_fn(Seq<char>) -> Seq<IpNet> {
    |line: Seq<char>|
        {
            let w = text::words(line);
            if w.len() >= 3 {
                seqs::flat(w.skip(2), net_word())
            } else {
                Seq::empty()
            }
        }
}

/// The network that a word denotes.
pub open spec fn net_word() -> spec_fn(Seq<char>) -> Seq<IpNet> {
    |w: Seq<char>|
        match net::net_from(w) {
            Some(n) => seq![n],
            None => Seq::empty(),
        }
}

/// The interface that a line names.
pub open spec fn device_on() -> spec_fn(Seq<char>) -> Option<Seq<char>> {
    |line: Seq<char>| word_after(text::words(line), "dev"@)
}

/// The gateway that a line names.
pub open spec fn gateway_on() -> spec_fn(Seq<char>) -> Option<IpAddr> {
    |line: Seq<char>|
        match word_after(text::words(line), "via"@) {
            Some(w) => net::ip_from(w),
            None => None,
        }
}

/// The table that a rule on a line looks up.
pub open spec fn table_on() -> spec_fn(Seq<char>) -> Seq<u32> {
    |line: Seq<char>|
        match word_after(text::words(line), "lookup"@) {
            Some(w) => match number_of(w) {
                Some(t) => seq![t],
                None => Seq::empty(),
            },
            None => Seq::empty(),
        }
}

/// The rule on a line: the first word, without the colon behind it, is its priority.
pub open spec fn rule_on() -> spec_fn(Seq<char>) -> Seq<RpdbRule> {
    |line: Seq<char>|
        {
            let w = text::words(line);
            if w.len() < 2 {
                Seq::empty()
            } else {
                match (number_of(text::strip_tail(w[0], ':')), word_after(w, "lookup"@)) {
                    (Some(priority), Some(t)) => match number_of(t) {
                        Some(table) => seq![RpdbRule { priority, table }],
                        None => Seq::empty(),
                    },
                    _ => Seq::empty(),
                }
            }
        }
}

/// The route that words describe. A route that delivers names an interface.
pub open spec fn route_words(w: Seq<Seq<char>>, table: u32, route_type: RouteType) -> Seq<
    RouteView,
> {
    let destination = if w.len() == 0 {
        None
    } else {
        env::net_of(w[0])
    };
    let gateway = match last_word_after(w, "via"@) {
        Some(g) => net::ip_from(g),
        None => None,
    };
    match route_with(w, table, route_type, destination, gateway) {
        Some(r) => seq![r],
        None => Seq::empty(),
    }
}

/// The route that words describe whose destination and gateway are these, if any.
pub open spec fn route_with(
    w: Seq<Seq<char>>,
    table: u32,
    route_type: RouteType,
    destination: Option<IpNet>,
    gateway: Option<IpAddr>,
) -> Option<RouteView> {
    let device = match last_word_after(w, "dev"@) {
        Some(d) => d,
        None => Seq::empty(),
    };
    if destination is None || (device.len() == 0 && route_type is Unicast) {
        None
    } else {
        Some(
            RouteView {
                destination: destination->0,
                output_interface: device,
                gateway,
                table,
                metric: match last_word_after(w, "metric"@) {
                    Some(m) => number_of(m),
                    None => None,
                },
                route_type,
            },
        )
    }
}

/// The route on a line. `unreachable` before the destination marks a route that rejects.
pub open spec fn route_on(table: u32) -> spec_fn(Seq<char>) -> Seq<RouteView> {
    |line: Seq<char>|
        {
            let w = text::words(line);
            if w.len() > 0 && w[0] == "unreachable"@ {
                route_words(w.skip(1), table, RouteType::Unreachable)
            } else {
                route_words(w, table, RouteType::Unicast)
            }
        }
}

/// The neighbor on an interface that a line of the ARP table names: the entry is complete if its
/// flags are not zero.
pub open spec fn arp_on(iface: Seq<char>) -> spec_fn(Seq<char>) -> Seq<IpAddr> {
    |line: Seq<char>|
        {
            let w = text::words(line);
            if w.len() >= 6 && w[5] == iface && w[2] != "0x0"@ {
                ip_word(w[0])
            } else {
                Seq::empty()
            }
        }
}

/// The neighbor that a line of the neighbor list names.
pub open spec fn neighbor_on() -> spec_fn(Seq<char>) -> Seq<IpAddr> {
    |line: Seq<char>|
        {
            let w = text::words(line);
            if w.len() > 0 {
                ip_word(w[0])
            } else {
                Seq::empty()
            }
        }
}

/// The address that a word denotes.
pub open spec fn ip_word(w: Seq<char>) -> Seq<IpAddr> {
    match net::ip_from(w) {
        Some(ip) => seq![ip],
        None => Seq::empty(),
    }
}

/// The lines of the ARP table, without its heading.
pub open spec fn arp_lines(content: Option<Seq<char>>) -> Seq<Seq<char>> {
    match content {
        Some(c) => if text::lines(c).len() > 0 {
            text::lines(c).skip(1)
        } else {
            Seq::empty()
        },
        None => Seq::empty(),
    }
}

// ---------------------------------------------------------------------------------------------
// Interfaces
// ---------------------------------------------------------------------------------------------
/// What the system says of an interface: the contents of its files, as far as they can be read.
pub struct InterfaceFacts<'a> {
    pub name: &'a str,
    pub ifindex: Option<&'a str>,
    pub operstate: Option<&'a str>,
    pub carrier: Option<&'a str>,
    pub mtu: Option<&'a str>,
    pub address: Option<&'a str>,
}

/// The number that a file holds.
pub open spec fn file_number(content: Option<Seq<char>>, default: u32) -> u32 {
    match content {
        Some(c) => match number_of(text::trim(c)) {
            Some(n) => n,
            None => default,
        },
        None => default,
    }
}

/// Whether a file that holds the state of an interface says that it is up.
pub open spec fn state_up(content: Seq<char>) -> bool {
    text::trim(content) == "up"@ || text::trim(content) == "unknown"@
}

/// The interface that the system describes.
pub open spec fn interface_of(
    name: Seq<char>,
    ifindex: Option<Seq<char>>,
    operstate: Option<Seq<char>>,
    carrier: Option<Seq<char>>,
    mtu: Option<Seq<char>>,
    address: Option<Seq<char>>,
    ip_addrs: Seq<IpNet>,
) -> InterfaceView {
    let is_up = operstate matches Some(s) && state_up(s);
    InterfaceView {
        index: file_number(ifindex, 0),
        name,
        is_up,
        has_carrier: match carrier {
            Some(c) => text::trim(c) == "1"@,
            None => is_up,
        },
        is_loopback: name == "lo"@,
        mtu: file_number(mtu, 1500),
        mac: match address {
            Some(a) => if text::trim(a).len() == 0 || text::trim(a) == "00:00:00:00:00:00"@ {
                None
            } else {
                Some(text::trim(a))
            },
            None => None,
        },
        ip_addrs,
        gateway: None,
        role: InterfaceRole::Unknown,
    }
}

/// A list in order of index with one interface more, behind those with the same index.
pub open spec fn with_interface(s: Seq<InterfaceView>, x: InterfaceView) -> Seq<InterfaceView>
    decreases s.len(),
{
    if s.len() == 0 || s.last().index <= x.index {
        s.push(x)
    } else {
        with_interface(s.drop_last(), x).push(s.last())
    }
}

/// The interfaces in order of index; those with the same index keep their order.
pub open spec fn by_index(s: Seq<InterfaceView>) -> Seq<InterfaceView>
    decreases s.len(),
{
    if s.len() == 0 {
        s
    } else {
        with_interface(by_index(s.drop_last()), s.last())
    }
}

fn read_file_number(content: Option<&str>, default: u32) -> (r: u32)
    ensures
        r == file_number(seqs::opt_view(content), default),
{
    match content {
        Some(c) => match parse_number(strings::trim(c)) {
            Some(n) => n,
            None => default,
        },
        None => default,
    }
}

/// Whether a file that holds the state of an interface says that it is up.
pub fn is_state_up(content: &str) -> (r: bool)
    ensures
        r == state_up(content@),
{
    let s = strings::trim(content);
    strings::same(s, "up") || strings::same(s, "unknown")
}

fn insert_interface(list: &mut Vec<Interface>, x: Interface)
    ensures
        seqs::views(final(list)@) == with_interface(seqs::views(old(list)@), x@),
{
    let ghost s = seqs::views(list@);
    let n = list.len();
    let mut j: usize = n;
    proof {
        assert(s.take(n as int) =~= s);
        assert(s.skip(n as int).len() == 0);
        assert(with_interface(s, x@) =~= with_interface(s.take(n as int), x@) + s.skip(n as int));
    }
    while j > 0 && list[j - 1].index > x.index
        invariant
            j <= n,
            n == list.len(),
            s == seqs::views(list@),
            with_interface(s, x@) == with_interface(s.take(j as int), x@) + s.skip(j as int),
        decreases j,
    {
        proof {
            let t = s.take(j as int);
            assert(t.last() == list@[j - 1]@);
            assert(t.drop_last() =~= s.take(j - 1));
            assert(with_interface(s.take(j - 1), x@).push(t.last()) + s.skip(j as int)
                =~= with_interface(s.take(j - 1), x@) + s.skip(j - 1));
        }
        j -= 1;
    }
    proof {
        if j > 0 {
            assert(s.take(j as int).last() == list@[j - 1]@);
        }
    }
    let ghost v = x@;
    list.insert(j, x);
    proof {
        assert(seqs::views(list@) =~= s.take(j as int).push(v) + s.skip(j as int));
    }
}

#[derive(Debug, Clone, Copy)]
pub struct NetlinkController;

impl Default for NetlinkController {
    fn default() -> (r: NetlinkController)
        ensures
            r == NetlinkController,
    {
        NetlinkController
    }
}

pub(crate) fn ip_call(args: &[&str]) -> (r: Call)
    ensures
        r@ == (CallView { program: "ip"@, args: seqs::views(args@) }),
{
    Call::new("ip", args)
}

impl NetlinkController {
    pub fn new() -> (r: NetlinkController)
        ensures
            r == NetlinkController,
    {
        NetlinkController
    }

    /// The interface that the system describes, with the networks that it is in.
    pub fn read_interface(&self, facts: &InterfaceFacts, ip_addrs: Vec<IpNet>) -> (r: Interface)
        ensures
            r@ == interface_of(
                facts.name@,
                seqs::opt_view(facts.ifindex),
                seqs::opt_view(facts.operstate),
                seqs::opt_view(facts.carrier),
                seqs::opt_view(facts.mtu),
                seqs::opt_view(facts.address),
                ip_addrs@,
            ),
    {
        let is_up = match facts.operstate {
            Some(s) => is_state_up(s),
            None => false,
        };
        let has_carrier = match facts.carrier {
            Some(c) => strings::same(strings::trim(c), "1"),
            None => is_up,
        };
        let mac = match facts.address {
            Some(a) => {
                let s = strings::trim(a);
                if s.unicode_len() == 0 || strings::same(s, "00:00:00:00:00:00") {
                    None
                } else {
                    Some(s.to_owned())
                }
            },
            None => None,
        };
        Interface {
            index: read_file_number(facts.ifindex, 0),
            name: facts.name.to_owned(),
            is_up,
            has_carrier,
            is_loopback: strings::same(facts.name, "lo"),
            mtu: read_file_number(facts.mtu, 1500),
            mac,
            ip_addrs,
            gateway: None,
            role: InterfaceRole::Unknown,
        }
    }

    /// The interfaces that were read, in order of index.
    pub fn get_interfaces(&self, found: &Vec<Interface>) -> (r: Vec<Interface>)
        ensures
            seqs::views(r@) == by_index(seqs::views(found@)),
    {
        let ghost all = seqs::views(found@);
        let mut out: Vec<Interface> = Vec::new();
        let mut i: usize = 0;
        proof {
            assert(seqs::views(out@) =~= by_index(all.take(0)));
        }
        while i < found.len()
            invariant
                i <= found.len(),
                all == seqs::views(found@),
                seqs::views(out@) == by_index(all.take(i as int)),
            decreases found.len() - i,
        {
            proof {
                seqs::lemma_take_next(all, i as int);
                assert(all[i as int] == found@[i as int]@);
            }
            insert_interface(&mut out, found[i].clone());
            i += 1;
        }
        proof {
            seqs::lemma_take_all(all);
        }
        out
    }

    /// The command that shows the addresses of an interface.
    pub fn interface_ips_call(&self, iface_name: &str) -> (r: Call)
        ensures
            r@ == (CallView {
                program: "ip"@,
                args: seq!["-br"@, "addr"@, "show"@, "dev"@, iface_name@],
            }),
    {
        let args: [&str; 5] = ["-br", "addr", "show", "dev", iface_name];
        proof {
            assert(seqs::views(args@) =~= seq!["-br"@, "addr"@, "show"@, "dev"@, iface_name@]);
        }
        ip_call(&args)
    }

    /// Query IP addresses for a specific interface
    pub fn get_interface_ips(&self, reply: &Reply) -> (r: Result<Vec<IpNet>, LinuxError>)
        ensures
            match r {
                Ok(nets) => shown(reply@) matches Ok(s) && nets@ == seqs::flat(
                    text::lines(s),
                    nets_on(),
                ),
                Err(e) => shown(reply@) == Err::<Seq<char>, LinuxErrorView>(e@),
            },
    {
        let shown_text = match read_shown(reply) {
            Ok(s) => s,
            Err(e) => {
                return Err(e);
            },
        };
        let lines = strings::lines(shown_text);
        let ghost all = text::lines(shown_text@);
        let mut out: Vec<IpNet> = Vec::new();
        let mut i: usize = 0;
        proof {
            assert(all.take(0).len() == 0);
        }
        while i < lines.len()
            invariant
                i <= lines.len(),
                all == seqs::views(lines@),
                out@ == seqs::flat(all.take(i as int), nets_on()),
            decreases lines.len() - i,
        {
            let ghost now = out@;
            proof {
                seqs::lemma_flat_next(all, nets_on(), i as int);
                assert(all[i as int] == lines@[i as int]@);
            }
            let w = strings::words(lines[i]);
            let ghost words = seqs::views(w@);
            if w.len() >= 3 {
                let ghost rest = words.skip(2);
                let mut k: usize = 2;
                proof {
                    assert(rest.take(0).len() == 0);
                    assert(now + seqs::flat(rest.take(0), net_word()) =~= now);
                }
                while k < w.len()
                    invariant
                        2 <= k <= w.len(),
                        words == seqs::views(w@),
                        rest == words.skip(2),
                        out@ == now + seqs::flat(rest.take(k - 2), net_word()),
                    decreases w.len() - k,
                {
                    proof {
                        seqs::lemma_flat_next(rest, net_word(), k - 2);
                        assert(rest[k - 2] == w@[k as int]@);
                    }
                    let ghost before = out@;
                    if let Some(n) = IpNet::parse(w[k]) {
                        out.push(n);
                    }
                    proof {
                        assert(out@ =~= before + net_word()(rest[k - 2]));
                        assert(before + net_word()(rest[k - 2]) =~= now + (seqs::flat(
                            rest.take(k - 2),
                            net_word(),
                        ) + net_word()(rest[k - 2])));
                    }
                    k += 1;
                }
                proof {
                    seqs::lemma_take_all(rest);
                }
            }
            proof {
                assert(out@ =~= now + nets_on()(all[i as int]));
            }
            i += 1;
        }
        proof {
            seqs::lemma_take_all(all);
        }
        Ok(out)
    }

    /// The command that shows the default routes.
    pub fn default_routes_call(&self) -> (r: Call)
        ensures
            r@ == (CallView { program: "ip"@, args: seq!["route"@, "show"@, "default"@] }),
    {
        let args: [&str; 3] = ["route", "show", "default"];
        proof {
            assert(seqs::views(args@) =~= seq!["route"@, "show"@, "default"@]);
        }
        ip_call(&args)
    }

    /// Identify the default WAN interface from host routing table
    pub fn get_default_wan_interface(&self, reply: &Reply) -> (r: Result<
        Option<String>,
        LinuxError,
    >)
        ensures
            match r {
                Ok(name) => shown(reply@) matches Ok(s) && seqs::opt_view(name)
                    == seqs::first_some(text::lines(s), device_on()),
                Err(e) => shown(reply@) == Err::<Seq<char>, LinuxErrorView>(e@),
            },
    {
        let shown_text = match read_shown(reply) {
            Ok(s) => s,
            Err(e) => {
                return Err(e);
            },
        };
        let lines = strings::lines(shown_text);
        let ghost all = text::lines(shown_text@);
        let mut i: usize = 0;
        while i < lines.len()
            invariant
                i <= lines.len(),
                all == seqs::views(lines@),
                all == text::lines(shown_text@),
                shown(reply@) == Ok::<Seq<char>, LinuxErrorView>(shown_text@),
                forall|j: int| 0 <= j < i ==> device_on()(#[trigger] all[j]) is None,
            decreases lines.len() - i,
        {
            proof {
                assert(all[i as int] == lines@[i as int]@);
            }
            let w = strings::words(lines[i]);
            if let Some(name) = find_word_after(&w, "dev") {
                proof {
                    seqs::lemma_first_some_is(all, device_on(), i as int);
                }
                return Ok(Some(name.to_owned()));
            }
            i += 1;
        }
        proof {
            seqs::lemma_first_some_is(all, device_on(), i as int);
        }
        Ok(None)
    }

    /// Whether one of the default routes that are shown leads through an interface.
    pub fn has_default_route_on_interface(&self, iface: &str, reply: &Reply) -> (r: Result<
        bool,
        LinuxError,
    >)
        ensures
            match r {
                Ok(b) => shown(reply@) matches Ok(s) && b == exists|i: int|
                    0 <= i < text::lines(s).len() && device_on()(#[trigger] text::lines(s)[i])
                        == Some(iface@),
                Err(e) => shown(reply@) == Err::<Seq<char>, LinuxErrorView>(e@),
            },
    {
        let shown_text = match read_shown(reply) {
            Ok(s) => s,
            Err(e) => {
                return Err(e);
            },
        };
        let lines = strings::lines(shown_text);
        let ghost all = text::lines(shown_text@);
        let mut i: usize = 0;
        while i < lines.len()
            invariant
                i <= lines.len(),
                all == seqs::views(lines@),
                all == text::lines(shown_text@),
                shown(reply@) == Ok::<Seq<char>, LinuxErrorView>(shown_text@),
                forall|j: int| 0 <= j < i ==> device_on()(#[trigger] all[j]) != Some(iface@),
            decreases lines.len() - i,
        {
            proof {
                assert(all[i as int] == lines@[i as int]@);
            }
            let w = strings::words(lines[i]);
            if let Some(name) = find_word_after(&w, "dev") {
                if strings::same(name, iface) {
                    proof {
                        assert(device_on()(text::lines(shown_text@)[i as int]) == Some(iface@));
                    }
                    return Ok(true);
                }
            }
            i += 1;
        }
        Ok(false)
    }

    /// The command that shows the routes through an interface.
    pub fn device_routes_call(&self, iface: &str) -> (r: Call)
        ensures
            r@ == (CallView { program: "ip"@, args: seq!["route"@, "show"@, "dev"@, iface@] }),
    {
        let args: [&str; 4] = ["route", "show", "dev", iface];
        proof {
            assert(seqs::views(args@) =~= seq!["route"@, "show"@, "dev"@, iface@]);
        }
        ip_call(&args)
    }

    /// Query default or peer gateway on an interface
    pub fn get_interface_gateway(&self, reply: &Reply) -> (r: Option<IpAddr>)
        ensures
            r == seqs::first_some(text::lines(reply@.out()), gateway_on()),
    {
        let shown_text = match read_shown(reply) {
            Ok(s) => s,
            Err(_) => "",
        };
        proof {
            reveal_strlit("");
            assert(""@ =~= Seq::<char>::empty());
        }
        let lines = strings::lines(shown_text);
        let ghost all = text::lines(shown_text@);
        let mut i: usize = 0;
        while i < lines.len()
            invariant
                i <= lines.len(),
                all == seqs::views(lines@),
                all == text::lines(reply@.out()),
                forall|j: int| 0 <= j < i ==> gateway_on()(#[trigger] all[j]) is None,
            decreases lines.len() - i,
        {
            proof {
                assert(all[i as int] == lines@[i as int]@);
            }
            let w = strings::words(lines[i]);
            if let Some(word) = find_word_after(&w, "via") {
                if let Some(gw) = IpAddr::parse(word) {
                    proof {
                        seqs::lemma_first_some_is(all, gateway_on(), i as int);
                    }
                    return Some(gw);
                }
            }
            i += 1;
        }
        proof {
            seqs::lemma_first_some_is(all, gateway_on(), i as int);
        }
        None
    }

    /// The command that shows the neighbors on an interface.
    pub fn neighbors_call(&self, iface: &str) -> (r: Call)
        ensures
            r@ == (CallView { program: "ip"@, args: seq!["neigh"@, "show"@, "dev"@, iface@] }),
    {
        let args: [&str; 4] = ["neigh", "show", "dev", iface];
        proof {
            assert(seqs::views(args@) =~= seq!["neigh"@, "show"@, "dev"@, iface@]);
        }
        ip_call(&args)
    }

    /// Read active neighbor IPs on an interface from ARP cache and ip neigh
    pub fn get_interface_neighbors(
        &self,
        iface: &str,
        arp: Option<&str>,
        reply: &Reply,
    ) -> (r: Vec<IpAddr>)
        ensures
            r@ == net::sorted_ips(
                seqs::flat(arp_lines(seqs::opt_view(arp)), arp_on(iface@)) + seqs::flat(
                    text::lines(reply@.out()),
                    neighbor_on(),
                ),
            ),
    {
        let mut list: Vec<IpAddr> = Vec::new();
        let ghost from_arp = seqs::flat(arp_lines(seqs::opt_view(arp)), arp_on(iface@));
        proof {
            reveal_strlit("");
            assert(""@ =~= Seq::<char>::empty());
            assert(list@ =~= net::sorted_ips(Seq::empty()));
        }
        match arp {
            Some(content) => {
                read_arp(&mut list, content, iface);
            },
            None => {
                proof {
                    assert(from_arp =~= Seq::<IpAddr>::empty());
                }
            },
        }
        let shown_text = match read_shown(reply) {
            Ok(s) => s,
            Err(_) => "",
        };
        let lines = strings::lines(shown_text);
        let ghost all = text::lines(shown_text@);
        let mut i: usize = 0;
        proof {
            assert(all.take(0).len() == 0);
            assert(from_arp + seqs::flat(all.take(0), neighbor_on()) =~= from_arp);
        }
        while i < lines.len()
            invariant
                i <= lines.len(),
                all == seqs::views(lines@),
                list@ == net::sorted_ips(
                    from_arp + seqs::flat(all.take(i as int), neighbor_on()),
                ),
            decreases lines.len() - i,
        {
            let ghost done = from_arp + seqs::flat(all.take(i as int), neighbor_on());
            proof {
                seqs::lemma_flat_next(all, neighbor_on(), i as int);
                assert(all[i as int] == lines@[i as int]@);
            }
            let w = strings::words(lines[i]);
            proof {
                assert(seqs::views(w@).len() == w@.len());
            }
            if w.len() > 0 {
                proof {
                    assert(seqs::views(w@)[0] == w@[0]@);
                }
                if let Some(ip) = IpAddr::parse(w[0]) {
                    proof {
                        let next = from_arp + seqs::flat(all.take(i + 1), neighbor_on());
                        assert(next =~= done.push(ip));
                        assert(next.drop_last() =~= done);
                    }
                    net::insert_ip(&mut list, ip);
                }
            }
            proof {
                assert(neighbor_on()(all[i as int]).len() == 0 ==> from_arp + seqs::flat(
                    all.take(i + 1),
                    neighbor_on(),
                ) =~= done);
            }
            i += 1;
        }
        proof {
            seqs::lemma_take_all(all);
        }
        list
    }
}

fn read_arp(list: &mut Vec<IpAddr>, content: &str, iface: &str)
    requires
        old(list)@.len() == 0,
    ensures
        final(list)@ == net::sorted_ips(
            seqs::flat(arp_lines(Some(content@)), arp_on(iface@)),
        ),
{
    let lines = strings::lines(content);
    let ghost all = arp_lines(Some(content@));
    let ghost f = arp_on(iface@);
    proof {
        assert(all.take(0).len() == 0);
        assert(list@ =~= net::sorted_ips(seqs::flat(all.take(0), f)));
    }
    if lines.len() == 0 {
        proof {
            assert(all =~= all.take(0));
        }
        return;
    }
    let mut i: usize = 1;
    while i < lines.len()
        invariant
            1 <= i <= lines.len(),
            all == seqs::views(lines@).skip(1),
            f == arp_on(iface@),
            list@ == net::sorted_ips(seqs::flat(all.take(i - 1), f)),
        decreases lines.len() - i,
    {
        let ghost done = seqs::flat(all.take(i - 1), f);
        proof {
            seqs::lemma_flat_next(all, f, i - 1);
            assert(all[i - 1] == lines@[i as int]@);
        }
        let w = strings::words(lines[i]);
        proof {
            assert(seqs::views(w@).len() == w@.len());
            if w@.len() >= 6 {
                assert(seqs::views(w@)[0] == w@[0]@);
                assert(seqs::views(w@)[2] == w@[2]@);
                assert(seqs::views(w@)[5] == w@[5]@);
            }
        }
        if w.len() >= 6 && strings::same(w[5], iface) && !strings::same(w[2], "0x0") {
            if let Some(ip) = IpAddr::parse(w[0]) {
                proof {
                    let next = seqs::flat(all.take(i as int), f);
                    assert(next =~= done.push(ip));
                    assert(next.drop_last() =~= done);
                }
                net::insert_ip(list, ip);
            }
        }
        proof {
            assert(f(all[i - 1]).len() == 0 ==> seqs::flat(all.take(i as int), f) =~= done);
        }
        i += 1;
    }
    proof {
        seqs::lemma_take_all(all);
    }
}

/// Interfaces are listed in order of index, and none is lost or added.
pub proof fn law_interfaces_are_in_order(s: Seq<InterfaceView>)
    ensures
        by_index(s).len() == s.len(),
        forall|i: int, j: int|
            0 <= i <= j < s.len() ==> (#[trigger] by_index(s)[i]).index <= (
            #[trigger] by_index(s)[j]).index,
        forall|x: InterfaceView| #[trigger] by_index(s).contains(x) <==> s.contains(x),
    decreases s.len(),
{
    if s.len() > 0 {
        let t = s.drop_last();
        law_interfaces_are_in_order(t);
        lemma_with_interface(by_index(t), s.last());
        assert forall|x: InterfaceView| #[trigger] by_index(s).contains(x) <==> s.contains(x) by {
            if s.contains(x) {
                let i = choose|i: int| 0 <= i < s.len() && s[i] == x;
                if i < t.len() {
                    assert(t[i] == x);
                    assert(t.contains(x));
                }
            }
            if t.contains(x) {
                let i = choose|i: int| 0 <= i < t.len() && t[i] == x;
                assert(s[i] == x);
            }
            assert(s[s.len() - 1] == s.last());
            assert(by_index(t).contains(x) <==> t.contains(x));
        }
    }
}

proof fn lemma_with_interface(s: Seq<InterfaceView>, x: InterfaceView)
    requires
        forall|i: int, j: int|
            0 <= i <= j < s.len() ==> (#[trigger] s[i]).index <= (#[trigger] s[j]).index,
    ensures
        with_interface(s, x).len() == s.len() + 1,
        forall|i: int, j: int|
            0 <= i <= j < s.len() + 1 ==> (#[trigger] with_interface(s, x)[i]).index <= (
            #[trigger] with_interface(s, x)[j]).index,
        forall|y: InterfaceView| #[trigger]
            with_interface(s, x).contains(y) <==> y == x || s.contains(y),
    decreases s.len(),
{
    let r = with_interface(s, x);
    if s.len() == 0 || s.last().index <= x.index {
        assert(r == s.push(x));
        assert forall|y: InterfaceView| #[trigger] r.contains(y) <==> y == x || s.contains(y) by {
            assert(r[r.len() - 1] == x);
            if s.contains(y) {
                let i = choose|i: int| 0 <= i < s.len() && s[i] == y;
                assert(r[i] == y);
            }
            if r.contains(y) && y != x {
                let i = choose|i: int| 0 <= i < r.len() && r[i] == y;
                assert(s[i] == y);
            }
        }
        assert forall|i: int, j: int| 0 <= i <= j < r.len() implies (#[trigger] r[i]).index <= (
        #[trigger] r[j]).index by {
            if i < s.len() {
                assert(s[i].index <= s[s.len() - 1].index);
            }
        }
    } else {
        let t = s.drop_last();
        let b = with_interface(t, x);
        assert forall|i: int, j: int| 0 <= i <= j < t.len() implies (#[trigger] t[i]).index <= (
        #[trigger] t[j]).index by {
            assert(s[i].index <= s[j].index);
        }
        lemma_with_interface(t, x);
        assert(r == b.push(s.last()));
        assert forall|y: InterfaceView| #[trigger] r.contains(y) <==> y == x || s.contains(y) by {
            assert(r[r.len() - 1] == s.last());
            assert(s[s.len() - 1] == s.last());
            if b.contains(y) {
                let i = choose|i: int| 0 <= i < b.len() && b[i] == y;
                assert(r[i] == y);
            }
            if s.contains(y) && y != s.last() {
                let i = choose|i: int| 0 <= i < s.len() && s[i] == y;
                assert(t[i] == y);
            }
            if t.contains(y) {
                let i = choose|i: int| 0 <= i < t.len() && t[i] == y;
                assert(s[i] == y);
            }
            if r.contains(y) && y != s.last() {
                let i = choose|i: int| 0 <= i < r.len() && r[i] == y;
                assert(b[i] == y);
            }
        }
        assert forall|i: int, j: int| 0 <= i <= j < r.len() implies (#[trigger] r[i]).index <= (
        #[trigger] r[j]).index by {
            if j == r.len() - 1 && i < j {
                assert(b.contains(b[i]));
                if b[i] != x {
                    let k = choose|k: int| 0 <= k < t.len() && t[k] == b[i];
                    assert(s[k].index <= s[s.len() - 1].index);
                }
            } else if j < r.len() - 1 {
                assert(b[i].index <= b[j].index);
            }
        }
    }
}

/// A word behind a key is found wherever the key first stands.
pub proof fn law_word_behind_a_key(before: Seq<Seq<char>>, key: Seq<char>, rest: Seq<Seq<char>>)
    requires
        !before.contains(key),
        rest.len() > 0,
    ensures
        word_after(before + seq![key] + rest, key) == Some(rest[0]),
    decreases before.len(),
{
    let w = before + seq![key] + rest;
    if before.len() == 0 {
        assert(w[0] == key && w[1] == rest[0]);
    } else {
        assert(before[0] != key) by {
            assert(before.contains(before[0]));
        }
        assert(w[0] == before[0]);
        let t = before.skip(1);
        assert(!t.contains(key)) by {
            if t.contains(key) {
                let i = choose|i: int| 0 <= i < t.len() && t[i] == key;
                assert(before[i + 1] == key);
            }
        }
        law_word_behind_a_key(t, key, rest);
        assert(w.skip(1) =~= t + seq![key] + rest);
    }
}

/// What the system says of an interface: it is up if its state is `up` or `unknown`, and has a
/// carrier if that file says so or, where there is none, if it is up.
pub proof fn law_what_the_system_says(
    name: Seq<char>,
    ifindex: Option<Seq<char>>,
    operstate: Option<Seq<char>>,
    carrier: Option<Seq<char>>,
    mtu: Option<Seq<char>>,
    address: Option<Seq<char>>,
    ip_addrs: Seq<IpNet>,
)
    ensures
        ({
            let i = interface_of(name, ifindex, operstate, carrier, mtu, address, ip_addrs);
            &&& i.name == name
            &&& i.ip_addrs == ip_addrs
            &&& i.is_loopback <==> name == "lo"@
            &&& operstate is None ==> !i.is_up
            &&& operstate matches Some(s) ==> (i.is_up <==> text::trim(s) == "up"@ || text::trim(s)
                == "unknown"@)
            &&& carrier matches Some(c) ==> (i.has_carrier <==> text::trim(c) == "1"@)
            &&& carrier is None ==> i.has_carrier == i.is_up
        }),
{
}

/// A neighbor is taken from a line of the ARP table if the line is for the interface and its entry
/// is complete.
pub proof fn law_complete_neighbors_are_taken(iface: Seq<char>, line: Seq<char>, ip: IpAddr)
    ensures
        arp_on(iface)(line).contains(ip) <==> text::words(line).len() >= 6 && text::words(line)[5]
            == iface && text::words(line)[2] != "0x0"@ && net::ip_from(text::words(line)[0])
            == Some(ip),
        neighbor_on()(line).contains(ip) <==> text::words(line).len() > 0 && net::ip_from(
            text::words(line)[0],
        ) == Some(ip),
{
    let w = text::words(line);
    if w.len() > 0 && net::ip_from(w[0]) is Some {
        assert(ip_word(w[0])[0] == net::ip_from(w[0])->0);
        assert(ip_word(w[0]).contains(net::ip_from(w[0])->0));
    }
}

/// How a route is read: it has the destination and the gateway that are named, the table that was
/// shown and the interface behind `dev`. What names no destination is no route, and neither is
/// what should deliver and names no interface.
pub proof fn law_how_routes_are_read(
    w: Seq<Seq<char>>,
    table: u32,
    route_type: RouteType,
    n: IpNet,
    gateway: Option<IpAddr>,
)
    ensures
        route_with(w, table, route_type, None, gateway) is None,
        last_word_after(w, "dev"@) is None && route_type is Unicast ==> route_with(
            w,
            table,
            route_type,
            Some(n),
            gateway,
        ) is None,
        last_word_after(w, "dev"@) matches Some(d) ==> (d.len() > 0 ==> (route_with(
            w,
            table,
            route_type,
            Some(n),
            gateway,
        ) matches Some(r) && r.destination == n && r.output_interface == d && r.gateway == gateway
            && r.table == table && r.route_type == route_type)),
        route_type is Unreachable ==> (route_with(
            w,
            table,
            route_type,
            Some(n),
            gateway,
        ) matches Some(r) && r.destination == n && r.route_type is Unreachable && r.table == table),
{
}

} // verus!
