//! Names that resolve through the LAN: which resolver is told, and how.

use vstd::prelude::*;
use crate::error::{LinuxError, LinuxErrorView};
use crate::net::{self, IpAddr};
use crate::process::{Call, CallView, Reply, ReplyView};
use crate::seqs;
use crate::strings;
use crate::text;

verus! {

/// The name of the resolver to use: the first that is available.
pub open spec fn preferred(resolved: bool, network_manager: bool) -> Seq<char> {
    if resolved {
        "systemd-resolved"@
    } else if network_manager {
        "NetworkManager"@
    } else {
        "Disabled"@
    }
}

pub fn preferred_backend_name(resolved_available: bool, network_manager_available: bool) -> (r:
    &'static str)
    ensures
        r@ == preferred(resolved_available, network_manager_available),
{
    if resolved_available {
        "systemd-resolved"
    } else if network_manager_available {
        "NetworkManager"
    } else {
        "Disabled"
    }
}

/// The address that a line of a lookup starts with.
pub open spec fn answer_on() -> spec_fn(Seq<char>) -> Seq<IpAddr> {
    |line: Seq<char>|
        {
            let w = text::words(line);
            if w.len() > 0 {
                match net::ip_from(w[0]) {
                    Some(ip) => seq![ip],
                    None => Seq::empty(),
                }
            } else {
                Seq::empty()
            }
        }
}

/// The addresses of a lookup, in order, each once.
pub open spec fn answers(output: Seq<char>) -> Seq<IpAddr> {
    seqs::extend_new(Seq::empty(), seqs::flat(text::lines(output), answer_on()))
}

/// Parse address-first output such as `getent ahosts`, preserving order while
/// removing duplicate A/AAAA answers.
pub fn parse_system_lookup_output(output: &str) -> (r: Vec<IpAddr>)
    ensures
        r@ == answers(output@),
{
    let lines = strings::lines(output);
    let ghost all = text::lines(output@);
    let ghost f = answer_on();
    let ghost none = Seq::<IpAddr>::empty();
    let mut out: Vec<IpAddr> = Vec::new();
    let mut i: usize = 0;
    proof {
        assert(all.take(0).len() == 0);
    }
    while i < lines.len()
        invariant
            i <= lines.len(),
            all == seqs::views(lines@),
            f == answer_on(),
            none == Seq::<IpAddr>::empty(),
            out@ == seqs::extend_new(none, seqs::flat(all.take(i as int), f)),
        decreases lines.len() - i,
    {
        proof {
            seqs::lemma_flat_next(all, f, i as int);
            assert(all[i as int] == lines@[i as int]@);
            seqs::lemma_extend_new_concat(none, seqs::flat(all.take(i as int), f), f(all[i as int]));
        }
        let w = strings::words(lines[i]);
        proof {
            assert(seqs::views(w@).len() == w@.len());
        }
        if w.len() > 0 {
            proof {
                assert(seqs::views(w@)[0] == w@[0]@);
            }
            if let Some(ip) = IpAddr::parse(w[0]) {
                proof {
                    seqs::lemma_extend_new_one(out@, ip);
                }
                if !net::has_ip(&out, ip) {
                    out.push(ip);
                }
            }
        }
        i += 1;
    }
    proof {
        seqs::lemma_take_all(all);
    }
    out
}

/// The command that looks a name up.
pub fn lookup_call(domain: &str) -> (r: Call)
    ensures
        r@ == (CallView { program: "getent"@, args: seq!["ahosts"@, domain@] }),
{
    let args: [&str; 2] = ["ahosts", domain];
    proof {
        assert(seqs::views(args@) =~= seq!["ahosts"@, domain@]);
    }
    Call::new("getent", &args)
}

/// What a lookup says of a name.
pub open spec fn lookup_result(domain: Seq<char>, reply: ReplyView) -> Result<
    Seq<IpAddr>,
    LinuxErrorView,
> {
    match reply {
        ReplyView::NotStarted(e) => Err(LinuxErrorView::Io(e)),
        ReplyView::Ended { success, stdout, stderr, .. } => if !success {
            Err(
                LinuxErrorView::Dns(
                    "system lookup failed for "@ + domain + ": "@ + text::trim(stderr),
                ),
            )
        } else if answers(stdout).len() == 0 {
            Err(
                LinuxErrorView::Dns(
                    "system lookup returned no A/AAAA addresses for "@ + domain,
                ),
            )
        } else {
            Ok(answers(stdout))
        },
    }
}

/// Resolve a hostname through the host resolver after split-DNS has assigned
/// the domain to the LAN link. Callers must use this only for allowlisted LAN
/// domains and must fail closed if no answers are available.
pub fn resolve_via_system_lookup(domain: &str, reply: &Reply) -> (r: Result<
    Vec<IpAddr>,
    LinuxError,
>)
    ensures
        match r {
            Ok(ips) => lookup_result(domain@, reply@) == Ok::<Seq<IpAddr>, LinuxErrorView>(ips@),
            Err(e) => lookup_result(domain@, reply@) == Err::<Seq<IpAddr>, LinuxErrorView>(e@),
        },
{
    match reply {
        Reply::NotStarted(e) => Err(LinuxError::Io(e.clone())),
        Reply::Ended { success, stdout, stderr, .. } => {
            if !*success {
                return Err(
                    LinuxError::Dns(
                        "system lookup failed for ".to_owned().concat(domain).concat(": ").concat(
                            strings::trim(stderr.as_str()),
                        ),
                    ),
                );
            }
            let addresses = parse_system_lookup_output(stdout.as_str());
            if addresses.len() == 0 {
                return Err(
                    LinuxError::Dns(
                        "system lookup returned no A/AAAA addresses for ".to_owned().concat(domain),
                    ),
                );
            }
            Ok(addresses)
        },
    }
}

/// A domain as a routing domain: with `~` before it, in place of a dot or a wildcard.
pub open spec fn routing_domain(d: Seq<char>) -> Seq<char> {
    let s = text::trim(d);
    if "~"@.is_prefix_of(s) {
        s
    } else if "."@.is_prefix_of(s) {
        "~"@ + s.skip("."@.len() as int)
    } else if "*."@.is_prefix_of(s) {
        "~"@ + s.skip("*."@.len() as int)
    } else {
        "~"@ + s
    }
}

fn format_routing_domain(d: &str) -> (r: String)
    ensures
        r@ == routing_domain(d@),
{
    let s = strings::trim(d);
    if strings::starts_with(s, "~") {
        return s.to_owned();
    }
    if let Some(rest) = strings::strip_prefix(s, ".") {
        return "~".to_owned().concat(rest);
    }
    if let Some(rest) = strings::strip_prefix(s, "*.") {
        return "~".to_owned().concat(rest);
    }
    "~".to_owned().concat(s)
}

/// Domains as routing domains.
pub open spec fn routing_domains(ds: Seq<Seq<char>>) -> Seq<Seq<char>> {
    Seq::new(ds.len(), |i: int| routing_domain(ds[i]))
}

fn format_routing_domains(ds: &[String]) -> (r: Vec<String>)
    ensures
        seqs::views(r@) == routing_domains(seqs::views(ds@)),
{
    let mut out: Vec<String> = Vec::new();
    let mut i: usize = 0;
    while i < ds.len()
        invariant
            i <= ds.len(),
            out.len() == i,
            forall|j: int| 0 <= j < i ==> (#[trigger] out@[j])@ == routing_domain(ds@[j]@),
        decreases ds.len() - i,
    {
        out.push(format_routing_domain(ds[i].as_str()));
        i += 1;
    }
    proof {
        assert(seqs::views(out@) =~= routing_domains(seqs::views(ds@)));
    }
    out
}

/// Addresses as texts.
pub open spec fn ip_texts(ips: Seq<IpAddr>) -> Seq<Seq<char>> {
    Seq::new(ips.len(), |i: int| net::ip_text(ips[i]))
}

pub(crate) fn format_ips(ips: &[IpAddr]) -> (r: Vec<String>)
    ensures
        seqs::views(r@) == ip_texts(ips@),
{
    let mut out: Vec<String> = Vec::new();
    let mut i: usize = 0;
    while i < ips.len()
        invariant
            i <= ips.len(),
            out.len() == i,
            forall|j: int| 0 <= j < i ==> (#[trigger] out@[j])@ == net::ip_text(ips@[j]),
        decreases ips.len() - i,
    {
        out.push(ips[i].to_string());
        i += 1;
    }
    proof {
        assert(seqs::views(out@) =~= ip_texts(ips@));
    }
    out
}

/// A command, and what is said before its own message if it ends badly.
#[derive(Debug, Clone, PartialEq, Eq)]
pub struct DnsCall {
    pub call: Call,
    pub failure: String,
}

/// The value of a `DnsCall` in specifications.
#[verifier::ext_equal]
pub struct DnsCallView {
    pub call: CallView,
    pub failure: Seq<char>,
}

impl View for DnsCall {
    type V = DnsCallView;

    open spec fn view(&self) -> DnsCallView {
        DnsCallView { call: self.call@, failure: self.failure@ }
    }
}

impl DnsCall {
    /// What came of the command.
    pub fn result(&self, reply: &Reply) -> (r: Result<(), LinuxError>)
        ensures
            match (reply@, r) {
                (ReplyView::NotStarted(m), Err(e)) => e@ == LinuxErrorView::Io(m),
                (ReplyView::Ended { success, stderr, .. }, Err(e)) => !success && e@
                    == LinuxErrorView::Dns(self@.failure + stderr),
                (ReplyView::Ended { success, .. }, Ok(_)) => success,
                (ReplyView::NotStarted(_), Ok(_)) => false,
            },
    {
        match reply {
            Reply::NotStarted(e) => Err(LinuxError::Io(e.clone())),
            Reply::Ended { success, stderr, .. } => if *success {
                Ok(())
            } else {
                Err(LinuxError::Dns(self.failure.clone().concat(stderr.as_str())))
            },
        }
    }
}

/// A resolver that can be told which names belong to an interface.
pub trait DnsBackend {
    /// Its name.
    spec fn label(&self) -> Seq<char>;

    /// The command that tells whether it is there; none if it always is.
    spec fn status(&self) -> Option<CallView>;

    /// The commands that give it the names and servers of an interface, to run until one fails.
    spec fn split(
        &self,
        iface: Seq<char>,
        domains: Seq<Seq<char>>,
        servers: Seq<IpAddr>,
    ) -> Seq<DnsCallView>;

    /// The commands that take the names of an interface away again.
    spec fn undo(&self, iface: Seq<char>) -> Seq<CallView>;

    /// What went wrong with taking them away, by what these commands replied.
    spec fn undo_fault(&self, replies: Seq<ReplyView>) -> Option<LinuxErrorView>;

    fn name(&self) -> (r: &'static str)
        ensures
            r@ == self.label(),
    ;

    fn status_call(&self) -> (r: Option<Call>)
        ensures
            seqs::opt_view(r) == self.status(),
    ;

    /// Whether it is there, by what the status command replied.
    fn is_available(&self, reply: Option<&Reply>) -> (r: bool)
        ensures
            r == match self.status() {
                Some(_) => reply matches Some(p) && p@.ok(),
                None => true,
            },
    ;

    fn apply_split_domains(
        &self,
        iface: &str,
        domains: &[String],
        dns_servers: &[IpAddr],
    ) -> (r: Vec<DnsCall>)
        ensures
            seqs::views(r@) == self.split(iface@, seqs::views(domains@), dns_servers@),
    ;

    fn rollback(&self, iface: &str) -> (r: Vec<Call>)
        ensures
            seqs::views(r@) == self.undo(iface@),
    ;

    /// What came of the commands that `rollback` gives, by what they replied, in their order.
    fn rollback_result(&self, replies: &Vec<Reply>) -> (r: Result<(), LinuxError>)
        ensures
            match r {
                Ok(_) => self.undo_fault(seqs::views(replies@)) is None,
                Err(e) => self.undo_fault(seqs::views(replies@)) == Some(e@),
            },
    ;
}

fn replied_ok(reply: Option<&Reply>) -> (r: bool)
    ensures
        r == (reply matches Some(p) && p@.ok()),
{
    match reply {
        Some(p) => p.is_ok(),
        None => false,
    }
}

/// No resolver.
#[derive(Debug, Clone, Copy)]
pub struct DisabledDnsBackend;

impl DisabledDnsBackend {
    pub fn new() -> (r: DisabledDnsBackend)
        ensures
            r == DisabledDnsBackend,
    {
        DisabledDnsBackend
    }
}

impl DnsBackend for DisabledDnsBackend {
    open spec fn label(&self) -> Seq<char> {
        "Disabled"@
    }

    open spec fn status(&self) -> Option<CallView> {
        None
    }

    open spec fn split(
        &self,
        iface: Seq<char>,
        domains: Seq<Seq<char>>,
        servers: Seq<IpAddr>,
    ) -> Seq<DnsCallView> {
        Seq::empty()
    }

    open spec fn undo(&self, iface: Seq<char>) -> Seq<CallView> {
        Seq::empty()
    }

    open spec fn undo_fault(&self, replies: Seq<ReplyView>) -> Option<LinuxErrorView> {
        None
    }

    fn name(&self) -> (r: &'static str) {
        "Disabled"
    }

    fn status_call(&self) -> (r: Option<Call>) {
        None
    }

    fn is_available(&self, reply: Option<&Reply>) -> (r: bool) {
        true
    }

    fn apply_split_domains(
        &self,
        iface: &str,
        domains: &[String],
        dns_servers: &[IpAddr],
    ) -> (r: Vec<DnsCall>) {
        let out: Vec<DnsCall> = Vec::new();
        proof {
            assert(seqs::views(out@) =~= Seq::<DnsCallView>::empty());
        }
        out
    }

    fn rollback(&self, iface: &str) -> (r: Vec<Call>) {
        let out: Vec<Call> = Vec::new();
        proof {
            assert(seqs::views(out@) =~= Seq::<CallView>::empty());
        }
        out
    }

    fn rollback_result(&self, replies: &Vec<Reply>) -> (r: Result<(), LinuxError>) {
        Ok(())
    }
}

/// The resolver of NetworkManager.
#[derive(Debug, Clone, Copy)]
pub struct NetworkManagerDnsBackend;

impl NetworkManagerDnsBackend {
    pub fn new() -> (r: NetworkManagerDnsBackend)
        ensures
            r == NetworkManagerDnsBackend,
    {
        NetworkManagerDnsBackend
    }
}

fn push_arg(args: &mut Vec<String>, arg: &str)
    ensures
        seqs::views(final(args)@) == seqs::views(old(args)@).push(arg@),
{
    let owned = arg.to_owned();
    proof {
        seqs::lemma_views_push(args@, owned);
    }
    args.push(owned);
}

fn push_all(args: &mut Vec<String>, more: &Vec<String>)
    ensures
        seqs::views(final(args)@) == seqs::views(old(args)@) + seqs::views(more@),
{
    let ghost before = seqs::views(args@);
    let ghost all = seqs::views(more@);
    let mut i: usize = 0;
    proof {
        assert(before + all.take(0) =~= before);
    }
    while i < more.len()
        invariant
            i <= more.len(),
            all == seqs::views(more@),
            seqs::views(args@) == before + all.take(i as int),
        decreases more.len() - i,
    {
        let ghost now = seqs::views(args@);
        push_arg(args, more[i].as_str());
        proof {
            seqs::lemma_take_next(all, i as int);
            assert(now.push(all[i as int]) =~= before + all.take(i + 1));
        }
        i += 1;
    }
    proof {
        seqs::lemma_take_all(all);
    }
}

impl DnsBackend for NetworkManagerDnsBackend {
    open spec fn label(&self) -> Seq<char> {
        "NetworkManager"@
    }

    open spec fn status(&self) -> Option<CallView> {
        Some(CallView { program: "nmcli"@, args: seq!["general"@, "status"@] })
    }

    open spec fn split(
        &self,
        iface: Seq<char>,
        domains: Seq<Seq<char>>,
        servers: Seq<IpAddr>,
    ) -> Seq<DnsCallView> {
        if domains.len() == 0 {
            Seq::empty()
        } else {
            seq![
                DnsCallView {
                    call: CallView {
                        program: "nmcli"@,
                        args: seq!["device"@, "modify"@, iface] + (if servers.len() > 0 {
                            seq!["ipv4.dns"@, text::join(ip_texts(servers), " "@)]
                        } else {
                            Seq::empty()
                        }) + seq!["ipv4.dns-search"@, text::join(routing_domains(domains), " "@)],
                    },
                    failure: "NetworkManager failed to apply split DNS: "@,
                },
            ]
        }
    }

    open spec fn undo(&self, iface: Seq<char>) -> Seq<CallView> {
        seq![
            CallView {
                program: "nmcli"@,
                args: seq!["device"@, "modify"@, iface, "ipv4.dns-search"@, ""@],
            },
        ]
    }

    /// That the command could not be started is an error, that it ended badly is not.
    open spec fn undo_fault(&self, replies: Seq<ReplyView>) -> Option<LinuxErrorView> {
        if replies.len() > 0 {
            match replies[0] {
                ReplyView::NotStarted(m) => Some(LinuxErrorView::Io(m)),
                _ => None,
            }
        } else {
            None
        }
    }

    fn name(&self) -> (r: &'static str) {
        "NetworkManager"
    }

    fn status_call(&self) -> (r: Option<Call>) {
        let args: [&str; 2] = ["general", "status"];
        proof {
            assert(seqs::views(args@) =~= seq!["general"@, "status"@]);
        }
        Some(Call::new("nmcli", &args))
    }

    fn is_available(&self, reply: Option<&Reply>) -> (r: bool) {
        replied_ok(reply)
    }

    fn apply_split_domains(
        &self,
        iface: &str,
        domains: &[String],
        dns_servers: &[IpAddr],
    ) -> (r: Vec<DnsCall>) {
        let mut out: Vec<DnsCall> = Vec::new();
        if domains.len() == 0 {
            proof {
                assert(seqs::views(out@) =~= Seq::<DnsCallView>::empty());
            }
            return out;
        }
        let search = strings::join(&format_routing_domains(domains), " ");
        let mut args: Vec<String> = Vec::new();
        push_arg(&mut args, "device");
        push_arg(&mut args, "modify");
        push_arg(&mut args, iface);
        if dns_servers.len() > 0 {
            push_arg(&mut args, "ipv4.dns");
            push_arg(&mut args, strings::join(&format_ips(dns_servers), " ").as_str());
        }
        push_arg(&mut args, "ipv4.dns-search");
        push_arg(&mut args, search.as_str());
        out.push(
            DnsCall {
                call: Call { program: "nmcli".to_owned(), args },
                failure: "NetworkManager failed to apply split DNS: ".to_owned(),
            },
        );
        proof {
            let wanted = self.split(iface@, seqs::views(domains@), dns_servers@);
            assert(out@[0]@.call.args =~= wanted[0].call.args);
            assert(seqs::views(out@) =~= wanted);
        }
        out
    }

    fn rollback(&self, iface: &str) -> (r: Vec<Call>) {
        let args: [&str; 5] = ["device", "modify", iface, "ipv4.dns-search", ""];
        let mut out: Vec<Call> = Vec::new();
        out.push(Call::new("nmcli", &args));
        proof {
            assert(seqs::views(args@) =~= seq![
                "device"@,
                "modify"@,
                iface@,
                "ipv4.dns-search"@,
                ""@,
            ]);
            assert(seqs::views(out@) =~= self.undo(iface@));
        }
        out
    }

    fn rollback_result(&self, replies: &Vec<Reply>) -> (r: Result<(), LinuxError>) {
        if replies.len() > 0 {
            proof {
                assert(seqs::views(replies@)[0] == replies@[0]@);
            }
            if let Reply::NotStarted(e) = &replies[0] {
                return Err(LinuxError::Io(e.clone()));
            }
        }
        Ok(())
    }
}

/// The resolver of systemd.
#[derive(Debug, Clone, Copy)]
pub struct ResolvedDnsBackend;

impl ResolvedDnsBackend {
    pub fn new() -> (r: ResolvedDnsBackend)
        ensures
            r == ResolvedDnsBackend,
    {
        ResolvedDnsBackend
    }
}

impl DnsBackend for ResolvedDnsBackend {
    open spec fn label(&self) -> Seq<char> {
        "systemd-resolved"@
    }

    open spec fn status(&self) -> Option<CallView> {
        Some(CallView { program: "resolvectl"@, args: seq!["status"@] })
    }

    open spec fn split(
        &self,
        iface: Seq<char>,
        domains: Seq<Seq<char>>,
        servers: Seq<IpAddr>,
    ) -> Seq<DnsCallView> {
        if domains.len() == 0 {
            Seq::empty()
        } else {
            seq![
                DnsCallView {
                    call: CallView {
                        program: "resolvectl"@,
                        args: seq!["domain"@, iface] + routing_domains(domains),
                    },
                    failure: "resolvectl domain failed: "@,
                },
            ] + if servers.len() > 0 {
                seq![
                    DnsCallView {
                        call: CallView {
                            program: "resolvectl"@,
                            args: seq!["dns"@, iface] + ip_texts(servers),
                        },
                        failure: "resolvectl dns failed: "@,
                    },
                ]
            } else {
                Seq::empty()
            }
        }
    }

    open spec fn undo(&self, iface: Seq<char>) -> Seq<CallView> {
        seq![
            CallView { program: "resolvectl"@, args: seq!["domain"@, iface, ""@] },
            CallView { program: "resolvectl"@, args: seq!["dns"@, iface, ""@] },
        ]
    }

    open spec fn undo_fault(&self, replies: Seq<ReplyView>) -> Option<LinuxErrorView> {
        None
    }

    fn name(&self) -> (r: &'static str) {
        "systemd-resolved"
    }

    fn status_call(&self) -> (r: Option<Call>) {
        let args: [&str; 1] = ["status"];
        proof {
            assert(seqs::views(args@) =~= seq!["status"@]);
        }
        Some(Call::new("resolvectl", &args))
    }

    fn is_available(&self, reply: Option<&Reply>) -> (r: bool) {
        replied_ok(reply)
    }

    fn apply_split_domains(
        &self,
        iface: &str,
        domains: &[String],
        dns_servers: &[IpAddr],
    ) -> (r: Vec<DnsCall>) {
        let mut out: Vec<DnsCall> = Vec::new();
        if domains.len() == 0 {
            proof {
                assert(seqs::views(out@) =~= Seq::<DnsCallView>::empty());
            }
            return out;
        }
        let ghost wanted = self.split(iface@, seqs::views(domains@), dns_servers@);
        let mut args: Vec<String> = Vec::new();
        push_arg(&mut args, "domain");
        push_arg(&mut args, iface);
        push_all(&mut args, &format_routing_domains(domains));
        proof {
            assert(seqs::views(args@) =~= wanted[0].call.args);
        }
        out.push(
            DnsCall {
                call: Call { program: "resolvectl".to_owned(), args },
                failure: "resolvectl domain failed: ".to_owned(),
            },
        );
        if dns_servers.len() > 0 {
            let mut args: Vec<String> = Vec::new();
            push_arg(&mut args, "dns");
            push_arg(&mut args, iface);
            push_all(&mut args, &format_ips(dns_servers));
            proof {
                assert(seqs::views(args@) =~= wanted[1].call.args);
            }
            out.push(
                DnsCall {
                    call: Call { program: "resolvectl".to_owned(), args },
                    failure: "resolvectl dns failed: ".to_owned(),
                },
            );
        }
        proof {
            assert(seqs::views(out@) =~= wanted);
        }
        out
    }

    fn rollback(&self, iface: &str) -> (r: Vec<Call>) {
        let domain: [&str; 3] = ["domain", iface, ""];
        let dns: [&str; 3] = ["dns", iface, ""];
        let mut out: Vec<Call> = Vec::new();
        out.push(Call::new("resolvectl", &domain));
        out.push(Call::new("resolvectl", &dns));
        proof {
            assert(seqs::views(domain@) =~= seq!["domain"@, iface@, ""@]);
            assert(seqs::views(dns@) =~= seq!["dns"@, iface@, ""@]);
            assert(seqs::views(out@) =~= self.undo(iface@));
        }
        out
    }

    fn rollback_result(&self, replies: &Vec<Reply>) -> (r: Result<(), LinuxError>) {
        Ok(())
    }
}

/// The resolver to use.
pub enum DnsChoice {
    Resolved(ResolvedDnsBackend),
    NetworkManager(NetworkManagerDnsBackend),
    Disabled(DisabledDnsBackend),
}

impl DnsChoice {
    pub open spec fn label(&self) -> Seq<char> {
        match self {
            DnsChoice::Resolved(b) => b.label(),
            DnsChoice::NetworkManager(b) => b.label(),
            DnsChoice::Disabled(b) => b.label(),
        }
    }

    pub fn name(&self) -> (r: &'static str)
        ensures
            r@ == self.label(),
    {
        match self {
            DnsChoice::Resolved(b) => b.name(),
            DnsChoice::NetworkManager(b) => b.name(),
            DnsChoice::Disabled(b) => b.name(),
        }
    }

    pub fn apply_split_domains(
        &self,
        iface: &str,
        domains: &[String],
        dns_servers: &[IpAddr],
    ) -> (r: Vec<DnsCall>)
        ensures
            seqs::views(r@) == match self {
                DnsChoice::Resolved(b) => b.split(iface@, seqs::views(domains@), dns_servers@),
                DnsChoice::NetworkManager(b) => b.split(
                    iface@,
                    seqs::views(domains@),
                    dns_servers@,
                ),
                DnsChoice::Disabled(b) => b.split(iface@, seqs::views(domains@), dns_servers@),
            },
    {
        match self {
            DnsChoice::Resolved(b) => b.apply_split_domains(iface, domains, dns_servers),
            DnsChoice::NetworkManager(b) => b.apply_split_domains(iface, domains, dns_servers),
            DnsChoice::Disabled(b) => b.apply_split_domains(iface, domains, dns_servers),
        }
    }
}

/// The resolver to use: the first that is available.
pub fn detect_best_dns_backend(resolved_available: bool, network_manager_available: bool) -> (r:
    DnsChoice)
    ensures
        r.label() == preferred(resolved_available, network_manager_available),
{
    let name = preferred_backend_name(resolved_available, network_manager_available);
    proof {
        lemma_backend_names();
    }
    if strings::same(name, "systemd-resolved") {
        DnsChoice::Resolved(ResolvedDnsBackend::new())
    } else if strings::same(name, "NetworkManager") {
        DnsChoice::NetworkManager(NetworkManagerDnsBackend::new())
    } else {
        DnsChoice::Disabled(DisabledDnsBackend::new())
    }
}

proof fn lemma_backend_names()
    ensures
        "systemd-resolved"@ != "NetworkManager"@,
        "systemd-resolved"@ != "Disabled"@,
        "NetworkManager"@ != "Disabled"@,
{
    reveal_strlit("systemd-resolved");
    reveal_strlit("NetworkManager");
    reveal_strlit("Disabled");
    assert("systemd-resolved"@[0] == 's');
    assert("NetworkManager"@[0] == 'N');
    assert("Disabled"@[0] == 'D');
}

/// A domain is made a routing domain once: whatever it was, it begins with the mark then and
/// stays as it is.
pub proof fn law_routing_domain_is_marked_once(d: Seq<char>)
    ensures
        "~"@.is_prefix_of(routing_domain(d)),
        routing_domain(routing_domain(d)) == routing_domain(d),
{
    reveal_strlit("~");
    reveal_strlit(".");
    reveal_strlit("*.");
    let s = text::trim(d);
    let r = routing_domain(d);
    text::lemma_trim(d);
    assert("~"@[0] == '~');
    if "~"@.is_prefix_of(s) {
        assert(s.take(1)[0] == s[0]);
    }
    assert(r[0] == '~');
    assert(!text::is_white('~'));
    assert("~"@ =~= r.take(1));
    assert(r.last() == '~' || r.last() == s.last());
    assert(text::trim(r) == r);
}

/// The first resolver that is available is used: that of systemd before NetworkManager, and none
/// only if neither is there.
pub proof fn law_first_available_resolver(resolved: bool, network_manager: bool)
    ensures
        resolved ==> preferred(resolved, network_manager) == "systemd-resolved"@,
        !resolved && network_manager ==> preferred(resolved, network_manager) == "NetworkManager"@,
        !resolved && !network_manager ==> preferred(resolved, network_manager) == "Disabled"@,
{
}

/// However the names under a domain are written, the resolver is told the same.
pub proof fn law_routing_domain_spellings_agree(d: Seq<char>)
    requires
        d.len() > 0,
        text::solid(d),
        d[0] != '.',
        d[0] != '~',
        d[0] != '*',
    ensures
        routing_domain(d) == "~"@ + d,
        routing_domain("."@ + d) == "~"@ + d,
        routing_domain("*."@ + d) == "~"@ + d,
        routing_domain("~"@ + d) == "~"@ + d,
{
    reveal_strlit("~");
    reveal_strlit(".");
    reveal_strlit("*.");
    assert(!text::is_white(d[0]) && !text::is_white(d[d.len() - 1]));
    assert(text::trim(d) == d);
    let a = "."@ + d;
    let b = "*."@ + d;
    let c = "~"@ + d;
    assert(a[0] == '.' && a.last() == d.last() && text::trim(a) == a);
    assert(b[0] == '*' && b[1] == '.' && b.last() == d.last() && text::trim(b) == b);
    assert(c[0] == '~' && c.last() == d.last() && text::trim(c) == c);
    assert("."@ =~= a.subrange(0, 1));
    assert("*."@ =~= b.subrange(0, 2));
    assert("~"@ =~= c.subrange(0, 1));
    assert(a.skip(1) =~= d);
    assert(b.skip(2) =~= d);
    if "~"@.is_prefix_of(d) {
        assert(d.subrange(0, 1)[0] == "~"@[0]);
    }
    if "."@.is_prefix_of(d) {
        assert(d.subrange(0, 1)[0] == "."@[0]);
    }
    if "*."@.is_prefix_of(d) {
        assert(d.subrange(0, 2)[0] == "*."@[0]);
    }
    if "~"@.is_prefix_of(a) {
        assert(a.subrange(0, 1)[0] == "~"@[0]);
    }
    if "~"@.is_prefix_of(b) {
        assert(b.subrange(0, 1)[0] == "~"@[0]);
    }
    if "."@.is_prefix_of(b) {
        assert(b.subrange(0, 1)[0] == "."@[0]);
    }
}

/// A lookup gives exactly the addresses that begin the lines of the output, each once, and fails
/// if there is none.
pub proof fn law_answers_are_those_of_the_output(domain: Seq<char>, output: Seq<char>, ip: IpAddr)
    ensures
        answers(output).contains(ip) <==> exists|i: int|
            0 <= i < text::lines(output).len() && begins_with(
                #[trigger] text::lines(output)[i],
                ip,
            ),
        answers(output).no_duplicates(),
        forall|reply: ReplyView|
            #![trigger lookup_result(domain, reply)]
            reply.ok() && reply.out() == output ==> (if answers(output).len() > 0 {
                lookup_result(domain, reply) == Ok::<Seq<IpAddr>, LinuxErrorView>(answers(output))
            } else {
                lookup_result(domain, reply) is Err
            }),
        forall|reply: ReplyView|
            #![trigger lookup_result(domain, reply)]
            !reply.ok() ==> lookup_result(domain, reply) is Err,
{
    let all = seqs::flat(text::lines(output), answer_on());
    let none = Seq::<IpAddr>::empty();
    seqs::lemma_extend_new(none, all);
    seqs::lemma_flat_contains(text::lines(output), answer_on(), ip);
    assert(!none.contains(ip));
    assert(answers(output).contains(ip) <==> all.contains(ip));
    if all.contains(ip) {
        let i = choose|i: int|
            0 <= i < text::lines(output).len() && #[trigger] answer_on()(
                text::lines(output)[i],
            ).contains(ip);
        assert(answer_on()(text::lines(output)[i])[0] == ip);
        assert(begins_with(text::lines(output)[i], ip));
    }
    if exists|i: int|
        0 <= i < text::lines(output).len() && begins_with(#[trigger] text::lines(output)[i], ip) {
        let i = choose|i: int|
            0 <= i < text::lines(output).len() && begins_with(#[trigger] text::lines(output)[i], ip);
        assert(answer_on()(text::lines(output)[i])[0] == ip);
        assert(answer_on()(text::lines(output)[i]).contains(ip));
    }
}

/// Whether the first word of a line is an address.
pub open spec fn begins_with(line: Seq<char>, ip: IpAddr) -> bool {
    text::words(line).len() > 0 && net::ip_from(text::words(line)[0]) == Some(ip)
}

/// The resolver of systemd is told every domain of the interface as a routing domain, and every
/// server; without domains it is told nothing.
pub proof fn law_resolved_is_told_everything(
    b: ResolvedDnsBackend,
    iface: Seq<char>,
    domains: Seq<Seq<char>>,
    servers: Seq<IpAddr>,
)
    ensures
        domains.len() == 0 ==> b.split(iface, domains, servers).len() == 0,
        domains.len() > 0 ==> ({
            let calls = b.split(iface, domains, servers);
            &&& calls.len() == if servers.len() > 0 {
                2nat
            } else {
                1nat
            }
            &&& calls[0].call.program == "resolvectl"@
            &&& calls[0].call.args.len() == 2 + domains.len()
            &&& calls[0].call.args[0] == "domain"@
            &&& calls[0].call.args[1] == iface
            &&& forall|i: int|
                0 <= i < domains.len() ==> calls[0].call.args[2 + i] == routing_domain(
                    #[trigger] domains[i],
                )
            &&& servers.len() > 0 ==> calls[1].call.program == "resolvectl"@
                && calls[1].call.args.len() == 2 + servers.len() && calls[1].call.args[0] == "dns"@
                && calls[1].call.args[1] == iface && forall|i: int|
                0 <= i < servers.len() ==> calls[1].call.args[2 + i] == net::ip_text(
                    #[trigger] servers[i],
                )
        }),
{
}

} // verus!
