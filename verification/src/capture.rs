//! Endpoints that a traced program connects to, and their promotion to a blacklist.

use vstd::prelude::*;
use crate::net::{self, IpAddr, IpNet};
use crate::seqs;
use crate::strings;
use crate::text;

verus! {

/// An endpoint that a program connected to.
#[derive(Debug, Clone, PartialEq, Eq)]
pub struct CapturedEndpoint {
    pub label: String,
    pub pid: Option<u32>,
    pub ip: IpAddr,
    pub port: u16,
    pub timestamp_secs: u64,
}

/// The value of a `CapturedEndpoint` in specifications.
#[verifier::ext_equal]
pub struct EndpointView {
    pub label: Seq<char>,
    pub pid: Option<u32>,
    pub ip: IpAddr,
    pub port: u16,
    pub timestamp_secs: u64,
}

impl View for CapturedEndpoint {
    type V = EndpointView;

    open spec fn view(&self) -> EndpointView {
        EndpointView {
            label: self.label@,
            pid: self.pid,
            ip: self.ip,
            port: self.port,
            timestamp_secs: self.timestamp_secs,
        }
    }
}

/// What a capture found.
#[derive(Debug, Clone)]
pub struct CaptureReport {
    pub label: String,
    pub timed_out: bool,
    pub endpoints: Vec<CapturedEndpoint>,
}

/// What stands between a marker and the next quotation mark.
pub open spec fn quoted_after(line: Seq<char>, marker: Seq<char>) -> Option<Seq<char>> {
    match text::after(line, marker) {
        Some(rest) => match text::split_once(rest, '"') {
            Some((s, _)) => Some(s),
            None => None,
        },
        None => None,
    }
}

fn extract_quoted_after<'a>(line: &'a str, marker: &str) -> (r: Option<&'a str>)
    ensures
        seqs::opt_view(r) == quoted_after(line@, marker@),
{
    match strings::after(line, marker) {
        Some(rest) => match strings::split_once(rest, '"') {
            Some((s, _)) => Some(s),
            None => None,
        },
        None => None,
    }
}

/// The port on a line: the number in the brackets of `htons`.
pub open spec fn port_on(line: Seq<char>) -> Option<u16> {
    match text::after(line, "htons("@) {
        Some(rest) => match text::split_once(rest, ')') {
            Some((s, _)) => match text::number(s, 10, u16::MAX as int) {
                Some(n) => Some(n as u16),
                None => None,
            },
            None => None,
        },
        None => None,
    }
}

fn extract_port(line: &str) -> (r: Option<u16>)
    ensures
        r == port_on(line@),
{
    match strings::after(line, "htons(") {
        Some(rest) => match strings::split_once(rest, ')') {
            Some((s, _)) => strings::parse_u16(s),
            None => None,
        },
        None => None,
    }
}

/// The process that a line names.
pub open spec fn pid_on(line: Seq<char>) -> Option<u32> {
    if "[pid "@.is_prefix_of(line) {
        match text::number(
            text::before_any(line.skip("[pid "@.len() as int), seq![']']),
            10,
            u32::MAX as int,
        ) {
            Some(n) => Some(n as u32),
            None => None,
        }
    } else {
        None
    }
}

fn extract_pid(line: &str) -> (r: Option<u32>)
    ensures
        r == pid_on(line@),
{
    match strings::strip_prefix(line, "[pid ") {
        Some(rest) => {
            let seps: [char; 1] = [']'];
            proof {
                assert(seps@ =~= seq![']']);
            }
            strings::parse_u32(strings::before_any(rest, &seps))
        },
        None => None,
    }
}

/// The address on a line, of either family.
pub open spec fn address_on(line: Seq<char>) -> Option<IpAddr> {
    match quoted_after(line, "inet_addr(\""@) {
        Some(s) => net::ip_from(s),
        None => match quoted_after(line, "inet_pton(AF_INET6, \""@) {
            Some(s) => net::ip_from(s),
            None => None,
        },
    }
}

fn extract_address(line: &str) -> (r: Option<IpAddr>)
    ensures
        r == address_on(line@),
{
    match extract_quoted_after(line, "inet_addr(\"") {
        Some(s) => IpAddr::parse(s),
        None => match extract_quoted_after(line, "inet_pton(AF_INET6, \"") {
            Some(s) => IpAddr::parse(s),
            None => None,
        },
    }
}

/// The endpoint on a line of a trace whose address is `ip`, if it has one, and a port.
pub open spec fn endpoint_with(
    label: Seq<char>,
    timestamp_secs: u64,
    line: Seq<char>,
    ip: Option<IpAddr>,
) -> Option<EndpointView> {
    match (ip, port_on(line)) {
        (Some(ip), Some(port)) => Some(
            EndpointView { label, pid: pid_on(line), ip, port, timestamp_secs },
        ),
        _ => None,
    }
}

/// The endpoint on a line of a trace, if it has an address and a port.
pub open spec fn endpoint_on(label: Seq<char>, timestamp_secs: u64) -> spec_fn(Seq<char>) -> Seq<
    EndpointView,
> {
    |line: Seq<char>|
        match endpoint_with(label, timestamp_secs, line, address_on(line)) {
            Some(e) => seq![e],
            None => Seq::empty(),
        }
}

/// The endpoint on a line of a trace whose address is `ip`, if it has one, and a port.
pub fn read_endpoint(label: &str, timestamp_secs: u64, line: &str, ip: Option<IpAddr>) -> (r:
    Option<CapturedEndpoint>)
    ensures
        seqs::opt_view(r) == endpoint_with(label@, timestamp_secs, line@, ip),
{
    match (ip, extract_port(line)) {
        (Some(ip), Some(port)) => Some(
            CapturedEndpoint {
                label: label.to_owned(),
                pid: extract_pid(line),
                ip,
                port,
                timestamp_secs,
            },
        ),
        _ => None,
    }
}

/// The endpoints of a trace. Nothing but addresses, ports and processes is taken from it.
pub fn parse_connect_trace(label: &str, trace: &str, timestamp_secs: u64) -> (r: Vec<
    CapturedEndpoint,
>)
    ensures
        seqs::views(r@) == seqs::flat(text::lines(trace@), endpoint_on(label@, timestamp_secs)),
{
    let lines = strings::lines(trace);
    let ghost all = text::lines(trace@);
    let ghost f = endpoint_on(label@, timestamp_secs);
    let mut out: Vec<CapturedEndpoint> = Vec::new();
    let mut i: usize = 0;
    proof {
        assert(all.take(0).len() == 0);
        assert(seqs::views(out@) =~= seqs::flat(all.take(0), f));
    }
    while i < lines.len()
        invariant
            i <= lines.len(),
            all == seqs::views(lines@),
            f == endpoint_on(label@, timestamp_secs),
            seqs::views(out@) == seqs::flat(all.take(i as int), f),
        decreases lines.len() - i,
    {
        let ghost now = seqs::views(out@);
        proof {
            seqs::lemma_flat_next(all, f, i as int);
            assert(all[i as int] == lines@[i as int]@);
        }
        let ip = extract_address(lines[i]);
        if let Some(e) = read_endpoint(label, timestamp_secs, lines[i], ip) {
            proof {
                seqs::lemma_views_push(out@, e);
            }
            out.push(e);
        }
        proof {
            assert(seqs::views(out@) =~= now + f(all[i as int]));
        }
        i += 1;
    }
    proof {
        seqs::lemma_take_all(all);
    }
    out
}

/// Whether two endpoints are the same but for label and time.
pub open spec fn same_endpoint(a: EndpointView, b: EndpointView) -> bool {
    a.ip == b.ip && a.port == b.port && a.pid == b.pid
}

/// The order of processes: an unknown one goes first.
pub open spec fn pid_before(a: Option<u32>, b: Option<u32>) -> bool {
    match (a, b) {
        (None, Some(_)) => true,
        (Some(x), Some(y)) => x < y,
        _ => false,
    }
}

/// The order of endpoints: by address, port and process.
pub open spec fn endpoint_before(a: EndpointView, b: EndpointView) -> bool {
    a.ip.before(b.ip) || (a.ip == b.ip && (a.port < b.port || (a.port == b.port && pid_before(
        a.pid,
        b.pid,
    ))))
}

/// Endpoints in order, with one more, unless it is among them.
pub open spec fn with_endpoint(s: Seq<EndpointView>, x: EndpointView) -> Seq<EndpointView>
    decreases s.len(),
{
    if s.len() == 0 {
        seq![x]
    } else if same_endpoint(x, s[0]) {
        s
    } else if endpoint_before(x, s[0]) {
        seq![x] + s
    } else {
        seq![s[0]] + with_endpoint(s.skip(1), x)
    }
}

/// The endpoints in order, each once.
pub open spec fn sorted_endpoints(s: Seq<EndpointView>) -> Seq<EndpointView>
    decreases s.len(),
{
    if s.len() == 0 {
        s
    } else {
        with_endpoint(sorted_endpoints(s.drop_last()), s.last())
    }
}

fn is_same(a: &CapturedEndpoint, b: &CapturedEndpoint) -> (r: bool)
    ensures
        r == same_endpoint(a@, b@),
{
    a.ip == b.ip && a.port == b.port && match (a.pid, b.pid) {
        (Some(x), Some(y)) => x == y,
        (None, None) => true,
        _ => false,
    }
}

fn is_before(a: &CapturedEndpoint, b: &CapturedEndpoint) -> (r: bool)
    ensures
        r == endpoint_before(a@, b@),
{
    if a.ip.comes_before(&b.ip) {
        return true;
    }
    if a.ip != b.ip {
        return false;
    }
    if a.port != b.port {
        return a.port < b.port;
    }
    match (a.pid, b.pid) {
        (None, Some(_)) => true,
        (Some(x), Some(y)) => x < y,
        _ => false,
    }
}

fn insert_endpoint(list: &mut Vec<CapturedEndpoint>, x: &CapturedEndpoint)
    ensures
        seqs::views(final(list)@) == with_endpoint(seqs::views(old(list)@), x@),
{
    let ghost s = seqs::views(list@);
    let n = list.len();
    let mut j: usize = 0;
    proof {
        assert(s.skip(0) =~= s);
        assert(s.take(0) + with_endpoint(s, x@) =~= with_endpoint(s, x@));
    }
    while j < n && !is_same(x, &list[j]) && !is_before(x, &list[j])
        invariant
            j <= n,
            n == list.len(),
            s == seqs::views(list@),
            with_endpoint(s, x@) == s.take(j as int) + with_endpoint(s.skip(j as int), x@),
        decreases n - j,
    {
        proof {
            let t = s.skip(j as int);
            assert(t[0] == list@[j as int]@);
            assert(t.skip(1) =~= s.skip(j + 1));
            assert(s.take(j as int) + (seq![t[0]] + with_endpoint(t.skip(1), x@)) =~= s.take(j + 1)
                + with_endpoint(s.skip(j + 1), x@));
        }
        j += 1;
    }
    let ghost t = s.skip(j as int);
    proof {
        if j < n {
            assert(t[0] == list@[j as int]@);
        }
    }
    if j < n && is_same(x, &list[j]) {
        proof {
            assert(s.take(j as int) + t =~= s);
        }
    } else {
        let e = CapturedEndpoint {
            label: x.label.clone(),
            pid: x.pid,
            ip: x.ip,
            port: x.port,
            timestamp_secs: x.timestamp_secs,
        };
        list.insert(j, e);
        proof {
            if j < n {
                assert(seqs::views(list@) =~= s.take(j as int) + (seq![x@] + t));
            } else {
                assert(t.len() == 0);
                assert(seqs::views(list@) =~= s.take(j as int) + seq![x@]);
            }
        }
    }
}

/// The endpoints in order of address, port and process, each once.
pub fn sort_endpoints(list: &Vec<CapturedEndpoint>) -> (r: Vec<CapturedEndpoint>)
    ensures
        seqs::views(r@) == sorted_endpoints(seqs::views(list@)),
{
    let ghost all = seqs::views(list@);
    let mut out: Vec<CapturedEndpoint> = Vec::new();
    let mut i: usize = 0;
    proof {
        assert(seqs::views(out@) =~= sorted_endpoints(all.take(0)));
    }
    while i < list.len()
        invariant
            i <= list.len(),
            all == seqs::views(list@),
            seqs::views(out@) == sorted_endpoints(all.take(i as int)),
        decreases list.len() - i,
    {
        proof {
            seqs::lemma_take_next(all, i as int);
            assert(all[i as int] == list@[i as int]@);
        }
        insert_endpoint(&mut out, &list[i]);
        i += 1;
    }
    proof {
        seqs::lemma_take_all(all);
    }
    out
}

/// What a capture is refused for.
pub open spec fn capture_fault(words: nat, duration_secs: u64) -> Option<Seq<char>> {
    if words == 0 {
        Some("capture requires a command after `--`"@)
    } else if duration_secs == 0 {
        Some("capture duration must be greater than zero"@)
    } else {
        None
    }
}

/// Whether there is a command to capture and time to do it in.
pub fn check_capture(command: &Vec<String>, duration_secs: u64) -> (r: Result<(), String>)
    ensures
        match r {
            Ok(_) => capture_fault(command@.len(), duration_secs) is None,
            Err(e) => capture_fault(command@.len(), duration_secs) == Some(e@),
        },
{
    if command.len() == 0 {
        return Err("capture requires a command after `--`".to_owned());
    }
    if duration_secs == 0 {
        return Err("capture duration must be greater than zero".to_owned());
    }
    Ok(())
}

/// The report of a capture whose trace is given.
pub fn report_capture(label: &str, trace: &str, timestamp_secs: u64, timed_out: bool) -> (r:
    CaptureReport)
    ensures
        r.label@ == label@,
        r.timed_out == timed_out,
        seqs::views(r.endpoints@) == sorted_endpoints(
            seqs::flat(text::lines(trace@), endpoint_on(label@, timestamp_secs)),
        ),
{
    let found = parse_connect_trace(label, trace, timestamp_secs);
    CaptureReport { label: label.to_owned(), timed_out, endpoints: sort_endpoints(&found) }
}

/// Whether a list names a network on a line of its own.
pub open spec fn lists(content: Seq<char>, entry: Seq<char>) -> bool {
    exists|i: int|
        0 <= i < text::lines(content).len() && text::trim(#[trigger] text::lines(content)[i])
            == entry
}

/// A list with the endpoints added whose networks it does not name, each on a line.
pub open spec fn promoted(content: Seq<char>, endpoints: Seq<EndpointView>) -> Seq<char>
    decreases endpoints.len(),
{
    if endpoints.len() == 0 {
        content
    } else {
        let before = promoted(content, endpoints.drop_last());
        let entry = IpNet::host(endpoints.last().ip).text();
        if lists(before, entry) {
            before
        } else {
            before + (entry + "\n"@)
        }
    }
}

fn is_listed(content: &str, entry: &str) -> (r: bool)
    ensures
        r == lists(content@, entry@),
{
    let lines = strings::lines(content);
    let ghost all = text::lines(content@);
    let mut i: usize = 0;
    while i < lines.len()
        invariant
            i <= lines.len(),
            all == seqs::views(lines@),
            all == text::lines(content@),
            forall|j: int| 0 <= j < i ==> text::trim(#[trigger] all[j]) != entry@,
        decreases lines.len() - i,
    {
        proof {
            assert(all[i as int] == lines@[i as int]@);
        }
        if strings::same(strings::trim(lines[i]), entry) {
            proof {
                assert(text::trim(text::lines(content@)[i as int]) == entry@);
            }
            return true;
        }
        i += 1;
    }
    false
}

/// The blacklist that `existing` holds, with the endpoints of a report in it. If its lines are
/// closed, what it gains is a line for each endpoint that it does not name, in their order and
/// without repeats, and the same report then adds nothing more.
pub fn promote(report: &CaptureReport, existing: &str) -> (r: String)
    ensures
        r@ == promoted(existing@, seqs::views(report.endpoints@)),
        text::closed_lines(existing@) ==> r@ == existing@ + seqs::flat(
            fresh(existing@, seqs::views(report.endpoints@)),
            host_line(),
        ),
        text::closed_lines(existing@) ==> promoted(r@, seqs::views(report.endpoints@)) == r@,
{
    let ghost all = seqs::views(report.endpoints@);
    let mut out: String = existing.to_owned();
    let mut i: usize = 0;
    proof {
        assert(all.take(0).len() == 0);
    }
    while i < report.endpoints.len()
        invariant
            i <= report.endpoints.len(),
            all == seqs::views(report.endpoints@),
            out@ == promoted(existing@, all.take(i as int)),
            forall|j: int|
                0 <= j < i ==> text::solid(IpNet::host((#[trigger] all[j]).ip).text()),
        decreases report.endpoints.len() - i,
    {
        proof {
            seqs::lemma_take_next(all, i as int);
            assert(all[i as int] == report.endpoints@[i as int]@);
        }
        let entry = IpNet::of_host(report.endpoints[i].ip).to_string();
        if !is_listed(out.as_str(), entry.as_str()) {
            let line = entry.concat("\n");
            out = out.concat(line.as_str());
        }
        i += 1;
    }
    proof {
        seqs::lemma_take_all(all);
        if text::closed_lines(existing@) {
            lemma_promotion_adds_fresh(existing@, all);
            lemma_promotion_settles(existing@, all);
        }
    }
    out
}

/// A character that may stand in a file name: a letter, a digit or a hyphen.
pub open spec fn safe_char(c: char) -> bool {
    ('a' <= c && c <= 'z') || ('A' <= c && c <= 'Z') || ('0' <= c && c <= '9') || c == '-'
}

/// A label as part of a file name.
pub open spec fn safe_label(label: Seq<char>) -> Seq<char> {
    if label.len() == 0 {
        "agent"@
    } else {
        Seq::new(
            label.len(),
            |i: int|
                if safe_char(label[i]) {
                    label[i]
                } else {
                    '_'
                },
        )
    }
}

/// A label as part of a file name.
pub fn sanitize_label(label: &str) -> (r: String)
    ensures
        r@ == safe_label(label@),
{
    let v = strings::to_chars(label);
    if v.len() == 0 {
        return "agent".to_owned();
    }
    let mut out: Vec<char> = Vec::new();
    let mut i: usize = 0;
    while i < v.len()
        invariant
            i <= v.len(),
            v@ == label@,
            label@.len() > 0,
            out@ == safe_label(label@).take(i as int),
        decreases v.len() - i,
    {
        let c = v[i];
        let safe = ('a' <= c && c <= 'z') || ('A' <= c && c <= 'Z') || ('0' <= c && c <= '9') || c
            == '-';
        proof {
            seqs::lemma_take_next(safe_label(label@), i as int);
        }
        if safe {
            out.push(c);
        } else {
            out.push('_');
        }
        i += 1;
    }
    proof {
        seqs::lemma_take_all(safe_label(label@));
    }
    strings::from_chars(&out)
}

/// Whether endpoints stand in order and none twice.
pub open spec fn endpoints_ascending(s: Seq<EndpointView>) -> bool {
    forall|i: int, j: int|
        0 <= i < j < s.len() ==> endpoint_before(#[trigger] s[i], #[trigger] s[j])
}

/// Whether an endpoint is among others, but for label and time.
pub open spec fn has_endpoint(s: Seq<EndpointView>, x: EndpointView) -> bool {
    exists|i: int| 0 <= i < s.len() && same_endpoint(#[trigger] s[i], x)
}

proof fn lemma_with_endpoint(s: Seq<EndpointView>, x: EndpointView)
    requires
        endpoints_ascending(s),
    ensures
        endpoints_ascending(with_endpoint(s, x)),
        has_endpoint(with_endpoint(s, x), x),
        forall|y: EndpointView| has_endpoint(s, y) ==> #[trigger] has_endpoint(with_endpoint(s, x), y),
        forall|i: int|
            0 <= i < with_endpoint(s, x).len() ==> #[trigger] with_endpoint(s, x)[i] == x
                || s.contains(with_endpoint(s, x)[i]),
    decreases s.len(),
{
    let r = with_endpoint(s, x);
    if s.len() == 0 {
        assert(same_endpoint(r[0], x));
    } else if same_endpoint(x, s[0]) {
        assert(same_endpoint(r[0], x));
        assert forall|i: int| 0 <= i < r.len() implies #[trigger] r[i] == x || s.contains(r[i]) by {
            assert(s.contains(s[i]));
        }
    } else if endpoint_before(x, s[0]) {
        assert forall|i: int, j: int| 0 <= i < j < r.len() implies endpoint_before(
            #[trigger] r[i],
            #[trigger] r[j],
        ) by {
            if i > 0 {
                assert(endpoint_before(s[i - 1], s[j - 1]));
            } else if j > 1 {
                assert(endpoint_before(s[0], s[j - 1]));
            }
        }
        assert(same_endpoint(r[0], x));
        assert forall|y: EndpointView| has_endpoint(s, y) implies #[trigger] has_endpoint(r, y) by {
            let i = choose|i: int| 0 <= i < s.len() && same_endpoint(#[trigger] s[i], y);
            assert(same_endpoint(r[i + 1], y));
        }
        assert forall|i: int| 0 <= i < r.len() implies #[trigger] r[i] == x || s.contains(r[i]) by {
            if i > 0 {
                assert(s.contains(s[i - 1]));
            }
        }
    } else {
        let t = s.skip(1);
        assert forall|i: int, j: int| 0 <= i < j < t.len() implies endpoint_before(
            #[trigger] t[i],
            #[trigger] t[j],
        ) by {
            assert(endpoint_before(s[i + 1], s[j + 1]));
        }
        lemma_with_endpoint(t, x);
        let q = with_endpoint(t, x);
        assert(endpoint_before(s[0], x));
        assert forall|i: int| 0 <= i < q.len() implies endpoint_before(s[0], #[trigger] q[i]) by {
            if q[i] != x {
                assert(t.contains(q[i]));
                let k = choose|k: int| 0 <= k < t.len() && t[k] == q[i];
                assert(endpoint_before(s[0], s[k + 1]));
            }
        }
        assert forall|i: int, j: int| 0 <= i < j < r.len() implies endpoint_before(
            #[trigger] r[i],
            #[trigger] r[j],
        ) by {
            if i > 0 {
                assert(endpoint_before(q[i - 1], q[j - 1]));
            } else {
                assert(endpoint_before(s[0], q[j - 1]));
            }
        }
        let k = choose|k: int| 0 <= k < q.len() && same_endpoint(#[trigger] q[k], x);
        assert(same_endpoint(r[k + 1], x));
        assert forall|y: EndpointView| has_endpoint(s, y) implies #[trigger] has_endpoint(r, y) by {
            let i = choose|i: int| 0 <= i < s.len() && same_endpoint(#[trigger] s[i], y);
            if i == 0 {
                assert(same_endpoint(r[0], y));
            } else {
                assert(same_endpoint(t[i - 1], y));
                assert(has_endpoint(q, y));
                let k = choose|k: int| 0 <= k < q.len() && same_endpoint(#[trigger] q[k], y);
                assert(same_endpoint(r[k + 1], y));
            }
        }
        assert forall|i: int| 0 <= i < r.len() implies #[trigger] r[i] == x || s.contains(r[i]) by {
            if i > 0 {
                assert(r[i] == q[i - 1]);
                if q[i - 1] != x {
                    let k = choose|k: int| 0 <= k < t.len() && t[k] == q[i - 1];
                    assert(s[k + 1] == q[i - 1]);
                }
            } else {
                assert(s.contains(s[0]));
            }
        }
    }
}

/// The endpoints of a report stand in order, none twice, and each that was seen is among them.
pub proof fn law_report_lists_each_endpoint_once(s: Seq<EndpointView>)
    ensures
        endpoints_ascending(sorted_endpoints(s)),
        forall|i: int| 0 <= i < s.len() ==> has_endpoint(sorted_endpoints(s), #[trigger] s[i]),
        forall|i: int|
            0 <= i < sorted_endpoints(s).len() ==> s.contains(#[trigger] sorted_endpoints(s)[i]),
    decreases s.len(),
{
    if s.len() > 0 {
        let t = s.drop_last();
        law_report_lists_each_endpoint_once(t);
        lemma_with_endpoint(sorted_endpoints(t), s.last());
        let r = sorted_endpoints(s);
        assert forall|i: int| 0 <= i < s.len() implies has_endpoint(r, #[trigger] s[i]) by {
            if i < t.len() {
                assert(has_endpoint(sorted_endpoints(t), t[i]));
            }
        }
        assert forall|i: int| 0 <= i < r.len() implies s.contains(#[trigger] r[i]) by {
            if r[i] == s.last() {
                assert(s[s.len() - 1] == r[i]);
            } else {
                let b = sorted_endpoints(t);
                assert(b.contains(r[i]));
                let k = choose|k: int| 0 <= k < b.len() && b[k] == r[i];
                assert(t.contains(b[k]));
                let m = choose|m: int| 0 <= m < t.len() && t[m] == r[i];
                assert(s[m] == r[i]);
            }
        }
    }
}

/// Promotion adds to a list and changes nothing that is in it.
pub proof fn law_promotion_only_appends(content: Seq<char>, endpoints: Seq<EndpointView>)
    ensures
        content.is_prefix_of(promoted(content, endpoints)),
    decreases endpoints.len(),
{
    if endpoints.len() > 0 {
        law_promotion_only_appends(content, endpoints.drop_last());
        let before = promoted(content, endpoints.drop_last());
        let after = promoted(content, endpoints);
        assert(content =~= before.subrange(0, content.len() as int));
        assert(after.subrange(0, content.len() as int) =~= before.subrange(
            0,
            content.len() as int,
        ));
    } else {
        assert(content.subrange(0, content.len() as int) =~= content);
    }
}

/// The line that promotion adds for an endpoint: its address as a network of its own.
pub open spec fn host_line() -> spec_fn(EndpointView) -> Seq<char> {
    |e: EndpointView| IpNet::host(e.ip).text() + "\n"@
}

/// The endpoints whose networks a list does not name, each network once.
pub open spec fn fresh(content: Seq<char>, endpoints: Seq<EndpointView>) -> Seq<EndpointView>
    decreases endpoints.len(),
{
    if endpoints.len() == 0 {
        Seq::empty()
    } else {
        let before = endpoints.drop_last();
        let entry = IpNet::host(endpoints.last().ip).text();
        if lists(content, entry) || mentions(before, entry) {
            fresh(content, before)
        } else {
            fresh(content, before).push(endpoints.last())
        }
    }
}

/// Whether an endpoint, as a network, is written so.
pub open spec fn mentions(endpoints: Seq<EndpointView>, entry: Seq<char>) -> bool {
    exists|i: int|
        0 <= i < endpoints.len() && IpNet::host((#[trigger] endpoints[i]).ip).text() == entry
}

/// Whether the endpoints, as networks, are written without white space.
pub open spec fn solid_entries(endpoints: Seq<EndpointView>) -> bool {
    forall|i: int|
        0 <= i < endpoints.len() ==> text::solid(IpNet::host((#[trigger] endpoints[i]).ip).text())
}

proof fn lemma_listed_line(content: Seq<char>, line: Seq<char>, entry: Seq<char>)
    requires
        text::closed_lines(content),
        text::solid(line),
    ensures
        lists(content + line.push('\n'), entry) <==> lists(content, entry) || line == entry,
{
    let old_lines = text::lines(content);
    let new_lines = text::lines(content + line.push('\n'));
    text::lemma_lines_append(content, line);
    assert(text::trim(line) == line);
    assert(new_lines[old_lines.len() as int] == line);
    if lists(content, entry) {
        let i = choose|i: int|
            0 <= i < old_lines.len() && text::trim(#[trigger] old_lines[i]) == entry;
        assert(new_lines[i] == old_lines[i]);
    }
    if lists(content + line.push('\n'), entry) {
        let i = choose|i: int|
            0 <= i < new_lines.len() && text::trim(#[trigger] new_lines[i]) == entry;
        if i < old_lines.len() {
            assert(new_lines[i] == old_lines[i]);
        }
    }
}

proof fn lemma_mentions_next(endpoints: Seq<EndpointView>, entry: Seq<char>)
    requires
        endpoints.len() > 0,
    ensures
        mentions(endpoints, entry) <==> mentions(endpoints.drop_last(), entry) || IpNet::host(
            endpoints.last().ip,
        ).text() == entry,
{
    let before = endpoints.drop_last();
    if mentions(before, entry) {
        let i = choose|i: int|
            0 <= i < before.len() && IpNet::host((#[trigger] before[i]).ip).text() == entry;
        assert(endpoints[i] == before[i]);
    }
    if mentions(endpoints, entry) {
        let i = choose|i: int|
            0 <= i < endpoints.len() && IpNet::host((#[trigger] endpoints[i]).ip).text() == entry;
        if i < before.len() {
            assert(before[i] == endpoints[i]);
        }
    }
}

/// A promoted list names what it named and the networks of the endpoints, and nothing else.
proof fn lemma_promoted_lists(content: Seq<char>, endpoints: Seq<EndpointView>, entry: Seq<char>)
    requires
        text::closed_lines(content),
        solid_entries(endpoints),
    ensures
        text::closed_lines(promoted(content, endpoints)),
        lists(promoted(content, endpoints), entry) <==> lists(content, entry) || mentions(
            endpoints,
            entry,
        ),
    decreases endpoints.len(),
{
    if endpoints.len() > 0 {
        let rest = endpoints.drop_last();
        let before = promoted(content, rest);
        let line = IpNet::host(endpoints.last().ip).text();
        assert(solid_entries(rest)) by {
            assert forall|i: int| 0 <= i < rest.len() implies text::solid(
                IpNet::host((#[trigger] rest[i]).ip).text(),
            ) by {
                assert(rest[i] == endpoints[i]);
            }
        }
        lemma_promoted_lists(content, rest, entry);
        lemma_mentions_next(endpoints, entry);
        if !lists(before, line) {
            assert(text::solid(IpNet::host(endpoints[endpoints.len() - 1].ip).text()));
            reveal_strlit("\n");
            assert(line + "\n"@ =~= line.push('\n'));
            lemma_listed_line(before, line, entry);
        }
    }
}

/// What promotion adds to a list whose lines are closed: for each endpoint whose network it does
/// not name a line, in their order and without repeats.
proof fn lemma_promotion_adds_fresh(content: Seq<char>, endpoints: Seq<EndpointView>)
    requires
        text::closed_lines(content),
        solid_entries(endpoints),
    ensures
        promoted(content, endpoints) == content + seqs::flat(
            fresh(content, endpoints),
            host_line(),
        ),
    decreases endpoints.len(),
{
    if endpoints.len() == 0 {
        assert(content + seqs::flat(fresh(content, endpoints), host_line()) =~= content);
    } else {
        let rest = endpoints.drop_last();
        let e = endpoints.last();
        assert(solid_entries(rest)) by {
            assert forall|i: int| 0 <= i < rest.len() implies text::solid(
                IpNet::host((#[trigger] rest[i]).ip).text(),
            ) by {
                assert(rest[i] == endpoints[i]);
            }
        }
        lemma_promotion_adds_fresh(content, rest);
        lemma_promoted_lists(content, rest, IpNet::host(e.ip).text());
        let some = fresh(content, rest);
        let more = some.push(e);
        assert(more.drop_last() =~= some);
        assert(content + seqs::flat(some, host_line()) + host_line()(e) =~= content + (seqs::flat(
            some,
            host_line(),
        ) + host_line()(e)));
    }
}

/// A list that names the networks of all endpoints is left as it is.
pub proof fn law_listed_endpoints_add_nothing(content: Seq<char>, endpoints: Seq<EndpointView>)
    requires
        forall|i: int|
            0 <= i < endpoints.len() ==> lists(
                content,
                IpNet::host((#[trigger] endpoints[i]).ip).text(),
            ),
    ensures
        promoted(content, endpoints) == content,
    decreases endpoints.len(),
{
    if endpoints.len() > 0 {
        let rest = endpoints.drop_last();
        assert forall|i: int| 0 <= i < rest.len() implies lists(
            content,
            IpNet::host((#[trigger] rest[i]).ip).text(),
        ) by {
            assert(rest[i] == endpoints[i]);
        }
        law_listed_endpoints_add_nothing(content, rest);
        assert(endpoints[endpoints.len() - 1] == endpoints.last());
    }
}

proof fn lemma_promotion_settles(content: Seq<char>, endpoints: Seq<EndpointView>)
    requires
        text::closed_lines(content),
        solid_entries(endpoints),
    ensures
        promoted(promoted(content, endpoints), endpoints) == promoted(content, endpoints),
{
    let after = promoted(content, endpoints);
    assert forall|i: int| 0 <= i < endpoints.len() implies lists(
        after,
        IpNet::host((#[trigger] endpoints[i]).ip).text(),
    ) by {
        lemma_promoted_lists(content, endpoints, IpNet::host(endpoints[i].ip).text());
    }
    law_listed_endpoints_add_nothing(after, endpoints);
}

/// Promotion broadens nothing: all that it adds are lines for single addresses of the endpoints.
pub proof fn law_promotion_adds_single_hosts(
    content: Seq<char>,
    endpoints: Seq<EndpointView>,
) -> (added: Seq<EndpointView>)
    ensures
        promoted(content, endpoints) == content + seqs::flat(added, host_line()),
        forall|i: int| 0 <= i < added.len() ==> endpoints.contains(#[trigger] added[i]),
    decreases endpoints.len(),
{
    if endpoints.len() == 0 {
        let none = Seq::<EndpointView>::empty();
        assert(content + seqs::flat(none, host_line()) =~= content);
        none
    } else {
        let rest = endpoints.drop_last();
        let some = law_promotion_adds_single_hosts(content, rest);
        let e = endpoints.last();
        let before = promoted(content, rest);
        assert forall|i: int| 0 <= i < some.len() implies endpoints.contains(
            #[trigger] some[i],
        ) by {
            let k = choose|k: int| 0 <= k < rest.len() && rest[k] == some[i];
            assert(endpoints[k] == some[i]);
        }
        if lists(before, IpNet::host(e.ip).text()) {
            some
        } else {
            let more = some.push(e);
            assert(more.drop_last() =~= some);
            assert(promoted(content, endpoints) =~= content + seqs::flat(more, host_line()));
            assert(endpoints[endpoints.len() - 1] == e);
            more
        }
    }
}

/// Whether a text occurs in another at a place and nowhere before it.
pub open spec fn first_at(s: Seq<char>, needle: Seq<char>, i: int) -> bool {
    &&& 0 <= i <= s.len()
    &&& needle.is_prefix_of(s.skip(i))
    &&& forall|j: int| 0 <= j < i ==> !needle.is_prefix_of(#[trigger] s.skip(j))
}

proof fn lemma_found_at(s: Seq<char>, needle: Seq<char>, i: int)
    requires
        first_at(s, needle, i),
    ensures
        text::find(s, needle) == Some(i),
    decreases i,
{
    assert(s.skip(0) =~= s);
    if i > 0 {
        assert(!needle.is_prefix_of(s.skip(0)));
        let t = s.skip(1);
        assert(t.skip(i - 1) =~= s.skip(i));
        assert forall|j: int| 0 <= j < i - 1 implies !needle.is_prefix_of(#[trigger] t.skip(j)) by {
            assert(t.skip(j) =~= s.skip(j + 1));
        }
        lemma_found_at(t, needle, i - 1);
    }
}

proof fn lemma_between(s: Seq<char>, marker: Seq<char>, i: int, inner: Seq<char>, c: char, rest: Seq<char>)
    requires
        first_at(s, marker, i),
        s.skip(i) == marker + (inner + seq![c] + rest),
        !inner.contains(c),
    ensures
        text::after(s, marker) == Some(inner + seq![c] + rest),
        text::split_once(inner + seq![c] + rest, c) == Some((inner, rest)),
{
    lemma_found_at(s, marker, i);
    let t = inner + seq![c] + rest;
    assert(s.skip(i + marker.len()) =~= t) by {
        assert forall|k: int| 0 <= k < t.len() implies #[trigger] s.skip(i + marker.len())[k]
            == t[k] by {
            assert(s.skip(i)[marker.len() + k] == (marker + t)[marker.len() + k]);
        }
        assert(s.skip(i).len() == (marker + t).len());
    }
    let sep = seq![c];
    assert(sep[0] == c);
    assert forall|j: int| 0 <= j < inner.len() implies !sep.contains(#[trigger] t[j]) by {
        assert(t[j] == inner[j]);
        assert(inner.contains(inner[j]));
    }
    assert(t[inner.len() as int] == c);
    text::lemma_first_of_is(t, sep, inner.len() as int);
    assert(t.take(inner.len() as int) =~= inner);
    assert(t.skip(inner.len() + 1int) =~= rest);
}

/// The port of a connection is the number in the brackets of the first `htons` on the line,
/// whatever stands around it.
pub proof fn law_port_of_a_connection(line: Seq<char>, i: int, port: u16, rest: Seq<char>)
    requires
        first_at(line, "htons("@, i),
        line.skip(i) == "htons("@ + (text::decimal(port as nat) + seq![')'] + rest),
    ensures
        port_on(line) == Some(port),
{
    let d = text::decimal(port as nat);
    text::lemma_decimal(port as nat);
    assert(!d.contains(')')) by {
        if d.contains(')') {
            let k = choose|k: int| 0 <= k < d.len() && d[k] == ')';
            assert('0' <= d[k]);
        }
    }
    lemma_between(line, "htons("@, i, d, ')', rest);
    assert('0' <= d[0] && d[0] <= '9');
    assert(text::number(d, 10, u16::MAX as int) == Some(port as int));
}

/// The address of a connection is the text in quotation marks behind the first `inet_addr` on the
/// line, whatever stands around it, if that reads as an address.
pub proof fn law_address_of_a_connection(line: Seq<char>, i: int, written: Seq<char>, rest: Seq<char>)
    requires
        first_at(line, "inet_addr(\""@, i),
        line.skip(i) == "inet_addr(\""@ + (written + seq!['"'] + rest),
        !written.contains('"'),
    ensures
        address_on(line) == net::ip_from(written),
{
    lemma_between(line, "inet_addr(\""@, i, written, '"', rest);
}

/// A line with an address and a port is an endpoint with both, with the process that the line
/// names, and a line that lacks one of them is none.
pub proof fn law_endpoints_of_a_trace(label: Seq<char>, now: u64, line: Seq<char>)
    ensures
        address_on(line) is Some && port_on(line) is Some ==> endpoint_on(label, now)(line) == seq![
            EndpointView {
                label,
                pid: pid_on(line),
                ip: address_on(line)->0,
                port: port_on(line)->0,
                timestamp_secs: now,
            },
        ],
        address_on(line) is None || port_on(line) is None ==> endpoint_on(label, now)(line).len()
            == 0,
{
}

/// A capture needs a command and some time.
pub proof fn law_what_a_capture_needs(words: nat, duration_secs: u64)
    ensures
        capture_fault(words, duration_secs) is None <==> words > 0 && duration_secs > 0,
{
}

/// A label is made fit for a file name: letters, digits and hyphens stay, and everything else
/// becomes an underscore.
pub proof fn law_labels_are_made_safe(label: Seq<char>, i: int)
    requires
        0 <= i < label.len(),
    ensures
        safe_label(label).len() == label.len(),
        ('a' <= label[i] && label[i] <= 'z') || ('A' <= label[i] && label[i] <= 'Z') || ('0'
            <= label[i] && label[i] <= '9') || label[i] == '-' ==> safe_label(label)[i] == label[i],
        safe_label(label)[i] == '_' || safe_char(safe_label(label)[i]),
        safe_label(label)[i] != '/' && safe_label(label)[i] != '.',
{
}

} // verus!
