//! What is shown to the user.

use vstd::prelude::*;
use crate::config::{NetworkConfig, NetworkView, TargetConfig, TargetView};
use crate::detector::DetectedLanProfile;
use crate::dns;
use crate::doctor::DoctorReport;
use crate::model::{
    Decision, DecisionView, Interface, InterfaceRole, InterfaceView, Route, RouteView, RpdbRule,
};
use crate::net::{IpAddr, IpNet};
use crate::reconcile::{ReconcileReport, ReportView};
use crate::rpc::{StatusReport, StatusView};
use crate::seqs;
use crate::state::{RuntimeState, RuntimeView};
use crate::strings;
use crate::text;

verus! {

// ---------------------------------------------------------------------------------------------
// Cells
// ---------------------------------------------------------------------------------------------
/// A text with spaces behind it, up to a width.
pub open spec fn padded(s: Seq<char>, width: nat) -> Seq<char> {
    if s.len() < width {
        s + Seq::new((width - s.len()) as nat, |i: int| ' ')
    } else {
        s
    }
}

/// A text in the colour of a code.
pub open spec fn painted(code: Seq<char>, s: Seq<char>) -> Seq<char> {
    "\x1b["@ + code + "m"@ + s + "\x1b[0m"@
}

fn pad(s: &str, width: usize) -> (r: String)
    ensures
        r@ == padded(s@, width as nat),
{
    let n = s.unicode_len();
    let mut out = s.to_owned();
    let mut i: usize = n;
    proof {
        assert(s@ + Seq::new(0, |i: int| ' ') =~= s@);
    }
    while i < width
        invariant
            n == s@.len(),
            n <= i,
            i <= width || i == n,
            out@ == s@ + Seq::new((i - n) as nat, |i: int| ' '),
        decreases width - i,
    {
        let ghost before = out@;
        out.push(' ');
        proof {
            assert(out@ =~= s@ + Seq::new((i + 1 - n) as nat, |i: int| ' '));
        }
        i += 1;
    }
    out
}

fn paint(code: &str, s: &str) -> (r: String)
    ensures
        r@ == painted(code@, s@),
{
    "\x1b[".to_owned().concat(code).concat("m").concat(s).concat("\x1b[0m")
}

/// Names with commas between them, or a word if there are none.
pub open spec fn listed(names: Seq<Seq<char>>, none: Seq<char>) -> Seq<char> {
    if names.len() == 0 {
        none
    } else {
        text::join(names, ", "@)
    }
}

fn list(names: &Vec<String>, none: &str) -> (r: String)
    ensures
        r@ == listed(seqs::views(names@), none@),
{
    if names.len() == 0 {
        none.to_owned()
    } else {
        strings::join(names, ", ")
    }
}

/// The texts of networks.
pub open spec fn net_texts(nets: Seq<IpNet>) -> Seq<Seq<char>> {
    Seq::new(nets.len(), |i: int| nets[i].text())
}

fn write_nets(nets: &Vec<IpNet>) -> (r: Vec<String>)
    ensures
        seqs::views(r@) == net_texts(nets@),
{
    let mut out: Vec<String> = Vec::new();
    let mut i: usize = 0;
    while i < nets.len()
        invariant
            i <= nets.len(),
            out.len() == i,
            forall|j: int| 0 <= j < i ==> (#[trigger] out@[j])@ == nets@[j].text(),
        decreases nets.len() - i,
    {
        out.push(nets[i].to_string());
        i += 1;
    }
    proof {
        assert(seqs::views(out@) =~= net_texts(nets@));
    }
    out
}

// ---------------------------------------------------------------------------------------------
// Interfaces
// ---------------------------------------------------------------------------------------------
/// A role in its colour.
pub open spec fn role_cell(role: InterfaceRole) -> Seq<char> {
    match role {
        InterfaceRole::Wan => painted("1;34"@, role.text()),
        InterfaceRole::Lan => painted("1;32"@, role.text()),
        InterfaceRole::Vpn => painted("1;35"@, role.text()),
        _ => role.text(),
    }
}

/// Six cells in a row.
pub open spec fn row_of(
    a: Seq<char>,
    b: Seq<char>,
    c: Seq<char>,
    d: Seq<char>,
    e: Seq<char>,
    f: Seq<char>,
) -> Seq<char> {
    padded(a, 6) + " "@ + padded(b, 12) + " "@ + padded(c, 10) + " "@ + padded(d, 10) + " "@
        + padded(e, 8) + " "@ + padded(f, 24) + "\n"@
}

/// The row of an interface.
pub open spec fn interface_row() -> spec_fn(InterfaceView) -> Seq<char> {
    |i: InterfaceView|
        row_of(
            text::decimal(i.index as nat),
            i.name,
            role_cell(i.role),
            if i.is_up {
                "UP"@
            } else {
                "DOWN"@
            },
            if i.has_carrier {
                "YES"@
            } else {
                "NO"@
            },
            listed(net_texts(i.ip_addrs), "-"@),
        )
}

/// What is shown of the default WAN interface.
pub open spec fn wan_line(wan: Option<Seq<char>>) -> Seq<char> {
    match wan {
        Some(w) => "Default WAN Interface: "@ + painted("1;32"@, w) + "\n"@,
        None => ""@,
    }
}

/// What is shown of interfaces.
pub open spec fn interfaces_shown(
    interfaces: Seq<InterfaceView>,
    wan: Option<Seq<char>>,
) -> Seq<char> {
    "\n=== Network Interface Discovery ===\n"@ + wan_line(wan) + row_of(
        "IDX"@,
        "INTERFACE"@,
        "ROLE"@,
        "OPERSTATE"@,
        "CARRIER"@,
        "IP ADDRESSES"@,
    ) + "---------------------------------------------------------------------------\n"@
        + seqs::flat(interfaces, interface_row()) + "\n"@
}

fn write_row(a: &str, b: &str, c: &str, d: &str, e: &str, f: &str) -> (r: String)
    ensures
        r@ == row_of(a@, b@, c@, d@, e@, f@),
{
    pad(a, 6).concat(" ").concat(pad(b, 12).as_str()).concat(" ").concat(
        pad(c, 10).as_str(),
    ).concat(" ").concat(pad(d, 10).as_str()).concat(" ").concat(pad(e, 8).as_str()).concat(
        " ",
    ).concat(pad(f, 24).as_str()).concat("\n")
}

fn write_role(role: InterfaceRole) -> (r: String)
    ensures
        r@ == role_cell(role),
{
    let name = role.to_string();
    match role {
        InterfaceRole::Wan => paint("1;34", name.as_str()),
        InterfaceRole::Lan => paint("1;32", name.as_str()),
        InterfaceRole::Vpn => paint("1;35", name.as_str()),
        _ => name,
    }
}

fn write_interface(i: &Interface) -> (r: String)
    ensures
        r@ == interface_row()(i@),
{
    let ips = write_nets(&i.ip_addrs);
    let role = write_role(i.role);
    let ip_cell = list(&ips, "-");
    write_row(
        strings::decimal(i.index as u64).as_str(),
        i.name.as_str(),
        role.as_str(),
        if i.is_up {
            "UP"
        } else {
            "DOWN"
        },
        if i.has_carrier {
            "YES"
        } else {
            "NO"
        },
        ip_cell.as_str(),
    )
}

/// What is shown of interfaces.
pub fn show_interfaces(interfaces: &Vec<Interface>, wan: Option<&str>) -> (r: String)
    ensures
        r@ == interfaces_shown(seqs::views(interfaces@), seqs::opt_view(wan)),
{
    let ghost all = seqs::views(interfaces@);
    let mut rows = String::new();
    let mut i: usize = 0;
    proof {
        assert(all.take(0).len() == 0);
        assert(rows@ =~= seqs::flat(all.take(0), interface_row()));
    }
    while i < interfaces.len()
        invariant
            i <= interfaces.len(),
            all == seqs::views(interfaces@),
            rows@ == seqs::flat(all.take(i as int), interface_row()),
        decreases interfaces.len() - i,
    {
        proof {
            seqs::lemma_flat_next(all, interface_row(), i as int);
            assert(all[i as int] == interfaces@[i as int]@);
        }
        rows = rows.concat(write_interface(&interfaces[i]).as_str());
        i += 1;
    }
    proof {
        seqs::lemma_take_all(all);
    }
    let wan_text = match wan {
        Some(w) => "Default WAN Interface: ".to_owned().concat(
            paint("1;32", w).as_str(),
        ).concat("\n"),
        None => "".to_owned(),
    };
    let head = write_row("IDX", "INTERFACE", "ROLE", "OPERSTATE", "CARRIER", "IP ADDRESSES");
    "\n=== Network Interface Discovery ===\n".to_owned().concat(wan_text.as_str()).concat(
        head.as_str(),
    ).concat(
        "---------------------------------------------------------------------------\n",
    ).concat(rows.as_str()).concat("\n")
}

// ---------------------------------------------------------------------------------------------
// Status
// ---------------------------------------------------------------------------------------------
/// The line of a route.
pub open spec fn route_line() -> spec_fn(RouteView) -> Seq<char> {
    |r: RouteView| "  -> "@ + r.destination.text() + " via "@ + r.output_interface + "\n"@
}

/// What is shown of the status of a running daemon.
pub open spec fn status_shown(s: StatusView) -> Seq<char> {
    "\n=== reverse-tool Daemon Status ===\n"@ + "Daemon Status: "@ + painted("1;32"@, "ACTIVE"@)
        + "\nAllocated Table: "@ + text::decimal(s.allocated_table as nat)
        + "\nRule Priority:   "@ + text::decimal(s.rule_priority as nat)
        + "\nMonitored Interfaces: "@ + text::decimal(s.interface_count)
        + "\nActive Lab Routes:    "@ + text::decimal(s.active_routes.len()) + "\n"@ + seqs::flat(
        s.active_routes,
        route_line(),
    ) + "\n"@
}

/// What is shown of the saved state if no daemon runs.
pub open spec fn saved_shown(s: RuntimeView) -> Seq<char> {
    "\n=== reverse-tool Local Status ===\n"@ + "Daemon Status: "@ + painted("1;33"@, "OFFLINE"@)
        + " (showing local saved state)"@ + "\nAllocated Table: "@ + text::decimal(
        s.allocated_table as nat,
    ) + "\nRule Priority:   "@ + text::decimal(s.rule_priority as nat)
        + "\nSaved Routes:    "@ + text::decimal(s.routes_owned.len()) + "\n"@ + seqs::flat(
        s.routes_owned,
        route_line(),
    ) + "\n"@
}

fn write_routes(routes: &Vec<Route>) -> (r: String)
    ensures
        r@ == seqs::flat(seqs::views(routes@), route_line()),
{
    let ghost all = seqs::views(routes@);
    let mut out = String::new();
    let mut i: usize = 0;
    proof {
        assert(all.take(0).len() == 0);
        assert(out@ =~= seqs::flat(all.take(0), route_line()));
    }
    while i < routes.len()
        invariant
            i <= routes.len(),
            all == seqs::views(routes@),
            out@ == seqs::flat(all.take(i as int), route_line()),
        decreases routes.len() - i,
    {
        proof {
            seqs::lemma_flat_next(all, route_line(), i as int);
            assert(all[i as int] == routes@[i as int]@);
        }
        let line = "  -> ".to_owned().concat(routes[i].destination.to_string().as_str()).concat(
            " via ",
        ).concat(routes[i].output_interface.as_str()).concat("\n");
        out = out.concat(line.as_str());
        i += 1;
    }
    proof {
        seqs::lemma_take_all(all);
    }
    out
}

/// What is shown of the status of a running daemon.
pub fn show_status(s: &StatusReport) -> (r: String)
    ensures
        r@ == status_shown(s@),
{
    "\n=== reverse-tool Daemon Status ===\n".to_owned().concat("Daemon Status: ").concat(
        paint("1;32", "ACTIVE").as_str(),
    ).concat("\nAllocated Table: ").concat(
        strings::decimal(s.allocated_table as u64).as_str(),
    ).concat("\nRule Priority:   ").concat(
        strings::decimal(s.rule_priority as u64).as_str(),
    ).concat("\nMonitored Interfaces: ").concat(
        strings::decimal(s.interface_count as u64).as_str(),
    ).concat("\nActive Lab Routes:    ").concat(
        strings::decimal(s.active_routes.len() as u64).as_str(),
    ).concat("\n").concat(write_routes(&s.active_routes).as_str()).concat("\n")
}

/// What is shown of the saved state if no daemon runs.
pub fn show_saved_state(s: &RuntimeState) -> (r: String)
    ensures
        r@ == saved_shown(s@),
{
    "\n=== reverse-tool Local Status ===\n".to_owned().concat("Daemon Status: ").concat(
        paint("1;33", "OFFLINE").as_str(),
    ).concat(" (showing local saved state)").concat("\nAllocated Table: ").concat(
        strings::decimal(s.allocated_table as u64).as_str(),
    ).concat("\nRule Priority:   ").concat(
        strings::decimal(s.rule_priority as u64).as_str(),
    ).concat("\nSaved Routes:    ").concat(
        strings::decimal(s.routes_owned.len() as u64).as_str(),
    ).concat("\n").concat(write_routes(&s.routes_owned).as_str()).concat("\n")
}

// ---------------------------------------------------------------------------------------------
// Decisions
// ---------------------------------------------------------------------------------------------
/// The line of the address of a destination.
pub open spec fn address_line(ip: Option<IpAddr>) -> Seq<char> {
    match ip {
        Some(a) => "Resolved IP:        "@ + crate::net::ip_text(a) + "\n"@,
        None => ""@,
    }
}

/// The line of the rule that matched.
pub open spec fn rule_line(rule: Option<Seq<char>>) -> Seq<char> {
    match rule {
        Some(r) => "Matched Rule:       "@ + r + "\n"@,
        None => ""@,
    }
}

/// The interface that was selected, in its colour.
pub open spec fn selected_cell(iface: Option<Seq<char>>) -> Seq<char> {
    match iface {
        Some(i) => painted("1;32"@, i),
        None => painted("1;31"@, "DROP"@),
    }
}

/// What is shown of a decision.
pub open spec fn decision_shown(d: DecisionView) -> Seq<char> {
    "\n=== Policy Decision Explanation ===\n"@ + "Destination:        "@ + painted(
        "1"@,
        d.destination,
    ) + "\n"@ + address_line(d.resolved_ip) + "Rule Source:        "@ + d.rule_source.text() + "\n"@
        + rule_line(d.matched_rule) + "Candidates:         "@ + listed(
        d.candidate_interfaces,
        "none"@,
    ) + "\nSelected Interface: "@ + selected_cell(d.selected_interface)
        + "\nRouting Table:      "@ + text::decimal(d.routing_table as nat)
        + "\nReason:             "@ + d.reason + "\n\n"@
}

/// What is shown of a decision.
pub fn show_decision(d: &Decision) -> (r: String)
    ensures
        r@ == decision_shown(d@),
{
    let address = match d.resolved_ip {
        Some(a) => "Resolved IP:        ".to_owned().concat(a.to_string().as_str()).concat("\n"),
        None => "".to_owned(),
    };
    let rule = match &d.matched_rule {
        Some(r) => "Matched Rule:       ".to_owned().concat(r.as_str()).concat("\n"),
        None => "".to_owned(),
    };
    let selected = match &d.selected_interface {
        Some(i) => paint("1;32", i.as_str()),
        None => paint("1;31", "DROP"),
    };
    "\n=== Policy Decision Explanation ===\n".to_owned().concat("Destination:        ").concat(
        paint("1", d.destination.as_str()).as_str(),
    ).concat("\n").concat(address.as_str()).concat("Rule Source:        ").concat(
        d.rule_source.to_string().as_str(),
    ).concat("\n").concat(rule.as_str()).concat("Candidates:         ").concat(
        list(&d.candidate_interfaces, "none").as_str(),
    ).concat("\nSelected Interface: ").concat(selected.as_str()).concat(
        "\nRouting Table:      ",
    ).concat(strings::decimal(d.routing_table as u64).as_str()).concat(
        "\nReason:             ",
    ).concat(d.reason.as_str()).concat("\n\n")
}

// ---------------------------------------------------------------------------------------------
// Reconciliations
// ---------------------------------------------------------------------------------------------
/// The line of a route that changes.
pub open spec fn change_line(sign: Seq<char>) -> spec_fn(RouteView) -> Seq<char> {
    |r: RouteView|
        sign + r.destination.text() + " dev "@ + r.output_interface + " table "@ + text::decimal(
            r.table as nat,
        ) + "\n"@
}

/// The line of a rule that is added.
pub open spec fn rule_change_line() -> spec_fn(RpdbRule) -> Seq<char> {
    |r: RpdbRule|
        "  + pref "@ + text::decimal(r.priority as nat) + " lookup "@ + text::decimal(
            r.table as nat,
        ) + "\n"@
}

/// The line of the outcome.
pub open spec fn outcome_line(r: ReportView) -> Seq<char> {
    match r.error {
        Some(e) => painted("1;31"@, "Error: "@ + e) + "\n"@,
        None => if r.applied {
            painted("1;32"@, "[+] Successfully applied and verified!"@) + "\n"@
        } else {
            ""@
        },
    }
}

/// The line of the mode.
pub open spec fn mode_cell(dry_run: bool) -> Seq<char> {
    if dry_run {
        painted("1;33"@, "DRY-RUN (No changes applied)"@)
    } else {
        painted("1;32"@, "LIVE APPLY"@)
    }
}

/// What is shown of a reconciliation.
pub open spec fn report_shown(r: ReportView) -> Seq<char> {
    "\n=== Reconcile Plan / Results ===\n"@ + "Mode: "@ + mode_cell(r.dry_run)
        + "\nRoutes to Add:    "@ + text::decimal(r.diff.routes_to_add.len()) + "\n"@ + seqs::flat(
        r.diff.routes_to_add,
        change_line("  + "@),
    ) + "Routes to Remove: "@ + text::decimal(r.diff.routes_to_remove.len()) + "\n"@ + seqs::flat(
        r.diff.routes_to_remove,
        change_line("  - "@),
    ) + "Rules to Add:     "@ + text::decimal(r.diff.rules_to_add.len()) + "\n"@ + seqs::flat(
        r.diff.rules_to_add,
        rule_change_line(),
    ) + outcome_line(r) + "\n"@
}

fn write_changes(routes: &Vec<Route>, sign: &str) -> (r: String)
    ensures
        r@ == seqs::flat(seqs::views(routes@), change_line(sign@)),
{
    let ghost all = seqs::views(routes@);
    let ghost f = change_line(sign@);
    let mut out = String::new();
    let mut i: usize = 0;
    proof {
        assert(all.take(0).len() == 0);
        assert(out@ =~= seqs::flat(all.take(0), f));
    }
    while i < routes.len()
        invariant
            i <= routes.len(),
            all == seqs::views(routes@),
            f == change_line(sign@),
            out@ == seqs::flat(all.take(i as int), f),
        decreases routes.len() - i,
    {
        proof {
            seqs::lemma_flat_next(all, f, i as int);
            assert(all[i as int] == routes@[i as int]@);
        }
        let line = sign.to_owned().concat(routes[i].destination.to_string().as_str()).concat(
            " dev ",
        ).concat(routes[i].output_interface.as_str()).concat(" table ").concat(
            strings::decimal(routes[i].table as u64).as_str(),
        ).concat("\n");
        out = out.concat(line.as_str());
        i += 1;
    }
    proof {
        seqs::lemma_take_all(all);
    }
    out
}

fn write_rules(rules: &Vec<RpdbRule>) -> (r: String)
    ensures
        r@ == seqs::flat(rules@, rule_change_line()),
{
    let ghost all = rules@;
    let mut out = String::new();
    let mut i: usize = 0;
    proof {
        assert(all.take(0).len() == 0);
        assert(out@ =~= seqs::flat(all.take(0), rule_change_line()));
    }
    while i < rules.len()
        invariant
            i <= rules.len(),
            all == rules@,
            out@ == seqs::flat(all.take(i as int), rule_change_line()),
        decreases rules.len() - i,
    {
        proof {
            seqs::lemma_flat_next(all, rule_change_line(), i as int);
        }
        let line = "  + pref ".to_owned().concat(
            strings::decimal(rules[i].priority as u64).as_str(),
        ).concat(" lookup ").concat(strings::decimal(rules[i].table as u64).as_str()).concat("\n");
        out = out.concat(line.as_str());
        i += 1;
    }
    proof {
        seqs::lemma_take_all(all);
    }
    out
}

fn write_outcome(rep: &ReconcileReport) -> (r: String)
    ensures
        r@ == outcome_line(rep@),
{
    match &rep.error {
        Some(e) => paint("1;31", "Error: ".to_owned().concat(e.as_str()).as_str()).concat("\n"),
        None => {
            if rep.applied {
                paint("1;32", "[+] Successfully applied and verified!").concat("\n")
            } else {
                "".to_owned()
            }
        },
    }
}

/// What is shown of a reconciliation.
pub fn show_report(rep: &ReconcileReport) -> (r: String)
    ensures
        r@ == report_shown(rep@),
{
    let mode = if rep.dry_run {
        paint("1;33", "DRY-RUN (No changes applied)")
    } else {
        paint("1;32", "LIVE APPLY")
    };
    "\n=== Reconcile Plan / Results ===\n".to_owned().concat("Mode: ").concat(
        mode.as_str(),
    ).concat("\nRoutes to Add:    ").concat(
        strings::decimal(rep.diff.routes_to_add.len() as u64).as_str(),
    ).concat("\n").concat(write_changes(&rep.diff.routes_to_add, "  + ").as_str()).concat(
        "Routes to Remove: ",
    ).concat(strings::decimal(rep.diff.routes_to_remove.len() as u64).as_str()).concat(
        "\n",
    ).concat(write_changes(&rep.diff.routes_to_remove, "  - ").as_str()).concat(
        "Rules to Add:     ",
    ).concat(strings::decimal(rep.diff.rules_to_add.len() as u64).as_str()).concat("\n").concat(
        write_rules(&rep.diff.rules_to_add).as_str(),
    ).concat(write_outcome(rep).as_str()).concat("\n")
}

// ---------------------------------------------------------------------------------------------
// Targets and checks
// ---------------------------------------------------------------------------------------------
/// The line of a target.
pub open spec fn target_line() -> spec_fn(TargetView) -> Seq<char> {
    |t: TargetView|
        padded(t.name, 15) + " "@ + padded(t.cidr, 20) + " via ["@ + text::join(t.via, ", "@)
            + "] fallback: "@ + t.fallback + "\n"@
}

/// What is shown of targets.
pub open spec fn targets_shown(targets: Seq<TargetView>) -> Seq<char> {
    "\n=== Configured Targets ===\n"@ + seqs::flat(targets, target_line()) + "\n"@
}

/// What is shown of targets.
pub fn show_targets(targets: &Vec<TargetConfig>) -> (r: String)
    ensures
        r@ == targets_shown(seqs::views(targets@)),
{
    let ghost all = seqs::views(targets@);
    let mut rows = String::new();
    let mut i: usize = 0;
    proof {
        assert(all.take(0).len() == 0);
        assert(rows@ =~= seqs::flat(all.take(0), target_line()));
    }
    while i < targets.len()
        invariant
            i <= targets.len(),
            all == seqs::views(targets@),
            rows@ == seqs::flat(all.take(i as int), target_line()),
        decreases targets.len() - i,
    {
        proof {
            seqs::lemma_flat_next(all, target_line(), i as int);
            assert(all[i as int] == targets@[i as int]@);
        }
        let t = &targets[i];
        let line = pad(t.name.as_str(), 15).concat(" ").concat(
            pad(t.cidr.as_str(), 20).as_str(),
        ).concat(" via [").concat(strings::join(&t.via, ", ").as_str()).concat(
            "] fallback: ",
        ).concat(t.fallback.as_str()).concat("\n");
        rows = rows.concat(line.as_str());
        i += 1;
    }
    proof {
        seqs::lemma_take_all(all);
    }
    "\n=== Configured Targets ===\n".to_owned().concat(rows.as_str()).concat("\n")
}

/// The line of a check.
pub open spec fn check_line() -> spec_fn((Seq<char>, bool, Seq<char>)) -> Seq<char> {
    |c: (Seq<char>, bool, Seq<char>)|
        (if c.1 {
            painted("1;32"@, "[OK]"@)
        } else {
            painted("1;33"@, "[WARN]"@)
        }) + " "@ + c.0 + ": "@ + c.2 + "\n"@
}

/// What is shown of checks.
pub open spec fn checks_shown(checks: Seq<(Seq<char>, bool, Seq<char>)>) -> Seq<char> {
    "\n=== reverse-tool Diagnostics ===\n"@ + seqs::flat(checks, check_line()) + "\n"@
}

/// What is shown of checks.
pub fn show_checks(report: &DoctorReport) -> (r: String)
    ensures
        r@ == checks_shown(report@),
{
    let ghost all = report@;
    let mut rows = String::new();
    let mut i: usize = 0;
    proof {
        assert(all.take(0).len() == 0);
        assert(rows@ =~= seqs::flat(all.take(0), check_line()));
    }
    while i < report.checks.len()
        invariant
            i <= report.checks.len(),
            all == report@,
            rows@ == seqs::flat(all.take(i as int), check_line()),
        decreases report.checks.len() - i,
    {
        let check = &report.checks[i];
        proof {
            seqs::lemma_flat_next(all, check_line(), i as int);
            assert(all[i as int] == (check.0@, check.1, check.2@));
        }
        let tag = if check.1 {
            paint("1;32", "[OK]")
        } else {
            paint("1;33", "[WARN]")
        };
        let line = tag.concat(" ").concat(check.0.as_str()).concat(": ").concat(
            check.2.as_str(),
        ).concat("\n");
        rows = rows.concat(line.as_str());
        i += 1;
    }
    proof {
        seqs::lemma_take_all(all);
    }
    "\n=== reverse-tool Diagnostics ===\n".to_owned().concat(rows.as_str()).concat("\n")
}

// ---------------------------------------------------------------------------------------------
// What was detected
// ---------------------------------------------------------------------------------------------
/// Names in quotation marks, with commas between them and brackets around them.
pub open spec fn quoted_list(names: Seq<Seq<char>>) -> Seq<char> {
    "["@ + text::join(Seq::new(names.len(), |i: int| text::quoted(names[i])), ", "@) + "]"@
}

/// The line of a network, given what is written of its interfaces and of its servers.
pub open spec fn network_text(
    name: Seq<char>,
    interfaces: Seq<char>,
    servers: Seq<char>,
) -> Seq<char> {
    "  • Network: "@ + painted("1"@, name) + " (interfaces: "@ + interfaces + ", dns/gw: "@
        + servers + ")\n"@
}

/// The line of a range of addresses, given what is written of its interfaces.
pub open spec fn range_text(name: Seq<char>, cidr: Seq<char>, interfaces: Seq<char>) -> Seq<char> {
    "  • "@ + padded(name, 25) + " CIDR: "@ + painted("1;36"@, padded(cidr, 20)) + " via "@
        + interfaces + "\n"@
}

/// The line of a network.
pub open spec fn network_line() -> spec_fn(NetworkView) -> Seq<char> {
    |n: NetworkView|
        network_text(n.name, quoted_list(n.interfaces), listed(dns::ip_texts(n.dns), "none"@))
}

/// The line of a range of addresses.
pub open spec fn range_line() -> spec_fn(TargetView) -> Seq<char> {
    |t: TargetView| range_text(t.name, t.cidr, quoted_list(t.via))
}

/// What is shown of what was detected.
pub open spec fn detected_shown(
    networks: Seq<NetworkView>,
    targets: Seq<TargetView>,
) -> Seq<char> {
    "Detected "@ + painted("1;32"@, text::decimal(networks.len())) + " LAN Network(s):\n"@
        + seqs::flat(networks, network_line()) + "\nDetected "@ + painted(
        "1;32"@,
        text::decimal(targets.len()),
    ) + " Target IP Range(s) & Server(s):\n"@ + seqs::flat(targets, range_line()) + "\n"@
}

fn quote_list(names: &Vec<String>) -> (r: String)
    ensures
        r@ == quoted_list(seqs::views(names@)),
{
    let ghost all = seqs::views(names@);
    let mut out: Vec<String> = Vec::new();
    let mut i: usize = 0;
    while i < names.len()
        invariant
            i <= names.len(),
            out.len() == i,
            forall|j: int| 0 <= j < i ==> (#[trigger] out@[j])@ == text::quoted(names@[j]@),
        decreases names.len() - i,
    {
        out.push(strings::quote(names[i].as_str()));
        i += 1;
    }
    proof {
        assert(seqs::views(out@) =~= Seq::new(all.len(), |i: int| text::quoted(all[i])));
    }
    "[".to_owned().concat(strings::join(&out, ", ").as_str()).concat("]")
}

/// The line of a network, given what is written of its interfaces and of its servers.
pub fn show_network(name: &str, interfaces: &str, servers: &str) -> (r: String)
    ensures
        r@ == network_text(name@, interfaces@, servers@),
{
    "  • Network: ".to_owned().concat(paint("1", name).as_str()).concat(" (interfaces: ").concat(
        interfaces,
    ).concat(", dns/gw: ").concat(servers).concat(")\n")
}

/// The line of a range of addresses, given what is written of its interfaces.
pub fn show_range(name: &str, cidr: &str, interfaces: &str) -> (r: String)
    ensures
        r@ == range_text(name@, cidr@, interfaces@),
{
    "  • ".to_owned().concat(pad(name, 25).as_str()).concat(" CIDR: ").concat(
        paint("1;36", pad(cidr, 20).as_str()).as_str(),
    ).concat(" via ").concat(interfaces).concat("\n")
}

fn write_networks(networks: &Vec<NetworkConfig>) -> (r: String)
    ensures
        r@ == seqs::flat(seqs::views(networks@), network_line()),
{
    let ghost all = seqs::views(networks@);
    let mut out = String::new();
    let mut i: usize = 0;
    proof {
        assert(all.take(0).len() == 0);
        assert(out@ =~= seqs::flat(all.take(0), network_line()));
    }
    while i < networks.len()
        invariant
            i <= networks.len(),
            all == seqs::views(networks@),
            out@ == seqs::flat(all.take(i as int), network_line()),
        decreases networks.len() - i,
    {
        proof {
            seqs::lemma_flat_next(all, network_line(), i as int);
            assert(all[i as int] == networks@[i as int]@);
        }
        let n = &networks[i];
        let servers = list(&dns::format_ips(n.dns.as_slice()), "none");
        let line = show_network(
            n.name.as_str(),
            quote_list(&n.interfaces).as_str(),
            servers.as_str(),
        );
        out = out.concat(line.as_str());
        i += 1;
    }
    proof {
        seqs::lemma_take_all(all);
    }
    out
}

fn write_ranges(targets: &Vec<TargetConfig>) -> (r: String)
    ensures
        r@ == seqs::flat(seqs::views(targets@), range_line()),
{
    let ghost all = seqs::views(targets@);
    let mut out = String::new();
    let mut i: usize = 0;
    proof {
        assert(all.take(0).len() == 0);
        assert(out@ =~= seqs::flat(all.take(0), range_line()));
    }
    while i < targets.len()
        invariant
            i <= targets.len(),
            all == seqs::views(targets@),
            out@ == seqs::flat(all.take(i as int), range_line()),
        decreases targets.len() - i,
    {
        proof {
            seqs::lemma_flat_next(all, range_line(), i as int);
            assert(all[i as int] == targets@[i as int]@);
        }
        let t = &targets[i];
        let line = show_range(t.name.as_str(), t.cidr.as_str(), quote_list(&t.via).as_str());
        out = out.concat(line.as_str());
        i += 1;
    }
    proof {
        seqs::lemma_take_all(all);
    }
    out
}

/// What is shown of what was detected.
pub fn show_detected(found: &DetectedLanProfile) -> (r: String)
    ensures
        r@ == detected_shown(seqs::views(found.networks@), seqs::views(found.targets@)),
{
    "Detected ".to_owned().concat(
        paint("1;32", strings::decimal(found.networks.len() as u64).as_str()).as_str(),
    ).concat(" LAN Network(s):\n").concat(write_networks(&found.networks).as_str()).concat(
        "\nDetected ",
    ).concat(
        paint("1;32", strings::decimal(found.targets.len() as u64).as_str()).as_str(),
    ).concat(" Target IP Range(s) & Server(s):\n").concat(
        write_ranges(&found.targets).as_str(),
    ).concat("\n")
}

} // verus!
