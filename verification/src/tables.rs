//! Routing tables and the rules that look them up.

use vstd::prelude::*;
use crate::env;
use crate::error::{LinuxError, LinuxErrorView};
use crate::model::{Route, RouteType, RouteView, RpdbRule};
use crate::net::{self, IpAddr, IpNet};
use crate::netlink::{self, NetlinkController};
use crate::process::{Call, CallView, Reply, ReplyView};
use crate::seqs;
use crate::strings;
use crate::text;

verus! {

/// The command that shows a table.
pub open spec fn show_table(table: u32) -> CallView {
    CallView {
        program: "ip"@,
        args: seq!["route"@, "show"@, "table"@, text::decimal(table as nat)],
    }
}

/// The command that adds or deletes a rule.
pub open spec fn change_rule(op: Seq<char>, rule: RpdbRule) -> CallView {
    CallView {
        program: "ip"@,
        args: seq![
            "rule"@,
            op,
            "pref"@,
            text::decimal(rule.priority as nat),
            "lookup"@,
            text::decimal(rule.table as nat),
        ],
    }
}

/// The arguments that add or replace a route.
pub open spec fn route_args(r: RouteView) -> Seq<Seq<char>> {
    let to = if r.route_type is Unreachable {
        seq!["route"@, "replace"@, "unreachable"@, r.destination.text()]
    } else {
        seq!["route"@, "replace"@, r.destination.text(), "dev"@, r.output_interface]
    };
    to + seq!["table"@, text::decimal(r.table as nat)] + match r.gateway {
        Some(gw) => seq!["via"@, net::ip_text(gw)],
        None => Seq::empty(),
    } + match r.metric {
        Some(m) => seq!["metric"@, text::decimal(m as nat)],
        None => Seq::empty(),
    }
}

/// The arguments that delete a route.
pub open spec fn delete_args(r: RouteView) -> Seq<Seq<char>> {
    if r.route_type is Unreachable {
        seq![
            "route"@,
            "del"@,
            "unreachable"@,
            r.destination.text(),
            "table"@,
            text::decimal(r.table as nat),
        ]
    } else {
        seq![
            "route"@,
            "del"@,
            r.destination.text(),
            "dev"@,
            r.output_interface,
            "table"@,
            text::decimal(r.table as nat),
        ]
    }
}

/// What came of a change: a command that ended badly is an error with the given text before what
/// the command said.
pub open spec fn changed(reply: ReplyView, what: Seq<char>) -> Result<(), LinuxErrorView> {
    match reply {
        ReplyView::NotStarted(e) => Err(LinuxErrorView::Io(e)),
        ReplyView::Ended { success, stderr, .. } => if success {
            Ok(())
        } else {
            Err(LinuxErrorView::Netlink(what + stderr))
        },
    }
}

/// Whether a command failed for want of what it was to delete.
pub open spec fn was_gone(stderr: Seq<char>) -> bool {
    text::find(stderr, "No such process"@) is Some || text::find(stderr, "Cannot find"@) is Some
}

/// What came of a deletion: that there was nothing to delete is no error.
pub open spec fn deleted(reply: ReplyView, r: RouteView) -> Result<(), LinuxErrorView> {
    match reply {
        ReplyView::Ended { stderr, .. } if was_gone(stderr) => Ok(()),
        _ => changed(reply, "Failed to delete route "@ + r.destination.text() + ": "@),
    }
}

/// The value of a result without a value in specifications.
pub open spec fn outcome(r: Result<(), LinuxError>) -> Result<(), LinuxErrorView> {
    match r {
        Ok(_) => Ok(()),
        Err(e) => Err(e@),
    }
}

fn check_change(reply: &Reply, what: &str) -> (r: Result<(), LinuxError>)
    ensures
        outcome(r) == changed(reply@, what@),
{
    match reply {
        Reply::NotStarted(e) => Err(LinuxError::Io(e.clone())),
        Reply::Ended { success, stderr, .. } => if *success {
            Ok(())
        } else {
            Err(LinuxError::Netlink(what.to_owned().concat(stderr.as_str())))
        },
    }
}

fn has_rule(rules: &Vec<RpdbRule>, rule: RpdbRule) -> (r: bool)
    ensures
        r == rules@.contains(rule),
{
    let mut i: usize = 0;
    while i < rules.len()
        invariant
            i <= rules.len(),
            forall|j: int| 0 <= j < i ==> #[trigger] rules@[j] != rule,
        decreases rules.len() - i,
    {
        if rules[i] == rule {
            return true;
        }
        i += 1;
    }
    false
}

fn rule_call(op: &str, rule: RpdbRule) -> (r: Call)
    ensures
        r@ == change_rule(op@, rule),
{
    let priority = strings::decimal(rule.priority as u64);
    let table = strings::decimal(rule.table as u64);
    let args: [&str; 6] = ["rule", op, "pref", priority.as_str(), "lookup", table.as_str()];
    proof {
        assert(seqs::views(args@) =~= change_rule(op@, rule).args);
    }
    netlink::ip_call(&args)
}

fn read_route(w: &Vec<&str>, table: u32, route_type: RouteType) -> (r: Option<Route>)
    ensures
        match r {
            Some(route) => netlink::route_words(seqs::views(w@), table, route_type) == seq![route@],
            None => netlink::route_words(seqs::views(w@), table, route_type).len() == 0,
        },
{
    proof {
        if w@.len() > 0 {
            assert(seqs::views(w@)[0] == w@[0]@);
        }
    }
    let destination = if w.len() == 0 {
        None
    } else {
        env::parse_ip_net(w[0])
    };
    let gateway = match netlink::find_last_word_after(w, "via") {
        Some(g) => IpAddr::parse(g),
        None => None,
    };
    route_from_words(w, table, route_type, destination, gateway)
}

/// The route that words describe whose destination and gateway are these, if any.
pub fn route_from_words(
    w: &Vec<&str>,
    table: u32,
    route_type: RouteType,
    destination: Option<IpNet>,
    gateway: Option<IpAddr>,
) -> (r: Option<Route>)
    ensures
        seqs::opt_view(r) == netlink::route_with(
            seqs::views(w@),
            table,
            route_type,
            destination,
            gateway,
        ),
{
    proof {
        reveal_strlit("");
        assert(""@ =~= Seq::<char>::empty());
    }
    let destination = match destination {
        Some(n) => n,
        None => {
            return None;
        },
    };
    let device = match netlink::find_last_word_after(w, "dev") {
        Some(d) => d,
        None => "",
    };
    let is_unicast = match route_type {
        RouteType::Unicast => true,
        RouteType::Unreachable => false,
    };
    if device.unicode_len() == 0 && is_unicast {
        return None;
    }
    let metric = match netlink::find_last_word_after(w, "metric") {
        Some(m) => netlink::parse_number(m),
        None => None,
    };
    Some(
        Route {
            destination,
            output_interface: device.to_owned(),
            gateway,
            table,
            metric,
            route_type,
        },
    )
}

fn read_route_line(line: &str, table: u32) -> (r: Option<Route>)
    ensures
        match r {
            Some(route) => netlink::route_on(table)(line@) == seq![route@],
            None => netlink::route_on(table)(line@).len() == 0,
        },
{
    let w = strings::words(line);
    let ghost words = seqs::views(w@);
    if w.len() > 0 && strings::same(w[0], "unreachable") {
        let mut rest: Vec<&str> = Vec::new();
        let mut i: usize = 1;
        while i < w.len()
            invariant
                1 <= i <= w.len(),
                rest.len() == i - 1,
                forall|j: int| 0 <= j < i - 1 ==> (#[trigger] rest@[j])@ == w@[j + 1]@,
            decreases w.len() - i,
        {
            rest.push(w[i]);
            i += 1;
        }
        proof {
            assert(seqs::views(rest@) =~= words.skip(1));
            assert(words[0] == w@[0]@);
        }
        read_route(&rest, table, RouteType::Unreachable)
    } else {
        proof {
            if words.len() > 0 {
                assert(words[0] == w@[0]@);
            }
        }
        read_route(&w, table, RouteType::Unicast)
    }
}

fn push_arg(args: &mut Vec<String>, arg: String)
    ensures
        seqs::views(final(args)@) == seqs::views(old(args)@).push(arg@),
{
    proof {
        seqs::lemma_views_push(args@, arg);
    }
    args.push(arg);
}

impl NetlinkController {
    /// The command that shows a table.
    pub fn table_routes_call(&self, table: u32) -> (r: Call)
        ensures
            r@ == show_table(table),
    {
        let t = strings::decimal(table as u64);
        let args: [&str; 4] = ["route", "show", "table", t.as_str()];
        proof {
            assert(seqs::views(args@) =~= show_table(table).args);
        }
        netlink::ip_call(&args)
    }

    /// Get all routes in a specific table
    pub fn get_table_routes(&self, table: u32, reply: &Reply) -> (r: Result<
        Vec<Route>,
        LinuxError,
    >)
        ensures
            match r {
                Ok(routes) => netlink::shown(reply@) matches Ok(s) && seqs::views(routes@)
                    == seqs::flat(text::lines(s), netlink::route_on(table)),
                Err(e) => netlink::shown(reply@) == Err::<Seq<char>, LinuxErrorView>(e@),
            },
    {
        let shown_text = match netlink::read_shown(reply) {
            Ok(s) => s,
            Err(e) => {
                return Err(e);
            },
        };
        let lines = strings::lines(shown_text);
        let ghost all = text::lines(shown_text@);
        let ghost f = netlink::route_on(table);
        let mut out: Vec<Route> = Vec::new();
        let mut i: usize = 0;
        proof {
            assert(all.take(0).len() == 0);
            assert(seqs::views(out@) =~= seqs::flat(all.take(0), f));
        }
        while i < lines.len()
            invariant
                i <= lines.len(),
                all == seqs::views(lines@),
                f == netlink::route_on(table),
                seqs::views(out@) == seqs::flat(all.take(i as int), f),
            decreases lines.len() - i,
        {
            let ghost now = seqs::views(out@);
            proof {
                seqs::lemma_flat_next(all, f, i as int);
                assert(all[i as int] == lines@[i as int]@);
            }
            if let Some(route) = read_route_line(lines[i], table) {
                proof {
                    seqs::lemma_views_push(out@, route);
                    assert(now.push(route@) =~= now + f(all[i as int]));
                }
                out.push(route);
            } else {
                proof {
                    assert(now + f(all[i as int]) =~= now);
                }
            }
            i += 1;
        }
        proof {
            seqs::lemma_take_all(all);
        }
        Ok(out)
    }

    /// The command that shows the rules.
    pub fn rpdb_rules_call(&self) -> (r: Call)
        ensures
            r@ == (CallView { program: "ip"@, args: seq!["rule"@, "show"@] }),
    {
        let args: [&str; 2] = ["rule", "show"];
        proof {
            assert(seqs::views(args@) =~= seq!["rule"@, "show"@]);
        }
        netlink::ip_call(&args)
    }

    /// Get all RPDB rules matching our priority/table
    pub fn get_rpdb_rules(&self, reply: &Reply) -> (r: Result<Vec<RpdbRule>, LinuxError>)
        ensures
            match r {
                Ok(rules) => netlink::shown(reply@) matches Ok(s) && rules@ == seqs::flat(
                    text::lines(s),
                    netlink::rule_on(),
                ),
                Err(e) => netlink::shown(reply@) == Err::<Seq<char>, LinuxErrorView>(e@),
            },
    {
        let shown_text = match netlink::read_shown(reply) {
            Ok(s) => s,
            Err(e) => {
                return Err(e);
            },
        };
        let lines = strings::lines(shown_text);
        let ghost all = text::lines(shown_text@);
        let ghost f = netlink::rule_on();
        let mut out: Vec<RpdbRule> = Vec::new();
        let mut i: usize = 0;
        proof {
            assert(all.take(0).len() == 0);
        }
        while i < lines.len()
            invariant
                i <= lines.len(),
                all == seqs::views(lines@),
                f == netlink::rule_on(),
                out@ == seqs::flat(all.take(i as int), f),
            decreases lines.len() - i,
        {
            let ghost now = out@;
            proof {
                seqs::lemma_flat_next(all, f, i as int);
                assert(all[i as int] == lines@[i as int]@);
            }
            let w = strings::words(lines[i]);
            proof {
                assert(seqs::views(w@).len() == w@.len());
            }
            if w.len() >= 2 {
                proof {
                    assert(seqs::views(w@)[0] == w@[0]@);
                }
                if let Some(priority) = netlink::parse_number(strings::strip_tail(w[0], ':')) {
                    if let Some(t) = netlink::find_word_after(&w, "lookup") {
                        if let Some(table) = netlink::parse_number(t) {
                            out.push(RpdbRule { priority, table });
                        }
                    }
                }
            }
            proof {
                assert(out@ =~= now + f(all[i as int]));
            }
            i += 1;
        }
        proof {
            seqs::lemma_take_all(all);
        }
        Ok(out)
    }

    /// The command that makes an RPDB rule exist, given those that do:
    /// `ip rule add pref <prio> lookup <table>`
    pub fn ensure_rpdb_rule(&self, priority: u32, table: u32, existing: &Vec<RpdbRule>) -> (r:
        Option<Call>)
        ensures
            seqs::opt_view(r) == if existing@.contains(RpdbRule { priority, table }) {
                None
            } else {
                Some(change_rule("add"@, RpdbRule { priority, table }))
            },
    {
        let rule = RpdbRule { priority, table };
        if has_rule(existing, rule) {
            None
        } else {
            Some(rule_call("add", rule))
        }
    }

    /// What came of adding a rule.
    pub fn rpdb_rule_added(&self, reply: &Reply) -> (r: Result<(), LinuxError>)
        ensures
            outcome(r) == changed(reply@, "Failed to add RPDB rule: "@),
    {
        check_change(reply, "Failed to add RPDB rule: ")
    }

    /// The command that removes an RPDB rule, given those that exist:
    /// `ip rule del pref <prio> lookup <table>`
    pub fn remove_rpdb_rule(&self, priority: u32, table: u32, existing: &Vec<RpdbRule>) -> (r:
        Option<Call>)
        ensures
            seqs::opt_view(r) == if existing@.contains(RpdbRule { priority, table }) {
                Some(change_rule("del"@, RpdbRule { priority, table }))
            } else {
                None
            },
    {
        let rule = RpdbRule { priority, table };
        if has_rule(existing, rule) {
            Some(rule_call("del", rule))
        } else {
            None
        }
    }

    /// What came of removing a rule.
    pub fn rpdb_rule_removed(&self, reply: &Reply) -> (r: Result<(), LinuxError>)
        ensures
            outcome(r) == changed(reply@, "Failed to remove RPDB rule: "@),
    {
        check_change(reply, "Failed to remove RPDB rule: ")
    }

    /// The command that adds a route to the custom table, or replaces it. A default route is
    /// refused.
    pub fn add_route(&self, route: &Route) -> (r: Result<Call, LinuxError>)
        ensures
            match r {
                Ok(call) => route@.destination.len() > 0 && call@ == (CallView {
                    program: "ip"@,
                    args: route_args(route@),
                }),
                Err(e) => route@.destination.len() == 0 && e@ == LinuxErrorView::Netlink(
                    "Safety violation: Attempted to add default route (0.0.0.0/0) to isolated table"@,
                ),
            },
    {
        if route.destination.prefix_len() == 0 {
            return Err(
                LinuxError::Netlink(
                    "Safety violation: Attempted to add default route (0.0.0.0/0) to isolated table".to_owned(),
                ),
            );
        }
        let mut args: Vec<String> = Vec::new();
        push_arg(&mut args, "route".to_owned());
        push_arg(&mut args, "replace".to_owned());
        match route.route_type {
            RouteType::Unreachable => {
                push_arg(&mut args, "unreachable".to_owned());
                push_arg(&mut args, route.destination.to_string());
            },
            RouteType::Unicast => {
                push_arg(&mut args, route.destination.to_string());
                push_arg(&mut args, "dev".to_owned());
                push_arg(&mut args, route.output_interface.clone());
            },
        }
        push_arg(&mut args, "table".to_owned());
        push_arg(&mut args, strings::decimal(route.table as u64));
        if let Some(gw) = route.gateway {
            push_arg(&mut args, "via".to_owned());
            push_arg(&mut args, gw.to_string());
        }
        if let Some(metric) = route.metric {
            push_arg(&mut args, "metric".to_owned());
            push_arg(&mut args, strings::decimal(metric as u64));
        }
        proof {
            assert(seqs::views(args@) =~= route_args(route@));
        }
        Ok(Call { program: "ip".to_owned(), args })
    }

    /// What came of adding a route.
    pub fn route_added(&self, route: &Route, reply: &Reply) -> (r: Result<(), LinuxError>)
        ensures
            outcome(r) == changed(
                reply@,
                "Failed to add route "@ + route@.destination.text() + ": "@,
            ),
    {
        let what = "Failed to add route ".to_owned().concat(
            route.destination.to_string().as_str(),
        ).concat(": ");
        check_change(reply, what.as_str())
    }

    /// The command that deletes a route from the custom table.
    pub fn delete_route(&self, route: &Route) -> (r: Call)
        ensures
            r@ == (CallView { program: "ip"@, args: delete_args(route@) }),
    {
        let destination = route.destination.to_string();
        let table = strings::decimal(route.table as u64);
        match route.route_type {
            RouteType::Unreachable => {
                let args: [&str; 6] = [
                    "route",
                    "del",
                    "unreachable",
                    destination.as_str(),
                    "table",
                    table.as_str(),
                ];
                proof {
                    assert(seqs::views(args@) =~= delete_args(route@));
                }
                netlink::ip_call(&args)
            },
            RouteType::Unicast => {
                let args: [&str; 7] = [
                    "route",
                    "del",
                    destination.as_str(),
                    "dev",
                    route.output_interface.as_str(),
                    "table",
                    table.as_str(),
                ];
                proof {
                    assert(seqs::views(args@) =~= delete_args(route@));
                }
                netlink::ip_call(&args)
            },
        }
    }

    /// What came of deleting a route: that it was gone is no error.
    pub fn route_deleted(&self, route: &Route, reply: &Reply) -> (r: Result<(), LinuxError>)
        ensures
            outcome(r) == deleted(reply@, route@),
    {
        if let Reply::Ended { stderr, .. } = reply {
            if strings::contains(stderr.as_str(), "No such process") || strings::contains(
                stderr.as_str(),
                "Cannot find",
            ) {
                return Ok(());
            }
        }
        let what = "Failed to delete route ".to_owned().concat(
            route.destination.to_string().as_str(),
        ).concat(": ");
        check_change(reply, what.as_str())
    }
}

// ---------------------------------------------------------------------------------------------
// The search for a free table
// ---------------------------------------------------------------------------------------------
/// The first table from `next` to `end` that no rule looks up.
pub open spec fn candidate(used: Seq<u32>, next: int, end: int) -> Option<u32>
    decreases end - next + 1,
{
    if next > end || next < 0 || end > u32::MAX {
        None
    } else if used.contains(next as u32) {
        candidate(used, next + 1, end)
    } else {
        Some(next as u32)
    }
}

/// Whether what the system shows of a table says that it is free.
pub open spec fn free(reply: ReplyView) -> bool {
    match reply {
        ReplyView::NotStarted(_) => false,
        ReplyView::Ended { success, stdout, stderr, .. } => if success {
            stdout.len() == 0
        } else {
            text::find(stderr, "FIB table does not exist"@) is Some
        },
    }
}

/// The search for a table that no rule looks up and that holds no route.
pub struct TableSearch {
    start: u32,
    used: Vec<u32>,
    next: u64,
    end: u32,
    found: Option<u32>,
    error: Option<LinuxError>,
}

/// The value of a `TableSearch` in specifications.
#[verifier::ext_equal]
pub struct SearchView {
    pub start: u32,
    pub used: Seq<u32>,
    pub next: int,
    pub end: u32,
    pub found: Option<u32>,
    pub error: Option<LinuxErrorView>,
}

impl View for TableSearch {
    type V = SearchView;

    closed spec fn view(&self) -> SearchView {
        SearchView {
            start: self.start,
            used: self.used@,
            next: self.next as int,
            end: self.end,
            found: self.found,
            error: seqs::opt_view(self.error),
        }
    }
}

impl SearchView {
    /// The table to look at next.
    pub open spec fn table(self) -> Option<u32> {
        if self.found is Some || self.error is Some {
            None
        } else {
            candidate(self.used, self.next, self.end as int)
        }
    }

    /// The search after what the system shows of the table.
    pub open spec fn advanced(self, reply: ReplyView) -> SearchView {
        match self.table() {
            None => self,
            Some(t) => match reply {
                ReplyView::NotStarted(e) => SearchView {
                    error: Some(LinuxErrorView::Io(e)),
                    ..self
                },
                _ => if free(reply) {
                    SearchView { found: Some(t), ..self }
                } else {
                    SearchView { next: t + 1, ..self }
                },
            },
        }
    }

    /// What came of the search.
    pub open spec fn result(self) -> Result<u32, LinuxErrorView> {
        match (self.found, self.error) {
            (Some(t), _) => Ok(t),
            (None, Some(e)) => Err(e),
            (None, None) => Err(
                LinuxErrorView::Netlink(
                    "No free routing table available in range "@ + text::decimal(self.start as nat)
                        + "-"@ + text::decimal(self.end as nat),
                ),
            ),
        }
    }
}

fn has_table(used: &Vec<u32>, table: u32) -> (r: bool)
    ensures
        r == used@.contains(table),
{
    let mut i: usize = 0;
    while i < used.len()
        invariant
            i <= used.len(),
            forall|j: int| 0 <= j < i ==> #[trigger] used@[j] != table,
        decreases used.len() - i,
    {
        if used[i] == table {
            return true;
        }
        i += 1;
    }
    false
}

impl TableSearch {
    /// The table to look at next.
    pub fn table(&self) -> (r: Option<u32>)
        ensures
            r == self@.table(),
    {
        if self.found.is_some() || self.error.is_some() {
            return None;
        }
        let mut t: u64 = self.next;
        while t <= self.end as u64
            invariant
                self.found is None,
                self.error is None,
                candidate(self.used@, self.next as int, self.end as int) == candidate(
                    self.used@,
                    t as int,
                    self.end as int,
                ),
            decreases self.end + 1 - t,
        {
            if !has_table(&self.used, t as u32) {
                return Some(t as u32);
            }
            t += 1;
        }
        None
    }

    /// The command that shows the table to look at next.
    pub fn call(&self) -> (r: Option<Call>)
        ensures
            seqs::opt_view(r) == match self@.table() {
                Some(t) => Some(show_table(t)),
                None => None,
            },
    {
        match self.table() {
            Some(t) => Some(NetlinkController::new().table_routes_call(t)),
            None => None,
        }
    }

    /// Takes what the system shows of the table.
    pub fn advance(&mut self, reply: &Reply)
        ensures
            final(self)@ == old(self)@.advanced(reply@),
    {
        let t = match self.table() {
            Some(t) => t,
            None => {
                return;
            },
        };
        match reply {
            Reply::NotStarted(e) => {
                self.error = Some(LinuxError::Io(e.clone()));
            },
            Reply::Ended { success, stdout, stderr, .. } => {
                let is_free = if *success {
                    stdout.as_str().unicode_len() == 0
                } else {
                    strings::contains(stderr.as_str(), "FIB table does not exist")
                };
                if is_free {
                    self.found = Some(t);
                } else {
                    self.next = t as u64 + 1;
                }
            },
        }
    }

    /// What came of the search, once there is no table left to look at.
    pub fn result(&self) -> (r: Result<u32, LinuxError>)
        ensures
            match r {
                Ok(t) => self@.result() == Ok::<u32, LinuxErrorView>(t),
                Err(e) => self@.result() == Err::<u32, LinuxErrorView>(e@),
            },
    {
        if let Some(t) = self.found {
            return Ok(t);
        }
        match &self.error {
            Some(e) => Err(e.clone()),
            None => Err(
                LinuxError::Netlink(
                    "No free routing table available in range ".to_owned().concat(
                        strings::decimal(self.start as u64).as_str(),
                    ).concat("-").concat(strings::decimal(self.end as u64).as_str()),
                ),
            ),
        }
    }
}

impl NetlinkController {
    /// Allocate an unused routing table within a range, given the rules that are shown.
    pub fn allocate_table(&self, start: u32, end: u32, rules: &Reply) -> (r: Result<
        TableSearch,
        LinuxError,
    >)
        ensures
            match r {
                Ok(search) => netlink::shown(rules@) matches Ok(s) && search@ == (SearchView {
                    start,
                    used: seqs::flat(text::lines(s), netlink::table_on()),
                    next: start as int,
                    end,
                    found: None,
                    error: None,
                }),
                Err(e) => netlink::shown(rules@) == Err::<Seq<char>, LinuxErrorView>(e@),
            },
    {
        let shown_text = match netlink::read_shown(rules) {
            Ok(s) => s,
            Err(e) => {
                return Err(e);
            },
        };
        let lines = strings::lines(shown_text);
        let ghost all = text::lines(shown_text@);
        let ghost f = netlink::table_on();
        let mut used: Vec<u32> = Vec::new();
        let mut i: usize = 0;
        proof {
            assert(all.take(0).len() == 0);
        }
        while i < lines.len()
            invariant
                i <= lines.len(),
                all == seqs::views(lines@),
                f == netlink::table_on(),
                used@ == seqs::flat(all.take(i as int), f),
            decreases lines.len() - i,
        {
            let ghost now = used@;
            proof {
                seqs::lemma_flat_next(all, f, i as int);
                assert(all[i as int] == lines@[i as int]@);
            }
            let w = strings::words(lines[i]);
            if let Some(word) = netlink::find_word_after(&w, "lookup") {
                if let Some(t) = netlink::parse_number(word) {
                    used.push(t);
                }
            }
            proof {
                assert(used@ =~= now + f(all[i as int]));
            }
            i += 1;
        }
        proof {
            seqs::lemma_take_all(all);
        }
        Ok(TableSearch { start, used, next: start as u64, end, found: None, error: None })
    }
}

/// A table that the search looks at is in the range and no rule looks it up.
pub proof fn law_candidates_are_unused(used: Seq<u32>, next: int, end: int)
    requires
        0 <= next,
        end <= u32::MAX,
    ensures
        candidate(used, next, end) matches Some(t) ==> next <= t <= end && !used.contains(t) && (
        forall|u: int| next <= u < t ==> used.contains(#[trigger] (u as u32))),
        candidate(used, next, end) is None ==> forall|u: int|
            next <= u <= end ==> used.contains(#[trigger] (u as u32)),
    decreases end - next + 1,
{
    if next <= end && used.contains(next as u32) {
        law_candidates_are_unused(used, next + 1, end);
    }
}

/// A command that puts a route in place names all of it: the destination, the interface or that it
/// is unreachable, the table, the gateway and the metric. The command that deletes it names the
/// same destination, interface and table.
pub proof fn law_route_commands_name_the_route(r: RouteView)
    ensures
        ({
            let add = route_args(r);
            let del = delete_args(r);
            let n = if r.route_type is Unreachable {
                4int
            } else {
                5int
            };
            &&& add[0] == "route"@ && add[1] == "replace"@ && del[0] == "route"@ && del[1] == "del"@
            &&& r.route_type is Unreachable ==> add[2] == "unreachable"@ && add[3]
                == r.destination.text() && del[2] == "unreachable"@ && del[3]
                == r.destination.text()
            &&& r.route_type is Unicast ==> add[2] == r.destination.text() && add[3] == "dev"@
                && add[4] == r.output_interface && del[2] == r.destination.text() && del[3]
                == "dev"@ && del[4] == r.output_interface
            &&& add[n] == "table"@ && add[n + 1] == text::decimal(r.table as nat)
            &&& del[n] == "table"@ && del[n + 1] == text::decimal(r.table as nat) && del.len() == n
                + 2
            &&& r.gateway matches Some(gw) ==> add[n + 2] == "via"@ && add[n + 3] == net::ip_text(
                gw,
            )
            &&& r.metric matches Some(m) ==> add[add.len() - 2] == "metric"@ && add.last()
                == text::decimal(m as nat)
            &&& r.gateway is None && r.metric is None ==> add.len() == n + 2
        }),
{
}

/// The command that changes a rule names its priority and its table.
pub proof fn law_rule_commands_name_the_rule(op: Seq<char>, rule: RpdbRule)
    ensures
        change_rule(op, rule).program == "ip"@,
        change_rule(op, rule).args == seq![
            "rule"@,
            op,
            "pref"@,
            text::decimal(rule.priority as nat),
            "lookup"@,
            text::decimal(rule.table as nat),
        ],
        show_table(rule.table).args == seq![
            "route"@,
            "show"@,
            "table"@,
            text::decimal(rule.table as nat),
        ],
{
}

/// What a change comes to: success if the command ended well, and else an error. That a route to
/// be deleted was gone already is no error.
pub proof fn law_what_changes_come_to(reply: ReplyView, what: Seq<char>, r: RouteView)
    ensures
        changed(reply, what) is Ok <==> reply.ok(),
        reply.ok() ==> deleted(reply, r) is Ok,
        reply matches ReplyView::Ended { stderr, .. } ==> (deleted(reply, r) is Ok <==> reply.ok()
            || text::find(stderr, "No such process"@) is Some || text::find(
            stderr,
            "Cannot find"@,
        ) is Some),
        reply is NotStarted ==> deleted(reply, r) is Err,
{
}

/// The search after replies.
pub open spec fn searched(s: SearchView, replies: Seq<ReplyView>) -> SearchView
    decreases replies.len(),
{
    if replies.len() == 0 {
        s
    } else {
        searched(s, replies.drop_last()).advanced(replies.last())
    }
}

/// A table that is allocated lies in the range, no rule looks it up, and the host showed that it
/// is free: it holds no route, or there is no such table.
pub proof fn law_allocated_table_is_free(
    start: u32,
    end: u32,
    used: Seq<u32>,
    replies: Seq<ReplyView>,
    t: u32,
) -> (k: int)
    requires
        searched(
            SearchView { start, used, next: start as int, end, found: None, error: None },
            replies,
        ).result() == Ok::<u32, LinuxErrorView>(t),
    ensures
        start <= t <= end,
        !used.contains(t),
        0 <= k < replies.len(),
        searched(
            SearchView { start, used, next: start as int, end, found: None, error: None },
            replies.take(k),
        ).table() == Some(t),
        replies[k] matches ReplyView::Ended { success, stdout, stderr, .. } && (if success {
            stdout.len() == 0
        } else {
            text::find(stderr, "FIB table does not exist"@) is Some
        }),
    decreases replies.len(),
{
    let s0 = SearchView { start, used, next: start as int, end, found: None, error: None };
    lemma_search(s0, replies.drop_last());
    let before = replies.drop_last();
    let s = searched(s0, before);
    assert(replies.len() > 0);
    assert(replies.take(before.len() as int) =~= before);
    law_candidates_are_unused(used, s.next, end as int);
    if s.found is Some {
        let k = law_allocated_table_is_free(start, end, used, before, t);
        assert(before.take(k) =~= replies.take(k));
        assert(before[k] == replies[k]);
        k
    } else {
        before.len() as int
    }
}

proof fn lemma_search(s0: SearchView, replies: Seq<ReplyView>)
    requires
        s0.next >= s0.start,
    ensures
        ({
            let s = searched(s0, replies);
            &&& s.used == s0.used
            &&& s.start == s0.start
            &&& s.end == s0.end
            &&& s.next >= s0.start
        }),
    decreases replies.len(),
{
    if replies.len() > 0 {
        lemma_search(s0, replies.drop_last());
        let s = searched(s0, replies.drop_last());
        law_candidates_are_unused(s.used, s.next, s.end as int);
    }
}

} // verus!
