//! Putting egress filters in place and taking them away, command by command.

use vstd::prelude::*;
use crate::error::{LinuxError, LinuxErrorView};
use crate::firewall::{self, FirewallController};
use crate::model;
use crate::net::IpNet;
use crate::process::{self, Call, CallView, Reply, ReplyView};
use crate::seqs;
use crate::strings;

verus! {

/// The program that filters a family.
pub open spec fn binary_of(v6: bool) -> Seq<char> {
    if v6 {
        "ip6tables"@
    } else {
        "iptables"@
    }
}

pub(crate) fn binary(v6: bool) -> (r: &'static str)
    ensures
        r@ == binary_of(v6),
{
    if v6 {
        "ip6tables"
    } else {
        "iptables"
    }
}

/// The call that lists the rules on what leaves the host.
pub open spec fn list_call(v6: bool) -> CallView {
    CallView { program: binary_of(v6), args: seq!["-S"@, "OUTPUT"@] }
}

/// The call of an operation on a chain.
pub open spec fn chain_call(v6: bool, op: Seq<char>, chain: Seq<char>) -> CallView {
    CallView { program: binary_of(v6), args: seq![op, chain] }
}

/// The call of an operation on the rule that sends what leaves an interface to a chain.
pub open spec fn hook_call(
    v6: bool,
    op: Seq<char>,
    interface: Seq<char>,
    chain: Seq<char>,
) -> CallView {
    CallView {
        program: binary_of(v6),
        args: seq![op, "OUTPUT"@, "-o"@, interface, "-j"@, chain],
    }
}

pub(crate) fn make_list_call(v6: bool) -> (r: Call)
    ensures
        r@ == list_call(v6),
{
    let args: [&str; 2] = ["-S", "OUTPUT"];
    proof {
        assert(seqs::views(args@) =~= seq!["-S"@, "OUTPUT"@]);
    }
    Call::new(binary(v6), &args)
}

pub(crate) fn make_chain_call(v6: bool, op: &str, chain: &str) -> (r: Call)
    ensures
        r@ == chain_call(v6, op@, chain@),
{
    let args: [&str; 2] = [op, chain];
    proof {
        assert(seqs::views(args@) =~= seq![op@, chain@]);
    }
    Call::new(binary(v6), &args)
}

pub(crate) fn make_hook_call(v6: bool, op: &str, interface: &str, chain: &str) -> (r: Call)
    ensures
        r@ == hook_call(v6, op@, interface@, chain@),
{
    let args: [&str; 6] = [op, "OUTPUT", "-o", interface, "-j", chain];
    proof {
        assert(seqs::views(args@) =~= seq![op@, "OUTPUT"@, "-o"@, interface@, "-j"@, chain@]);
    }
    Call::new(binary(v6), &args)
}

// ---------------------------------------------------------------------------------------------
// Putting a filter in place
// ---------------------------------------------------------------------------------------------
/// Where the work on a filter stands. The new generation of the chain is created, emptied and
/// filled before it is hooked, and only then the old generations are unhooked, one by one.
#[derive(Debug, Clone, Copy, PartialEq, Eq, Structural)]
pub enum EgressStep {
    List,
    Create,
    Flush,
    Fill(usize),
    Check,
    Hook,
    ListOld(usize),
    Unhook(usize),
    Done,
    Failed,
}

/// The value of an `EgressStep` in specifications.
pub enum Stage {
    List,
    Create,
    Flush,
    Fill(nat),
    Check,
    Hook,
    ListOld(nat),
    Unhook(nat),
    Done,
    Failed,
}

impl View for EgressStep {
    type V = Stage;

    open spec fn view(&self) -> Stage {
        match self {
            EgressStep::List => Stage::List,
            EgressStep::Create => Stage::Create,
            EgressStep::Flush => Stage::Flush,
            EgressStep::Fill(i) => Stage::Fill(*i as nat),
            EgressStep::Check => Stage::Check,
            EgressStep::Hook => Stage::Hook,
            EgressStep::ListOld(k) => Stage::ListOld(*k as nat),
            EgressStep::Unhook(k) => Stage::Unhook(*k as nat),
            EgressStep::Done => Stage::Done,
            EgressStep::Failed => Stage::Failed,
        }
    }
}

/// The work on the filter of an interface, for IPv4 and then for IPv6.
pub struct EgressSession {
    interface: String,
    allowed: Vec<(String, Option<u16>)>,
    blocked: Vec<IpNet>,
    v6: bool,
    chain: String,
    step: EgressStep,
    error: Option<LinuxError>,
}

/// The value of an `EgressSession` in specifications.
#[verifier::ext_equal]
pub struct EgressView {
    pub interface: Seq<char>,
    pub allowed: Seq<(Seq<char>, Option<u16>)>,
    pub blocked: Seq<IpNet>,
    pub v6: bool,
    pub chain: Seq<char>,
    pub step: Stage,
    pub error: Option<LinuxErrorView>,
}

impl View for EgressSession {
    type V = EgressView;

    closed spec fn view(&self) -> EgressView {
        EgressView {
            interface: self.interface@,
            allowed: firewall::allowed_views(self.allowed@),
            blocked: self.blocked@,
            v6: self.v6,
            chain: self.chain@,
            step: self.step@,
            error: seqs::opt_view(self.error),
        }
    }
}

/// The generations of the chain of an interface.
pub open spec fn generations(interface: Seq<char>) -> Seq<Seq<char>> {
    seq![
        firewall::chain_of(interface, Seq::empty()),
        firewall::chain_of(interface, "_A"@),
        firewall::chain_of(interface, "_B"@),
    ]
}

/// Whether a chain is another one.
pub open spec fn other_than(chain: Seq<char>) -> spec_fn(Seq<char>) -> bool {
    |c: Seq<char>| c != chain
}

/// The generations that a new one replaces.
pub open spec fn old_chains(interface: Seq<char>, chain: Seq<char>) -> Seq<Seq<char>> {
    seqs::keep(generations(interface), other_than(chain))
}

impl EgressView {
    pub open spec fn start(
        interface: Seq<char>,
        allowed: Seq<(Seq<char>, Option<u16>)>,
        blocked: Seq<IpNet>,
    ) -> EgressView {
        EgressView {
            interface,
            allowed,
            blocked,
            v6: false,
            chain: Seq::empty(),
            step: Stage::List,
            error: None,
        }
    }

    /// The rules of the new generation.
    #[verifier::opaque]
    pub open spec fn rules(self) -> Seq<Seq<Seq<char>>> {
        firewall::chain_rules(self.chain, self.allowed, self.blocked, self.v6)
    }

    /// The generations that the new one replaces.
    pub open spec fn replaced(self) -> Seq<Seq<char>> {
        old_chains(self.interface, self.chain)
    }

    /// The next command to run, if there is one.
    pub open spec fn call(self) -> Option<CallView> {
        match self.step {
            Stage::List => Some(list_call(self.v6)),
            Stage::Create => Some(chain_call(self.v6, "-N"@, self.chain)),
            Stage::Flush => Some(chain_call(self.v6, "-F"@, self.chain)),
            Stage::Fill(i) => if i < self.rules().len() {
                Some(CallView { program: binary_of(self.v6), args: self.rules()[i as int] })
            } else {
                None
            },
            Stage::Check => Some(hook_call(self.v6, "-C"@, self.interface, self.chain)),
            Stage::Hook => Some(hook_call(self.v6, "-I"@, self.interface, self.chain)),
            Stage::ListOld(_) => Some(list_call(self.v6)),
            Stage::Unhook(k) => if k < self.replaced().len() {
                Some(hook_call(self.v6, "-D"@, self.interface, self.replaced()[k as int]))
            } else {
                None
            },
            Stage::Done => None,
            Stage::Failed => None,
        }
    }

    /// The work given up on.
    pub open spec fn failed(self, e: LinuxErrorView) -> EgressView {
        EgressView { step: Stage::Failed, error: Some(e), ..self }
    }

    pub open spec fn at(self, step: Stage) -> EgressView {
        EgressView { step, ..self }
    }

    /// The work with the old generations from the `k`-th on left; once none is left, the other
    /// family is next.
    pub open spec fn past(self, k: int) -> EgressView {
        if k < self.replaced().len() {
            self.at(Stage::ListOld(k as nat))
        } else if self.v6 {
            self.at(Stage::Done)
        } else {
            EgressView { v6: true, chain: Seq::empty(), step: Stage::List, ..self }
        }
    }

    /// The work after the reply to its command.
    pub open spec fn advanced(self, reply: ReplyView) -> EgressView {
        match self.call() {
            None => self,
            Some(call) => match self.step {
                // A chain that exists cannot be created; emptying it tells whether it can be used.
                Stage::Create => match reply {
                    ReplyView::NotStarted(e) => self.failed(LinuxErrorView::Io(e)),
                    _ => self.at(Stage::Flush),
                },
                Stage::Check => match reply {
                    ReplyView::NotStarted(e) => self.failed(LinuxErrorView::Io(e)),
                    _ => if reply.ok() {
                        self.past(0)
                    } else {
                        self.at(Stage::Hook)
                    },
                },
                _ => match process::checked(call, reply) {
                    Err(e) => self.failed(e),
                    Ok(out) => match self.step {
                        Stage::List => {
                            let a = firewall::chain_of(self.interface, "_A"@);
                            let b = firewall::chain_of(self.interface, "_B"@);
                            EgressView {
                                chain: if firewall::hooked(out, self.interface, a) {
                                    b
                                } else {
                                    a
                                },
                                step: Stage::Create,
                                ..self
                            }
                        },
                        Stage::Flush => self.at(Stage::Fill(0)),
                        Stage::Fill(i) => if i + 1 < self.rules().len() {
                            self.at(Stage::Fill(i + 1))
                        } else {
                            self.at(Stage::Check)
                        },
                        Stage::Hook => self.past(0),
                        Stage::ListOld(k) => if k < self.replaced().len() && firewall::hooked(
                            out,
                            self.interface,
                            self.replaced()[k as int],
                        ) {
                            self.at(Stage::Unhook(k))
                        } else {
                            self.past((k + 1) as int)
                        },
                        Stage::Unhook(k) => self.at(Stage::ListOld(k)),
                        _ => self,
                    },
                },
            },
        }
    }
}

fn list_old_chains(interface: &str, chain: &str) -> (r: Vec<String>)
    ensures
        seqs::views(r@) == old_chains(interface@, chain@),
        r.len() <= 3,
{
    let suffixes: [&str; 3] = ["", "_A", "_B"];
    let ghost all = generations(interface@);
    let ghost p = other_than(chain@);
    let mut out: Vec<String> = Vec::new();
    let mut i: usize = 0;
    proof {
        reveal_strlit("");
        assert(""@ =~= Seq::<char>::empty());
        assert(seqs::views(out@) =~= seqs::keep(all.take(0), p));
    }
    while i < 3
        invariant
            i <= 3,
            out.len() <= i,
            all == generations(interface@),
            p == other_than(chain@),
            suffixes@.len() == 3,
            suffixes@[0]@ == Seq::<char>::empty(),
            suffixes@[1]@ == "_A"@,
            suffixes@[2]@ == "_B"@,
            seqs::views(out@) == seqs::keep(all.take(i as int), p),
        decreases 3 - i,
    {
        let name = firewall::chain_name(interface, suffixes[i]);
        proof {
            seqs::lemma_take_next(all, i as int);
            assert(all[i as int] == name@);
        }
        if !strings::same(name.as_str(), chain) {
            proof {
                seqs::lemma_views_push(out@, name);
            }
            out.push(name);
        }
        i += 1;
    }
    proof {
        seqs::lemma_take_all(all);
    }
    out
}

impl EgressSession {
    fn rules(&self) -> (r: Vec<Vec<String>>)
        ensures
            firewall::args_views(r@) == self@.rules(),
    {
        proof {
            reveal(EgressView::rules);
        }
        firewall::list_chain_rules(self.chain.as_str(), &self.allowed, &self.blocked, self.v6)
    }

    fn replaced(&self) -> (r: Vec<String>)
        ensures
            seqs::views(r@) == self@.replaced(),
            r.len() <= 3,
    {
        list_old_chains(self.interface.as_str(), self.chain.as_str())
    }

    /// The next command to run, if there is one.
    pub fn call(&self) -> (r: Option<Call>)
        ensures
            seqs::opt_view(r) == self@.call(),
    {
        let iface = self.interface.as_str();
        let chain = self.chain.as_str();
        match self.step {
            EgressStep::List => Some(make_list_call(self.v6)),
            EgressStep::Create => Some(make_chain_call(self.v6, "-N", chain)),
            EgressStep::Flush => Some(make_chain_call(self.v6, "-F", chain)),
            EgressStep::Fill(i) => {
                let rules = self.rules();
                if i < rules.len() {
                    let args = model::copy_names(&rules[i]);
                    proof {
                        assert(seqs::views(args@) == self@.rules()[i as int]);
                    }
                    Some(Call { program: binary(self.v6).to_owned(), args })
                } else {
                    None
                }
            },
            EgressStep::Check => Some(make_hook_call(self.v6, "-C", iface, chain)),
            EgressStep::Hook => Some(make_hook_call(self.v6, "-I", iface, chain)),
            EgressStep::ListOld(_) => Some(make_list_call(self.v6)),
            EgressStep::Unhook(k) => {
                let chains = self.replaced();
                if k < chains.len() {
                    proof {
                        assert(chains@[k as int]@ == self@.replaced()[k as int]);
                    }
                    Some(make_hook_call(self.v6, "-D", iface, chains[k].as_str()))
                } else {
                    None
                }
            },
            EgressStep::Done => None,
            EgressStep::Failed => None,
        }
    }

    fn fail(&mut self, e: LinuxError)
        ensures
            final(self)@ == old(self)@.failed(e@),
    {
        self.step = EgressStep::Failed;
        self.error = Some(e);
    }

    fn pass(&mut self, k: usize)
        ensures
            final(self)@ == old(self)@.past(k as int),
    {
        let n = self.replaced().len();
        if k < n {
            self.step = EgressStep::ListOld(k);
        } else if self.v6 {
            self.step = EgressStep::Done;
        } else {
            proof {
                reveal_strlit("");
                assert(""@ =~= Seq::<char>::empty());
            }
            self.v6 = true;
            self.chain = "".to_owned();
            self.step = EgressStep::List;
        }
    }

    /// Takes the reply to the command.
    pub fn advance(&mut self, reply: &Reply)
        ensures
            final(self)@ == old(self)@.advanced(reply@),
    {
        let call = match self.call() {
            Some(call) => call,
            None => {
                return;
            },
        };
        match self.step {
            EgressStep::Create => {
                match reply {
                    Reply::NotStarted(e) => {
                        self.fail(LinuxError::Io(e.clone()));
                    },
                    _ => {
                        self.step = EgressStep::Flush;
                    },
                }
                return;
            },
            EgressStep::Check => {
                match reply {
                    Reply::NotStarted(e) => {
                        self.fail(LinuxError::Io(e.clone()));
                    },
                    _ => {
                        if reply.is_ok() {
                            self.pass(0);
                        } else {
                            self.step = EgressStep::Hook;
                        }
                    },
                }
                return;
            },
            _ => {},
        }
        let out = match process::command_ok(&call, reply) {
            Ok(out) => out,
            Err(e) => {
                self.fail(e);
                return;
            },
        };
        match self.step {
            EgressStep::List => {
                let a = firewall::chain_name(self.interface.as_str(), "_A");
                if firewall::output_has_hook(out.as_str(), self.interface.as_str(), a.as_str()) {
                    self.chain = firewall::chain_name(self.interface.as_str(), "_B");
                } else {
                    self.chain = a;
                }
                self.step = EgressStep::Create;
            },
            EgressStep::Flush => {
                self.step = EgressStep::Fill(0);
            },
            EgressStep::Fill(i) => {
                let n = self.rules().len();
                proof {
                    assert(n == self@.rules().len());
                }
                if i < n - 1 {
                    self.step = EgressStep::Fill(i + 1);
                } else {
                    self.step = EgressStep::Check;
                }
            },
            EgressStep::Hook => {
                self.pass(0);
            },
            EgressStep::ListOld(k) => {
                let chains = self.replaced();
                if k < chains.len() && firewall::output_has_hook(
                    out.as_str(),
                    self.interface.as_str(),
                    chains[k].as_str(),
                ) {
                    proof {
                        assert(chains@[k as int]@ == self@.replaced()[k as int]);
                    }
                    self.step = EgressStep::Unhook(k);
                } else {
                    proof {
                        if k < chains.len() {
                            assert(chains@[k as int]@ == self@.replaced()[k as int]);
                        }
                    }
                    if k < chains.len() {
                        self.pass(k + 1);
                    } else {
                        self.pass(k);
                    }
                }
            },
            EgressStep::Unhook(k) => {
                self.step = EgressStep::ListOld(k);
            },
            _ => {},
        }
    }

    /// What came of the work, once there is no command left.
    pub fn result(&self) -> (r: Result<(), LinuxError>)
        ensures
            match self@.error {
                Some(e) => r matches Err(f) && f@ == e,
                None => r is Ok,
            },
    {
        match &self.error {
            Some(e) => Err(e.clone()),
            None => Ok(()),
        }
    }
}

impl FirewallController {
    /// Applies an interface-scoped egress policy. Blacklisted destinations are
    /// dropped before conntrack ACCEPT rules so existing sessions cannot bypass
    /// the deny list. IPv4 and IPv6 are programmed independently; if IPv6
    /// programming fails, the IPv4 generation intentionally stays installed.
    pub fn apply_egress_policy(
        interface: &str,
        allowed_targets: &[(String, Option<u16>)],
        blocked_targets: &[IpNet],
    ) -> (r: EgressSession)
        ensures
            r@ == EgressView::start(
                interface@,
                firewall::allowed_views(allowed_targets@),
                blocked_targets@,
            ),
    {
        let mut allowed: Vec<(String, Option<u16>)> = Vec::new();
        let mut i: usize = 0;
        while i < allowed_targets.len()
            invariant
                i <= allowed_targets.len(),
                allowed.len() == i,
                forall|j: int|
                    0 <= j < i ==> (#[trigger] allowed@[j]).0@ == allowed_targets@[j].0@
                        && allowed@[j].1 == allowed_targets@[j].1,
            decreases allowed_targets.len() - i,
        {
            allowed.push((allowed_targets[i].0.clone(), allowed_targets[i].1));
            i += 1;
        }
        let mut blocked: Vec<IpNet> = Vec::new();
        let mut k: usize = 0;
        while k < blocked_targets.len()
            invariant
                k <= blocked_targets.len(),
                blocked@ == blocked_targets@.take(k as int),
            decreases blocked_targets.len() - k,
        {
            blocked.push(blocked_targets[k]);
            k += 1;
        }
        proof {
            assert(firewall::allowed_views(allowed@) =~= firewall::allowed_views(
                allowed_targets@,
            ));
            seqs::lemma_take_all(blocked_targets@);
            reveal_strlit("");
            assert(""@ =~= Seq::<char>::empty());
        }
        EgressSession {
            interface: interface.to_owned(),
            allowed,
            blocked,
            v6: false,
            chain: "".to_owned(),
            step: EgressStep::List,
            error: None,
        }
    }

    /// Applies a strict egress firewall whitelist on the specified LAN interface.
    /// Only explicitly allowed target IPs/CIDRs can leave this interface.
    /// All other packets attempting to exit via this interface are DROPPED.
    pub fn apply_egress_whitelist(
        interface: &str,
        allowed_targets: &[(String, Option<u16>)],
    ) -> (r: EgressSession)
        ensures
            r@ == EgressView::start(
                interface@,
                firewall::allowed_views(allowed_targets@),
                Seq::empty(),
            ),
    {
        let none: [IpNet; 0] = [];
        proof {
            assert(none@ =~= Seq::<IpNet>::empty());
        }
        Self::apply_egress_policy(interface, allowed_targets, &none)
    }
}

// ---------------------------------------------------------------------------------------------
// What holds of the work
// ---------------------------------------------------------------------------------------------
/// The work after a series of replies.
pub open spec fn run(s: EgressView, replies: Seq<ReplyView>) -> EgressView
    decreases replies.len(),
{
    if replies.len() == 0 {
        s
    } else {
        run(s, replies.drop_last()).advanced(replies.last())
    }
}

/// Whether the new generation is complete, so that it may be hooked.
pub open spec fn complete(step: Stage) -> bool {
    step is Check || step is Hook || step is ListOld || step is Unhook || step is Done
}

/// Whether the new generation is hooked, so that old ones may be unhooked.
pub open spec fn live(step: Stage) -> bool {
    step is ListOld || step is Unhook || step is Done
}

/// Whether from the `p`-th reply on all rules of the generation of `s` were put into it, in
/// order, and none was refused.
pub open spec fn filled(s0: EgressView, replies: Seq<ReplyView>, s: EgressView, p: int) -> bool {
    &&& 0 <= p
    &&& p + s.rules().len() <= replies.len()
    &&& forall|j: int|
        0 <= j < s.rules().len() ==> run(s0, #[trigger] replies.take(p + j)) == s.at(
            Stage::Fill(j as nat),
        ) && replies[p + j].ok()
}

/// Whether the `q`-th reply said that the generation of `s` is hooked.
pub open spec fn hooked_at(
    s0: EgressView,
    replies: Seq<ReplyView>,
    s: EgressView,
    q: int,
) -> bool {
    &&& 0 <= q < replies.len()
    &&& replies[q].ok()
    &&& run(s0, replies.take(q)) == s.at(Stage::Check) || run(s0, replies.take(q)) == s.at(
        Stage::Hook,
    )
}

/// What is known at each point of the work.
spec fn sound(s0: EgressView, replies: Seq<ReplyView>) -> bool {
    let s = run(s0, replies);
    &&& !(s.step is Failed) ==> s.error is None
    &&& s.step matches Stage::Fill(i) ==> i < s.rules().len() && i <= replies.len() && (
    forall|j: int|
        0 <= j < i ==> run(s0, #[trigger] replies.take(replies.len() - i + j)) == s.at(
            Stage::Fill(j as nat),
        ) && replies[replies.len() - i + j].ok())
    &&& complete(s.step) ==> exists|p: int| #[trigger] filled(s0, replies, s, p)
    &&& live(s.step) ==> exists|p: int, q: int| #[trigger]
        filled(s0, replies, s, p) && p + s.rules().len() <= q && #[trigger] hooked_at(
            s0,
            replies,
            s,
            q,
        )
}

proof fn lemma_filled_later(
    s0: EgressView,
    replies: Seq<ReplyView>,
    more: Seq<ReplyView>,
    s: EgressView,
    t: EgressView,
    p: int,
)
    requires
        filled(s0, replies, s, p),
        replies.len() <= more.len(),
        more.take(replies.len() as int) == replies,
        t == s.at(t.step),
    ensures
        filled(s0, more, t, p),
{
    lemma_rules_stay(s, t.step);
    assert forall|j: int| 0 <= j < t.rules().len() implies run(s0, #[trigger] more.take(p + j))
        == t.at(Stage::Fill(j as nat)) && more[p + j].ok() by {
        assert(replies.take(p + j) =~= more.take(p + j));
        assert(replies[p + j] == more.take(replies.len() as int)[p + j]);
        assert(run(s0, replies.take(p + j)) == s.at(Stage::Fill(j as nat)));
    }
}

proof fn lemma_hooked_later(
    s0: EgressView,
    replies: Seq<ReplyView>,
    more: Seq<ReplyView>,
    s: EgressView,
    t: EgressView,
    q: int,
)
    requires
        hooked_at(s0, replies, s, q),
        replies.len() <= more.len(),
        more.take(replies.len() as int) == replies,
        t == s.at(t.step),
    ensures
        hooked_at(s0, more, t, q),
{
    assert(replies.take(q) =~= more.take(q));
    assert(replies[q] == more.take(replies.len() as int)[q]);
}

/// The steps that lead on from a step.
proof fn lemma_steps(s: EgressView, r: ReplyView)
    ensures
        s.advanced(r).step is Failed || s.advanced(r).error == s.error,
        s.advanced(r).step matches Stage::Fill(i) ==> (i == 0 && s.step is Flush && s.advanced(
            r,
        ) == s.at(Stage::Fill(0))) || (i > 0 && s.step == Stage::Fill((i - 1) as nat)
            && r.ok() && s.advanced(r) == s.at(Stage::Fill(i)) && i < s.rules().len())
            || s.advanced(r) == s,
        s.advanced(r).step is Check ==> (s.step matches Stage::Fill(i) && r.ok() && i + 1
            == s.rules().len() && s.advanced(r) == s.at(Stage::Check)),
        complete(s.advanced(r).step) && !(s.advanced(r).step is Check) ==> complete(s.step)
            && s.advanced(r) == s.at(s.advanced(r).step),
        live(s.advanced(r).step) && !live(s.step) ==> r.ok() && (s.step is Check || s.step is Hook),
{
}

proof fn lemma_sound_fill(s0: EgressView, replies: Seq<ReplyView>, i: nat)
    requires
        replies.len() > 0,
        sound(s0, replies.drop_last()),
        run(s0, replies.drop_last()).step == Stage::Fill(i),
        replies.last().ok(),
    ensures
        ({
            let s = run(s0, replies.drop_last());
            &&& i < replies.len()
            &&& forall|j: int|
                0 <= j < i + 1 ==> run(s0, #[trigger] replies.take(replies.len() - (i + 1) + j))
                    == s.at(Stage::Fill(j as nat)) && replies[replies.len() - (i + 1)
                    + j].ok()
        }),
{
    let before = replies.drop_last();
    let s = run(s0, before);
    assert forall|j: int| 0 <= j < i + 1 implies run(
        s0,
        #[trigger] replies.take(replies.len() - (i + 1) + j),
    ) == s.at(Stage::Fill(j as nat)) && replies[replies.len() - (i + 1) + j].ok() by {
        if j < i {
            assert(before.take(before.len() - i + j) =~= replies.take(
                replies.len() - (i + 1) + j,
            ));
            assert(before[before.len() - i + j] == replies[before.len() - i + j]);
        } else {
            assert(replies.take(before.len() as int) =~= before);
        }
    }
}

proof fn lemma_sound(s0: EgressView, replies: Seq<ReplyView>)
    requires
        s0.step is List,
        s0.error is None,
    ensures
        sound(s0, replies),
    decreases replies.len(),
{
    if replies.len() > 0 {
        let before = replies.drop_last();
        let r = replies.last();
        let s = run(s0, before);
        let t = run(s0, replies);
        lemma_sound(s0, before);
        lemma_steps(s, r);
        lemma_rules_len(s);
        lemma_rules_stay(s, t.step);
        assert(replies.take(before.len() as int) =~= before);
        if t.step is Fill {
            if s.step is Fill && r.ok() {
                lemma_sound_fill(s0, replies, s.step->Fill_0);
            }
        } else if t.step is Check {
            let i = s.step->Fill_0;
            let p = replies.len() - (i + 1);
            lemma_sound_fill(s0, replies, i);
            assert(filled(s0, replies, t, p)) by {
                assert forall|j: int| 0 <= j < t.rules().len() implies run(
                    s0,
                    #[trigger] replies.take(p + j),
                ) == t.at(Stage::Fill(j as nat)) && replies[p + j].ok() by {
                    assert(run(s0, replies.take(p + j)) == s.at(Stage::Fill(j as nat)));
                }
            }
        } else if complete(t.step) {
            if live(s.step) {
                let (p, q) = choose|p: int, q: int| #[trigger]
                    filled(s0, before, s, p) && p + s.rules().len() <= q && #[trigger] hooked_at(
                        s0,
                        before,
                        s,
                        q,
                    );
                lemma_filled_later(s0, before, replies, s, t, p);
                lemma_hooked_later(s0, before, replies, s, t, q);
            } else {
                let p = choose|p: int| #[trigger] filled(s0, before, s, p);
                lemma_filled_later(s0, before, replies, s, t, p);
                if live(t.step) {
                    assert(hooked_at(s0, replies, t, before.len() as int));
                }
            }
        }
    }
}

proof fn lemma_rules_stay(s: EgressView, step: Stage)
    ensures
        s.at(step).rules() == s.rules(),
{
    reveal(EgressView::rules);
}

proof fn lemma_rules_len(s: EgressView)
    ensures
        s.rules().len() > 0,
{
    reveal(EgressView::rules);
    law_chain_ends_in_drop(s.chain, s.allowed, s.blocked, s.v6);
}

/// The new generation is hooked only once it is complete: when the work comes to hooking it, or
/// is past that, every rule of it has been put into it, in order, without a refusal.
pub proof fn law_hooked_only_when_complete(
    interface: Seq<char>,
    allowed: Seq<(Seq<char>, Option<u16>)>,
    blocked: Seq<IpNet>,
    replies: Seq<ReplyView>,
)
    requires
        complete(run(EgressView::start(interface, allowed, blocked), replies).step),
    ensures
        exists|p: int| #[trigger]
            filled(
                EgressView::start(interface, allowed, blocked),
                replies,
                run(EgressView::start(interface, allowed, blocked), replies),
                p,
            ),
{
    lemma_sound(EgressView::start(interface, allowed, blocked), replies);
}

/// An old generation is unhooked only once the new one is complete and after that was found or
/// made to be hooked, so that at no time the interface is open.
pub proof fn law_unhooked_only_when_replaced(
    interface: Seq<char>,
    allowed: Seq<(Seq<char>, Option<u16>)>,
    blocked: Seq<IpNet>,
    replies: Seq<ReplyView>,
)
    requires
        live(run(EgressView::start(interface, allowed, blocked), replies).step),
    ensures
        ({
            let s0 = EgressView::start(interface, allowed, blocked);
            let s = run(s0, replies);
            exists|p: int, q: int| #[trigger]
                filled(s0, replies, s, p) && p + s.rules().len() <= q && #[trigger] hooked_at(
                    s0,
                    replies,
                    s,
                    q,
                )
        }),
{
    lemma_sound(EgressView::start(interface, allowed, blocked), replies);
}

/// Whatever is not let through before is dropped: the last rule of a chain drops everything.
pub proof fn law_chain_ends_in_drop(
    chain: Seq<char>,
    allowed: Seq<(Seq<char>, Option<u16>)>,
    blocked: Seq<IpNet>,
    v6: bool,
)
    ensures
        firewall::chain_rules(chain, allowed, blocked, v6).len() > 0,
        firewall::chain_rules(chain, allowed, blocked, v6).last() == seq![
            "-A"@,
            chain,
            "-j"@,
            "DROP"@,
        ],
{
}

/// Existing connections do not bypass the blacklist: the rule that drops a blacklisted network
/// of the family stands before the one that accepts what belongs to existing connections.
pub proof fn law_blacklist_before_connections(
    chain: Seq<char>,
    allowed: Seq<(Seq<char>, Option<u16>)>,
    blocked: Seq<IpNet>,
    v6: bool,
    n: IpNet,
)
    requires
        blocked.contains(n),
        v6 == !(n.base() is V4),
    ensures
        exists|i: int, j: int|
            0 <= i < j < firewall::chain_rules(chain, allowed, blocked, v6).len()
                && #[trigger] firewall::chain_rules(chain, allowed, blocked, v6)[i] == seq![
                "-A"@,
                chain,
                "-d"@,
                n.text(),
                "-j"@,
                "DROP"@,
            ] && #[trigger] firewall::chain_rules(chain, allowed, blocked, v6)[j]
                == firewall::standing_args(chain, v6)[0],
{
    let f = firewall::block_args(chain, v6);
    let drops = seqs::flat(blocked, f);
    let rules = firewall::chain_rules(chain, allowed, blocked, v6);
    let rule = seq!["-A"@, chain, "-d"@, n.text(), "-j"@, "DROP"@];
    let k = choose|k: int| 0 <= k < blocked.len() && blocked[k] == n;
    assert(f(blocked[k])[0] == rule);
    assert(f(blocked[k]).contains(rule));
    seqs::lemma_flat_contains(blocked, f, rule);
    assert(drops.contains(rule));
    let i = choose|i: int| 0 <= i < drops.len() && drops[i] == rule;
    assert(rules[i] == rule);
    assert(rules[drops.len() as int] == firewall::standing_args(chain, v6)[0]);
}

/// What is run at each step: the program of the family, with the rules of the new generation one
/// by one, and with the rule on what leaves the interface.
pub proof fn law_calls_of_a_filter(s: EgressView, i: nat)
    ensures
        ({
            let program = if s.v6 {
                "ip6tables"@
            } else {
                "iptables"@
            };
            let rules = firewall::chain_rules(s.chain, s.allowed, s.blocked, s.v6);
            &&& s.step is List ==> s.call() == Some(
                CallView { program, args: seq!["-S"@, "OUTPUT"@] },
            )
            &&& s.step is Create ==> s.call() == Some(
                CallView { program, args: seq!["-N"@, s.chain] },
            )
            &&& s.step is Flush ==> s.call() == Some(
                CallView { program, args: seq!["-F"@, s.chain] },
            )
            &&& s.step == Stage::Fill(i) && i < rules.len() ==> s.call() == Some(
                CallView { program, args: rules[i as int] },
            )
            &&& s.step is Check ==> s.call() == Some(
                CallView {
                    program,
                    args: seq!["-C"@, "OUTPUT"@, "-o"@, s.interface, "-j"@, s.chain],
                },
            )
            &&& s.step is Hook ==> s.call() == Some(
                CallView {
                    program,
                    args: seq!["-I"@, "OUTPUT"@, "-o"@, s.interface, "-j"@, s.chain],
                },
            )
            &&& s.step == Stage::Unhook(i) && i < s.replaced().len() ==> s.call() == Some(
                CallView {
                    program,
                    args: seq![
                        "-D"@,
                        "OUTPUT"@,
                        "-o"@,
                        s.interface,
                        "-j"@,
                        s.replaced()[i as int],
                    ],
                },
            )
        }),
{
    reveal(EgressView::rules);
}

/// Nothing that fails is passed over: whatever cannot be done, but to create a chain that may
/// exist and to check for a hook that may not, ends the work with an error.
pub proof fn law_failure_ends_the_filter(s: EgressView, reply: ReplyView)
    requires
        s.call() is Some,
        !reply.ok(),
        !(s.step is Create),
        !(s.step is Check),
    ensures
        s.advanced(reply).step is Failed,
        s.advanced(reply).error is Some,
        s.advanced(reply).call() is None,
{
}

/// The new generation is one that is not in use: of the two that take turns it is the second if
/// the first is hooked, and the first otherwise; the old ones to be unhooked are all others.
pub proof fn law_generations_take_turns(s: EgressView, out: Seq<char>, reply: ReplyView)
    requires
        s.step is List,
        reply.ok(),
        reply.out() == out,
    ensures
        ({
            let a = firewall::chain_of(s.interface, "_A"@);
            let b = firewall::chain_of(s.interface, "_B"@);
            let t = s.advanced(reply);
            &&& t.step is Create
            &&& firewall::hooked(out, s.interface, a) ==> t.chain == b
            &&& !firewall::hooked(out, s.interface, a) ==> t.chain == a
            &&& forall|c: Seq<char>| #[trigger]
                t.replaced().contains(c) <==> c != t.chain && (c == a || c == b || c
                    == firewall::chain_of(s.interface, Seq::empty()))
        }),
{
    let t = s.advanced(reply);
    let g = generations(s.interface);
    seqs::lemma_keep(g, other_than(t.chain));
    assert(g.len() == 3);
    assert forall|c: Seq<char>| #[trigger] t.replaced().contains(c) <==> c != t.chain && (c
        == firewall::chain_of(s.interface, "_A"@) || c == firewall::chain_of(s.interface, "_B"@)
        || c == firewall::chain_of(s.interface, Seq::empty())) by {
        assert(g.contains(g[0]) && g.contains(g[1]) && g.contains(g[2]));
        if g.contains(c) {
            let i = choose|i: int| 0 <= i < g.len() && g[i] == c;
        }
    }
}

/// Whether the filter of IPv4 was in place when the `k`-th reply came.
pub open spec fn v4_in_place(s0: EgressView, replies: Seq<ReplyView>, k: int) -> bool {
    &&& 0 <= k < replies.len()
    &&& !run(s0, replies.take(k)).v6
    &&& complete(run(s0, replies.take(k)).step)
    &&& replies[k].ok()
}

proof fn lemma_v4_first(s0: EgressView, replies: Seq<ReplyView>)
    requires
        !s0.v6,
    ensures
        run(s0, replies).v6 ==> exists|k: int| #[trigger] v4_in_place(s0, replies, k),
        run(s0, replies).step is Done ==> run(s0, replies).v6 || s0.step is Done,
    decreases replies.len(),
{
    if replies.len() > 0 {
        let before = replies.drop_last();
        let s = run(s0, before);
        lemma_v4_first(s0, before);
        assert(replies.take(before.len() as int) =~= before);
        assert(replies[before.len() as int] == replies.last());
        lemma_family_turns(s, replies.last());
        if s.v6 {
            let k = choose|k: int| #[trigger] v4_in_place(s0, before, k);
            assert(before.take(k) =~= replies.take(k));
            assert(v4_in_place(s0, replies, k));
        } else if run(s0, replies).v6 {
            assert(v4_in_place(s0, replies, before.len() as int));
        }
    }
}

proof fn lemma_family_turns(s: EgressView, reply: ReplyView)
    ensures
        s.v6 ==> s.advanced(reply).v6,
        !s.v6 && s.advanced(reply).v6 ==> complete(s.step) && reply.ok(),
        !s.v6 && s.advanced(reply).step is Done ==> s.step is Done,
{
}

/// Both families are filtered: the work is done only once the filter of IPv4 was in place and
/// that of IPv6 is.
pub proof fn law_both_families_are_filtered(
    interface: Seq<char>,
    allowed: Seq<(Seq<char>, Option<u16>)>,
    blocked: Seq<IpNet>,
    replies: Seq<ReplyView>,
)
    requires
        run(EgressView::start(interface, allowed, blocked), replies).step is Done,
    ensures
        run(EgressView::start(interface, allowed, blocked), replies).v6,
        exists|k: int| #[trigger]
            v4_in_place(EgressView::start(interface, allowed, blocked), replies, k),
{
    lemma_v4_first(EgressView::start(interface, allowed, blocked), replies);
}

} // verus!
