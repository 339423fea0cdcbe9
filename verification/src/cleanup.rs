//! Taking egress filters away. Failures are passed over: as much as can be is taken away.

use vstd::prelude::*;
use crate::egress;
use crate::firewall::{self, FirewallController};
use crate::process::{Call, CallView, Reply, ReplyView};
use crate::seqs;
use crate::strings;
use crate::text;

verus! {

// ---------------------------------------------------------------------------------------------
// The filter of one interface
// ---------------------------------------------------------------------------------------------
/// Where the work on a chain stands: its hooks are removed one by one, then it is emptied and
/// deleted.
#[derive(Debug, Clone, Copy, PartialEq, Eq, Structural)]
pub enum RemovalStep {
    List,
    Unhook,
    Flush,
    Delete,
}

/// The removal of the chains of an interface, for IPv4 and then for IPv6.
pub struct RemovalSession {
    interface: String,
    v6: bool,
    /// Which of the chains is next.
    next: usize,
    step: RemovalStep,
}

/// The value of a `RemovalSession` in specifications.
#[verifier::ext_equal]
pub struct RemovalView {
    pub interface: Seq<char>,
    pub v6: bool,
    pub next: nat,
    pub step: RemovalStep,
}

impl View for RemovalSession {
    type V = RemovalView;

    closed spec fn view(&self) -> RemovalView {
        RemovalView {
            interface: self.interface@,
            v6: self.v6,
            next: self.next as nat,
            step: self.step,
        }
    }
}

impl RemovalView {
    pub open spec fn start(interface: Seq<char>) -> RemovalView {
        RemovalView { interface, v6: false, next: 0, step: RemovalStep::List }
    }

    /// The chain that is next.
    pub open spec fn chain(self) -> Seq<char> {
        egress::generations(self.interface)[self.next as int]
    }

    /// The next command to run, if there is one.
    pub open spec fn call(self) -> Option<CallView> {
        if self.next >= 3 {
            None
        } else {
            match self.step {
                RemovalStep::List => Some(egress::list_call(self.v6)),
                RemovalStep::Unhook => Some(
                    egress::hook_call(self.v6, "-D"@, self.interface, self.chain()),
                ),
                RemovalStep::Flush => Some(egress::chain_call(self.v6, "-F"@, self.chain())),
                RemovalStep::Delete => Some(egress::chain_call(self.v6, "-X"@, self.chain())),
            }
        }
    }

    pub open spec fn at(self, step: RemovalStep) -> RemovalView {
        RemovalView { step, ..self }
    }

    /// The work after the reply to its command.
    pub open spec fn advanced(self, reply: ReplyView) -> RemovalView {
        if self.next >= 3 {
            self
        } else {
            match self.step {
                RemovalStep::List => if reply.ok() && firewall::hooked(
                    reply.out(),
                    self.interface,
                    self.chain(),
                ) {
                    self.at(RemovalStep::Unhook)
                } else {
                    self.at(RemovalStep::Flush)
                },
                RemovalStep::Unhook => if reply.ok() {
                    self.at(RemovalStep::List)
                } else {
                    self.at(RemovalStep::Flush)
                },
                RemovalStep::Flush => self.at(RemovalStep::Delete),
                RemovalStep::Delete => if self.next == 2 && !self.v6 {
                    RemovalView { v6: true, next: 0, step: RemovalStep::List, ..self }
                } else {
                    RemovalView { next: self.next + 1, step: RemovalStep::List, ..self }
                },
            }
        }
    }
}

/// What a call wrote that ended well.
fn output(reply: &Reply) -> (r: &str)
    ensures
        r@ == reply@.out(),
{
    match reply {
        Reply::Ended { success, stdout, .. } => {
            if *success {
                return stdout.as_str();
            }
        },
        Reply::NotStarted(_) => {},
    }
    proof {
        reveal_strlit("");
        assert(""@ =~= Seq::<char>::empty());
    }
    ""
}

impl RemovalSession {
    fn chain(&self) -> (r: String)
        requires
            self@.next < 3,
        ensures
            r@ == self@.chain(),
    {
        let suffix = if self.next == 0 {
            ""
        } else if self.next == 1 {
            "_A"
        } else {
            "_B"
        };
        proof {
            reveal_strlit("");
            assert(""@ =~= Seq::<char>::empty());
        }
        firewall::chain_name(self.interface.as_str(), suffix)
    }

    /// The next command to run, if there is one.
    pub fn call(&self) -> (r: Option<Call>)
        ensures
            seqs::opt_view(r) == self@.call(),
    {
        if self.next >= 3 {
            return None;
        }
        let chain = self.chain();
        match self.step {
            RemovalStep::List => Some(egress::make_list_call(self.v6)),
            RemovalStep::Unhook => Some(
                egress::make_hook_call(self.v6, "-D", self.interface.as_str(), chain.as_str()),
            ),
            RemovalStep::Flush => Some(egress::make_chain_call(self.v6, "-F", chain.as_str())),
            RemovalStep::Delete => Some(egress::make_chain_call(self.v6, "-X", chain.as_str())),
        }
    }

    /// Takes the reply to the command.
    pub fn advance(&mut self, reply: &Reply)
        ensures
            final(self)@ == old(self)@.advanced(reply@),
    {
        if self.next >= 3 {
            return;
        }
        match self.step {
            RemovalStep::List => {
                let chain = self.chain();
                if reply.is_ok() && firewall::output_has_hook(
                    output(reply),
                    self.interface.as_str(),
                    chain.as_str(),
                ) {
                    self.step = RemovalStep::Unhook;
                } else {
                    self.step = RemovalStep::Flush;
                }
            },
            RemovalStep::Unhook => {
                if reply.is_ok() {
                    self.step = RemovalStep::List;
                } else {
                    self.step = RemovalStep::Flush;
                }
            },
            RemovalStep::Flush => {
                self.step = RemovalStep::Delete;
            },
            RemovalStep::Delete => {
                self.step = RemovalStep::List;
                if self.next == 2 && !self.v6 {
                    self.v6 = true;
                    self.next = 0;
                } else {
                    self.next = self.next + 1;
                }
            },
        }
    }
}

// ---------------------------------------------------------------------------------------------
// All filters
// ---------------------------------------------------------------------------------------------
/// The chain of ours that a line of a saved table declares.
pub open spec fn declared_chain() -> spec_fn(Seq<char>) -> Seq<Seq<char>> {
    |line: Seq<char>|
        {
            let w = text::words(text::strip_lead(line, ':'));
            if ":RT_EGRESS_"@.is_prefix_of(line) && w.len() > 0 {
                seq![w[0]]
            } else {
                Seq::empty()
            }
        }
}

/// The chains of ours that a saved table declares.
pub fn declared_chains(saved: &str) -> (r: Vec<String>)
    ensures
        seqs::views(r@) == seqs::flat(text::lines(saved@), declared_chain()),
{
    let lines = strings::lines(saved);
    let ghost all = text::lines(saved@);
    let ghost f = declared_chain();
    let mut out: Vec<String> = Vec::new();
    let mut i: usize = 0;
    proof {
        assert(all.take(0).len() == 0);
        assert(seqs::views(out@) =~= seqs::flat(all.take(0), f));
    }
    while i < lines.len()
        invariant
            i <= lines.len(),
            all == seqs::views(lines@),
            f == declared_chain(),
            seqs::views(out@) == seqs::flat(all.take(i as int), f),
        decreases lines.len() - i,
    {
        let ghost now = seqs::views(out@);
        proof {
            seqs::lemma_flat_next(all, f, i as int);
            assert(all[i as int] == lines@[i as int]@);
        }
        let w = strings::words(strings::strip_lead(lines[i], ':'));
        proof {
            assert(seqs::views(w@).len() == w@.len());
        }
        if strings::starts_with(lines[i], ":RT_EGRESS_") && w.len() > 0 {
            let name = w[0].to_owned();
            proof {
                seqs::lemma_views_push(out@, name);
                assert(seqs::views(w@)[0] == name@);
            }
            out.push(name);
        }
        proof {
            assert(seqs::views(out@) =~= now + f(all[i as int]));
        }
        i += 1;
    }
    proof {
        seqs::lemma_take_all(all);
    }
    out
}

/// Where the work on all chains stands. For each chain the interfaces from which it is hooked
/// are looked up, its hooks are removed, and it is emptied and deleted.
#[derive(Debug, Clone, Copy, PartialEq, Eq, Structural)]
pub enum CleanupStep {
    Save,
    Lookup,
    List,
    Unhook,
    Flush,
    Delete,
    Done,
}

/// The removal of all chains of ours, for IPv4 and then for IPv6.
pub struct CleanupSession {
    v6: bool,
    /// The chains that are left; the last is next.
    chains: Vec<String>,
    /// The interfaces that are left for the chain that is next; the last is next.
    interfaces: Vec<String>,
    step: CleanupStep,
}

/// The value of a `CleanupSession` in specifications.
#[verifier::ext_equal]
pub struct CleanupView {
    pub v6: bool,
    pub chains: Seq<Seq<char>>,
    pub interfaces: Seq<Seq<char>>,
    pub step: CleanupStep,
}

impl View for CleanupSession {
    type V = CleanupView;

    closed spec fn view(&self) -> CleanupView {
        CleanupView {
            v6: self.v6,
            chains: seqs::views(self.chains@),
            interfaces: seqs::views(self.interfaces@),
            step: self.step,
        }
    }
}

impl CleanupView {
    pub open spec fn start() -> CleanupView {
        CleanupView {
            v6: false,
            chains: Seq::empty(),
            interfaces: Seq::empty(),
            step: CleanupStep::Save,
        }
    }

    pub open spec fn at(self, step: CleanupStep) -> CleanupView {
        CleanupView { step, ..self }
    }

    /// The next command to run, if there is one.
    pub open spec fn call(self) -> Option<CallView> {
        match self.step {
            CleanupStep::Save => Some(
                CallView { program: egress::binary_of(self.v6) + "-save"@, args: Seq::empty() },
            ),
            CleanupStep::Done => None,
            _ => if self.chains.len() == 0 {
                None
            } else {
                match self.step {
                    CleanupStep::Lookup => Some(egress::list_call(self.v6)),
                    CleanupStep::List => Some(egress::list_call(self.v6)),
                    CleanupStep::Unhook => if self.interfaces.len() == 0 {
                        None
                    } else {
                        Some(
                            egress::hook_call(
                                self.v6,
                                "-D"@,
                                self.interfaces.last(),
                                self.chains.last(),
                            ),
                        )
                    },
                    CleanupStep::Flush => Some(
                        egress::chain_call(self.v6, "-F"@, self.chains.last()),
                    ),
                    _ => Some(egress::chain_call(self.v6, "-X"@, self.chains.last())),
                }
            },
        }
    }

    /// On to the next chain, or to the other family.
    pub open spec fn next_chain(self) -> CleanupView {
        if self.chains.len() > 0 {
            self.at(CleanupStep::Lookup)
        } else if self.v6 {
            self.at(CleanupStep::Done)
        } else {
            CleanupView { v6: true, step: CleanupStep::Save, ..self }
        }
    }

    /// On to the next interface, or to the chain itself.
    pub open spec fn next_interface(self) -> CleanupView {
        if self.interfaces.len() > 0 {
            self.at(CleanupStep::List)
        } else {
            self.at(CleanupStep::Flush)
        }
    }

    /// The work without the interface that was next.
    pub open spec fn without_interface(self) -> CleanupView {
        if self.interfaces.len() == 0 {
            self.next_interface()
        } else {
            CleanupView { interfaces: self.interfaces.drop_last(), ..self }.next_interface()
        }
    }

    /// The work after the reply to its command.
    pub open spec fn advanced(self, reply: ReplyView) -> CleanupView {
        if self.call() is None {
            self
        } else {
            match self.step {
                CleanupStep::Save => match reply {
                    ReplyView::NotStarted(_) => self.next_chain(),
                    ReplyView::Ended { stdout, .. } => CleanupView {
                        chains: seqs::flat(text::lines(stdout), declared_chain()).reverse(),
                        ..self
                    }.next_chain(),
                },
                CleanupStep::Lookup => CleanupView {
                    interfaces: if reply.ok() {
                        seqs::flat(
                            text::lines(reply.out()),
                            firewall::hook_interface(self.chains.last()),
                        ).reverse()
                    } else {
                        Seq::empty()
                    },
                    ..self
                }.next_interface(),
                CleanupStep::List => if self.interfaces.len() > 0 && reply.ok() && firewall::hooked(
                    reply.out(),
                    self.interfaces.last(),
                    self.chains.last(),
                ) {
                    self.at(CleanupStep::Unhook)
                } else {
                    self.without_interface()
                },
                CleanupStep::Unhook => if reply.ok() {
                    self.at(CleanupStep::List)
                } else {
                    self.without_interface()
                },
                CleanupStep::Flush => self.at(CleanupStep::Delete),
                CleanupStep::Delete => CleanupView {
                    chains: self.chains.drop_last(),
                    ..self
                }.next_chain(),
                CleanupStep::Done => self,
            }
        }
    }
}

fn reversed(list: &Vec<String>) -> (r: Vec<String>)
    ensures
        seqs::views(r@) == seqs::views(list@).reverse(),
{
    let mut out: Vec<String> = Vec::new();
    let mut i: usize = list.len();
    while i > 0
        invariant
            i <= list.len(),
            out.len() == list.len() - i,
            forall|j: int|
                0 <= j < out.len() ==> (#[trigger] out@[j])@ == list@[list.len() - 1 - j]@,
        decreases i,
    {
        i -= 1;
        out.push(list[i].clone());
    }
    proof {
        assert(seqs::views(out@) =~= seqs::views(list@).reverse());
    }
    out
}

impl CleanupSession {
    /// The next command to run, if there is one.
    pub fn call(&self) -> (r: Option<Call>)
        ensures
            seqs::opt_view(r) == self@.call(),
    {
        match self.step {
            CleanupStep::Save => {
                let none: [&str; 0] = [];
                proof {
                    assert(seqs::views(none@) =~= Seq::<Seq<char>>::empty());
                }
                let program = egress::binary(self.v6).to_owned().concat("-save");
                return Some(Call::new(program.as_str(), &none));
            },
            CleanupStep::Done => {
                return None;
            },
            _ => {},
        }
        if self.chains.len() == 0 {
            return None;
        }
        let chain = self.chains[self.chains.len() - 1].as_str();
        proof {
            assert(chain@ == self@.chains.last());
        }
        match self.step {
            CleanupStep::Lookup => Some(egress::make_list_call(self.v6)),
            CleanupStep::List => Some(egress::make_list_call(self.v6)),
            CleanupStep::Unhook => {
                if self.interfaces.len() == 0 {
                    None
                } else {
                    let iface = self.interfaces[self.interfaces.len() - 1].as_str();
                    proof {
                        assert(iface@ == self@.interfaces.last());
                    }
                    Some(egress::make_hook_call(self.v6, "-D", iface, chain))
                }
            },
            CleanupStep::Flush => Some(egress::make_chain_call(self.v6, "-F", chain)),
            _ => Some(egress::make_chain_call(self.v6, "-X", chain)),
        }
    }

    fn next_chain(&mut self)
        ensures
            final(self)@ == old(self)@.next_chain(),
    {
        if self.chains.len() > 0 {
            self.step = CleanupStep::Lookup;
        } else if self.v6 {
            self.step = CleanupStep::Done;
        } else {
            self.v6 = true;
            self.step = CleanupStep::Save;
        }
    }

    fn next_interface(&mut self)
        ensures
            final(self)@ == old(self)@.next_interface(),
    {
        if self.interfaces.len() > 0 {
            self.step = CleanupStep::List;
        } else {
            self.step = CleanupStep::Flush;
        }
    }

    fn drop_interface(&mut self)
        requires
            old(self)@.interfaces.len() > 0,
        ensures
            final(self)@ == old(self)@.without_interface(),
    {
        let ghost before = self@;
        let _ = self.interfaces.pop();
        proof {
            assert(self@.interfaces =~= before.interfaces.drop_last());
        }
        self.next_interface();
    }

    /// Takes the reply to the command.
    pub fn advance(&mut self, reply: &Reply)
        ensures
            final(self)@ == old(self)@.advanced(reply@),
    {
        if self.call().is_none() {
            return;
        }
        match self.step {
            CleanupStep::Save => {
                match reply {
                    Reply::NotStarted(_) => {},
                    Reply::Ended { stdout, .. } => {
                        let chains = declared_chains(stdout.as_str());
                        self.chains = reversed(&chains);
                    },
                }
                self.next_chain();
            },
            CleanupStep::Lookup => {
                let chain = self.chains[self.chains.len() - 1].clone();
                proof {
                    assert(chain@ == self@.chains.last());
                }
                if reply.is_ok() {
                    let interfaces = firewall::output_interfaces_for_chain(
                        output(reply),
                        chain.as_str(),
                    );
                    self.interfaces = reversed(&interfaces);
                } else {
                    self.interfaces = Vec::new();
                    proof {
                        assert(seqs::views(self.interfaces@) =~= Seq::<Seq<char>>::empty());
                    }
                }
                self.next_interface();
            },
            CleanupStep::List => {
                let n = self.interfaces.len();
                if n == 0 {
                    self.next_interface();
                    return;
                }
                let chain = self.chains[self.chains.len() - 1].as_str();
                let iface = self.interfaces[n - 1].as_str();
                proof {
                    assert(chain@ == self@.chains.last());
                    assert(iface@ == self@.interfaces.last());
                }
                if reply.is_ok() && firewall::output_has_hook(output(reply), iface, chain) {
                    self.step = CleanupStep::Unhook;
                } else {
                    self.drop_interface();
                }
            },
            CleanupStep::Unhook => {
                if reply.is_ok() {
                    self.step = CleanupStep::List;
                } else {
                    self.drop_interface();
                }
            },
            CleanupStep::Flush => {
                self.step = CleanupStep::Delete;
            },
            CleanupStep::Delete => {
                let ghost before = self@;
                let _ = self.chains.pop();
                proof {
                    assert(self@.chains =~= before.chains.drop_last());
                }
                self.next_chain();
            },
            CleanupStep::Done => {},
        }
    }
}

impl FirewallController {
    /// Removes the egress whitelist filter for a specific interface
    pub fn remove_egress_whitelist(interface: &str) -> (r: RemovalSession)
        ensures
            r@ == RemovalView::start(interface@),
    {
        RemovalSession {
            interface: interface.to_owned(),
            v6: false,
            next: 0,
            step: RemovalStep::List,
        }
    }

    /// Cleans up all RT_EGRESS chains on reset
    pub fn cleanup_all() -> (r: CleanupSession)
        ensures
            r@ == CleanupView::start(),
    {
        let r = CleanupSession {
            v6: false,
            chains: Vec::new(),
            interfaces: Vec::new(),
            step: CleanupStep::Save,
        };
        proof {
            assert(r@ =~= CleanupView::start());
        }
        r
    }
}

// ---------------------------------------------------------------------------------------------
// What holds of it
// ---------------------------------------------------------------------------------------------
/// The work after replies.
pub open spec fn run(s: CleanupView, replies: Seq<ReplyView>) -> CleanupView
    decreases replies.len(),
{
    if replies.len() == 0 {
        s
    } else {
        run(s, replies.drop_last()).advanced(replies.last())
    }
}

/// Whether the work on a family has a chain before it.
pub open spec fn before_it(s: CleanupView, v6: bool, chain: Seq<char>) -> bool {
    s.v6 == v6 && s.chains.contains(chain) && !(s.step is Save) && !(s.step is Done)
}

/// A chain is left behind only once it has been deleted.
proof fn lemma_left_when_deleted(s: CleanupView, reply: ReplyView, chain: Seq<char>)
    requires
        before_it(s, s.v6, chain),
        !before_it(s.advanced(reply), s.v6, chain),
    ensures
        s.call() == Some(egress::chain_call(s.v6, "-X"@, chain)),
{
    if s.step is Delete {
        let rest = s.chains.drop_last();
        let k = choose|k: int| 0 <= k < s.chains.len() && s.chains[k] == chain;
        if s.chains.last() != chain {
            assert(rest[k] == chain);
            assert(rest.contains(chain));
        }
    }
}

proof fn lemma_deleted_on_the_way(
    s: CleanupView,
    replies: Seq<ReplyView>,
    v6: bool,
    chain: Seq<char>,
    j: int,
) -> (i: int)
    requires
        0 <= j <= replies.len(),
        before_it(run(s, replies.take(j)), v6, chain),
        !before_it(run(s, replies), v6, chain),
    ensures
        0 <= i < replies.len(),
        run(s, replies.take(i)).call() == Some(egress::chain_call(v6, "-X"@, chain)),
    decreases replies.len() - j,
{
    if j == replies.len() {
        assert(replies.take(j) =~= replies);
        j
    } else {
        assert(replies.take(j + 1).drop_last() =~= replies.take(j));
        assert(replies.take(j + 1).last() == replies[j]);
        if before_it(run(s, replies.take(j + 1)), v6, chain) {
            lemma_deleted_on_the_way(s, replies, v6, chain, j + 1)
        } else {
            lemma_left_when_deleted(run(s, replies.take(j)), replies[j], chain);
            j
        }
    }
}

/// No chain is left behind: once all is done, every chain of ours that the saved table of a
/// family declared was told to be deleted, whatever the host said to anything else.
pub proof fn law_every_declared_chain_is_deleted(
    s: CleanupView,
    replies: Seq<ReplyView>,
    chain: Seq<char>,
) -> (i: int)
    requires
        s.step is Save,
        replies.len() > 0,
        replies[0] matches ReplyView::Ended { stdout, .. } && seqs::flat(
            text::lines(stdout),
            declared_chain(),
        ).contains(chain),
        run(s, replies).step is Done,
    ensures
        0 <= i < replies.len(),
        run(s, replies.take(i)).call() == Some(egress::chain_call(s.v6, "-X"@, chain)),
{
    let first = replies.take(1);
    assert(first.drop_last().len() == 0);
    assert(first.last() == replies[0]);
    reveal_with_fuel(run, 2);
    let declared = seqs::flat(text::lines(replies[0]->stdout), declared_chain());
    let k = choose|k: int| 0 <= k < declared.len() && declared[k] == chain;
    let chains = declared.reverse();
    assert(chains[declared.len() - 1 - k] == chain);
    assert(run(s, first).chains == chains);
    lemma_deleted_on_the_way(s, replies, s.v6, chain, 1)
}

/// Both families are cleaned: all is done only once the saved table of IPv6 was asked for too.
pub proof fn law_both_families_are_cleaned(replies: Seq<ReplyView>) -> (k: int)
    requires
        run(CleanupView::start(), replies).step is Done,
    ensures
        0 <= k < replies.len(),
        run(CleanupView::start(), replies.take(k)).call() == Some(
            CallView { program: "ip6tables"@ + "-save"@, args: Seq::empty() },
        ),
        replies.len() > 0,
        CleanupView::start().call() == Some(
            CallView { program: "iptables"@ + "-save"@, args: Seq::empty() },
        ),
{
    lemma_done_with_v6(replies);
    lemma_v6_saved(replies)
}

proof fn lemma_done_with_v6(replies: Seq<ReplyView>)
    ensures
        run(CleanupView::start(), replies).step is Done ==> run(CleanupView::start(), replies).v6,
    decreases replies.len(),
{
    if replies.len() > 0 {
        lemma_done_with_v6(replies.drop_last());
        lemma_turns(run(CleanupView::start(), replies.drop_last()), replies.last());
    }
}

proof fn lemma_v6_saved(replies: Seq<ReplyView>) -> (k: int)
    requires
        run(CleanupView::start(), replies).v6,
        !(run(CleanupView::start(), replies).step is Save),
    ensures
        0 <= k < replies.len(),
        run(CleanupView::start(), replies.take(k)).v6,
        run(CleanupView::start(), replies.take(k)).step is Save,
    decreases replies.len(),
{
    let before = replies.drop_last();
    let s = run(CleanupView::start(), before);
    assert(replies.len() > 0);
    assert(replies.take(before.len() as int) =~= before);
    if s.v6 && s.step is Save {
        before.len() as int
    } else {
        lemma_turns(s, replies.last());
        let k = lemma_v6_saved(before);
        assert(before.take(k) =~= replies.take(k));
        k
    }
}

proof fn lemma_turns(s: CleanupView, reply: ReplyView)
    ensures
        !s.v6 && s.advanced(reply).v6 ==> s.advanced(reply).step is Save,
        s.v6 && !(s.step is Save) ==> !(s.advanced(reply).step is Save),
        s.advanced(reply).step is Done && !(s.step is Done) ==> s.advanced(reply).v6,
        s.step is Done ==> s.advanced(reply) == s,
{
}

/// The removal after replies.
pub open spec fn removed(s: RemovalView, replies: Seq<ReplyView>) -> RemovalView
    decreases replies.len(),
{
    if replies.len() == 0 {
        s
    } else {
        removed(s, replies.drop_last()).advanced(replies.last())
    }
}

/// Whether the removal told to delete a chain of a family.
pub open spec fn deletion_told(
    s: RemovalView,
    replies: Seq<ReplyView>,
    v6: bool,
    chain: Seq<char>,
) -> bool {
    exists|k: int|
        0 <= k < replies.len() && removed(s, #[trigger] replies.take(k)).call() == Some(
            CallView {
                program: if v6 {
                    "ip6tables"@
                } else {
                    "iptables"@
                },
                args: seq!["-X"@, chain],
            },
        )
}

spec fn told_up_to(s: RemovalView, replies: Seq<ReplyView>) -> bool {
    let now = removed(s, replies);
    let g = egress::generations(s.interface);
    &&& now.interface == s.interface
    &&& now.next <= 3
    &&& now.next == 3 ==> now.v6
    &&& forall|i: int|
        0 <= i < 3 && (now.v6 || i < now.next) ==> deletion_told(s, replies, false, #[trigger] g[i])
    &&& forall|i: int|
        0 <= i < 3 && now.v6 && i < now.next ==> deletion_told(s, replies, true, #[trigger] g[i])
}

proof fn lemma_told(interface: Seq<char>, replies: Seq<ReplyView>)
    ensures
        told_up_to(RemovalView::start(interface), replies),
    decreases replies.len(),
{
    let s = RemovalView::start(interface);
    let g = egress::generations(interface);
    if replies.len() > 0 {
        let before = replies.drop_last();
        let was = removed(s, before);
        let now = removed(s, replies);
        lemma_told(interface, before);
        assert(replies.take(before.len() as int) =~= before);
        assert forall|v6: bool, c: Seq<char>| #[trigger] deletion_told(s, before, v6, c) implies
            deletion_told(s, replies, v6, c) by {
            let k = choose|k: int|
                0 <= k < before.len() && removed(s, #[trigger] before.take(k)).call() == Some(
                    CallView {
                        program: if v6 {
                            "ip6tables"@
                        } else {
                            "iptables"@
                        },
                        args: seq!["-X"@, c],
                    },
                );
            assert(before.take(k) =~= replies.take(k));
        }
        if was.next < 3 && was.step is Delete {
            let c = g[was.next as int];
            assert(was.call() == Some(egress::chain_call(was.v6, "-X"@, c)));
            assert(removed(s, replies.take(before.len() as int)).call() == was.call());
            assert(deletion_told(s, replies, was.v6, c));
        }
        assert forall|i: int| 0 <= i < 3 && (now.v6 || i < now.next) implies deletion_told(
            s,
            replies,
            false,
            #[trigger] g[i],
        ) by {
            if was.v6 || i < was.next {
                assert(deletion_told(s, before, false, g[i]));
            }
        }
        assert forall|i: int| 0 <= i < 3 && now.v6 && i < now.next implies deletion_told(
            s,
            replies,
            true,
            #[trigger] g[i],
        ) by {
            if was.v6 && i < was.next {
                assert(deletion_told(s, before, true, g[i]));
            }
        }
    }
}

/// Removing a filter leaves no generation of its chain behind: once there is nothing more to run,
/// each of the three was told to be deleted in both families, whatever the host said.
pub proof fn law_every_generation_is_deleted(
    interface: Seq<char>,
    replies: Seq<ReplyView>,
    v6: bool,
)
    requires
        removed(RemovalView::start(interface), replies).call() is None,
    ensures
        deletion_told(
            RemovalView::start(interface),
            replies,
            v6,
            firewall::chain_of(interface, Seq::empty()),
        ),
        deletion_told(
            RemovalView::start(interface),
            replies,
            v6,
            firewall::chain_of(interface, "_A"@),
        ),
        deletion_told(
            RemovalView::start(interface),
            replies,
            v6,
            firewall::chain_of(interface, "_B"@),
        ),
{
    lemma_told(interface, replies);
    let g = egress::generations(interface);
    assert(g[0] == firewall::chain_of(interface, Seq::empty()));
    assert(g[1] == firewall::chain_of(interface, "_A"@));
    assert(g[2] == firewall::chain_of(interface, "_B"@));
}

/// The chains of a filter are recognised again: the line of a saved table that declares one names
/// it, whatever stands behind it.
pub proof fn law_own_chains_are_recognised(
    interface: Seq<char>,
    suffix: Seq<char>,
    rest: Seq<char>,
)
    requires
        text::solid(interface),
        text::solid(suffix),
    ensures
        declared_chain()(seq![':'] + firewall::chain_of(interface, suffix) + seq![' '] + rest)
            == seq![firewall::chain_of(interface, suffix)],
{
    reveal_strlit("RT_EGRESS_");
    reveal_strlit(":RT_EGRESS_");
    let chain = firewall::chain_of(interface, suffix);
    let line = seq![':'] + chain + seq![' '] + rest;
    let name = text::replace_any(interface, seq!['.', '-'], '_');
    assert forall|i: int| 0 <= i < chain.len() implies !text::is_white(#[trigger] chain[i]) by {
        if i < 10 {
            assert(chain[i] == "RT_EGRESS_"@[i]);
        } else if i < 10 + name.len() {
            assert(chain[i] == name[i - 10]);
            assert(!text::is_white(interface[i - 10]));
        } else {
            assert(chain[i] == suffix[i - 10 - name.len()]);
        }
    }
    assert(chain[0] == 'R');
    assert(line.skip(1) =~= chain + (seq![' '] + rest));
    let tail = line.skip(1);
    assert(tail[0] == 'R');
    assert(text::strip_lead(line, ':') == text::strip_lead(tail, ':'));
    assert(text::strip_lead(tail, ':') == tail);
    assert(tail[chain.len() as int] == ' ');
    assert forall|j: int| 0 <= j < chain.len() implies !text::is_white(#[trigger] tail[j]) by {
        assert(tail[j] == chain[j]);
    }
    text::lemma_word_len_is(tail, chain.len() as int);
    assert(tail.take(chain.len() as int) =~= chain);
    assert(text::words(tail)[0] == chain);
    assert(":RT_EGRESS_"@ =~= line.subrange(0, 11));
}

/// A hook goes before its chain: as long as the host lists a rule that sends what leaves the
/// interface to the chain, that rule is deleted next, and it is listed again after that.
pub proof fn law_hooks_go_before_the_chain(s: RemovalView, c: CleanupView, reply: ReplyView)
    requires
        reply.ok(),
    ensures
        s.next < 3 && s.step is List && firewall::hooked(reply.out(), s.interface, s.chain())
            ==> s.advanced(reply).call() == Some(
            CallView {
                program: if s.v6 {
                    "ip6tables"@
                } else {
                    "iptables"@
                },
                args: seq!["-D"@, "OUTPUT"@, "-o"@, s.interface, "-j"@, s.chain()],
            },
        ),
        s.next < 3 && s.step is List && !firewall::hooked(reply.out(), s.interface, s.chain())
            ==> s.advanced(reply).step is Flush,
        s.next < 3 && s.step is Unhook ==> s.advanced(reply).step is List,
        s.next < 3 && s.step is Flush ==> s.advanced(reply).step is Delete,
        c.step is List && c.chains.len() > 0 && c.interfaces.len() > 0 && firewall::hooked(
            reply.out(),
            c.interfaces.last(),
            c.chains.last(),
        ) ==> c.advanced(reply).call() == Some(
            CallView {
                program: if c.v6 {
                    "ip6tables"@
                } else {
                    "iptables"@
                },
                args: seq![
                    "-D"@,
                    "OUTPUT"@,
                    "-o"@,
                    c.interfaces.last(),
                    "-j"@,
                    c.chains.last(),
                ],
            },
        ),
{
}

} // verus!
