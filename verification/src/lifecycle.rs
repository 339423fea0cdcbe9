//! The life of a daemon, from its start to its end.

use vstd::prelude::*;
use crate::apply::{self, Tick};
use crate::daemon::{DaemonState, DaemonView};
use crate::health;
use crate::names;
use crate::policy;
use crate::seqs;

verus! {

/// Where a daemon stands.
#[derive(Debug, Clone, Copy, PartialEq, Eq, Structural)]
pub enum Phase {
    Starting,
    Running,
    Stopped,
}

/// What happens to a daemon.
pub enum LifeEvent {
    /// It is started; a state may be left over from a run that did not end well.
    Start { leftover: bool },
    /// A round of probes is over.
    Probed { probes: Vec<(String, bool)>, now: u64 },
    /// A signal or a request tells it to stop.
    Stop,
}

/// The value of a `LifeEvent` in specifications.
pub enum LifeEventView {
    Start { leftover: bool },
    Probed { probes: Seq<(Seq<char>, bool)>, now: u64 },
    Stop,
}

impl View for LifeEvent {
    type V = LifeEventView;

    open spec fn view(&self) -> LifeEventView {
        match self {
            LifeEvent::Start { leftover } => LifeEventView::Start { leftover: *leftover },
            LifeEvent::Probed { probes, now } => LifeEventView::Probed {
                probes: apply::probe_views(probes@),
                now: *now,
            },
            LifeEvent::Stop => LifeEventView::Stop,
        }
    }
}

/// What a daemon has done.
pub enum LifeAction {
    /// Take all routes, rules and filters away.
    Reset,
    /// Open the socket, and write down the number of the process.
    Listen,
    /// Put the policy in force.
    Apply,
    /// Take default routes off these interfaces.
    Guard(Vec<String>),
    EndProbes,
    /// Remove the socket and the number of the process.
    RemoveFiles,
}

/// The value of a `LifeAction` in specifications.
pub enum LifeActionView {
    Reset,
    Listen,
    Apply,
    Guard(Seq<Seq<char>>),
    EndProbes,
    RemoveFiles,
}

impl View for LifeAction {
    type V = LifeActionView;

    open spec fn view(&self) -> LifeActionView {
        match self {
            LifeAction::Reset => LifeActionView::Reset,
            LifeAction::Listen => LifeActionView::Listen,
            LifeAction::Apply => LifeActionView::Apply,
            LifeAction::Guard(v) => LifeActionView::Guard(seqs::views(v@)),
            LifeAction::EndProbes => LifeActionView::EndProbes,
            LifeAction::RemoveFiles => LifeActionView::RemoveFiles,
        }
    }
}

/// What the start of a daemon takes: what is left over goes first, and the policy is in force as
/// soon as the daemon listens.
pub open spec fn start_actions(leftover: bool) -> Seq<LifeActionView> {
    if leftover {
        seq![LifeActionView::Reset, LifeActionView::Listen, LifeActionView::Apply]
    } else {
        seq![LifeActionView::Listen, LifeActionView::Apply]
    }
}

/// What the end of a daemon takes. The probes end first, so that none of them has the policy put
/// in force again.
pub open spec fn stop_actions() -> Seq<LifeActionView> {
    seq![LifeActionView::EndProbes, LifeActionView::Reset, LifeActionView::RemoveFiles]
}

/// What a round of probes has done.
pub open spec fn probe_actions(
    d: DaemonView,
    probes: Seq<(Seq<char>, bool)>,
    now: u64,
) -> Seq<LifeActionView> {
    if apply::availability_changes(d.health_config, d.health, probes, now) {
        seq![LifeActionView::Apply]
    } else {
        seq![LifeActionView::Guard(apply::guarded(apply::probed(d, probes, now)))]
    }
}

/// The phase, the daemon and the actions after an event.
pub open spec fn lived(phase: Phase, d: DaemonView, event: LifeEventView) -> (
    Phase,
    DaemonView,
    Seq<LifeActionView>,
) {
    match (phase, event) {
        (Phase::Starting, LifeEventView::Start { leftover }) => (
            Phase::Running,
            d,
            start_actions(leftover),
        ),
        (Phase::Running, LifeEventView::Probed { probes, now }) => (
            Phase::Running,
            apply::probed(d, probes, now),
            probe_actions(d, probes, now),
        ),
        (Phase::Running, LifeEventView::Stop) => (Phase::Stopped, d, stop_actions()),
        _ => (phase, d, Seq::empty()),
    }
}

/// A daemon and where it stands.
pub struct Lifecycle {
    pub phase: Phase,
    pub state: DaemonState,
}

impl Lifecycle {
    /// A daemon that is not started yet.
    pub fn new(state: DaemonState) -> (r: Lifecycle)
        ensures
            r.phase == Phase::Starting,
            r.state@ == state@,
    {
        Lifecycle { phase: Phase::Starting, state }
    }

    /// Takes an event and tells what is to be done about it, in order.
    pub fn on(&mut self, event: LifeEvent) -> (r: Vec<LifeAction>)
        requires
            event matches LifeEvent::Probed { probes, now } ==> apply::room_for(
                old(self).state@.health,
                apply::probe_views(probes@),
            ),
        ensures
            (final(self).phase, final(self).state@, seqs::views(r@)) == lived(
                old(self).phase,
                old(self).state@,
                event@,
            ),
    {
        let mut actions: Vec<LifeAction> = Vec::new();
        match (self.phase, event) {
            (Phase::Starting, LifeEvent::Start { leftover }) => {
                if leftover {
                    actions.push(LifeAction::Reset);
                }
                actions.push(LifeAction::Listen);
                actions.push(LifeAction::Apply);
                self.phase = Phase::Running;
                proof {
                    assert(seqs::views(actions@) =~= start_actions(leftover));
                }
            },
            (Phase::Running, LifeEvent::Probed { probes, now }) => {
                let ghost d = self.state@;
                let ghost all = apply::probe_views(probes@);
                match self.state.tick(&probes, now) {
                    Tick::Apply => {
                        actions.push(LifeAction::Apply);
                    },
                    Tick::Guard(names) => {
                        actions.push(LifeAction::Guard(names));
                    },
                }
                proof {
                    assert(seqs::views(actions@) =~= probe_actions(d, all, now));
                }
            },
            (Phase::Running, LifeEvent::Stop) => {
                actions.push(LifeAction::EndProbes);
                actions.push(LifeAction::Reset);
                actions.push(LifeAction::RemoveFiles);
                self.phase = Phase::Stopped;
                proof {
                    assert(seqs::views(actions@) =~= stop_actions());
                }
            },
            _ => {
                proof {
                    assert(seqs::views(actions@) =~= Seq::<LifeActionView>::empty());
                }
            },
        }
        actions
    }
}

/// The phase, the daemon and all actions after events.
pub open spec fn life(d: DaemonView, events: Seq<LifeEventView>) -> (
    Phase,
    DaemonView,
    Seq<LifeActionView>,
)
    decreases events.len(),
{
    if events.len() == 0 {
        (Phase::Starting, d, Seq::empty())
    } else {
        let (phase, before, done) = life(d, events.drop_last());
        let (next, after, more) = lived(phase, before, events.last());
        (next, after, done + more)
    }
}

/// A daemon leaves nothing behind: whatever happens to it, the last that is done before it is
/// stopped is to end the probes, to take everything away and to remove its files.
pub proof fn law_end_takes_everything_away(d: DaemonView, events: Seq<LifeEventView>)
    requires
        life(d, events).0 == Phase::Stopped,
    ensures
        stop_actions().is_suffix_of(life(d, events).2),
    decreases events.len(),
{
    if events.len() > 0 {
        let (phase, before, done) = life(d, events.drop_last());
        let all = life(d, events).2;
        if phase == Phase::Stopped {
            law_end_takes_everything_away(d, events.drop_last());
            assert(done + Seq::<LifeActionView>::empty() =~= done);
        } else {
            assert(all == done + stop_actions());
            assert(all.subrange(all.len() - 3, all.len() as int) =~= stop_actions());
        }
    }
}

/// A daemon that runs has put its policy in force, and has taken away before that what was left
/// over.
pub proof fn law_start_puts_the_policy_in_force(
    d: DaemonView,
    leftover: bool,
    events: Seq<LifeEventView>,
)
    requires
        events.len() > 0,
        events[0] == (LifeEventView::Start { leftover }),
    ensures
        start_actions(leftover).is_prefix_of(life(d, events).2),
        life(d, events).0 != Phase::Starting,
    decreases events.len(),
{
    let rest = events.drop_last();
    if rest.len() == 0 {
        reveal_with_fuel(life, 2);
        let all = life(d, events).2;
        assert(all =~= start_actions(leftover));
        assert(all.subrange(0, start_actions(leftover).len() as int) =~= all);
    } else {
        assert(rest[0] == events[0]);
        law_start_puts_the_policy_in_force(d, leftover, rest);
        let done = life(d, rest).2;
        let all = life(d, events).2;
        let n = start_actions(leftover).len() as int;
        assert(all.subrange(0, n) =~= done.subrange(0, n));
    }
}

/// What is done at the start and at the end. What is left over is taken away before the daemon
/// listens, and its policy is put in force then; at the end the probes are ended, everything is
/// taken away and the files are removed.
pub proof fn law_start_and_end(d: DaemonView, leftover: bool)
    ensures
        ({
            let (phase, after, done) = lived(
                Phase::Starting,
                d,
                LifeEventView::Start { leftover },
            );
            &&& phase == Phase::Running
            &&& after == d
            &&& leftover ==> done == seq![
                LifeActionView::Reset,
                LifeActionView::Listen,
                LifeActionView::Apply,
            ]
            &&& !leftover ==> done == seq![LifeActionView::Listen, LifeActionView::Apply]
        }),
        ({
            let (phase, after, done) = lived(Phase::Running, d, LifeEventView::Stop);
            &&& phase == Phase::Stopped
            &&& after == d
            &&& done == seq![
                LifeActionView::EndProbes,
                LifeActionView::Reset,
                LifeActionView::RemoveFiles,
            ]
        }),
{
}

/// A failover puts the policy in force anew: a round of probes after which some path is available
/// that was not, or the other way round, has the policy applied. A round that changes nothing only
/// has the interfaces of targets kept free of default routes.
pub proof fn law_failover_applies_the_policy(
    d: DaemonView,
    probes: Seq<(Seq<char>, bool)>,
    now: u64,
    name: Seq<char>,
)
    requires
        names::ascending(names::keys(d.health)),
    ensures
        ({
            let (phase, after, done) = lived(
                Phase::Running,
                d,
                LifeEventView::Probed { probes, now },
            );
            &&& phase == Phase::Running
            &&& after.config == d.config
            &&& after.default_wan == d.default_wan
            &&& health::available(policy::health_of(after.health, name)) != health::available(
                policy::health_of(d.health, name),
            ) ==> done == seq![LifeActionView::Apply]
            &&& done == seq![LifeActionView::Apply] || done == seq![
                LifeActionView::Guard(apply::guarded(after)),
            ]
        }),
{
    if !apply::availability_changes(d.health_config, d.health, probes, now) {
        apply::law_no_change_goes_unnoticed(d.health_config, d.health, probes, now, name);
    }
}

} // verus!
