//! The health of the path through an interface, with hysteresis in both directions.

use vstd::prelude::*;
use crate::model::{HealthState, PathHealth};

verus! {

#[derive(Debug, Clone, Copy, PartialEq, Eq, Structural)]
pub struct HealthConfig {
    /// Failures in a row that degrade a healthy path.
    pub failure_threshold: u32,
    /// Successes in a row that let a path that is down recover.
    pub recovery_threshold: u32,
    pub failback_cooldown_secs: u64,
}

impl HealthConfig {
    pub open spec fn standard() -> HealthConfig {
        HealthConfig { failure_threshold: 3, recovery_threshold: 2, failback_cooldown_secs: 10 }
    }
}

impl Default for HealthConfig {
    fn default() -> (r: HealthConfig)
        ensures
            r == HealthConfig::standard(),
    {
        HealthConfig { failure_threshold: 3, recovery_threshold: 2, failback_cooldown_secs: 10 }
    }
}

/// The state after a successful probe that is the `successes`-th in a row.
pub open spec fn state_after_success(
    config: HealthConfig,
    state: HealthState,
    successes: int,
) -> HealthState {
    match state {
        HealthState::Unknown => HealthState::Healthy,
        HealthState::Degraded => HealthState::Healthy,
        HealthState::Healthy => HealthState::Healthy,
        HealthState::Down => if successes >= config.recovery_threshold {
            HealthState::Recovering
        } else {
            HealthState::Down
        },
        HealthState::Recovering => if successes > config.recovery_threshold {
            HealthState::Healthy
        } else {
            HealthState::Recovering
        },
    }
}

/// The state after a failed probe that is the `failures`-th in a row.
pub open spec fn state_after_failure(
    config: HealthConfig,
    state: HealthState,
    failures: int,
) -> HealthState {
    match state {
        HealthState::Healthy => if failures >= config.failure_threshold {
            HealthState::Degraded
        } else {
            HealthState::Healthy
        },
        _ => HealthState::Down,
    }
}

/// What is known of a path after a successful probe.
pub open spec fn after_success(config: HealthConfig, h: PathHealth, now: u64) -> PathHealth {
    PathHealth {
        state: state_after_success(config, h.state, h.consecutive_successes + 1),
        link_up: true,
        consecutive_failures: 0,
        consecutive_successes: (h.consecutive_successes + 1) as u32,
        last_check_epoch_secs: now,
        ..h
    }
}

/// What is known of a path after a failed probe.
pub open spec fn after_failure(config: HealthConfig, h: PathHealth, now: u64) -> PathHealth {
    PathHealth {
        state: state_after_failure(config, h.state, h.consecutive_failures + 1),
        consecutive_successes: 0,
        consecutive_failures: (h.consecutive_failures + 1) as u32,
        last_check_epoch_secs: now,
        ..h
    }
}

/// Whether a path in this state carries traffic.
pub open spec fn available(h: PathHealth) -> bool {
    h.state is Healthy || h.state is Recovering
}

#[derive(Debug, Clone, Copy)]
pub struct HealthStateMachine {
    config: HealthConfig,
}

impl HealthStateMachine {
    pub closed spec fn config(&self) -> HealthConfig {
        self.config
    }

    pub fn new(config: HealthConfig) -> (r: HealthStateMachine)
        ensures
            r.config() == config,
    {
        HealthStateMachine { config }
    }

    pub fn with_default_config() -> (r: HealthStateMachine)
        ensures
            r.config() == HealthConfig::standard(),
    {
        Self::new(HealthConfig::default())
    }

    pub fn record_success(&self, health: &mut PathHealth, now_epoch_secs: u64)
        requires
            old(health).consecutive_successes < u32::MAX,
        ensures
            *final(health) == after_success(self.config(), *old(health), now_epoch_secs),
    {
        health.consecutive_failures = 0;
        health.consecutive_successes += 1;
        health.last_check_epoch_secs = now_epoch_secs;
        health.link_up = true;
        match health.state {
            HealthState::Unknown => {
                health.state = HealthState::Healthy;
            },
            HealthState::Down => {
                if health.consecutive_successes >= self.config.recovery_threshold {
                    health.state = HealthState::Recovering;
                }
            },
            HealthState::Recovering => {
                if health.consecutive_successes > self.config.recovery_threshold {
                    health.state = HealthState::Healthy;
                }
            },
            HealthState::Degraded => {
                health.state = HealthState::Healthy;
            },
            HealthState::Healthy => {},
        }
    }

    pub fn record_failure(&self, health: &mut PathHealth, now_epoch_secs: u64)
        requires
            old(health).consecutive_failures < u32::MAX,
        ensures
            *final(health) == after_failure(self.config(), *old(health), now_epoch_secs),
    {
        health.consecutive_successes = 0;
        health.consecutive_failures += 1;
        health.last_check_epoch_secs = now_epoch_secs;
        match health.state {
            HealthState::Unknown => {
                health.state = HealthState::Down;
            },
            HealthState::Healthy => {
                if health.consecutive_failures >= self.config.failure_threshold {
                    health.state = HealthState::Degraded;
                }
            },
            HealthState::Degraded => {
                health.state = HealthState::Down;
            },
            HealthState::Recovering => {
                health.state = HealthState::Down;
            },
            HealthState::Down => {},
        }
    }

    pub fn is_available(&self, health: &PathHealth) -> (r: bool)
        ensures
            r == available(*health),
    {
        match health.state {
            HealthState::Healthy | HealthState::Recovering => true,
            HealthState::Unknown | HealthState::Degraded | HealthState::Down => false,
        }
    }
}

/// What is known of a path after `n` successful probes in a row, all at time `now`.
pub open spec fn after_successes(config: HealthConfig, h: PathHealth, now: u64, n: nat) -> PathHealth
    decreases n,
{
    if n == 0 {
        h
    } else {
        after_success(config, after_successes(config, h, now, (n - 1) as nat), now)
    }
}

/// What is known of a path after `n` failed probes in a row, all at time `now`.
pub open spec fn after_failures(config: HealthConfig, h: PathHealth, now: u64, n: nat) -> PathHealth
    decreases n,
{
    if n == 0 {
        h
    } else {
        after_failure(config, after_failures(config, h, now, (n - 1) as nat), now)
    }
}

/// A path that is down stays down until as many probes in a row have succeeded as the recovery
/// threshold says; the probe after that makes it healthy, and not before.
pub proof fn law_recovery_takes_the_threshold(
    config: HealthConfig,
    h: PathHealth,
    now: u64,
    n: nat,
)
    requires
        h.state is Down,
        h.consecutive_successes == 0,
        config.recovery_threshold >= 1,
        n <= u32::MAX,
    ensures
        after_successes(config, h, now, n).consecutive_successes == n,
        after_successes(config, h, now, n).state == if n < config.recovery_threshold {
            HealthState::Down
        } else if n == config.recovery_threshold {
            HealthState::Recovering
        } else {
            HealthState::Healthy
        },
    decreases n,
{
    if n > 0 {
        law_recovery_takes_the_threshold(config, h, now, (n - 1) as nat);
    }
}

/// A healthy path stays healthy until as many probes in a row have failed as the failure
/// threshold says; it is degraded then, and down after one failure more.
pub proof fn law_failure_takes_the_threshold(config: HealthConfig, h: PathHealth, now: u64, n: nat)
    requires
        h.state is Healthy,
        h.consecutive_failures == 0,
        config.failure_threshold >= 1,
        n <= u32::MAX,
    ensures
        after_failures(config, h, now, n).consecutive_failures == n,
        after_failures(config, h, now, n).state == if n < config.failure_threshold {
            HealthState::Healthy
        } else if n == config.failure_threshold {
            HealthState::Degraded
        } else {
            HealthState::Down
        },
    decreases n,
{
    if n > 0 {
        law_failure_takes_the_threshold(config, h, now, (n - 1) as nat);
    }
}

/// A failed probe makes no path available that was not, and a successful one takes none away.
pub proof fn law_probes_move_availability_one_way(config: HealthConfig, h: PathHealth, now: u64)
    ensures
        available(after_failure(config, h, now)) ==> available(h),
        available(h) ==> available(after_success(config, h, now)),
{
}

/// A path that is down never becomes healthy in one probe: it recovers first.
pub proof fn law_down_recovers_first(config: HealthConfig, h: PathHealth, now: u64)
    requires
        h.state is Down,
    ensures
        !(after_success(config, h, now).state is Healthy),
        after_failure(config, h, now).state is Down,
{
}

/// Every step of a path. A successful probe makes a path healthy that was unknown, degraded or
/// healthy; a failed one takes a path down unless it was healthy. Each counts itself and starts
/// the other count anew.
pub proof fn law_every_probe_counts(config: HealthConfig, h: PathHealth, now: u64)
    requires
        h.consecutive_successes < u32::MAX,
        h.consecutive_failures < u32::MAX,
    ensures
        ({
            let s = after_success(config, h, now);
            let f = after_failure(config, h, now);
            &&& h.state is Unknown || h.state is Degraded || h.state is Healthy ==> s.state is Healthy
            &&& h.state is Down ==> s.state == if h.consecutive_successes + 1
                >= config.recovery_threshold {
                HealthState::Recovering
            } else {
                HealthState::Down
            }
            &&& h.state is Recovering ==> s.state == if h.consecutive_successes + 1
                > config.recovery_threshold {
                HealthState::Healthy
            } else {
                HealthState::Recovering
            }
            &&& !(h.state is Healthy) ==> f.state is Down
            &&& h.state is Healthy ==> f.state == if h.consecutive_failures + 1
                >= config.failure_threshold {
                HealthState::Degraded
            } else {
                HealthState::Healthy
            }
            &&& s.consecutive_successes == h.consecutive_successes + 1
            &&& s.consecutive_failures == 0
            &&& f.consecutive_failures == h.consecutive_failures + 1
            &&& f.consecutive_successes == 0
            &&& s.last_check_epoch_secs == now
            &&& f.last_check_epoch_secs == now
            &&& s.link_up
            &&& f.link_up == h.link_up
        }),
{
}

/// A path carries traffic while it is healthy or recovering, and in no other state.
pub proof fn law_only_sound_paths_carry_traffic(h: PathHealth)
    ensures
        available(h) <==> h.state == HealthState::Healthy || h.state == HealthState::Recovering,
        !available(PathHealth::unknown()),
{
}

/// By default three failures in a row degrade a path and two successes let it recover.
pub proof fn law_standard_thresholds()
    ensures
        HealthConfig::standard().failure_threshold == 3,
        HealthConfig::standard().recovery_threshold == 2,
        HealthConfig::standard().failback_cooldown_secs == 10,
{
}

} // verus!
