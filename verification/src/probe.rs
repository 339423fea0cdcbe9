//! Whether the path through an interface works.

use vstd::prelude::*;
use crate::net::IpAddr;
use crate::netlink;
use crate::seqs;
use crate::strings;
use crate::text;

verus! {

/// What is still to be done to probe an interface: nothing, since the answer is known, or an
/// attempt to connect through it.
#[derive(Debug, Clone, Copy, PartialEq, Eq, Structural)]
pub enum ProbeStep {
    Known(bool),
    Connect { ip: IpAddr, port: u16, timeout_millis: u64 },
}

/// What came of an attempt to connect that does not wait.
#[derive(Debug, Clone, Copy, PartialEq, Eq, Structural)]
pub enum ConnectOutcome {
    Connected,
    Refused,
    /// The attempt went on; within the time limit the socket became writable or did not, and the
    /// error that it then had was this.
    Pending { writable: bool, error: i32 },
}

/// Whether an interface has a carrier, by what the system says of it. Interfaces that have no
/// notion of a carrier are judged by their state.
pub open spec fn carrier_of(carrier: Option<Seq<char>>, operstate: Option<Seq<char>>) -> bool {
    match carrier {
        Some(c) => text::trim(c) == "1"@,
        None => operstate matches Some(s) && netlink::state_up(s),
    }
}

pub struct PathProber;

impl PathProber {
    pub fn check_carrier(carrier: Option<&str>, operstate: Option<&str>) -> (r: bool)
        ensures
            r == carrier_of(seqs::opt_view(carrier), seqs::opt_view(operstate)),
    {
        match carrier {
            Some(c) => strings::same(strings::trim(c), "1"),
            None => match operstate {
                Some(s) => netlink::is_state_up(s),
                None => false,
            },
        }
    }

    /// Whether an attempt to connect reached its target.
    pub fn probe_tcp(outcome: ConnectOutcome) -> (r: bool)
        ensures
            r == match outcome {
                ConnectOutcome::Connected => true,
                ConnectOutcome::Refused => false,
                ConnectOutcome::Pending { writable, error } => writable && error == 0,
            },
    {
        match outcome {
            ConnectOutcome::Connected => true,
            ConnectOutcome::Refused => false,
            ConnectOutcome::Pending { writable, error } => writable && error == 0,
        }
    }

    /// Overall health check for an interface: carrier check + optional probe
    pub fn probe_interface(has_carrier: bool, target_probe: Option<(IpAddr, u16)>) -> (r: ProbeStep)
        ensures
            r == match target_probe {
                Some((ip, port)) => if has_carrier {
                    ProbeStep::Connect { ip, port, timeout_millis: 500 }
                } else {
                    ProbeStep::Known(false)
                },
                None => ProbeStep::Known(has_carrier),
            },
    {
        if !has_carrier {
            return ProbeStep::Known(false);
        }
        if let Some((ip, port)) = target_probe {
            ProbeStep::Connect { ip, port, timeout_millis: 500 }
        } else {
            ProbeStep::Known(true)
        }
    }
}

} // verus!
