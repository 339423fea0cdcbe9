//! What was put in force, as it is remembered between runs.

use vstd::prelude::*;
use crate::error::{CoreError, CoreErrorView, LinuxError, LinuxErrorView};
use crate::model::{self, ActualState, ActualView, Route, RouteView, RpdbRule};
use crate::net::{self, IpNet};
use crate::seqs;

verus! {

#[derive(Debug)]
pub struct RuntimeState {
    pub allocated_table: u32,
    pub rule_priority: u32,
    pub routes_owned: Vec<Route>,
    pub rules_owned: Vec<RpdbRule>,
    pub firewall_whitelist: Vec<(String, String, Option<u16>)>,
    pub firewall_blacklist: Vec<IpNet>,
    pub firewall_interfaces: Vec<String>,
    pub generation: u64,
    pub last_reconcile_epoch: u64,
}

/// The value of a `RuntimeState` in specifications.
#[verifier::ext_equal]
pub struct RuntimeView {
    pub allocated_table: u32,
    pub rule_priority: u32,
    pub routes_owned: Seq<RouteView>,
    pub rules_owned: Seq<RpdbRule>,
    pub firewall_whitelist: Seq<(Seq<char>, Seq<char>, Option<u16>)>,
    pub firewall_blacklist: Seq<IpNet>,
    pub firewall_interfaces: Seq<Seq<char>>,
    pub generation: u64,
    pub last_reconcile_epoch: u64,
}

impl View for RuntimeState {
    type V = RuntimeView;

    open spec fn view(&self) -> RuntimeView {
        RuntimeView {
            allocated_table: self.allocated_table,
            rule_priority: self.rule_priority,
            routes_owned: seqs::views(self.routes_owned@),
            rules_owned: self.rules_owned@,
            firewall_whitelist: model::whitelist_views(self.firewall_whitelist@),
            firewall_blacklist: self.firewall_blacklist@,
            firewall_interfaces: seqs::views(self.firewall_interfaces@),
            generation: self.generation,
            last_reconcile_epoch: self.last_reconcile_epoch,
        }
    }
}

impl RuntimeView {
    /// Nothing in force yet.
    pub open spec fn fresh() -> RuntimeView {
        RuntimeView {
            allocated_table: 52000,
            rule_priority: 12000,
            routes_owned: Seq::empty(),
            rules_owned: Seq::empty(),
            firewall_whitelist: Seq::empty(),
            firewall_blacklist: Seq::empty(),
            firewall_interfaces: Seq::empty(),
            generation: 1,
            last_reconcile_epoch: 0,
        }
    }

    /// The routes and rules that are in force.
    pub open spec fn actual(self) -> ActualView {
        ActualView {
            routes: self.routes_owned,
            rules: self.rules_owned,
            allocated_table: self.allocated_table,
            rule_priority: self.rule_priority,
        }
    }
}

impl Default for RuntimeState {
    fn default() -> (r: RuntimeState)
        ensures
            r@ == RuntimeView::fresh(),
    {
        let r = RuntimeState {
            allocated_table: 52000,
            rule_priority: 12000,
            routes_owned: Vec::new(),
            rules_owned: Vec::new(),
            firewall_whitelist: Vec::new(),
            firewall_blacklist: Vec::new(),
            firewall_interfaces: Vec::new(),
            generation: 1,
            last_reconcile_epoch: 0,
        };
        proof {
            assert(r@ =~= RuntimeView::fresh());
        }
        r
    }
}

impl Clone for RuntimeState {
    fn clone(&self) -> (r: RuntimeState)
        ensures
            r@ == self@,
    {
        RuntimeState {
            allocated_table: self.allocated_table,
            rule_priority: self.rule_priority,
            routes_owned: model::copy_routes(&self.routes_owned),
            rules_owned: model::copy_rules(&self.rules_owned),
            firewall_whitelist: model::copy_whitelist(&self.firewall_whitelist),
            firewall_blacklist: net::copy_nets(&self.firewall_blacklist),
            firewall_interfaces: model::copy_names(&self.firewall_interfaces),
            generation: self.generation,
            last_reconcile_epoch: self.last_reconcile_epoch,
        }
    }
}

/// Where the state is kept.
#[derive(Debug, Clone)]
pub struct StateManager {
    path: String,
}

impl StateManager {
    pub closed spec fn file(&self) -> Seq<char> {
        self.path@
    }

    /// The state of the system if the process is root and there is a place for it, a temporary
    /// one otherwise.
    pub fn new(run_exists: bool, is_root: bool) -> (r: StateManager)
        ensures
            r.file() == if run_exists && is_root {
                "/run/reverse-tool/state.json"@
            } else {
                "/tmp/reverse-tool/state.json"@
            },
    {
        if run_exists && is_root {
            StateManager { path: "/run/reverse-tool/state.json".to_owned() }
        } else {
            StateManager { path: "/tmp/reverse-tool/state.json".to_owned() }
        }
    }

    pub fn with_path(path: &str) -> (r: StateManager)
        ensures
            r.file() == path@,
    {
        StateManager { path: path.to_owned() }
    }

    pub fn state_file_path(&self) -> (r: &str)
        ensures
            r@ == self.file(),
    {
        self.path.as_str()
    }

    /// The state that was kept: a fresh one if there is no file, and an error if what is in the
    /// file cannot be read.
    pub fn load(&self, found: Option<Result<RuntimeState, String>>) -> (r: Result<
        RuntimeState,
        LinuxError,
    >)
        ensures
            match (found, r) {
                (None, Ok(state)) => state@ == RuntimeView::fresh(),
                (Some(Ok(kept)), Ok(state)) => state@ == kept@,
                (Some(Err(message)), Err(e)) => e@ == LinuxErrorView::Core(
                    CoreErrorView::Serialization(message@),
                ),
                _ => false,
            },
    {
        match found {
            None => Ok(RuntimeState::default()),
            Some(Ok(state)) => Ok(state),
            Some(Err(message)) => Err(LinuxError::Core(CoreError::Serialization(message))),
        }
    }

    pub fn to_actual_state(&self, state: &RuntimeState) -> (r: ActualState)
        ensures
            r@ == state@.actual(),
    {
        ActualState {
            routes: model::copy_routes(&state.routes_owned),
            rules: model::copy_rules(&state.rules_owned),
            allocated_table: state.allocated_table,
            rule_priority: state.rule_priority,
        }
    }
}

/// A state in which nothing is in force owns nothing, in the table and at the priority of the
/// isolated routes.
pub proof fn law_fresh_state_owns_nothing()
    ensures
        RuntimeView::fresh().allocated_table == 52000,
        RuntimeView::fresh().rule_priority == 12000,
        RuntimeView::fresh().actual().routes.len() == 0,
        RuntimeView::fresh().actual().rules.len() == 0,
        RuntimeView::fresh().firewall_interfaces.len() == 0,
        RuntimeView::fresh().generation == 1,
{
}

/// What is in force is what is owned.
pub proof fn law_what_is_owned_is_in_force(s: RuntimeView)
    ensures
        s.actual().routes == s.routes_owned,
        s.actual().rules == s.rules_owned,
        s.actual().allocated_table == s.allocated_table,
        s.actual().rule_priority == s.rule_priority,
{
}

} // verus!
