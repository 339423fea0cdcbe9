//! What can go wrong when configurations are read and plans are made.

use vstd::prelude::*;

verus! {

#[derive(Debug, PartialEq, Eq)]
pub enum CoreError {
    Config(String),
    InvalidTarget(String),
    InterfaceNotFound(String),
    Policy(String),
    Planner(String),
    Classification(String),
    Serialization(String),
}

/// The value of a `CoreError` in specifications.
pub enum CoreErrorView {
    Config(Seq<char>),
    InvalidTarget(Seq<char>),
    InterfaceNotFound(Seq<char>),
    Policy(Seq<char>),
    Planner(Seq<char>),
    Classification(Seq<char>),
    Serialization(Seq<char>),
}

impl View for CoreError {
    type V = CoreErrorView;

    open spec fn view(&self) -> CoreErrorView {
        match self {
            CoreError::Config(s) => CoreErrorView::Config(s@),
            CoreError::InvalidTarget(s) => CoreErrorView::InvalidTarget(s@),
            CoreError::InterfaceNotFound(s) => CoreErrorView::InterfaceNotFound(s@),
            CoreError::Policy(s) => CoreErrorView::Policy(s@),
            CoreError::Planner(s) => CoreErrorView::Planner(s@),
            CoreError::Classification(s) => CoreErrorView::Classification(s@),
            CoreError::Serialization(s) => CoreErrorView::Serialization(s@),
        }
    }
}

impl Clone for CoreError {
    fn clone(&self) -> (r: CoreError)
        ensures
            r@ == self@,
    {
        match self {
            CoreError::Config(s) => CoreError::Config(s.clone()),
            CoreError::InvalidTarget(s) => CoreError::InvalidTarget(s.clone()),
            CoreError::InterfaceNotFound(s) => CoreError::InterfaceNotFound(s.clone()),
            CoreError::Policy(s) => CoreError::Policy(s.clone()),
            CoreError::Planner(s) => CoreError::Planner(s.clone()),
            CoreError::Classification(s) => CoreError::Classification(s.clone()),
            CoreError::Serialization(s) => CoreError::Serialization(s.clone()),
        }
    }
}

impl CoreErrorView {
    /// The message of the error.
    pub open spec fn text(self) -> Seq<char> {
        match self {
            CoreErrorView::Config(s) => "Configuration error: "@ + s,
            CoreErrorView::InvalidTarget(s) => "Invalid target expression: "@ + s,
            CoreErrorView::InterfaceNotFound(s) => "Interface not found: "@ + s,
            CoreErrorView::Policy(s) => "Policy resolution error: "@ + s,
            CoreErrorView::Planner(s) => "Planner error: "@ + s,
            CoreErrorView::Classification(s) => "Classification error: "@ + s,
            CoreErrorView::Serialization(s) => "Serialization error: "@ + s,
        }
    }
}

impl CoreError {
    /// The message of the error.
    pub fn to_string(&self) -> (r: String)
        ensures
            r@ == self@.text(),
    {
        match self {
            CoreError::Config(s) => "Configuration error: ".to_owned().concat(s.as_str()),
            CoreError::InvalidTarget(s) => "Invalid target expression: ".to_owned().concat(
                s.as_str(),
            ),
            CoreError::InterfaceNotFound(s) => "Interface not found: ".to_owned().concat(s.as_str()),
            CoreError::Policy(s) => "Policy resolution error: ".to_owned().concat(s.as_str()),
            CoreError::Planner(s) => "Planner error: ".to_owned().concat(s.as_str()),
            CoreError::Classification(s) => "Classification error: ".to_owned().concat(s.as_str()),
            CoreError::Serialization(s) => "Serialization error: ".to_owned().concat(s.as_str()),
        }
    }
}

/// What can go wrong between the library and the host.
#[derive(Debug, PartialEq, Eq)]
pub enum LinuxError {
    Netlink(String),
    Capability(String),
    Dns(String),
    Probe(String),
    Io(String),
    Core(CoreError),
}

/// The value of a `LinuxError` in specifications.
pub enum LinuxErrorView {
    Netlink(Seq<char>),
    Capability(Seq<char>),
    Dns(Seq<char>),
    Probe(Seq<char>),
    Io(Seq<char>),
    Core(CoreErrorView),
}

impl View for LinuxError {
    type V = LinuxErrorView;

    open spec fn view(&self) -> LinuxErrorView {
        match self {
            LinuxError::Netlink(s) => LinuxErrorView::Netlink(s@),
            LinuxError::Capability(s) => LinuxErrorView::Capability(s@),
            LinuxError::Dns(s) => LinuxErrorView::Dns(s@),
            LinuxError::Probe(s) => LinuxErrorView::Probe(s@),
            LinuxError::Io(s) => LinuxErrorView::Io(s@),
            LinuxError::Core(e) => LinuxErrorView::Core(e@),
        }
    }
}

impl Clone for LinuxError {
    fn clone(&self) -> (r: LinuxError)
        ensures
            r@ == self@,
    {
        match self {
            LinuxError::Netlink(s) => LinuxError::Netlink(s.clone()),
            LinuxError::Capability(s) => LinuxError::Capability(s.clone()),
            LinuxError::Dns(s) => LinuxError::Dns(s.clone()),
            LinuxError::Probe(s) => LinuxError::Probe(s.clone()),
            LinuxError::Io(s) => LinuxError::Io(s.clone()),
            LinuxError::Core(e) => LinuxError::Core(e.clone()),
        }
    }
}

impl LinuxErrorView {
    /// The message of the error.
    pub open spec fn text(self) -> Seq<char> {
        match self {
            LinuxErrorView::Netlink(s) => "Netlink error: "@ + s,
            LinuxErrorView::Capability(s) => "Privilege/Capability error: "@ + s,
            LinuxErrorView::Dns(s) => "DNS backend error: "@ + s,
            LinuxErrorView::Probe(s) => "Health probe error: "@ + s,
            LinuxErrorView::Io(s) => "IO error: "@ + s,
            LinuxErrorView::Core(e) => "Core error: "@ + e.text(),
        }
    }
}

impl LinuxError {
    /// The message of the error.
    pub fn to_string(&self) -> (r: String)
        ensures
            r@ == self@.text(),
    {
        match self {
            LinuxError::Netlink(s) => "Netlink error: ".to_owned().concat(s.as_str()),
            LinuxError::Capability(s) => "Privilege/Capability error: ".to_owned().concat(
                s.as_str(),
            ),
            LinuxError::Dns(s) => "DNS backend error: ".to_owned().concat(s.as_str()),
            LinuxError::Probe(s) => "Health probe error: ".to_owned().concat(s.as_str()),
            LinuxError::Io(s) => "IO error: ".to_owned().concat(s.as_str()),
            LinuxError::Core(e) => "Core error: ".to_owned().concat(e.to_string().as_str()),
        }
    }
}

/// The value of a result in specifications.
pub open spec fn result_view<T: View>(r: Result<T, LinuxError>) -> Result<T::V, LinuxErrorView> {
    match r {
        Ok(t) => Ok(t@),
        Err(e) => Err(e@),
    }
}

} // verus!
