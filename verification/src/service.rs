//! The background-service surface: its states and scopes. Talking to the
//! platform's service manager is the caller's work.

use vstd::prelude::*;

verus! {

/// What the service manager reports about the agent.
pub enum RuntimeStatus {
    NotInstalled,
    Running,
    Stopped(Option<String>),
}

/// At which level the service is managed.
pub enum Scope {
    User,
    System,
}

impl Scope {
    pub fn as_str(&self) -> (r: &'static str)
        ensures
            self is User ==> r@ == "user"@,
            self is System ==> r@ == "system"@,
    {
        match self {
            Scope::User => "user",
            Scope::System => "system",
        }
    }
}

} // verus!
