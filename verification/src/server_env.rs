//! The deployment environment that the hosting process runs under.

use vstd::prelude::*;

verus! {

/// The environment a server process was started for: it selects which
/// configuration file is read on top of the base configuration.
pub enum ServerEnv {
    Local,
    Production,
}

impl ServerEnv {
    /// The environment's lower-case name, as used in configuration file
    /// names and in the selection variable.
    pub fn as_str(&self) -> (r: &'static str)
        ensures
            *self is Local ==> r@ == "local"@,
            *self is Production ==> r@ == "production"@,
    {
        match self {
            ServerEnv::Local => "local",
            ServerEnv::Production => "production",
        }
    }
}

} // verus!
