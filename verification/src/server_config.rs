//! The hosting process's configuration values.

use vstd::prelude::*;

verus! {

/// Where the hosting server listens and how it advertises itself. Loading
/// these values from configuration files and the process environment is the
/// host's concern; the values themselves are plain data.
pub struct ServerConfig {
    pub host: String,
    pub port: u16,
    pub base_url: String,
}

} // verus!
