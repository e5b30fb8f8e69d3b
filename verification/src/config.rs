//! Process configuration as plain values: the command-line options and the
//! settings that name the pub/sub backend. Loading these from the file
//! system is the surrounding program's concern; the library only fixes their
//! shape.

use vstd::prelude::*;

verus! {

/// Command-line options: a debug switch and the path of the configuration
/// file.
pub struct Opt {
    pub debug: bool,
    pub config: String,
}

/// Settings for reaching the pub/sub backend, as a plain address string.
pub struct RedisConfig {
    pub url: String,
}

/// The gateway's configuration: a debug toggle plus the backend settings.
pub struct AppConfig {
    pub debug: bool,
    pub redis: RedisConfig,
}

} // verus!
