//! Settings for the SSH transport that runs on an asynchronous SSH client.

use std::time::Duration;
use vstd::prelude::*;

verus! {

/// Whole seconds in a duration.
pub uninterp spec fn duration_secs(duration: Duration) -> u64;

/// The part of a duration below one second, in nanoseconds.
pub uninterp spec fn duration_subsec_nanos(duration: Duration) -> u32;

/// `Duration::from_secs`: a duration of `secs` whole seconds and nothing more.
pub assume_specification[ Duration::from_secs ](secs: u64) -> (duration: Duration)
    ensures
        duration_secs(duration) == secs,
        duration_subsec_nanos(duration) == 0,
;

/// Settings for an SSH connection.
#[derive(Debug, Clone)]
pub struct RusshConfig {
    /// How long the connection may stay silent before it is given up.
    pub inactivity_timeout: Option<Duration>,
}

impl RusshConfig {
    /// The default settings: thirty seconds of silence are allowed.
    pub fn new() -> (config: RusshConfig)
        ensures
            config.inactivity_timeout matches Some(timeout) && duration_secs(timeout) == 30
                && duration_subsec_nanos(timeout) == 0,
    {
        RusshConfig { inactivity_timeout: Some(Duration::from_secs(30)) }
    }

    /// The same settings with the inactivity timeout set to `timeout`.
    pub fn inactivity_timeout(self, timeout: Duration) -> (config: RusshConfig)
        ensures
            config.inactivity_timeout == Some(timeout),
    {
        let mut config = self;
        config.inactivity_timeout = Some(timeout);
        config
    }
}

impl Default for RusshConfig {
    fn default() -> (config: RusshConfig)
        ensures
            config.inactivity_timeout matches Some(timeout) && duration_secs(timeout) == 30
                && duration_subsec_nanos(timeout) == 0,
    {
        RusshConfig::new()
    }
}

} // verus!
