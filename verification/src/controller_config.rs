use vstd::prelude::*;

use crate::agent_config::text_or;
use crate::int_parse::{decimal_u64, parse_u64, ParseIntFailure};

verus! {

/// How long, in seconds, a node may stay silent before it counts as stale, when nothing
/// else is set.
pub const DEFAULT_HEARTBEAT_TIMEOUT_SECS: u64 = 30;

/// How often, in seconds, the controller looks for stale nodes, when nothing else is set.
pub const DEFAULT_POLL_INTERVAL_SECS: u64 = 5;

/// The controller's timing and logging settings (its listening address is read apart).
#[derive(Debug)]
pub struct Settings {
    pub heartbeat_timeout_secs: u64,
    pub poll_interval_secs: u64,
    pub log_level: String,
}

/// A timing setting that is not an unsigned integer.
#[derive(Debug)]
pub enum ConfigError {
    InvalidHeartbeatTimeoutSecs { value: String, reason: ParseIntFailure },
    InvalidPollIntervalSecs { value: String, reason: ParseIntFailure },
}

/// A number of seconds as set, or `default` when unset; what a set text reads as.
pub open spec fn secs_setting(v: Option<String>, default: u64) -> Result<int, ParseIntFailure> {
    match v {
        Some(raw) => decimal_u64(raw@),
        None => Ok(default as int),
    }
}

impl Default for Settings {
    fn default() -> (s: Settings)
        ensures
            s.heartbeat_timeout_secs == DEFAULT_HEARTBEAT_TIMEOUT_SECS,
            s.poll_interval_secs == DEFAULT_POLL_INTERVAL_SECS,
            s.log_level@ == "info"@,
    {
        Settings {
            heartbeat_timeout_secs: DEFAULT_HEARTBEAT_TIMEOUT_SECS,
            poll_interval_secs: DEFAULT_POLL_INTERVAL_SECS,
            log_level: String::from_str("info"),
        }
    }
}

impl Settings {
    /// The settings from the values of `HEARTBEAT_TIMEOUT_SECS`, `POLL_INTERVAL_SECS` and
    /// `LOG_LEVEL`, each `None` when unset. A set value that is not an unsigned integer is an
    /// error; the timeout is read first.
    pub fn from_values(
        heartbeat_timeout_secs: Option<String>,
        poll_interval_secs: Option<String>,
        log_level: Option<String>,
    ) -> (r: Result<Settings, ConfigError>)
        ensures
            match r {
                Ok(s) => {
                    &&& secs_setting(heartbeat_timeout_secs, DEFAULT_HEARTBEAT_TIMEOUT_SECS)
                        == Ok::<int, ParseIntFailure>(s.heartbeat_timeout_secs as int)
                    &&& secs_setting(poll_interval_secs, DEFAULT_POLL_INTERVAL_SECS)
                        == Ok::<int, ParseIntFailure>(s.poll_interval_secs as int)
                    &&& s.log_level@ == text_or(log_level, "info"@)
                },
                Err(ConfigError::InvalidHeartbeatTimeoutSecs { value, reason }) => {
                    &&& heartbeat_timeout_secs matches Some(raw)
                    &&& value@ == raw@
                    &&& decimal_u64(raw@) == Err::<int, ParseIntFailure>(reason)
                },
                Err(ConfigError::InvalidPollIntervalSecs { value, reason }) => {
                    &&& secs_setting(heartbeat_timeout_secs, DEFAULT_HEARTBEAT_TIMEOUT_SECS) is Ok
                    &&& poll_interval_secs matches Some(raw)
                    &&& value@ == raw@
                    &&& decimal_u64(raw@) == Err::<int, ParseIntFailure>(reason)
                },
            },
            (secs_setting(heartbeat_timeout_secs, DEFAULT_HEARTBEAT_TIMEOUT_SECS) is Ok
                && secs_setting(poll_interval_secs, DEFAULT_POLL_INTERVAL_SECS) is Ok) ==> r is Ok,
    {
        let heartbeat_timeout_secs = match heartbeat_timeout_secs {
            Some(raw) => match parse_u64(raw.as_str()) {
                Ok(v) => v,
                Err(reason) => {
                    return Err(ConfigError::InvalidHeartbeatTimeoutSecs { value: raw, reason });
                },
            },
            None => DEFAULT_HEARTBEAT_TIMEOUT_SECS,
        };
        let poll_interval_secs = match poll_interval_secs {
            Some(raw) => match parse_u64(raw.as_str()) {
                Ok(v) => v,
                Err(reason) => {
                    return Err(ConfigError::InvalidPollIntervalSecs { value: raw, reason });
                },
            },
            None => DEFAULT_POLL_INTERVAL_SECS,
        };
        let log_level = match log_level {
            Some(s) => s,
            None => String::from_str("info"),
        };
        Ok(Settings { heartbeat_timeout_secs, poll_interval_secs, log_level })
    }
}

} // verus!
