use vstd::prelude::*;

use crate::ids::{uuid_parse, NodeId, parse_uuid};
use crate::int_parse::{decimal_u64, parse_u64, ParseIntFailure};
use crate::text::text_equals;

verus! {

/// How often, in seconds, the agent polls and reports when nothing else is set.
pub const DEFAULT_POLL_INTERVAL_SECS: u64 = 2;

/// The edge agent's settings.
#[derive(Debug)]
pub struct Config {
    pub controller_url: String,
    pub node_id: NodeId,
    pub poll_interval_secs: u64,
    pub log_level: String,
    pub log_format: String,
}

/// A setting that could not be read, with the text and why it was refused: the UUID
/// parser's message, or the integer parse failure.
#[derive(Debug)]
#[allow(inconsistent_fields)]
pub enum ConfigError {
    InvalidNodeId { value: String, reason: String },
    InvalidPollIntervalSecs { value: String, reason: ParseIntFailure },
}

/// The text of a setting, or `default` when it is unset.
pub open spec fn text_or(v: Option<String>, default: Seq<char>) -> Seq<char> {
    match v {
        Some(s) => s@,
        None => default,
    }
}

fn string_or(v: Option<String>, default: &str) -> (r: String)
    ensures
        r@ == text_or(v, default@),
{
    match v {
        Some(s) => s,
        None => String::from_str(default),
    }
}

impl Config {
    /// The settings from the values of `CONTROLLER_URL`, `NODE_ID`, `POLL_INTERVAL_SECS`,
    /// `LOG_LEVEL` and `LOG_FORMAT`, each `None` when unset. A node identity that is not a
    /// UUID, or an interval that is not an unsigned integer, is an error (the identity is
    /// read first); an unset identity is a fresh random one.
    pub fn from_values(
        controller_url: Option<String>,
        node_id: Option<String>,
        poll_interval_secs: Option<String>,
        log_level: Option<String>,
        log_format: Option<String>,
    ) -> (r: Result<Config, ConfigError>)
        ensures
            match r {
                Ok(c) => {
                    &&& c.controller_url@ == text_or(controller_url, "http://127.0.0.1:8080"@)
                    &&& (node_id matches Some(raw) ==> uuid_parse(raw@) == Ok::<u128, Seq<char>>(c.node_id.0))
                    &&& (node_id is None ==> (c.node_id.0 >> 76u128) & 0xfu128 == 4u128
                        && (c.node_id.0 >> 62u128) & 0x3u128 == 2u128)
                    &&& (match poll_interval_secs {
                        Some(raw) => decimal_u64(raw@) == Ok::<int, ParseIntFailure>(c.poll_interval_secs as int),
                        None => c.poll_interval_secs == DEFAULT_POLL_INTERVAL_SECS,
                    })
                    &&& c.log_level@ == text_or(log_level, "info"@)
                    &&& c.log_format@ == text_or(log_format, "pretty"@)
                },
                Err(ConfigError::InvalidNodeId { value, reason }) => {
                    &&& node_id matches Some(raw)
                    &&& value@ == raw@
                    &&& uuid_parse(raw@) == Err::<u128, Seq<char>>(reason@)
                },
                Err(ConfigError::InvalidPollIntervalSecs { value, reason }) => {
                    &&& (node_id matches Some(raw) ==> uuid_parse(raw@) is Ok)
                    &&& poll_interval_secs matches Some(raw)
                    &&& value@ == raw@
                    &&& decimal_u64(raw@) == Err::<int, ParseIntFailure>(reason)
                },
            },
            (node_id matches Some(raw) && uuid_parse(raw@) is Err) ==> r matches Err(ConfigError::InvalidNodeId { .. }),
            ((node_id matches Some(raw) ==> uuid_parse(raw@) is Ok) && (poll_interval_secs matches Some(raw)
                && decimal_u64(raw@) is Err)) ==> r matches Err(ConfigError::InvalidPollIntervalSecs { .. }),
            ((node_id matches Some(raw) ==> uuid_parse(raw@) is Ok) && (poll_interval_secs matches Some(raw)
                ==> decimal_u64(raw@) is Ok)) ==> r is Ok,
    {
        let controller_url = string_or(controller_url, "http://127.0.0.1:8080");
        let node_id = match node_id {
            Some(raw) => match parse_uuid(raw.as_str()) {
                Ok(v) => NodeId(v),
                Err(reason) => {
                    return Err(ConfigError::InvalidNodeId { value: raw, reason });
                },
            },
            None => NodeId::new(),
        };
        let poll_interval_secs = match poll_interval_secs {
            Some(raw) => match parse_u64(raw.as_str()) {
                Ok(v) => v,
                Err(reason) => {
                    return Err(ConfigError::InvalidPollIntervalSecs { value: raw, reason });
                },
            },
            None => DEFAULT_POLL_INTERVAL_SECS,
        };
        let log_level = string_or(log_level, "info");
        let log_format = string_or(log_format, "pretty");
        Ok(Config { controller_url, node_id, poll_interval_secs, log_level, log_format })
    }
}

/// How the agent's log lines are written.
#[derive(Clone, Copy, PartialEq, Eq, Structural, Debug)]
pub enum LogFormat {
    Json,
    Pretty,
}

/// The log format a setting names, and whether it names one: `"json"` and `"pretty"` are
/// known; any other text falls back to the pretty format.
pub fn log_format_of(text: &str) -> (r: (LogFormat, bool))
    ensures
        r == (if text@ == "json"@ {
            (LogFormat::Json, true)
        } else if text@ == "pretty"@ {
            (LogFormat::Pretty, true)
        } else {
            (LogFormat::Pretty, false)
        }),
{
    if text_equals(text, "json") {
        (LogFormat::Json, true)
    } else if text_equals(text, "pretty") {
        (LogFormat::Pretty, true)
    } else {
        (LogFormat::Pretty, false)
    }
}

} // verus!
