use homeedge::agent_config::{log_format_of, Config, ConfigError, LogFormat, DEFAULT_POLL_INTERVAL_SECS};
use homeedge::controller_config::{ConfigError as ControllerConfigError, Settings};
use homeedge::int_parse::{parse_u64, ParseIntFailure};

const ID_TEXT: &str = "01234567-89ab-cdef-0123-456789abcdef";
const ID_VALUE: u128 = 0x0123_4567_89ab_cdef_0123_4567_89ab_cdef;

#[test]
fn parse_u64_reads_as_std_does() {
    for text in ["0", "42", "+7", "18446744073709551615", "007", "-", "+", "", "-1", "1a", " 1", "18446744073709551616", "99999999999999999999x", "٣"] {
        let expected = match text.parse::<u64>() {
            Ok(v) => Ok(v),
            Err(e) => Err(match e.kind() {
                std::num::IntErrorKind::Empty => ParseIntFailure::Empty,
                std::num::IntErrorKind::InvalidDigit => ParseIntFailure::InvalidDigit,
                std::num::IntErrorKind::PosOverflow => ParseIntFailure::PosOverflow,
                other => panic!("unexpected kind {other:?}"),
            }),
        };
        assert_eq!(parse_u64(text), expected, "text {text:?}");
        if let (Err(e), Err(std_err)) = (parse_u64(text), text.parse::<u64>()) {
            assert_eq!(e.message(), std_err.to_string());
        }
    }
}

#[test]
fn agent_config_defaults_when_nothing_is_set() {
    let c = Config::from_values(None, None, None, None, None).unwrap();
    assert_eq!(c.controller_url, "http://127.0.0.1:8080");
    assert_eq!(c.poll_interval_secs, DEFAULT_POLL_INTERVAL_SECS);
    assert_eq!(c.log_level, "info");
    assert_eq!(c.log_format, "pretty");
}

#[test]
fn agent_config_reads_set_values() {
    let c = Config::from_values(
        Some("http://ctl".into()),
        Some(ID_TEXT.into()),
        Some("9".into()),
        Some("debug".into()),
        Some("json".into()),
    )
    .unwrap();
    assert_eq!(c.controller_url, "http://ctl");
    assert_eq!(c.node_id.0, ID_VALUE);
    assert_eq!(c.poll_interval_secs, 9);
    assert_eq!(c.log_level, "debug");
    assert_eq!(c.log_format, "json");
}

#[test]
fn agent_config_rejects_bad_values_in_order() {
    match Config::from_values(None, Some("nope".into()), Some("x".into()), None, None) {
        Err(ConfigError::InvalidNodeId { value, reason }) => {
            assert_eq!(value, "nope");
            assert_eq!(reason, "nope".parse::<uuid::Uuid>().unwrap_err().to_string());
        }
        other => panic!("unexpected {other:?}"),
    }
    match Config::from_values(None, None, Some("x".into()), None, None) {
        Err(ConfigError::InvalidPollIntervalSecs { value, reason }) => {
            assert_eq!(value, "x");
            assert_eq!(reason, ParseIntFailure::InvalidDigit);
        }
        other => panic!("unexpected {other:?}"),
    }
}

#[test]
fn log_format_falls_back_to_pretty() {
    assert_eq!(log_format_of("json"), (LogFormat::Json, true));
    assert_eq!(log_format_of("pretty"), (LogFormat::Pretty, true));
    assert_eq!(log_format_of("JSON"), (LogFormat::Pretty, false));
}

#[test]
fn controller_settings_default_and_parse() {
    let d = Settings::default();
    assert_eq!((d.heartbeat_timeout_secs, d.poll_interval_secs, d.log_level.as_str()), (30, 5, "info"));

    let s = Settings::from_values(None, None, None).unwrap();
    assert_eq!((s.heartbeat_timeout_secs, s.poll_interval_secs), (30, 5));

    let s = Settings::from_values(Some("60".into()), Some("+2".into()), Some("warn".into())).unwrap();
    assert_eq!((s.heartbeat_timeout_secs, s.poll_interval_secs, s.log_level.as_str()), (60, 2, "warn"));

    assert!(matches!(
        Settings::from_values(Some("".into()), Some("x".into()), None),
        Err(ControllerConfigError::InvalidHeartbeatTimeoutSecs { reason: ParseIntFailure::Empty, .. })
    ));
    assert!(matches!(
        Settings::from_values(None, Some("99999999999999999999".into()), None),
        Err(ControllerConfigError::InvalidPollIntervalSecs { reason: ParseIntFailure::PosOverflow, .. })
    ));
}
