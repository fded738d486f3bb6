use boucle::config::{
    find_agent_root, interval_in_seconds, parse_interval, Candidate, IntervalError, LoopConfig,
    MemoryConfig, ScheduleConfig,
};

#[test]
fn test_parse_interval_seconds() {
    assert_eq!(parse_interval("30s").unwrap(), 30);
}

#[test]
fn test_parse_interval_minutes() {
    assert_eq!(parse_interval("5m").unwrap(), 300);
}

#[test]
fn test_parse_interval_hours() {
    assert_eq!(parse_interval("1h").unwrap(), 3600);
}

#[test]
fn test_parse_interval_days() {
    assert_eq!(parse_interval("2d").unwrap(), 172800);
}

#[test]
fn test_parse_interval_invalid_suffix() {
    assert!(parse_interval("5x").is_err());
}

#[test]
fn test_parse_interval_invalid_number() {
    assert!(parse_interval("abch").is_err());
}

#[test]
fn test_parse_interval_empty() {
    assert!(parse_interval("").is_err());
}

#[test]
fn test_find_agent_root_not_found() {
    // Searching from a directory without settings anywhere above finds nothing
    let candidates = vec![
        Candidate { dir: "/tmp/nonexistent".to_string(), has_config: false },
        Candidate { dir: "/tmp".to_string(), has_config: false },
        Candidate { dir: "/".to_string(), has_config: false },
    ];
    assert!(find_agent_root(&candidates).is_none());
}

#[test]
fn test_find_agent_root_with_config() {
    let candidates = vec![
        Candidate { dir: "/t/a/b/c".to_string(), has_config: false },
        Candidate { dir: "/t/a/b".to_string(), has_config: false },
        Candidate { dir: "/t/a".to_string(), has_config: false },
        Candidate { dir: "/t".to_string(), has_config: true },
        Candidate { dir: "/".to_string(), has_config: true },
    ];
    assert_eq!(find_agent_root(&candidates).unwrap(), "/t");
}

#[test]
fn interval_errors_and_messages() {
    assert_eq!(interval_in_seconds("  "), Err(IntervalError::Empty));
    assert_eq!(interval_in_seconds("h"), Err(IntervalError::InvalidNumber));
    assert_eq!(interval_in_seconds("-5m"), Err(IntervalError::InvalidNumber));
    assert_eq!(interval_in_seconds("12"), Err(IntervalError::UnknownSuffix));
    assert_eq!(interval_in_seconds("99999999999999999999s"), Err(IntervalError::InvalidNumber));
    assert_eq!(interval_in_seconds("18446744073709551615m"), Err(IntervalError::TooLong));
    assert_eq!(interval_in_seconds(" +15m "), Ok(900));
    assert_eq!(interval_in_seconds("18446744073709551615s"), Ok(u64::MAX));
    assert_eq!(parse_interval(""), Err("Empty interval".to_string()));
    assert_eq!(parse_interval("abch"), Err("Invalid number in interval: abc".to_string()));
    assert_eq!(
        parse_interval("5x"),
        Err("Unknown interval suffix: x. Use s, m, h, or d.".to_string())
    );
}

#[test]
fn config_defaults() {
    let memory = MemoryConfig::default();
    assert_eq!(memory.dir, "memory");
    assert_eq!(memory.state_file, "STATE.md");
    let lc = LoopConfig::default();
    assert_eq!(lc.max_tokens, 200_000);
    assert!(lc.context_dir.is_none() && lc.hooks_dir.is_none() && lc.log_dir.is_none());
    assert_eq!(ScheduleConfig::default().interval, "1h");
}
