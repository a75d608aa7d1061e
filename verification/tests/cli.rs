use pfp::cli::{parse_hex_addr, run, Args, Format, Mode, RunError, Source};

fn args() -> Args {
    Args {
        pid: None,
        pgrep: None,
        cmdline: None,
        this_container: false,
        rediscover_secs: 5,
        rate_hz: 99,
        duration_secs: 0,
        max_depth: 256,
        format: Format::Stacks,
        output: None,
        pyroscope_url: None,
        pyroscope_app: "php".to_string(),
        pyroscope_label: Vec::new(),
        push_interval_secs: 10,
        pyroscope_auth_token: None,
        pyroscope_tenant_id: None,
        pyroscope_header: Vec::new(),
        request_info: false,
        php_version: None,
        executor_globals: None,
    }
}

#[test]
fn parses_hex_with_and_without_prefix() {
    assert_eq!(parse_hex_addr("0x598fa0").unwrap(), 0x598fa0);
    assert_eq!(parse_hex_addr("0X598FA0").unwrap(), 0x598fa0);
    assert_eq!(parse_hex_addr("598fa0").unwrap(), 0x598fa0);
    assert_eq!(parse_hex_addr("0").unwrap(), 0);
}

#[test]
fn rejects_invalid_hex() {
    assert!(parse_hex_addr("xyz").is_err());
    assert!(parse_hex_addr("0xGHI").is_err());
    assert!(parse_hex_addr("").is_err());
}

#[test]
fn hex_errors_say_what_is_wrong() {
    assert_eq!(
        parse_hex_addr("").unwrap_err(),
        "invalid hex address: cannot parse integer from empty string"
    );
    assert_eq!(
        parse_hex_addr("0xGHI").unwrap_err(),
        "invalid hex address: invalid digit found in string"
    );
    assert_eq!(
        parse_hex_addr("0x10000000000000000").unwrap_err(),
        "invalid hex address: number too large to fit in target type"
    );
    assert_eq!(parse_hex_addr("ffffffffffffffff").unwrap(), u64::MAX);
}

#[test]
fn a_process_must_be_selected() {
    let e = run(&args(), None).err().unwrap();
    assert_eq!(e, RunError::NoSelection);
    assert_eq!(e.text(), "must specify -p PID, -P PGREP, or --cmdline");
}

#[test]
fn a_pid_goes_before_discovery() {
    let mut a = args();
    a.pid = Some(42);
    a.this_container = true;
    let plan = run(&a, None).ok().unwrap();
    assert!(matches!(plan.source, Source::Pid(42)));
    assert_eq!(plan.mode, Mode::Record);
    assert_eq!(plan.interval_nanos, 10_101_010);
    assert_eq!(plan.duration_secs, None);
    assert_eq!(plan.rediscover_secs, Some(5));
}

#[test]
fn rates_and_durations() {
    let mut a = args();
    a.pid = Some(1);
    a.rate_hz = 0;
    a.duration_secs = 30;
    a.rediscover_secs = 0;
    a.format = Format::Top;
    let plan = run(&a, None).ok().unwrap();
    assert_eq!(plan.interval_nanos, 1_000_000_000);
    assert_eq!(plan.duration_secs, Some(30));
    assert_eq!(plan.rediscover_secs, None);
    assert_eq!(plan.mode, Mode::Top);
    a.rate_hz = 999;
    assert_eq!(run(&a, None).ok().unwrap().interval_nanos, 1_001_001);
}

#[test]
fn discovery_is_restricted_to_this_container() {
    let mut a = args();
    a.pgrep = Some("php-fpm".to_string());
    a.cmdline = Some("pool".to_string());
    a.this_container = true;
    assert_eq!(run(&a, None).err(), Some(RunError::NoContainer));
    assert_eq!(run(&a, Some("0::/user.slice\n")).err(), Some(RunError::NoContainer));
    let plan = run(&a, Some("0::/system.slice/docker-abc123.scope\n")).ok().unwrap();
    match plan.source {
        Source::Matching(f) => {
            assert_eq!(f.name.as_deref(), Some("php-fpm"));
            assert_eq!(f.cmdline.as_deref(), Some("pool"));
            assert_eq!(f.cgroup.as_deref(), Some("abc123"));
        }
        Source::Pid(_) => panic!("discovery was asked for"),
    }
    a.format = Format::Top;
    assert_eq!(run(&a, Some("")).err(), Some(RunError::NoContainer));
    a.this_container = false;
    match run(&a, None).ok().unwrap().source {
        Source::Matching(f) => assert_eq!(f.cgroup, None),
        Source::Pid(_) => panic!("discovery was asked for"),
    }
}

#[test]
fn the_format_is_ignored_where_profiles_are_pushed() {
    let mut a = args();
    a.pid = Some(1);
    a.format = Format::Top;
    a.pyroscope_url = Some("http://p:4040".to_string());
    assert_eq!(run(&a, None).ok().unwrap().mode, Mode::Record);
    a.format = Format::Pprof;
    a.output = Some("out".to_string());
    assert_eq!(run(&a, None).ok().unwrap().mode, Mode::Record);
}
