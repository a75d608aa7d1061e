use flate2::read::GzDecoder;
use pfp::cli::{Args, Format};
use pfp::pprof::PprofBuilder;
use pfp::pyroscope::{
    make_request, parse_headers, pyroscope_config, Push, PyroscopeConfig, PyroscopeSink,
};
use pfp::zend::Frame;
use std::io::Read;

fn args() -> Args {
    Args {
        pid: None,
        pgrep: None,
        cmdline: None,
        this_container: false,
        rediscover_secs: 5,
        rate_hz: 99,
        duration_secs: 0,
        max_depth: 256,
        format: Format::Stacks,
        output: None,
        pyroscope_url: Some("http://pyroscope:4040//".to_string()),
        pyroscope_app: "my-app".to_string(),
        pyroscope_label: Vec::new(),
        push_interval_secs: 10,
        pyroscope_auth_token: None,
        pyroscope_tenant_id: None,
        pyroscope_header: Vec::new(),
        request_info: false,
        php_version: None,
        executor_globals: None,
    }
}

#[test]
fn the_configuration_is_that_of_the_command_line() {
    let mut a = args();
    let c = pyroscope_config(&a).ok().unwrap();
    assert_eq!(c.url, "http://pyroscope:4040");
    assert_eq!(c.name, "my-app");
    assert_eq!(c.push_interval_secs, 10);
    a.pyroscope_label = vec!["env=prod".to_string(), "host=a".to_string()];
    a.push_interval_secs = 0;
    a.pyroscope_auth_token = Some("token".to_string());
    a.pyroscope_tenant_id = Some("tenant".to_string());
    a.pyroscope_header = vec!["X-A: 1".to_string(), "X-B:2\n\nX-C: a: b \n".to_string()];
    let c = pyroscope_config(&a).ok().unwrap();
    assert_eq!(c.name, "my-app{env=prod,host=a}");
    assert_eq!(c.push_interval_secs, 1);
    assert_eq!(c.auth_token.as_deref(), Some("token"));
    assert_eq!(c.tenant_id.as_deref(), Some("tenant"));
    let headers: Vec<(&str, &str)> =
        c.headers.iter().map(|(n, v)| (n.as_str(), v.as_str())).collect();
    assert_eq!(headers, [("X-A", "1"), ("X-B", "2"), ("X-C", "a: b")]);
    a.pyroscope_url = None;
    assert_eq!(pyroscope_config(&a).ok().unwrap().url, "");
}

#[test]
fn a_header_needs_a_colon() {
    let given = ["X-A: 1".to_string(), "X-B: 2\nbroken\nX-C".to_string()];
    assert_eq!(parse_headers(&given).unwrap_err(), "broken");
    assert!(parse_headers(&[]).unwrap().is_empty());
}

fn config() -> PyroscopeConfig {
    PyroscopeConfig {
        url: "http://p:4040".to_string(),
        name: "app{a=b}".to_string(),
        auth_token: Some("secret".to_string()),
        tenant_id: Some("t1".to_string()),
        headers: vec![("Authorization".to_string(), "Basic x".to_string())],
        push_interval_secs: 2,
    }
}

#[test]
fn requests_carry_the_window_and_the_headers_in_order() {
    let r = make_request(&config(), vec![1, 2], 61_999_999_999, 72_000_000_000);
    assert_eq!(r.url, "http://p:4040/ingest");
    let pairs = |l: &[(String, String)]| {
        l.iter().map(|(n, v)| format!("{n}={v}")).collect::<Vec<_>>()
    };
    assert_eq!(
        pairs(&r.query),
        ["name=app{a=b}", "from=61", "until=72", "format=pprof", "spyName=pfp"]
    );
    assert_eq!(
        pairs(&r.headers),
        [
            "Content-Type=application/octet-stream",
            "Authorization=Bearer secret",
            "X-Scope-OrgID=t1",
            "Authorization=Basic x",
        ]
    );
    assert_eq!(r.body, [1, 2]);
    // Seconds are rounded towards zero.
    let r = make_request(&config(), vec![], -1_500_000_000, -1);
    assert_eq!(r.query[1].1, "-1");
    assert_eq!(r.query[2].1, "0");
    let r = make_request(&config(), vec![], i64::MIN, i64::MAX);
    assert_eq!(r.query[1].1, "-9223372036");
    assert_eq!(r.query[2].1, "9223372036");
}

fn frame(name: &str) -> Frame {
    Frame { function: name.into(), class: None, file: None, line: 3 }
}

#[test]
fn windows_are_pushed_when_they_are_due() {
    let mut sink = PyroscopeSink::new(config(), 1_000, 10);
    assert!(matches!(sink.write_sample(&[frame("a")], 2_000_000_999, 11), Push::Nothing));
    let sent = match sink.write_sample(&[frame("a")], 2_000_001_000, 12) {
        Push::Send(r) => r,
        _ => panic!("a push is due"),
    };
    // All samples up to now are in it.
    let mut b = PprofBuilder::new(10);
    b.add(&[frame("a")]);
    b.add(&[frame("a")]);
    let mut body = Vec::new();
    GzDecoder::new(&sent.body[..]).read_to_end(&mut body).unwrap();
    assert_eq!(body, b.take_profile(12).0);
    assert!(sink.builder.is_empty());
    assert_eq!(sink.builder.window_start_nanos(), 12);
    // The next one is due an interval after this one was sent.
    sink.sent(3_000_000_000);
    assert!(matches!(sink.write_sample(&[frame("b")], 4_999_999_999, 13), Push::Nothing));
    assert!(matches!(sink.finish(5, 14), Push::Send(_)));
    assert!(matches!(sink.finish(6, 15), Push::Nothing));
    assert_eq!(sink.builder.window_start_nanos(), 14);
    assert_eq!(sink.last_push, 6);
}
