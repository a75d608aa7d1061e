use pfp::cli::{Args, Format};
use pfp::output::{
    build_sink, make_sink, render_frame, FormatSink, Output, OutputSink, SampleMeta, Sink,
};
use pfp::pyroscope::Push;
use pfp::zend::Frame;

fn frame(class: Option<&str>, function: &str, file: &str, line: u32) -> Frame {
    Frame {
        class: class.map(std::sync::Arc::from),
        function: std::sync::Arc::from(function),
        file: Some(std::sync::Arc::from(file)),
        line,
    }
}

fn empty_meta() -> SampleMeta {
    SampleMeta { request_uri: None, request_method: None }
}

/// Drive a sink and return the bytes it wrote.
fn drain<F>(format: Format, mut feed: F) -> Vec<u8>
where
    F: FnMut(&mut FormatSink, &mut Vec<u8>),
{
    let mut out = Vec::new();
    let mut sink = make_sink(format, 0);
    feed(&mut sink, &mut out);
    out.extend(sink.finish(0).unwrap());
    out
}

#[test]
fn folded_sink_aggregates_and_orders_root_first() {
    let bytes = drain(Format::Folded, |sink, out| {
        // Two samples of the same stack, one different sample.
        let stack_a = [
            frame(Some("Worker"), "level3", "/t.php", 10),
            frame(Some("Worker"), "level2", "/t.php", 9),
            frame(Some("Worker"), "level1", "/t.php", 8),
        ];
        let stack_b = [
            frame(None, "usleep", "<internal>", 0),
            frame(Some("Worker"), "level3", "/t.php", 10),
        ];
        out.extend(sink.write_sample(&stack_a, &empty_meta()));
        out.extend(sink.write_sample(&stack_a, &empty_meta()));
        out.extend(sink.write_sample(&stack_b, &empty_meta()));
    });
    let out = String::from_utf8(bytes).unwrap();

    // Folded format is root-first (reversed from leaf-first input) and
    // semicolon-joined, with the count after a space.
    assert!(out.contains("Worker::level1;Worker::level2;Worker::level3 2"));
    assert!(out.contains("Worker::level3;usleep 1"));
    // Sorted lexicographically: level1-rooted line comes first.
    let lines: Vec<&str> = out.lines().collect();
    assert_eq!(lines.len(), 2);
    assert!(lines[0].starts_with("Worker::level1"));
}

#[test]
fn folded_sink_handles_empty_stacks() {
    let bytes = drain(Format::Folded, |sink, out| {
        out.extend(sink.write_sample(&[], &empty_meta()));
    });
    assert!(bytes.is_empty());
}

#[test]
fn folded_lines_are_in_byte_order_and_counted() {
    let bytes = drain(Format::Folded, |sink, out| {
        for name in ["b", "é", "a", "b", "ab", "b", "Z"] {
            out.extend(sink.write_sample(&[frame(None, name, "/t", 1)], &empty_meta()));
        }
    });
    assert_eq!(String::from_utf8(bytes).unwrap(), "Z 1\na 1\nab 1\nb 3\né 1\n");
}

#[test]
fn a_folded_sink_starts_anew_when_it_is_ended() {
    let mut sink = make_sink(Format::Folded, 0);
    sink.write_sample(&[frame(None, "f", "/t", 1)], &empty_meta());
    assert_eq!(sink.finish(0).unwrap(), b"f 1\n");
    assert_eq!(sink.finish(0).unwrap(), b"");
}

#[test]
fn frames_are_rendered_on_a_line() {
    assert_eq!(render_frame(&frame(Some("A"), "f", "/t.php", 12)), "A::f /t.php:12");
    let mut f = frame(None, "g", "", 0);
    f.file = None;
    assert_eq!(render_frame(&f), "g <unknown>:0");
}

#[test]
fn stacks_are_written_as_they_come() {
    let mut sink = make_sink(Format::Stacks, 0);
    let frames = [frame(None, "usleep", "<internal>", 0), frame(Some("W"), "run", "/t.php", 7)];
    let meta = SampleMeta {
        request_uri: Some("/x".to_string()),
        request_method: Some("GET".to_string()),
    };
    assert_eq!(
        String::from_utf8(sink.write_sample(&frames, &meta)).unwrap(),
        "# request_uri = /x\n# request_method = GET\n0 usleep <internal>:0\n1 W::run /t.php:7\n\n"
    );
    assert_eq!(sink.write_sample(&[], &empty_meta()), b"\n");
    assert_eq!(sink.finish(0).unwrap(), b"");
}

#[test]
fn profiles_are_written_at_the_end() {
    let bytes = drain(Format::Pprof, |sink, out| {
        out.extend(sink.write_sample(&[frame(None, "f", "/t", 1)], &empty_meta()));
        assert!(out.is_empty());
    });
    assert_eq!(&bytes[..2], &[0x1f, 0x8b]);
}

fn args() -> Args {
    Args {
        pid: None,
        pgrep: None,
        cmdline: None,
        this_container: false,
        rediscover_secs: 5,
        rate_hz: 99,
        duration_secs: 0,
        max_depth: 256,
        format: Format::Folded,
        output: None,
        pyroscope_url: None,
        pyroscope_app: "php".to_string(),
        pyroscope_label: Vec::new(),
        push_interval_secs: 10,
        pyroscope_auth_token: None,
        pyroscope_tenant_id: None,
        pyroscope_header: Vec::new(),
        request_info: false,
        php_version: None,
        executor_globals: None,
    }
}

#[test]
fn the_sink_is_that_of_the_command_line() {
    let mut a = args();
    let mut sink = build_sink(&a, 0, 0).unwrap();
    assert!(matches!(sink, OutputSink::Write(FormatSink::Folded(_))));
    let out = sink.write_sample(&[frame(None, "f", "/t", 1)], &empty_meta(), 0, 0);
    assert!(matches!(out, Output::Bytes(b) if b.is_empty()));
    assert!(matches!(sink.finish(0, 0), Output::Bytes(b) if b == b"f 1\n"));

    a.pyroscope_url = Some("http://p:4040/".to_string());
    let mut sink = build_sink(&a, 0, 0).unwrap();
    let f = [frame(None, "f", "/t", 1)];
    let out = sink.write_sample(&f, &empty_meta(), 9_999_999_999, 0);
    assert!(matches!(out, Output::Push(Push::Nothing)));
    let out = sink.write_sample(&f, &empty_meta(), 10_000_000_000, 0);
    assert!(matches!(out, Output::Push(Push::Send(_))));
    assert!(matches!(sink.finish(0, 0), Output::Push(Push::Nothing)));

    a.pyroscope_header = vec!["no colon".to_string()];
    assert_eq!(build_sink(&a, 0, 0).err().unwrap(), "no colon");
}

#[test]
fn folded_output_does_not_depend_on_the_order_of_samples() {
    let stacks = [
        vec![frame(None, "b", "/t", 1), frame(None, "a", "/t", 1)],
        vec![],
        vec![frame(None, "c", "/t", 2)],
        vec![frame(None, "b", "/u", 9), frame(None, "a", "/t", 3)],
    ];
    let write = |order: &[usize]| {
        drain(Format::Folded, |sink, out| {
            for i in order {
                out.extend(sink.write_sample(&stacks[*i], &empty_meta()));
            }
        })
    };
    let forwards = write(&[0, 1, 2, 3]);
    assert_eq!(forwards, b"a;b 2\nc 1\n");
    assert_eq!(write(&[3, 2, 1, 0]), forwards);
    assert_eq!(write(&[2, 0, 3, 1]), forwards);
    // What has been written is not written again.
    let mut sink = make_sink(Format::Folded, 0);
    sink.write_sample(&stacks[0], &empty_meta());
    assert_eq!(sink.finish(0).unwrap(), b"a;b 1\n");
    assert!(sink.finish(1).unwrap().is_empty());
}
