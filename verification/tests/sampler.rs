use pfp::cli::{Format, Mode, Plan, Source};
use pfp::discover::ProcessFilter;
use pfp::output::{make_sink, Output, OutputSink, SampleMeta};
use pfp::remote::ReadError;
use pfp::sampler::{
    annotate, top_targets, worker_turn, MultiRun, Next, Pacer, Received, Run, Sample, SampleMsg,
    WorkerNext,
};
use pfp::zend::Frame;
use std::collections::HashSet;

#[test]
fn samples_are_an_interval_apart() {
    let mut p = Pacer::new(100, 10);
    assert_eq!(p.wait(100), 0);
    p.advance(100);
    assert_eq!(p.next, 110);
    assert_eq!(p.wait(103), 7);
    // A little late: the pace is kept.
    p.advance(160);
    assert_eq!(p.next, 120);
    // Badly late: the pace starts anew.
    p.advance(171);
    assert_eq!(p.next, 181);
    assert_eq!(p.wait(200), 0);
    // The clock does not overflow.
    let mut p = Pacer::new(u64::MAX - 1, 10);
    p.advance(0);
    assert_eq!(p.next, u64::MAX);
}

#[test]
fn runs_end_when_stopped_or_over() {
    let mut run = Run::new(1_000, Some(2));
    assert!(run.goes_on(false, 1_000));
    assert!(run.goes_on(false, 2_000_000_999));
    assert!(!run.goes_on(false, 2_000_001_000));
    assert!(!run.goes_on(true, 1_000));
    run.took();
    assert!(run.failed(true));
    assert!(!run.failed(false));
    assert_eq!((run.taken, run.errors), (1, 2));
    assert!(Run::new(0, None).goes_on(false, u64::MAX));
}

fn sample(name: &str, uri: Option<&str>) -> Sample {
    Sample {
        frames: vec![Frame { function: name.into(), class: None, file: None, line: 0 }],
        meta: SampleMeta {
            request_uri: uri.map(str::to_string),
            request_method: Some("GET".to_string()),
        },
    }
}

#[test]
fn uris_are_annotated_with_the_process() {
    let m = annotate(12, sample("f", Some("/x")).meta);
    assert_eq!(m.request_uri.as_deref(), Some("[pid 12] /x"));
    assert_eq!(m.request_method.as_deref(), Some("GET"));
    assert_eq!(annotate(-1, sample("f", Some("")).meta).request_uri.as_deref(), Some("[pid -1] "));
    assert_eq!(annotate(12, sample("f", None).meta).request_uri, None);
}

fn plan(rediscover_secs: Option<u64>) -> Plan {
    Plan {
        mode: Mode::Record,
        source: matching(),
        interval_nanos: 1,
        duration_secs: Some(60),
        rediscover_secs,
    }
}

fn matching() -> Source {
    Source::Matching(ProcessFilter { name: Some("php".to_string()), cmdline: None, cgroup: None })
}

fn stacks() -> OutputSink {
    OutputSink::Write(make_sink(Format::Stacks, 0))
}

fn text(out: Option<Output>) -> String {
    match out {
        Some(Output::Bytes(b)) => String::from_utf8(b).unwrap(),
        _ => panic!("bytes are written"),
    }
}

#[test]
fn many_processes_are_sampled_into_one_sink() {
    let mut m = MultiRun::new(&plan(Some(5)), stacks(), 100);
    assert_eq!(m.run.duration_secs, Some(60));
    let msg = SampleMsg { pid: 7, sample: sample("f", Some("/a")) };
    let (out, next) = m.turn(Received::Sample(msg), 100, 0);
    assert_eq!(
        text(out),
        "# request_uri = [pid 7] /a\n# request_method = GET\n0 f <unknown>:0\n\n"
    );
    // Processes are discovered at once, and then every five seconds.
    assert_eq!(next, Next::Rediscover);
    assert_eq!(m.next_rediscover, Some(5_000_000_100));
    let (out, next) = m.turn(Received::Timeout, 5_000_000_099, 0);
    assert!(out.is_none());
    assert_eq!(next, Next::Wait);
    assert_eq!(m.turn(Received::Timeout, 5_000_000_100, 0).1, Next::Rediscover);
    assert_eq!(m.turn(Received::Disconnected, u64::MAX, 0).1, Next::Stop);
    // What is still on its way at the end is taken as before.
    let msg = SampleMsg { pid: 7, sample: sample("g", Some("/b")) };
    let out = m.drained(msg, 0, 0);
    assert_eq!(
        text(Some(out)),
        "# request_uri = [pid 7] /b\n# request_method = GET\n0 g <unknown>:0\n\n"
    );
    assert_eq!(m.run.taken, 2);
}

#[test]
fn zero_seconds_never_rediscover() {
    let mut m = MultiRun::new(&plan(None), stacks(), 100);
    assert_eq!(m.turn(Received::Timeout, u64::MAX, 0).1, Next::Wait);
    assert_eq!(m.next_rediscover, None);
}

#[test]
fn only_processes_without_a_worker_are_spawned() {
    let mut m = MultiRun::new(&plan(Some(5)), stacks(), 0);
    let found: HashSet<i32> = [1, 2, 3, 4].into_iter().collect();
    let mut wanted = m.discovered(&[], &found);
    wanted.sort();
    assert_eq!(wanted, [1, 2, 3, 4]);
    m.spawned(1);
    m.spawned(2);
    m.spawned(9);
    let mut wanted = m.discovered(&[], &found);
    wanted.sort();
    assert_eq!(wanted, [3, 4]);
    // A worker that has finished is replaced if its process is still there.
    let mut wanted = m.discovered(&[1, 9], &found);
    wanted.sort();
    assert_eq!(wanted, [1, 3, 4]);
    assert!(m.workers.contains(&2) && !m.workers.contains(&9));
    assert!(m.discovered(&[], &HashSet::new()).is_empty());
}

#[test]
fn workers_stop_when_their_target_is_gone() {
    let failed = || Err(ReadError::Failed { addr: 1, len: 8 });
    assert!(matches!(worker_turn(Ok(Some(sample("f", None))), false), WorkerNext::Send(_)));
    assert!(matches!(worker_turn(Ok(None), false), WorkerNext::Idle));
    assert!(matches!(worker_turn(failed(), true), WorkerNext::Idle));
    assert!(matches!(worker_turn(failed(), false), WorkerNext::Stop));
}

#[test]
fn the_live_display_samples_one_process_or_all_that_match() {
    let found: HashSet<i32> = [5, 6].into_iter().collect();
    assert_eq!(top_targets(&Source::Pid(9), &HashSet::new()), Some(vec![9]));
    let mut pids = top_targets(&matching(), &found).unwrap();
    pids.sort();
    assert_eq!(pids, [5, 6]);
    assert_eq!(top_targets(&matching(), &HashSet::new()), None);
}
