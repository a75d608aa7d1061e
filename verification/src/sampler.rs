//! Sampling: when samples are taken, what they hold, and what is done with them.
//!
//! What waits, sleeps, reads or sends is elsewhere; here it is decided.

use crate::arch::Arch;
use crate::cli::{Args, Format, Plan, Source};
use crate::clock;
use crate::offsets::{LayoutOverrides, VersionLayout};
use crate::output;
use crate::output::{MetaView, Output, OutputSink, OutputState, OutputView, SampleMeta, Sink};
use crate::pprof;
use crate::pyroscope;
use crate::pyroscope::PushState;
use crate::remote;
use crate::remote::{Memory, ReadError, Remote};
use crate::replies;
use crate::symbols::ResolveView;
use crate::target;
use crate::target::{
    AttachError, AttachFault, AttachOptions, Attachment, Binary, Target, Walk, WalkView,
};
use crate::text;
use crate::zend;
use crate::zend::{Cache, Frame, FrameView};
use std::collections::HashSet;
use vstd::prelude::*;

verus! {

broadcast use vstd::std_specs::hash::group_hash_axioms;

// Pace

/// A time, or the last one that the clock can show.
pub open spec fn at_most(t: int) -> u64 {
    if t > u64::MAX {
        u64::MAX
    } else {
        t as u64
    }
}

/// When the sample after the one that was due at `next` is due, if that one is
/// taken at `now`: an interval later, or an interval from now if that is more
/// than four intervals ago. So a sampler that fell behind does not catch up in a
/// tight loop.
pub open spec fn next_due(next: u64, interval: u64, now: u64) -> u64 {
    let then = at_most(next + interval);
    if now > then + interval * 4 {
        at_most(now + interval)
    } else {
        then
    }
}

/// The pace of a sampler.
#[derive(Debug, Clone, Copy)]
pub struct Pacer {
    /// When the next sample is due.
    pub next: u64,
    /// The time between samples.
    pub interval: u64,
}

impl Pacer {
    /// The first sample is due at once.
    pub fn new(now: u64, interval: u64) -> (r: Self)
        ensures
            r.next == now,
            r.interval == interval,
    {
        Pacer { next: now, interval }
    }

    /// How long to wait for the next sample.
    pub fn wait(&self, now: u64) -> (r: u64)
        ensures
            r == clock::passed(now, self.next),
    {
        clock::elapsed(now, self.next)
    }

    /// Notes that the sample that was waited for is taken.
    pub fn advance(&mut self, now: u64)
        ensures
            final(self).next == next_due(old(self).next, old(self).interval, now),
            final(self).interval == old(self).interval,
    {
        let then: u64 = self.next.saturating_add(self.interval);
        self.next = if now as u128 > then as u128 + self.interval as u128 * 4 {
            now.saturating_add(self.interval)
        } else {
            then
        };
    }
}

/// The pace never falls more than four intervals behind, and samples that are
/// not late are an interval apart.
pub proof fn lemma_pace(next: u64, interval: u64, now: u64)
    requires
        now + interval <= u64::MAX,
        next + interval <= u64::MAX,
    ensures
        now <= next_due(next, interval, now) + interval * 4,
        next_due(next, interval, now) >= next + interval,
        now <= next + interval * 5 ==> next_due(next, interval, now) == next + interval,
{
}

// Samples

/// A captured stack and what is known of its request.
pub struct Sample {
    pub frames: Vec<Frame>,
    pub meta: SampleMeta,
}

/// What is known of the request that a target handles.
pub open spec fn request_meta(
    mem: Memory,
    executor_globals: u64,
    layout: VersionLayout,
    wanted: bool,
) -> Result<MetaView, ReadError> {
    if !wanted {
        Ok(MetaView { request_uri: None, request_method: None })
    } else {
        match target::request_variable(mem, executor_globals, layout, "REQUEST_URI"@) {
            Err(e) => Err(e),
            Ok(request_uri) => match target::request_variable(
                mem,
                executor_globals,
                layout,
                "REQUEST_METHOD"@,
            ) {
                Err(e) => Err(e),
                Ok(request_method) => Ok(MetaView { request_uri, request_method }),
            },
        }
    }
}

/// The sample that a walk along the stack of a target comes to, none if no
/// function is running in it.
pub open spec fn sample_from(
    cache: Cache,
    mem: Memory,
    executor_globals: u64,
    layout: VersionLayout,
    request_info: bool,
    walk: WalkView,
) -> Result<Option<(Seq<FrameView>, MetaView)>, ReadError> {
    match target::walked(cache, mem, executor_globals, layout, walk).0 {
        Err(e) => Err(e),
        Ok(frames) => if frames.len() == 0 {
            Ok(None)
        } else {
            match request_meta(mem, executor_globals, layout, request_info) {
                Err(e) => Err(e),
                Ok(meta) => Ok(Some((frames, meta))),
            }
        },
    }
}

/// The sample that a walk along the stack of a target comes to.
pub open spec fn sample_outcome(target: Target, request_info: bool, walk: WalkView) -> Result<
    Option<(Seq<FrameView>, MetaView)>,
    ReadError,
> {
    sample_from(
        target.cache(),
        target.remote@,
        target.symbols.executor_globals,
        target.layout,
        request_info,
        walk,
    )
}

/// The sample of a target: its stack, and what is known of its request.
pub open spec fn sample_of(
    cache: Cache,
    mem: Memory,
    executor_globals: u64,
    layout: VersionLayout,
    request_info: bool,
    max_depth: nat,
) -> Result<Option<(Seq<FrameView>, MetaView)>, ReadError> {
    match target::captured(cache, mem, executor_globals, layout, max_depth).0 {
        Err(e) => Err(e),
        Ok(frames) => if frames.len() == 0 {
            Ok(None)
        } else {
            match request_meta(mem, executor_globals, layout, request_info) {
                Err(e) => Err(e),
                Ok(meta) => Ok(Some((frames, meta))),
            }
        },
    }
}

/// A walk from the beginning comes to the sample of the target.
pub proof fn lemma_fresh_sample(
    cache: Cache,
    mem: Memory,
    executor_globals: u64,
    layout: VersionLayout,
    request_info: bool,
    max_depth: nat,
)
    ensures
        sample_from(
            cache,
            mem,
            executor_globals,
            layout,
            request_info,
            target::fresh_walk(max_depth),
        ) == sample_of(cache, mem, executor_globals, layout, request_info, max_depth),
{
    target::lemma_fresh_walk(cache, mem, executor_globals, layout, max_depth);
}

/// A sample that has been taken, or has failed, is the same with more replies,
/// and one that stops asks for a reply that is missing.
pub proof fn lemma_sample_stable(
    cache: Cache,
    mem: Memory,
    more: Memory,
    executor_globals: u64,
    layout: VersionLayout,
    request_info: bool,
    max_depth: nat,
)
    requires
        remote::extends(more, mem),
    ensures
        replies::asks_anew(
            sample_of(cache, mem, executor_globals, layout, request_info, max_depth),
            mem,
        ),
        replies::stands(
            sample_of(cache, mem, executor_globals, layout, request_info, max_depth),
            sample_of(cache, more, executor_globals, layout, request_info, max_depth),
        ),
{
    replies::lemma_capture_stable(cache, mem, more, executor_globals, layout, max_depth);
    replies::lemma_request_variable_stable(
        mem,
        more,
        executor_globals,
        layout,
        "REQUEST_URI"@,
    );
    replies::lemma_request_variable_stable(
        mem,
        more,
        executor_globals,
        layout,
        "REQUEST_METHOD"@,
    );
}

/// Whether a sample that is taken up again comes to the same as before, with the
/// replies there are and with any more.
pub open spec fn sample_leads_on(
    cache: Cache,
    walk: WalkView,
    cache_after: Cache,
    walk_after: WalkView,
    mem: Memory,
    executor_globals: u64,
    layout: VersionLayout,
    request_info: bool,
) -> bool {
    forall|more: Memory| #[trigger]
        remote::extends(more, mem) ==> sample_from(
            cache_after,
            more,
            executor_globals,
            layout,
            request_info,
            walk_after,
        ) == sample_from(cache, more, executor_globals, layout, request_info, walk)
}

/// What a sample says.
pub open spec fn sample_view(s: Option<Sample>) -> Option<(Seq<FrameView>, MetaView)> {
    match s {
        Some(s) => Some((zend::frames_view(s.frames@), s.meta@)),
        None => None,
    }
}

/// Takes a sample of a target. Where a reply is missing the walk is kept, and the
/// sample is taken up again with it; else it is set back to the beginning.
pub fn take_sample(
    target: &mut Target,
    walk: &mut Walk,
    request_info: bool,
    max_depth: usize,
) -> (r: Result<Option<Sample>, ReadError>)
    requires
        old(target).well_formed(),
    ensures
        final(target).is_still(*old(target)),
        final(target).cache() == old(target).walk_outcome(old(walk)@).1,
        match r {
            Ok(s) => sample_outcome(*old(target), request_info, old(walk)@) == Ok::<
                Option<(Seq<FrameView>, MetaView)>,
                ReadError,
            >(sample_view(s)),
            Err(e) => sample_outcome(*old(target), request_info, old(walk)@) == Err::<
                Option<(Seq<FrameView>, MetaView)>,
                ReadError,
            >(e),
        },
        r matches Ok(Some(s)) ==> request_info ==> {
            &&& target::request_variable(
                old(target).remote@,
                old(target).symbols.executor_globals,
                old(target).layout,
                "REQUEST_URI"@,
            ) == Ok::<Option<Seq<char>>, ReadError>(text::opt_string(s.meta.request_uri))
            &&& target::request_variable(
                old(target).remote@,
                old(target).symbols.executor_globals,
                old(target).layout,
                "REQUEST_METHOD"@,
            ) == Ok::<Option<Seq<char>>, ReadError>(text::opt_string(s.meta.request_method))
        },
        r matches Ok(Some(s)) ==> !request_info ==> s.meta.request_uri is None
            && s.meta.request_method is None,
        if zend::pending(r) {
            sample_leads_on(
                old(target).cache(),
                old(walk)@,
                final(target).cache(),
                final(walk)@,
                old(target).remote@,
                old(target).symbols.executor_globals,
                old(target).layout,
                request_info,
            )
        } else {
            final(walk)@ == target::fresh_walk(max_depth as nat)
        },
{
    assert(remote::extends(target.remote@, target.remote@));
    match target.walk_on(walk) {
        Ok(_) => {},
        Err(ReadError::Failed { addr, len }) => {
            *walk = Walk::new(max_depth);
            return Err(ReadError::Failed { addr, len });
        },
        Err(e) => return Err(e),
    }
    if walk.frames.len() == 0 {
        *walk = Walk::new(max_depth);
        return Ok(None);
    }
    let meta: SampleMeta = if request_info {
        let request_uri = match target.request_var("REQUEST_URI") {
            Ok(v) => v,
            Err(e) => return Err(e),
        };
        let request_method = match target.request_var("REQUEST_METHOD") {
            Ok(v) => v,
            Err(e) => return Err(e),
        };
        SampleMeta { request_uri, request_method }
    } else {
        SampleMeta::none()
    };
    let mut done = Walk::new(max_depth);
    std::mem::swap(&mut done, walk);
    Ok(Some(Sample { frames: done.frames, meta }))
}

// One process

/// Samples one process into a sink.
pub struct Sampler {
    pub target: Target,
    /// The walk of the sample that is being taken.
    pub walk: Walk,
    pub sink: OutputSink,
    pub capture_request_info: bool,
    pub max_depth: usize,
}

/// Why a sampler was not set up.
#[derive(Debug)]
pub enum SamplerError {
    Attach(AttachError),
    /// A request header that is none.
    Header(String),
}

/// What the command line says of a target.
pub fn attach_options<'a>(args: &'a Args) -> (r: AttachOptions<'a>)
    ensures
        r.executor_globals == args.executor_globals,
        r.php_version_addr is None,
        r.version() == text::opt_string(args.php_version),
{
    AttachOptions {
        executor_globals: args.executor_globals,
        php_version_addr: None,
        php_version_string: match &args.php_version {
            Some(s) => Some(s.as_str()),
            None => None,
        },
    }
}

/// How the symbols of a binary are resolved for a command line.
pub open spec fn resolve_view(binary: Binary, args: Args) -> ResolveView {
    ResolveView {
        load_base: binary.load_base,
        executor_globals_override: args.executor_globals,
        php_version_override: None,
        allow_stripped: args.executor_globals is Some || args.php_version is Some,
        label: binary.path@,
    }
}

/// Whether a sink is the one that a command line asks for, with nothing taken.
pub open spec fn sink_for(args: Args, sink: OutputSink, clock: u64, now_nanos: i64) -> bool {
    match sink {
        OutputSink::Push(s) => args.pyroscope_url is Some && pyroscope::configured(args, s.cfg)
            && s.state() == (PushState {
            profile: pprof::empty_profile(),
            started: now_nanos,
            last_push: clock,
        }),
        OutputSink::Write(s) => args.pyroscope_url is None && s.state() == output::new_state(
            args.format,
            now_nanos,
        ),
    }
}

/// Whether a text is the first header of a command line that is none.
pub open spec fn bad_header(args: Args, line: Seq<char>) -> bool {
    args.pyroscope_url is Some && pyroscope::headers_of(
        pyroscope::all_lines(text::strings(args.pyroscope_header@)),
    ) == Err::<Seq<(Seq<char>, Seq<char>)>, Seq<char>>(line)
}

impl Sampler {
    /// Attaches to a process and sets up the sink, as the command line asks. As
    /// with [`Target::attach`], the error may be that a reply is missing.
    pub fn attach(
        pid: i32,
        args: &Args,
        host: Option<Arch>,
        binary: &Binary,
        elf_bytes: &[u8],
        rem: &Remote,
        tls_base: Option<u64>,
        overrides: &LayoutOverrides,
        clock: u64,
        now_nanos: i64,
    ) -> (r: Result<Self, SamplerError>)
        requires
            args.pyroscope_url is None ==> args.format != Format::Top,
        ensures
            ({
                let outcome = target::attachment_elf(
                    elf_bytes@,
                    host,
                    resolve_view(*binary, *args),
                    rem@,
                    tls_base,
                    text::opt_string(args.php_version),
                    *overrides,
                );
                match r {
                    Ok(s) => outcome == Ok::<Attachment, AttachFault>(s.target.found())
                        && s.target.pid == pid && s.target.exe@ == binary.path@
                        && s.target.well_formed() && s.target.remote@
                        == Memory::empty() && s.target.remote.process() == pid && s.target.cache()
                        == Cache::empty() && s.capture_request_info == args.request_info
                        && s.max_depth == args.max_depth && s.walk@ == target::fresh_walk(
                        args.max_depth as nat,
                    ) && sink_for(
                        *args,
                        s.sink,
                        clock,
                        now_nanos,
                    ) && output::can_end(s.sink.state()),
                    Err(SamplerError::Attach(e)) => outcome == Err::<Attachment, AttachFault>(e@),
                    Err(SamplerError::Header(line)) => outcome is Ok && bad_header(*args, line@),
                }
            }),
    {
        let opts = attach_options(args);
        assert(target::resolve_view(*binary, opts) == resolve_view(*binary, *args));
        let target = match Target::attach(
            pid,
            host,
            binary,
            elf_bytes,
            rem,
            tls_base,
            &opts,
            overrides,
        ) {
            Ok(t) => t,
            Err(e) => return Err(SamplerError::Attach(e)),
        };
        match output::build_sink(args, clock, now_nanos) {
            Ok(sink) => Ok(
                Sampler {
                    target,
                    walk: Walk::new(args.max_depth),
                    sink,
                    capture_request_info: args.request_info,
                    max_depth: args.max_depth,
                },
            ),
            Err(line) => Err(SamplerError::Header(line)),
        }
    }

    /// Takes a sample and hands it to the sink. Returns what comes of it; nothing
    /// if no function is running. A sample that fails, or that waits for a reply,
    /// changes nothing in the sink.
    pub fn sample_once(&mut self, clock: u64, now_nanos: i64) -> (r: Result<
        Option<Output>,
        ReadError,
    >)
        requires
            old(self).target.well_formed(),
        ensures
            final(self).target.is_still(old(self).target),
            final(self).target.cache() == old(self).target.walk_outcome(old(self).walk@).1,
            final(self).max_depth == old(self).max_depth,
            final(self).capture_request_info == old(self).capture_request_info,
            ({
                let sample = sample_outcome(
                    old(self).target,
                    old(self).capture_request_info,
                    old(self).walk@,
                );
                match sample {
                    Err(e) => r == Err::<Option<Output>, ReadError>(e) && final(self).sink
                        == old(self).sink,
                    Ok(None) => r == Ok::<Option<Output>, ReadError>(None) && final(self).sink
                        == old(self).sink,
                    Ok(Some((frames, meta))) => r matches Ok(Some(out)) && out@
                        == output::taken_output(
                        old(self).sink.state(),
                        frames,
                        meta,
                        clock,
                        now_nanos,
                    ) && final(self).sink.state() == output::taken(
                        old(self).sink.state(),
                        frames,
                        clock,
                        now_nanos,
                    ),
                }
            }),
            if zend::pending(r) {
                sample_leads_on(
                    old(self).target.cache(),
                    old(self).walk@,
                    final(self).target.cache(),
                    final(self).walk@,
                    old(self).target.remote@,
                    old(self).target.symbols.executor_globals,
                    old(self).target.layout,
                    old(self).capture_request_info,
                )
            } else {
                final(self).walk@ == target::fresh_walk(old(self).max_depth as nat)
            },
    {
        let request_info: bool = self.capture_request_info;
        let max_depth: usize = self.max_depth;
        match take_sample(&mut self.target, &mut self.walk, request_info, max_depth) {
            Ok(Some(s)) => Ok(
                Some(self.sink.write_sample(s.frames.as_slice(), &s.meta, clock, now_nanos)),
            ),
            Ok(None) => Ok(None),
            Err(e) => Err(e),
        }
    }
}

// Runs

/// How a run goes: how long, and how many samples were taken and failed.
#[derive(Debug, Clone, Copy)]
pub struct Run {
    pub start: u64,
    pub duration_secs: Option<u64>,
    pub taken: u64,
    pub errors: u64,
}

/// Whether a run has lasted as long as it may.
pub open spec fn expired(start: u64, duration_secs: Option<u64>, now: u64) -> bool {
    duration_secs matches Some(secs) && clock::due(start, now, secs)
}

impl Run {
    /// A run that starts now.
    pub fn new(now: u64, duration_secs: Option<u64>) -> (r: Self)
        ensures
            r == (Run { start: now, duration_secs, taken: 0, errors: 0 }),
    {
        Run { start: now, duration_secs, taken: 0, errors: 0 }
    }

    /// Whether the run goes on: until it is stopped or has lasted as long as it
    /// may.
    pub fn goes_on(&self, stop: bool, now: u64) -> (r: bool)
        ensures
            r == (!stop && !expired(self.start, self.duration_secs, now)),
    {
        if stop {
            return false;
        }
        match self.duration_secs {
            Some(secs) => !clock::is_due(self.start, now, secs),
            None => true,
        }
    }

    /// Counts a sample that was taken.
    pub fn took(&mut self)
        ensures
            *final(self) == (Run { taken: old(self).taken.wrapping_add(1), ..*old(self) }),
    {
        self.taken = self.taken.wrapping_add(1);
    }

    /// Counts a sample that failed. Returns whether the run goes on: it does as
    /// long as the target is there.
    pub fn failed(&mut self, target_exists: bool) -> (r: bool)
        ensures
            *final(self) == (Run { errors: old(self).errors.wrapping_add(1), ..*old(self) }),
            r == target_exists,
    {
        self.errors = self.errors.wrapping_add(1);
        target_exists
    }
}

// Many processes

/// A sample of one of many processes.
pub struct SampleMsg {
    pub pid: i32,
    pub sample: Sample,
}

/// A URI with the process before it, so that the same URI in several processes
/// can be told apart.
pub open spec fn annotated(pid: int, uri: Seq<char>) -> Seq<char> {
    "[pid "@ + text::signed_decimal(pid) + "] "@ + uri
}

/// What is known of a request, with the process in the URI.
pub open spec fn annotated_meta(pid: int, meta: MetaView) -> MetaView {
    MetaView {
        request_uri: match meta.request_uri {
            Some(uri) => Some(annotated(pid, uri)),
            None => None,
        },
        ..meta
    }
}

/// Puts the process before the URI of a request.
pub fn annotate(pid: i32, meta: SampleMeta) -> (r: SampleMeta)
    ensures
        r@ == annotated_meta(pid as int, meta@),
{
    let request_uri: Option<String> = match &meta.request_uri {
        Some(uri) => {
            let mut out = String::new();
            out.append("[pid ");
            if pid < 0 {
                out.push('-');
                text::push_decimal(&mut out, (0 - pid as i64) as u64);
            } else {
                text::push_decimal(&mut out, pid as u64);
            }
            out.append("] ");
            out.append(uri.as_str());
            assert(out@ =~= annotated(pid as int, uri@));
            Some(out)
        },
        None => None,
    };
    SampleMeta { request_uri, request_method: meta.request_method }
}

/// Samples many processes into one sink: which are sampled, and until when.
pub struct MultiRun {
    pub run: Run,
    pub sink: OutputSink,
    /// The processes that are being sampled.
    pub workers: HashSet<i32>,
    pub rediscover_secs: Option<u64>,
    /// When processes are discovered anew, if ever.
    pub next_rediscover: Option<u64>,
}

/// When processes are discovered after they were discovered at `now`.
pub open spec fn next_discovery(rediscover_secs: Option<u64>, now: u64) -> Option<u64> {
    match rediscover_secs {
        Some(secs) => Some(at_most(now + secs * clock::NANOS_PER_SEC)),
        None => None,
    }
}

impl MultiRun {
    /// A run that starts now, with no process sampled yet. Unless processes are
    /// never discovered anew, that is due at once.
    pub fn new(plan: &Plan, sink: OutputSink, now: u64) -> (r: Self)
        ensures
            r.run == (Run { start: now, duration_secs: plan.duration_secs, taken: 0, errors: 0 }),
            r.sink == sink,
            r.workers@ == Set::<i32>::empty(),
            r.rediscover_secs == plan.rediscover_secs,
            r.next_rediscover == (match plan.rediscover_secs {
                Some(_) => Some(now),
                None => None,
            }),
    {
        let workers: HashSet<i32> = HashSet::new();
        MultiRun {
            run: Run::new(now, plan.duration_secs),
            sink,
            workers,
            rediscover_secs: plan.rediscover_secs,
            next_rediscover: match plan.rediscover_secs {
                Some(_) => Some(now),
                None => None,
            },
        }
    }

    /// Takes a sample while the run goes on, with the process in its URI.
    fn received(&mut self, msg: SampleMsg, clock: u64, now_nanos: i64) -> (r: Output)
        ensures
            r@ == output::taken_output(
                old(self).sink.state(),
                zend::frames_view(msg.sample.frames@),
                annotated_meta(msg.pid as int, msg.sample.meta@),
                clock,
                now_nanos,
            ),
            final(self).sink.state() == output::taken(
                old(self).sink.state(),
                zend::frames_view(msg.sample.frames@),
                clock,
                now_nanos,
            ),
            final(self).run == (Run {
                taken: old(self).run.taken.wrapping_add(1),
                ..old(self).run
            }),
            final(self).workers == old(self).workers,
            final(self).rediscover_secs == old(self).rediscover_secs,
            final(self).next_rediscover == old(self).next_rediscover,
    {
        let SampleMsg { pid, sample } = msg;
        let Sample { frames, meta } = sample;
        let meta = annotate(pid, meta);
        self.run.took();
        self.sink.write_sample(frames.as_slice(), &meta, clock, now_nanos)
    }

    /// Takes a sample that was still on its way when the run ended, as any other.
    pub fn drained(&mut self, msg: SampleMsg, clock: u64, now_nanos: i64) -> (r: Output)
        ensures
            r@ == output::taken_output(
                old(self).sink.state(),
                zend::frames_view(msg.sample.frames@),
                annotated_meta(msg.pid as int, msg.sample.meta@),
                clock,
                now_nanos,
            ),
            final(self).sink.state() == output::taken(
                old(self).sink.state(),
                zend::frames_view(msg.sample.frames@),
                clock,
                now_nanos,
            ),
            final(self).run == (Run {
                taken: old(self).run.taken.wrapping_add(1),
                ..old(self).run
            }),
            final(self).workers == old(self).workers,
            final(self).rediscover_secs == old(self).rediscover_secs,
            final(self).next_rediscover == old(self).next_rediscover,
    {
        self.received(msg, clock, now_nanos)
    }

    /// Whether processes are to be discovered anew now. If so, the next time is
    /// set.
    fn rediscover(&mut self, now: u64) -> (r: bool)
        ensures
            r == (old(self).next_rediscover matches Some(t) && now >= t),
            final(self).next_rediscover == if r {
                next_discovery(old(self).rediscover_secs, now)
            } else {
                old(self).next_rediscover
            },
            final(self).rediscover_secs == old(self).rediscover_secs,
            final(self).run == old(self).run,
            final(self).sink == old(self).sink,
            final(self).workers == old(self).workers,
    {
        match self.next_rediscover {
            Some(t) => if now >= t {
                self.next_rediscover = match self.rediscover_secs {
                    Some(secs) => {
                        let next: u128 = now as u128 + secs as u128 * 1_000_000_000;
                        if next > u64::MAX as u128 {
                            Some(u64::MAX)
                        } else {
                            Some(next as u64)
                        }
                    },
                    None => None,
                };
                true
            } else {
                false
            },
            None => false,
        }
    }

    /// Notes that a process is being sampled.
    pub fn spawned(&mut self, pid: i32)
        ensures
            final(self).workers@ == old(self).workers@.insert(pid),
            final(self).run == old(self).run,
            final(self).sink == old(self).sink,
            final(self).rediscover_secs == old(self).rediscover_secs,
            final(self).next_rediscover == old(self).next_rediscover,
    {
        self.workers.insert(pid);
    }

    /// Takes what a discovery found, and which workers have finished by then.
    /// Returns the processes that are there and not being sampled.
    pub fn discovered(&mut self, finished: &[i32], found: &HashSet<i32>) -> (r: Vec<i32>)
        ensures
            forall|pid: i32| #[trigger]
                final(self).workers@.contains(pid) <==> old(self).workers@.contains(pid)
                    && !finished@.contains(pid),
            r@.no_duplicates(),
            forall|pid: i32| #[trigger]
                r@.contains(pid) <==> found@.contains(pid) && !final(self).workers@.contains(pid),
            final(self).run == old(self).run,
            final(self).sink == old(self).sink,
            final(self).rediscover_secs == old(self).rediscover_secs,
            final(self).next_rediscover == old(self).next_rediscover,
    {
        assert(finished@.take(0) =~= Seq::<i32>::empty());
        for i in 0..finished.len()
            invariant
                forall|pid: i32| #[trigger]
                    self.workers@.contains(pid) <==> old(self).workers@.contains(pid)
                        && !finished@.take(i as int).contains(pid),
                self.run == old(self).run,
                self.sink == old(self).sink,
                self.rediscover_secs == old(self).rediscover_secs,
                self.next_rediscover == old(self).next_rediscover,
        {
            let gone: i32 = finished[i];
            self.workers.remove(&gone);
            proof {
                let before = finished@.take(i as int);
                let after = finished@.take(i + 1);
                assert(after =~= before.push(gone));
                assert forall|pid: i32| after.contains(pid) == (before.contains(pid) || pid
                    == gone) by {
                    if before.contains(pid) {
                        let k = choose|k: int| 0 <= k < before.len() && before[k] == pid;
                        assert(after[k] == pid);
                    }
                    assert(after[i as int] == gone);
                }
            }
        }
        assert(finished@.take(finished@.len() as int) =~= finished@);
        without(found, &self.workers)
    }
}

/// What came of waiting for a sample.
pub enum Received {
    Sample(SampleMsg),
    /// None came in time.
    Timeout,
    /// None will come any more.
    Disconnected,
}

/// What a run of many processes does next.
#[derive(Debug, Clone, Copy, PartialEq, Eq, Structural)]
pub enum Next {
    /// It ends.
    Stop,
    /// Processes are discovered anew.
    Rediscover,
    /// It waits for the next sample.
    Wait,
}

/// What is taken of what came.
pub open spec fn received_output(
    state: OutputState,
    received: Received,
    clock: u64,
    now_nanos: i64,
) -> Option<OutputView> {
    match received {
        Received::Sample(msg) => Some(
            output::taken_output(
                state,
                zend::frames_view(msg.sample.frames@),
                annotated_meta(msg.pid as int, msg.sample.meta@),
                clock,
                now_nanos,
            ),
        ),
        _ => None,
    }
}

/// The sink after what came.
pub open spec fn received_state(
    state: OutputState,
    received: Received,
    clock: u64,
    now_nanos: i64,
) -> OutputState {
    match received {
        Received::Sample(msg) => output::taken(
            state,
            zend::frames_view(msg.sample.frames@),
            clock,
            now_nanos,
        ),
        _ => state,
    }
}

/// What a run does after what came: it ends when no sample will come any more,
/// and discovers anew when that is due.
pub open spec fn next_after(received: Received, next_rediscover: Option<u64>, now: u64) -> Next {
    if received is Disconnected {
        Next::Stop
    } else if next_rediscover matches Some(t) && now >= t {
        Next::Rediscover
    } else {
        Next::Wait
    }
}

impl MultiRun {
    /// One turn of the run: takes what came of waiting, and says what is next.
    pub fn turn(&mut self, received: Received, clock: u64, now_nanos: i64) -> (r: (
        Option<Output>,
        Next,
    ))
        ensures
            match r.0 {
                Some(out) => received_output(old(self).sink.state(), received, clock, now_nanos)
                    == Some(out@),
                None => received_output(
                    old(self).sink.state(),
                    received,
                    clock,
                    now_nanos,
                ) is None,
            },
            r.1 == next_after(received, old(self).next_rediscover, clock),
            final(self).sink.state() == received_state(
                old(self).sink.state(),
                received,
                clock,
                now_nanos,
            ),
            final(self).next_rediscover == if r.1 == Next::Rediscover {
                next_discovery(old(self).rediscover_secs, clock)
            } else {
                old(self).next_rediscover
            },
            final(self).run == if received is Sample {
                Run { taken: old(self).run.taken.wrapping_add(1), ..old(self).run }
            } else {
                old(self).run
            },
            final(self).workers == old(self).workers,
            final(self).rediscover_secs == old(self).rediscover_secs,
    {
        let output: Option<Output> = match received {
            Received::Sample(msg) => Some(self.received(msg, clock, now_nanos)),
            Received::Timeout => None,
            Received::Disconnected => return (None, Next::Stop),
        };
        if self.rediscover(clock) {
            (output, Next::Rediscover)
        } else {
            (output, Next::Wait)
        }
    }
}

/// What a worker does after it tried to take a sample.
pub enum WorkerNext {
    /// It sends the sample on.
    Send(Sample),
    /// There is nothing to send.
    Idle,
    /// The target is gone.
    Stop,
}

/// What a worker does: it sends a sample that it took, and stops when it can take
/// none because the target is gone.
pub fn worker_turn(taken: Result<Option<Sample>, ReadError>, target_exists: bool) -> (r: WorkerNext)
    ensures
        match taken {
            Ok(Some(s)) => r == WorkerNext::Send(s),
            Ok(None) => r == WorkerNext::Idle,
            Err(_) => r == (if target_exists {
                WorkerNext::Idle
            } else {
                WorkerNext::Stop
            }),
        },
{
    match taken {
        Ok(Some(s)) => WorkerNext::Send(s),
        Ok(None) => WorkerNext::Idle,
        Err(_) => if target_exists {
            WorkerNext::Idle
        } else {
            WorkerNext::Stop
        },
    }
}

// The live display

/// The processes that the live display samples: the one that is asked for, or
/// all that were discovered; `None` if there are none.
pub fn top_targets(source: &Source, found: &HashSet<i32>) -> (r: Option<Vec<i32>>)
    ensures
        match source {
            Source::Pid(pid) => r matches Some(pids) && pids@ == seq![*pid],
            Source::Matching(_) => match r {
                Some(pids) => pids@.len() > 0 && pids@.no_duplicates() && (forall|pid: i32|
                    #[trigger]
                    pids@.contains(pid) <==> found@.contains(pid)),
                None => found@ == Set::<i32>::empty(),
            },
        },
{
    match source {
        Source::Pid(pid) => {
            let pids = vec![*pid];
            assert(pids@ =~= seq![*pid]);
            Some(pids)
        },
        Source::Matching(_) => {
            let none: HashSet<i32> = HashSet::new();
            let pids = without(found, &none);
            if pids.len() == 0 {
                assert forall|pid: i32| !found@.contains(pid) by {
                    assert(!pids@.contains(pid));
                }
                assert(found@ =~= Set::<i32>::empty());
                None
            } else {
                Some(pids)
            }
        },
    }
}

/// The members of a set that are not in another, in any order.
fn without(found: &HashSet<i32>, others: &HashSet<i32>) -> (r: Vec<i32>)
    ensures
        r@.no_duplicates(),
        forall|pid: i32| #[trigger]
            r@.contains(pid) <==> found@.contains(pid) && !others@.contains(pid),
{
    let mut out: Vec<i32> = Vec::new();
    let ghost mut seen: Seq<i32> = Seq::empty();
    let keys = found.iter();
    for pid in it: keys
        invariant
            it.seq().unref().to_set() == found@,
            it.seq().no_duplicates(),
            seen.len() == it.index(),
            forall|j: int| 0 <= j < seen.len() ==> #[trigger] seen[j] == *it.seq()[j],
            it.index() == it.seq().len() ==> seen == it.seq().unref(),
            out@.no_duplicates(),
            forall|p: i32| #[trigger]
                out@.contains(p) <==> seen.contains(p) && !others@.contains(p),
    {
        let ghost before = out@;
        let ghost seen_before = seen;
        proof {
            assert forall|j: int| 0 <= j < seen.len() implies #[trigger] seen[j] != *pid by {
                assert(it.seq()[j] != it.seq()[it.index()]);
            }
            seen = seen.push(*pid);
            assert(seen[seen_before.len() as int] == *pid);
            assert forall|p: i32| #[trigger] seen.contains(p) <==> (seen_before.contains(p)
                || p == *pid) by {
                if seen_before.contains(p) {
                    let j = choose|j: int| 0 <= j < seen_before.len() && seen_before[j] == p;
                    assert(seen[j] == p);
                }
            }
        }
        if !others.contains(pid) {
            assert(!before.contains(*pid));
            out.push(*pid);
            proof {
                assert(out@[before.len() as int] == *pid);
                assert forall|p: i32| #[trigger] out@.contains(p) <==> (before.contains(p)
                    || p == *pid) by {
                    if before.contains(p) {
                        let j = choose|j: int| 0 <= j < before.len() && before[j] == p;
                        assert(out@[j] == p);
                    }
                }
            }
        }
    }
    out
}

/// A sink that can be ended can be ended after any sample.
pub proof fn lemma_stays_open(
    state: OutputState,
    frames: Seq<FrameView>,
    clock: u64,
    now_nanos: i64,
)
    requires
        output::can_end(state),
    ensures
        output::can_end(output::taken(state, frames, clock, now_nanos)),
{
}

} // verus!
