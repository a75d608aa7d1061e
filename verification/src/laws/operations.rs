//! What comes of calling the library's operations.

use crate::arch::Arch;
use crate::cli;
use crate::cli::{Args, Format, Mode, Plan, RunError, Source};
use crate::discover;
use crate::discover::{ProcEntry, ProcessFilter, ProcessInfo};
use crate::laws::accessors;
use crate::laws::binaries;
use crate::laws::discovery;
use crate::laws::display;
use crate::laws::frames;
use crate::laws::layouts;
use crate::laws::maps;
use crate::laws::memory;
use crate::laws::memory::{holds_string, remembers, value};
use crate::laws::pace;
use crate::laws::profiles;
use crate::laws::pushes;
use crate::laws::requests;
use crate::laws::sinks;
use crate::laws::texts;
use crate::offsets;
use crate::offsets::{LayoutOverrides, VersionLayout};
use crate::output;
use crate::output::{FormatSink, MetaView, Output, OutputSink, SampleMeta, Sink, SinkState};
use crate::pprof;
use crate::pprof::PprofBuilder;
use crate::proc;
use crate::proc::MapEntry;
use crate::prologue;
use crate::prologue::PrologueError;
use crate::pyroscope;
use crate::pyroscope::{Push, PushRequest, PyroscopeConfig, PyroscopeSink};
use crate::remote::{Memory, ReadError, Remote};
use crate::sampler;
use crate::sampler::{
    MultiRun, Next, Pacer, Received, Run, Sample, SampleMsg, Sampler, WorkerNext,
};
use crate::symbols;
use crate::symbols::{ElfImage, ResolveOptions, SymbolError, Symbols};
use crate::target;
use crate::target::{
    AttachError, AttachFault, AttachNext, AttachOptions, Attachment, Binary, Target, Walk,
};
use crate::text;
use crate::tls;
use crate::tls::{TcbError, WaitEvent, WaitNext, ZtsError};
use crate::tui;
use crate::tui::{Aggregator, Counts, Display, Key};
use crate::zend;
use crate::zend::{Cache, Frame, FrameView, StackWalker};
use std::collections::HashSet;
use vstd::prelude::*;
use vstd::utf8;

verus! {

// Stacks

/// Reading a frame gives what the frame that lies there says.
pub proof fn lemma_read_frame(
    walker: &mut StackWalker,
    rem: &Remote,
    addr: u64,
    layout: &VersionLayout,
    r: Result<(Frame, u64), ReadError>,
    f: FrameView,
    prev: u64,
)
    requires
        call_ensures(StackWalker::read_frame, (walker, rem, addr, layout), r),
        layout.op_array_filename + 8 <= 192,
        layout.op_array_line_start + 4 <= 192,
        remembers(old(walker)@, rem@),
        frames::holds_frame(rem@, *layout, addr, f, prev),
    ensures
        r matches Ok((frame, before)) && frame@ == f && before == prev,
{
    frames::lemma_reads_frame(old(walker)@, rem@, *layout, addr, f, prev);
}

/// Capturing a stack gives the frames that lie in memory, innermost first, as
/// many as are wanted.
pub proof fn lemma_capture_stack(
    t: &mut Target,
    max_depth: usize,
    r: Result<Vec<Frame>, ReadError>,
    addrs: Seq<u64>,
    stack: Seq<FrameView>,
)
    requires
        call_ensures(Target::capture_stack, (t, max_depth), r),
        old(t).layout.op_array_filename + 8 <= 192,
        old(t).layout.op_array_line_start + 4 <= 192,
        remembers(old(t).cache(), old(t).remote@),
        frames::linked(old(t).remote@, old(t).layout, addrs, stack),
        value(
            old(t).remote@,
            old(t).symbols.executor_globals.wrapping_add(old(t).layout.eg_current_execute_data),
            8,
        ) == Some(addrs[0] as int),
        max_depth <= stack.len() || frames::ends_at(old(t).remote@, addrs.last()),
    ensures
        r matches Ok(list) && zend::frames_view(list@) == frames::innermost(
            stack,
            max_depth as nat,
        ),
{
    frames::lemma_captures_stack(
        old(t).cache(),
        old(t).remote@,
        old(t).symbols.executor_globals,
        old(t).layout,
        addrs,
        stack,
        max_depth as nat,
    );
}

/// Looking up a request variable gives what `$_SERVER` says under its name.
pub proof fn lemma_request_var(
    t: &Target,
    key: &str,
    r: Result<Option<String>, ReadError>,
    table: u64,
    s: Option<Seq<char>>,
)
    requires
        call_ensures(Target::request_var, (t, key), r),
        requests::server_at(
            t.remote@,
            t.symbols.executor_globals.wrapping_add(t.layout.eg_symbol_table),
            table,
        ),
        table != 0,
        requests::says(t.remote@, table, key@, s),
    ensures
        r matches Ok(found) && (match s {
            Some(s) => found matches Some(v) && v@ == s,
            None => found is None,
        }),
{
    requests::lemma_request_variable(
        t.remote@,
        t.symbols.executor_globals,
        t.layout,
        table,
        key@,
        s,
    );
}

/// A sample has the frames that lie in memory, and the request's URI and method
/// exactly where they are wanted: what `$_SERVER` says under `REQUEST_URI` and
/// `REQUEST_METHOD`.
#[verifier::spinoff_prover]
#[verifier::rlimit(40)]
pub proof fn lemma_take_sample(
    t: &mut Target,
    walk: &mut Walk,
    request_info: bool,
    max_depth: usize,
    r: Result<Option<Sample>, ReadError>,
    addrs: Seq<u64>,
    stack: Seq<FrameView>,
    table: u64,
    uri: Option<Seq<char>>,
    method: Option<Seq<char>>,
)
    requires
        call_ensures(sampler::take_sample, (t, walk, request_info, max_depth), r),
        old(walk)@ == target::fresh_walk(max_depth as nat),
        old(t).layout.op_array_filename + 8 <= 192,
        old(t).layout.op_array_line_start + 4 <= 192,
        remembers(old(t).cache(), old(t).remote@),
        frames::linked(old(t).remote@, old(t).layout, addrs, stack),
        value(
            old(t).remote@,
            old(t).symbols.executor_globals.wrapping_add(old(t).layout.eg_current_execute_data),
            8,
        ) == Some(addrs[0] as int),
        max_depth <= stack.len() || frames::ends_at(old(t).remote@, addrs.last()),
        max_depth > 0,
        stack.len() > 0,
        request_info ==> requests::server_at(
            old(t).remote@,
            old(t).symbols.executor_globals.wrapping_add(old(t).layout.eg_symbol_table),
            table,
        ) && table != 0 && requests::says(old(t).remote@, table, "REQUEST_URI"@, uri)
            && requests::says(old(t).remote@, table, "REQUEST_METHOD"@, method),
    ensures
        r matches Ok(Some(s)) && {
            &&& zend::frames_view(s.frames@) == frames::innermost(stack, max_depth as nat)
            &&& request_info ==> s.meta@.request_uri == uri && s.meta@.request_method == method
            &&& !request_info ==> s.meta@.request_uri is None && s.meta@.request_method is None
        },
{
    sampler::lemma_fresh_sample(
        old(t).cache(),
        old(t).remote@,
        old(t).symbols.executor_globals,
        old(t).layout,
        request_info,
        max_depth as nat,
    );
    requests::lemma_sample(
        old(t).cache(),
        old(t).remote@,
        old(t).symbols.executor_globals,
        old(t).layout,
        addrs,
        stack,
        max_depth as nat,
        table,
        uri,
        method,
        request_info,
    );
}

// Layouts

/// The layout of a PHP version has the offsets of its minor version.
pub proof fn lemma_pick(
    version: &str,
    overrides: &LayoutOverrides,
    r: Option<VersionLayout>,
    digit: char,
)
    requires
        call_ensures(offsets::pick, (version, overrides), r),
        layouts::is_version(version@, digit),
        '0' <= digit <= '5',
    ensures
        r matches Some(l) && {
            &&& l.op_array_filename == if digit == '2' {
                152
            } else if digit == '4' || digit == '5' {
                168
            } else {
                144int
            }
            &&& l.op_array_line_start == l.op_array_filename + 8
            &&& overrides.eg_current_execute_data is None ==> l.eg_current_execute_data == if digit
                == '5' {
                512
            } else {
                488int
            }
            &&& overrides.eg_symbol_table is None ==> l.eg_symbol_table == 304
        },
{
    layouts::lemma_picks(version@, digit, *overrides);
}

// Output

/// A frame goes by its class and function.
pub proof fn lemma_qualified_name(f: &Frame, r: String)
    requires
        call_ensures(zend::qualified_name, (f,), r),
    ensures
        f.class is None ==> r@ == f.function@,
        f.class matches Some(c) ==> r@ == c@ + seq![':', ':'] + f.function@,
{
    sinks::lemma_name(f@);
}

/// A frame is written as its name, its file and its line.
pub proof fn lemma_render_frame(f: &Frame, r: String)
    requires
        call_ensures(output::render_frame, (f,), r),
    ensures
        r@ == sinks::frame_on_line(f@),
{
    sinks::lemma_frame_line(f@);
}

/// A sink of stacks writes a sample as its lines; other sinks write nothing yet.
pub proof fn lemma_write_sample(
    sink: &mut FormatSink,
    list: &[Frame],
    meta: &SampleMeta,
    r: Vec<u8>,
)
    requires
        call_ensures(<FormatSink as Sink>::write_sample, (sink, list, meta), r),
        forall|k: int|
            0 <= k < list@.len() ==> sinks::one_line(#[trigger] zend::frames_view(list@)[k]),
        meta@.request_uri matches Some(uri) ==> sinks::plain(uri),
        meta@.request_method matches Some(method) ==> sinks::plain(method),
    ensures
        old(sink).state() is Stacks ==> r@ == utf8::encode_utf8(
            output::sample_text(zend::frames_view(list@), meta@),
        ) && text::lines(output::sample_text(zend::frames_view(list@), meta@))
            == sinks::request_lines(meta@) + Seq::new(
            list@.len(),
            |k: int| sinks::numbered_line(zend::frames_view(list@), k),
        ) + seq![Seq::<char>::empty()],
        !(old(sink).state() is Stacks) ==> r@ == Seq::<u8>::empty(),
{
    let view = zend::frames_view(list@);
    sinks::lemma_sample_lines(view, meta@);
    let a = Seq::new(view.len(), |k: int| sinks::numbered_line(view, k));
    let b = Seq::new(list@.len(), |k: int| sinks::numbered_line(zend::frames_view(list@), k));
    assert(a =~= b);
}

/// A sink of folded stacks counts a stack under the names of all its frames, the
/// outermost first; an empty stack is not counted.
pub proof fn lemma_fold_sample(
    sink: &mut FormatSink,
    list: &[Frame],
    meta: &SampleMeta,
    r: Vec<u8>,
    entries: Seq<(Seq<char>, u64)>,
    other: Seq<char>,
)
    requires
        call_ensures(<FormatSink as Sink>::write_sample, (sink, list, meta), r),
        old(sink).state() == SinkState::Folded(entries),
        output::ascending(entries),
    ensures
        ({
            let view = zend::frames_view(list@);
            let name = text::joined(sinks::names_outermost_first(view), seq![';']);
            final(sink).state() matches SinkState::Folded(after) && {
                &&& list@.len() == 0 ==> after == entries
                &&& list@.len() > 0 ==> output::count_of(after, name) == output::count_of(
                    entries,
                    name,
                ).wrapping_add(1)
                &&& other != name ==> output::count_of(after, other) == output::count_of(
                    entries,
                    other,
                )
            }
        }),
{
    let view = zend::frames_view(list@);
    sinks::lemma_folds(view);
    let name = output::folded_name(view);
    output::lemma_tallied_counts(entries, name, name);
    output::lemma_tallied_counts(entries, name, other);
}

/// A push has the tenant and the token each where it is given, then the headers
/// that are given, and goes to the server with the window's times.
pub proof fn lemma_make_request(
    cfg: &PyroscopeConfig,
    body: Vec<u8>,
    from: i64,
    until: i64,
    r: PushRequest,
    v: Seq<char>,
)
    requires
        call_ensures(pyroscope::make_request, (cfg, body, from, until), r),
    ensures
        ({
            let own = r@.headers.take(r@.headers.len() - cfg.headers@.len());
            &&& own.contains(("X-Scope-OrgID"@, v)) <==> (cfg.tenant_id matches Some(t) && t@ == v)
            &&& own.contains(("Authorization"@, v)) <==> (cfg.auth_token matches Some(t) && v
                == "Bearer "@ + t@)
            &&& own.contains(("Content-Type"@, v)) <==> v == "application/octet-stream"@
            &&& r@.headers.skip(own.len() as int) == pyroscope::pairs(cfg.headers@)
            &&& r@.url == cfg.url@ + "/ingest"@
            &&& r@.body == body@
            &&& r@.query.contains(("name"@, v)) <==> v == cfg.name@
            &&& r@.query.contains(("from"@, v)) <==> v == text::signed_decimal(
                pyroscope::seconds(from),
            )
            &&& r@.query.contains(("until"@, v)) <==> v == text::signed_decimal(
                pyroscope::seconds(until),
            )
            &&& r@.query.contains(("format"@, v)) <==> v == "pprof"@
            &&& r@.query.contains(("spyName"@, v)) <==> v == "pfp"@
        }),
{
    let token = text::opt_string(cfg.auth_token);
    let tenant = text::opt_string(cfg.tenant_id);
    let built = pyroscope::built_in_headers(token, tenant);
    pushes::lemma_built_in_headers(token, tenant, v);
    pushes::lemma_request(*cfg, body@, from, until, v);
    let given = pyroscope::pairs(cfg.headers@);
    assert(r@.headers == built + given);
    assert(r@.headers.take(r@.headers.len() - cfg.headers@.len()) =~= built);
    assert(r@.headers.skip(built.len() as int) =~= given);
}

/// Adding a stack to a profile gives it a sample, frame by frame, and one more
/// count.
pub proof fn lemma_add(b: &mut PprofBuilder, list: &[Frame], r: ())
    requires
        call_ensures(PprofBuilder::add, (b, list), r),
    ensures
        ({
            let view = zend::frames_view(list@);
            &&& exists|i: int|
                0 <= i < final(b)@.stacks.len()
                    && #[trigger] profiles::is_sample_of(final(b)@, i, view)
            &&& pprof::count_of(final(b)@, pprof::frames_text(view)) == pprof::count_of(
                old(b)@,
                pprof::frames_text(view),
            ).wrapping_add(1)
        }),
{
    profiles::lemma_sample_of_stack(old(b)@, zend::frames_view(list@));
}

/// A profile that is taken has the time and the length of its window, and leaves
/// an empty one.
pub proof fn lemma_take_profile(b: &mut PprofBuilder, now: i64, r: (Vec<u8>, i64, i64))
    requires
        call_ensures(PprofBuilder::take_profile, (b, now), r),
    ensures
        r.0@ == pprof::profile_bytes(
            pprof::with_units(old(b)@),
            old(b).started(),
            pprof::elapsed(old(b).started(), now),
        ),
        r.1 == old(b).started(),
        r.2 == now,
        final(b)@.stacks.len() == 0,
        final(b).started() == now,
        i64::MIN <= now - old(b).started() <= i64::MAX ==> pprof::elapsed(old(b).started(), now)
            == if now > old(b).started() {
            now - old(b).started()
        } else {
            0
        },
{
}

// The live display

/// Recording a stack counts each of its functions once, the innermost one also as
/// such.
pub proof fn lemma_record(
    a: &mut Aggregator,
    list: &[Frame],
    clock: u64,
    r: (),
    name: Seq<char>,
)
    requires
        call_ensures(Aggregator::record, (a, list, clock), r),
        list@.len() > 0,
        old(a)@.samples < u64::MAX,
        tui::counts_of(old(a)@.rows, name).exclusive < u64::MAX,
        tui::counts_of(old(a)@.rows, name).inclusive < u64::MAX,
    ensures
        ({
            let view = zend::frames_view(list@);
            let before = tui::counts_of(old(a)@.rows, name);
            let after = tui::counts_of(final(a)@.rows, name);
            &&& after.exclusive == before.exclusive + if display::innermost_is(view, name) {
                1int
            } else {
                0
            }
            &&& after.inclusive == before.inclusive + if display::some_is(view, name) {
                1int
            } else {
                0
            }
            &&& final(a)@.samples == old(a)@.samples + 1
        }),
{
    display::lemma_records(old(a)@, zend::frames_view(list@), clock, name);
}

/// The rows that are shown are sorted by the count that is asked for.
pub proof fn lemma_top_rows(
    a: &Aggregator,
    by_inclusive: bool,
    limit: usize,
    r: Vec<(String, Counts)>,
    i: int,
    j: int,
)
    requires
        call_ensures(Aggregator::top_rows, (a, by_inclusive, limit), r),
        0 <= i < j < r@.len(),
    ensures
        by_inclusive ==> r@[i].1.inclusive >= r@[j].1.inclusive,
        !by_inclusive ==> r@[i].1.exclusive >= r@[j].1.exclusive,
        r@[i].0@ != r@[j].0@,
        a@.rows[r@[i].0@] == r@[i].1,
        r@.len() <= limit,
{
    let top = tui::rows_view(r@);
    display::lemma_top_rows(a@.rows, by_inclusive, limit as nat, top, i, j, Seq::empty());
    assert(top[i] == (r@[i].0@, r@[i].1));
    assert(top[j] == (r@[j].0@, r@[j].1));
}

/// A display is drawn at first, and then when a tick has passed since.
pub proof fn lemma_draw_due(d: &Display, clock: u64, tick: u64, r: bool)
    requires
        call_ensures(Display::draw_due, (d, clock, tick), r),
    ensures
        d.last_draw is None ==> r,
        d.last_draw matches Some(t) ==> tick > 0 ==> (r <==> clock >= t + tick),
{
}

/// `q` and Esc quit, `i` turns the sort round, `r` counts anew, and no other key
/// does anything.
pub proof fn lemma_on_key(d: &mut Display, key: Key, clock: u64, quit: bool)
    requires
        call_ensures(Display::on_key, (d, key, clock), quit),
    ensures
        quit <==> key == Key::Char('q') || key == Key::Esc,
        key == Key::Char('i') <==> final(d).by_inclusive != old(d).by_inclusive,
        key == Key::Char('r') ==> final(d).agg@.samples == 0 && final(d).agg@.rows.dom() == Set::<
            Seq<char>,
        >::empty() && final(d).agg@.started == Some(clock),
        key != Key::Char('r') ==> final(d).agg@ == old(d).agg@,
{
}

// Accessors

/// An x86_64 version accessor returns where its displacement leads.
pub proof fn lemma_decode_version(
    machine: Arch,
    fn_addr: u64,
    buf: &[u8],
    r: Result<u64, PrologueError>,
    disp: Seq<u8>,
    rest: Seq<u8>,
)
    requires
        call_ensures(prologue::decode_php_version_prologue, (machine, fn_addr, buf), r),
        machine == Arch::X86_64,
        disp.len() == 4,
        buf@ == Seq::<u8>::empty() + seq![0x48u8, 0x8du8, 0x05u8] + disp + seq![0xc3u8] + rest,
    ensures
        r == Ok::<u64, PrologueError>(
            accessors::modulo(
                fn_addr + 0 + 7 + accessors::signed(memory::number(disp)),
            ) as u64,
        ),
{
    accessors::lemma_x86_64_version(fn_addr, Seq::empty(), disp, rest);
}

/// An x86_64 slot accessor returns its immediate.
pub proof fn lemma_decode_slot(
    machine: Arch,
    buf: &[u8],
    r: Result<i64, TcbError>,
    imm: Seq<u8>,
    rest: Seq<u8>,
)
    requires
        call_ensures(tls::decode_tcb_offset_bytes, (machine, buf), r),
        machine == Arch::X86_64,
        imm.len() == 4,
        buf@ == Seq::<u8>::empty() + seq![0x48u8, 0xc7u8, 0xc0u8] + imm + seq![0xc3u8] + rest,
    ensures
        r == Ok::<i64, TcbError>(accessors::signed(memory::number(imm)) as i64),
{
    accessors::lemma_x86_64_slot(Seq::empty(), imm, rest);
}

/// A task that was told to stop is read once it has, waited for up to two seconds
/// while it has not, and let go otherwise.
pub proof fn lemma_wait_step(seen: WaitEvent, waited: u64, r: WaitNext)
    requires
        call_ensures(tls::wait_step, (seen, waited), r),
    ensures
        r == WaitNext::Go <==> seen == WaitEvent::Stopped,
        r == WaitNext::Sleep <==> seen == WaitEvent::StillAlive && waited < 2_000_000_000,
{
}

/// Attaching is tried again with what it lacks: a reply, or the thread pointer if
/// there is none yet.
pub proof fn lemma_attach_next(
    e: &AttachError,
    has_base: bool,
    r: AttachNext,
    addr: u64,
    len: usize,
)
    requires
        call_ensures(target::attach_next, (e, has_base), r),
    ensures
        r == (AttachNext::Read { addr, len }) <==> *e == AttachError::Read(
            ReadError::Pending { addr, len },
        ) || *e == AttachError::Zts(ZtsError::Read(ReadError::Pending { addr, len })),
        r == AttachNext::TlsBase <==> *e == AttachError::Zts(ZtsError::NeedTlsBase) && !has_base,
{
}

// Runs

/// A run goes on until it is stopped or its seconds are over.
pub proof fn lemma_goes_on(run: &Run, stop: bool, now: u64, r: bool, secs: u64)
    requires
        call_ensures(Run::goes_on, (run, stop, now), r),
    ensures
        stop ==> !r,
        !stop && run.duration_secs is None ==> r,
        !stop && run.duration_secs == Some(secs) && secs > 0 ==> (r <==> now < run.start + secs
            * 1_000_000_000),
{
    pushes::lemma_due(run.start, now, secs);
}

/// Samples that were taken and that failed are counted apart, and a run whose
/// target is gone ends.
pub proof fn lemma_run_counts(
    run: &mut Run,
    target_exists: bool,
    goes_on: bool,
)
    requires
        call_ensures(Run::failed, (run, target_exists), goes_on),
        old(run).errors < u64::MAX,
    ensures
        goes_on == target_exists,
        final(run).errors == old(run).errors + 1,
        final(run).taken == old(run).taken,
{
}

/// A sampler waits until its next sample is due, and not at all once it is.
pub proof fn lemma_wait(p: &Pacer, now: u64, r: u64)
    requires
        call_ensures(Pacer::wait, (p, now), r),
    ensures
        now <= p.next ==> now + r == p.next,
        now > p.next ==> r == 0,
{
}

/// After a sample the next is due an interval later, unless that is more than four
/// intervals ago.
pub proof fn lemma_advance(p: &mut Pacer, now: u64, r: ())
    requires
        call_ensures(Pacer::advance, (p, now), r),
        old(p).next + old(p).interval <= u64::MAX,
        now + old(p).interval <= u64::MAX,
    ensures
        final(p).interval == old(p).interval,
        now <= old(p).next + 5 * old(p).interval ==> final(p).next == old(p).next
            + old(p).interval,
        now > old(p).next + 5 * old(p).interval ==> final(p).next == now + old(p).interval,
{
    pace::lemma_next_due(old(p).next, old(p).interval, now);
}

/// A worker sends the sample that it took, and stops exactly where it could take
/// none and its target is gone.
pub proof fn lemma_worker_turn(
    taken: Result<Option<Sample>, ReadError>,
    target_exists: bool,
    r: WorkerNext,
)
    requires
        call_ensures(sampler::worker_turn, (taken, target_exists), r),
    ensures
        taken matches Ok(Some(s)) ==> r == WorkerNext::Send(s),
        r is Stop <==> taken is Err && !target_exists,
        taken matches Ok(None) ==> r is Idle,
{
}

/// A turn of a run of many processes writes the sample that came, with its process
/// before the URI, and counts it; it ends when none will come any more.
pub proof fn lemma_turn(
    m: &mut MultiRun,
    received: Received,
    clock: u64,
    now_nanos: i64,
    r: (Option<Output>, Next),
)
    requires
        call_ensures(MultiRun::turn, (m, received, clock, now_nanos), r),
        old(m).run.taken < u64::MAX,
    ensures
        received matches Received::Sample(msg) ==> {
            &&& final(m).run.taken == old(m).run.taken + 1
            &&& old(m).sink.state() == output::OutputState::Write(SinkState::Stacks) ==> (
            r.0 matches Some(out) && out@ == output::OutputView::Bytes(
                utf8::encode_utf8(
                    output::sample_text(
                        zend::frames_view(msg.sample.frames@),
                        MetaView {
                            request_uri: match msg.sample.meta@.request_uri {
                                Some(uri) => Some(
                                    seq!['[', 'p', 'i', 'd', ' '] + text::signed_decimal(
                                        msg.pid as int,
                                    ) + seq![']', ' '] + uri,
                                ),
                                None => None,
                            },
                            request_method: msg.sample.meta@.request_method,
                        },
                    ),
                ),
            ))
        },
        !(received is Sample) ==> r.0 is None && final(m).run.taken == old(m).run.taken
            && final(m).sink.state() == old(m).sink.state(),
        r.1 == Next::Stop <==> received is Disconnected,
        r.1 == Next::Rediscover <==> !(received is Disconnected) && (
        old(m).next_rediscover matches Some(t) && clock >= t),
{
    if let Received::Sample(msg) = received {
        pace::lemma_annotated(msg.pid as int, msg.sample.meta@);
        let meta = sampler::annotated_meta(msg.pid as int, msg.sample.meta@);
        if let Some(uri) = msg.sample.meta@.request_uri {
            assert(meta.request_uri is Some);
        }
        assert(meta =~= MetaView {
            request_uri: match msg.sample.meta@.request_uri {
                Some(uri) => Some(
                    seq!['[', 'p', 'i', 'd', ' '] + text::signed_decimal(msg.pid as int) + seq![
                        ']',
                        ' ',
                    ] + uri,
                ),
                None => None,
            },
            request_method: msg.sample.meta@.request_method,
        });
    }
}

// The command line

/// What is done follows the command line: the process that is named or those that
/// match, at the rate, for the time and with the rediscovery that are given.
pub proof fn lemma_run(args: &Args, cgroup: Option<&str>, r: Result<Plan, RunError>)
    requires
        call_ensures(cli::run, (args, cgroup), r),
    ensures
        args.pid matches Some(pid) ==> (r matches Ok(plan) && plan.source == Source::Pid(pid)),
        args.pid is None && args.pgrep is None && args.cmdline is None ==> r == Err::<
            Plan,
            RunError,
        >(RunError::NoSelection),
        args.pid is None && (args.pgrep is Some || args.cmdline is Some) && !args.this_container
            ==> (r matches Ok(plan) && (plan.source matches Source::Matching(f) && text::opt_string(
            f.name,
        ) == text::opt_string(args.pgrep) && text::opt_string(f.cmdline) == text::opt_string(
            args.cmdline,
        ) && f.cgroup is None)),
        r matches Ok(plan) ==> {
            &&& plan.mode == Mode::Top <==> args.format == Format::Top && args.pyroscope_url is None
            &&& args.rate_hz > 0 ==> plan.interval_nanos * args.rate_hz <= 1_000_000_000 < (
            plan.interval_nanos + 1) * args.rate_hz
            &&& args.duration_secs == 0 <==> plan.duration_secs is None
            &&& plan.duration_secs matches Some(s) ==> s == args.duration_secs
            &&& args.rediscover_secs == 0 <==> plan.rediscover_secs is None
            &&& plan.rediscover_secs matches Some(s) ==> s == args.rediscover_secs
        },
{
    discovery::lemma_interval(args.rate_hz);
}

/// An address is read from hexadecimal digits, after `0x` or without.
pub proof fn lemma_parse_hex_addr(s: &str, r: Result<u64, String>, digits: Seq<char>, addr: u64)
    requires
        call_ensures(cli::parse_hex_addr, (s,), r),
        digits.len() > 0,
        texts::all_hex(digits),
        texts::hex_value(digits) == addr,
        s@ == digits || s@ == seq!['0', 'x'] + digits || s@ == seq!['0', 'X'] + digits,
    ensures
        r matches Ok(a) && a == addr,
{
    discovery::lemma_address(digits, addr);
}

// Memory

/// A reply that is supplied is what reading gives from then on, if it is as long
/// as was asked for; other reads stay as they are.
pub proof fn lemma_supply(
    rem: &mut Remote,
    addr: u64,
    len: usize,
    bytes: Option<Vec<u8>>,
    r: (),
    other: (u64, usize),
)
    requires
        call_ensures(Remote::supply, (rem, addr, len, bytes), r),
        len != 0,
    ensures
        bytes matches Some(b) ==> b@.len() == len ==> memory::gives(
            final(rem)@,
            addr,
            len as int,
            b@,
        ),
        bytes matches Some(b) ==> b@.len() != len ==> memory::fails(final(rem)@, addr, len as int),
        bytes is None ==> memory::fails(final(rem)@, addr, len as int),
        other != (addr, len) ==> final(rem)@.dom().contains(other) == old(rem)@.dom().contains(
            other,
        ) && (old(rem)@.dom().contains(other) ==> final(rem)@[other] == old(rem)@[other]),
        memory::whole(old(rem)@) ==> memory::whole(final(rem)@),
{
    if memory::whole(old(rem)@) {
        assert forall|a: u64, n: usize| #[trigger]
            final(rem)@.dom().contains((a, n)) implies (final(rem)@[(a, n)] matches Some(b)
            ==> b.len() == n) by {
            if (a, n) != (addr, len) {
                assert(old(rem)@.dom().contains((a, n)));
            }
        }
    }
}

/// A string is read as it lies in memory.
pub proof fn lemma_read_zend_string(
    rem: &Remote,
    addr: u64,
    r: Result<String, ReadError>,
    s: Seq<char>,
)
    requires
        call_ensures(zend::read_zend_string, (rem, addr), r),
        holds_string(rem@, addr, s),
    ensures
        r matches Ok(t) && t@ == s,
{
    memory::lemma_reads_string(rem@, addr, s);
}

/// A key is looked up as the table has it.
pub proof fn lemma_ht_get_string(
    rem: &Remote,
    ht: u64,
    key: &str,
    r: Result<Option<String>, ReadError>,
    s: Option<Seq<char>>,
)
    requires
        call_ensures(zend::ht_get_string, (rem, ht, key), r),
        requests::says(rem@, ht, key@, s),
    ensures
        r matches Ok(found) && text::opt_string(found) == s,
{
    requests::lemma_looks_up(rem@, ht, key@, s);
}

// Binaries

/// The principal binary is the file whose program text is mapped lowest, from
/// where that file is mapped lowest.
pub proof fn lemma_principal_binary(
    list: &[MapEntry],
    r: Option<&MapEntry>,
    t: int,
    b: int,
)
    requires
        call_ensures(proc::principal_binary, (list,), r),
        0 <= t < list@.len(),
        proc::is_text(list@[t]@),
        forall|j: int|
            0 <= j < list@.len() && j != t && proc::is_text((#[trigger] list@[j])@)
                ==> list@[t].start < list@[j].start,
        0 <= b < list@.len(),
        list@[b]@.path == list@[t]@.path,
        forall|j: int|
            0 <= j < list@.len() && (#[trigger] list@[j])@.path == list@[t]@.path
                ==> list@[b].start <= list@[j].start,
    ensures
        r matches Some(m) && m.start == list@[b].start && m@.path == list@[t]@.path,
{
    let view = proc::entries_view(list@);
    assert forall|j: int|
        0 <= j < view.len() && j != t && #[trigger] proc::is_text(view[j]) implies view[t].start
        < view[j].start by {
        assert(list@[j]@ == view[j]);
    }
    assert forall|j: int| 0 <= j < view.len() && (#[trigger] view[j]).path == view[t].path implies
        view[b].start <= view[j].start by {
        assert(list@[j]@ == view[j]);
    }
    maps::lemma_binary(view, t, b);
}

/// The symbols of a build that is not thread-safe are found under their names.
pub proof fn lemma_resolve_image(
    image: &ElfImage,
    host: Option<Arch>,
    opts: &ResolveOptions<'_>,
    r: Result<Symbols, SymbolError>,
    machine: Arch,
    globals: u64,
    version: u64,
)
    requires
        call_ensures(symbols::resolve_image, (image, host, opts), r),
        host == Some(machine),
        image.header.e_type == 2 || image.header.e_type == 3,
        binaries::runs_on(image@, machine),
        binaries::lacks(image@.symbols, "tsrm_get_ls_cache"@),
        binaries::lacks(image@.symbols, "executor_globals_offset"@),
        opts.php_version_override is None,
        opts.executor_globals_override is None,
        binaries::has(image@.symbols, "executor_globals"@, globals),
        binaries::has(image@.symbols, "php_version"@, version),
    ensures
        r matches Ok(s) && {
            let bias = if image.header.e_type == 3 {
                opts.load_base
            } else {
                0
            };
            &&& s.executor_globals == globals.wrapping_add(bias)
            &&& s.php_version == Some(version.wrapping_add(bias))
            &&& s.zts is None
        },
{
    binaries::lemma_resolves(image@, machine, opts@, globals, version);
    binaries::lemma_finds_symbol(image@.symbols, "php_version"@, version);
}

/// The scan of data gives its first string that is a version.
pub proof fn lemma_scan_for_version(data: &[u8], r: Option<String>, i: int, end: int)
    requires
        call_ensures(symbols::scan_for_version, (data,), r),
        binaries::is_first_version(data@, 0, i, end),
    ensures
        r matches Some(v) && v@ == symbols::byte_text(data@.subrange(i, end)),
{
    binaries::lemma_scans(data@, i, end);
}

/// A text is a version exactly if it is an eight and two numbers of up to three
/// digits, with dots between them.
pub proof fn lemma_looks_like_php_version(
    s: &str,
    r: bool,
    minor: Seq<char>,
    patch: Seq<char>,
)
    requires
        call_ensures(symbols::looks_like_php_version, (s,), r),
    ensures
        binaries::is_number(minor) && binaries::is_number(patch) && s@ == seq!['8', '.'] + minor
            + seq!['.'] + patch ==> r,
        r ==> exists|minor: Seq<char>, patch: Seq<char>|
            #![trigger binaries::is_number(minor), binaries::is_number(patch)]
            binaries::is_number(minor) && binaries::is_number(patch) && s@ == seq!['8', '.']
                + minor + seq!['.'] + patch,
{
    if binaries::is_number(minor) && binaries::is_number(patch) {
        binaries::lemma_is_version(minor, patch);
    }
    if r {
        binaries::lemma_is_no_other_version(s@);
    }
}

/// The executor globals of a thread are found through its slot and its cache.
pub proof fn lemma_resolve_thread_globals(
    rem: &Remote,
    machine: Arch,
    base: Option<u64>,
    accessor: u64,
    variable: u64,
    r: Result<u64, ZtsError>,
    pointer: u64,
    buf: Seq<u8>,
    slot_offset: i64,
    cache: int,
    eg_offset: int,
    globals: int,
)
    requires
        call_ensures(
            tls::resolve_zts_executor_globals,
            (rem, machine, base, accessor, variable),
            r,
        ),
        base == Some(pointer),
        memory::gives(rem@, accessor, 24, buf),
        tls::tcb_offset(machine, buf) == Ok::<i64, TcbError>(slot_offset),
        value(rem@, accessors::modulo(pointer + slot_offset) as u64, 8) == Some(cache),
        value(rem@, variable, 8) == Some(eg_offset),
        value(rem@, accessors::modulo(cache + eg_offset) as u64, 8) == Some(globals),
        cache != 0,
    ensures
        r == Ok::<u64, ZtsError>(globals as u64),
{
    accessors::lemma_thread_globals(
        rem@,
        machine,
        pointer,
        accessor,
        variable,
        buf,
        slot_offset,
        cache,
        eg_offset,
        globals,
    );
}

// Discovery

/// A process matches exactly if it meets all that is asked for.
pub proof fn lemma_process_matches(info: &ProcessInfo, f: &ProcessFilter, r: bool)
    requires
        call_ensures(discover::process_matches, (info, f), r),
    ensures
        r <==> discovery::meets_name(*info, *f) && discovery::meets_cmdline(*info, *f)
            && discovery::meets_cgroup(*info, *f),
{
    discovery::lemma_wanted(*info, *f);
}

/// A process that is found has an entry with its number as its name that meets all
/// that is asked for.
pub proof fn lemma_discover(entries: &[ProcEntry], f: &ProcessFilter, r: HashSet<i32>, pid: i32)
    requires
        call_ensures(discover::discover, (entries, f), r),
        r@.contains(pid),
    ensures
        exists|k: int|
            0 <= k < entries@.len() && text::signed_value(#[trigger] entries@[k].name@) == Some(
                pid as int,
            ) && discovery::meets_name(entries@[k].info, *f) && discovery::meets_cmdline(
                entries@[k].info,
                *f,
            ) && discovery::meets_cgroup(entries@[k].info, *f),
{
    let k = choose|k: int|
        0 <= k < entries@.len() && #[trigger] discover::found(entries@[k], *f, pid);
    discovery::lemma_wanted(entries@[k].info, *f);
    assert(text::signed_value(entries@[k].name@) == Some(pid as int));
}

/// The task of a process that is read is the first that is not its leader.
pub proof fn lemma_pick_task(pid: i32, names: &[String], r: Option<i32>, i: int, tid: i32)
    requires
        call_ensures(tls::pick_task, (pid, names), r),
        0 <= i < names@.len(),
        text::signed_value(names@[i]@) == Some(tid as int),
        tid != pid,
        forall|j: int|
            0 <= j < i ==> text::signed_value((#[trigger] names@[j])@) is None
                || text::signed_value(names@[j]@) == Some(pid as int),
    ensures
        r == Some(tid),
{
    let list = text::strings(names@);
    assert forall|j: int| 0 <= j < i implies text::signed_value(#[trigger] list[j]) is None
        || text::signed_value(list[j]) == Some(pid as int) by {
        assert(list[j] == names@[j]@);
    }
    accessors::lemma_other_task(list, pid as int, i, tid as int);
}

// Pushes

/// A sink that pushes gathers samples until an interval has passed since the last
/// push, and then gives them all.
pub proof fn lemma_push_sample(
    sink: &mut PyroscopeSink,
    list: &[Frame],
    clock: u64,
    now_nanos: i64,
    r: Push,
)
    requires
        call_ensures(PyroscopeSink::write_sample, (sink, list, clock, now_nanos), r),
        old(sink).cfg.push_interval_secs >= 1,
    ensures
        clock < old(sink).last_push + old(sink).cfg.push_interval_secs * 1_000_000_000 ==> r
            is Nothing && final(sink).builder@.stacks.len() > 0 && final(sink).last_push
            == old(sink).last_push,
        clock >= old(sink).last_push + old(sink).cfg.push_interval_secs * 1_000_000_000 ==> !(r
            is Nothing) && final(sink).builder@.stacks.len() == 0 && final(sink).last_push
            == clock,
        r matches Push::Send(request) ==> pprof::gzipped(
            pprof::window_bytes(
                pprof::with_stack(old(sink).builder@, zend::frames_view(list@)),
                old(sink).builder.started(),
                now_nanos,
            ),
        ) == Some(request.body@),
{
    pushes::lemma_push_cycle(
        old(sink).cfg,
        old(sink).state(),
        zend::frames_view(list@),
        clock,
        now_nanos,
    );
    pprof::lemma_stack_not_empty(old(sink).builder@, zend::frames_view(list@));
}

/// At the end a sink that pushes gives what it has gathered, if anything.
pub proof fn lemma_push_end(sink: &mut PyroscopeSink, clock: u64, now_nanos: i64, r: Push)
    requires
        call_ensures(PyroscopeSink::finish, (sink, clock, now_nanos), r),
    ensures
        r is Nothing <==> old(sink).builder@.stacks.len() == 0,
        r matches Push::Send(request) ==> pprof::gzipped(
            pprof::window_bytes(old(sink).builder@, old(sink).builder.started(), now_nanos),
        ) == Some(request.body@),
        final(sink).builder@.stacks.len() == 0,
{
    pushes::lemma_last_push(old(sink).cfg, old(sink).state(), clock, now_nanos);
}

/// A folded sink ends with a line for each of its entries.
pub proof fn lemma_folded_end(
    sink: &mut FormatSink,
    now_nanos: i64,
    r: Option<Vec<u8>>,
    entries: Seq<(Seq<char>, u64)>,
)
    requires
        call_ensures(<FormatSink as Sink>::finish, (sink, now_nanos), r),
        old(sink).state() == SinkState::Folded(entries),
        forall|i: int| 0 <= i < entries.len() ==> !(#[trigger] entries[i]).0.contains('\n'),
    ensures
        exists|t: Seq<char>|
            r matches Some(b) && b@ == utf8::encode_utf8(t) && #[trigger] text::lines(t)
                == Seq::new(entries.len(), |i: int| sinks::entry_line(entries[i])),
{
    sinks::lemma_folded_lines(entries);
    let t = output::folded_text(entries, entries.len());
    assert(text::lines(t) == Seq::new(entries.len(), |i: int| sinks::entry_line(entries[i])));
}

// Many processes

/// Processes that are found and have no worker are the ones to be sampled; workers
/// that have finished are let go.
pub proof fn lemma_discovered(
    m: &mut MultiRun,
    finished: &[i32],
    found: &HashSet<i32>,
    r: Vec<i32>,
    pid: i32,
)
    requires
        call_ensures(MultiRun::discovered, (m, finished, found), r),
    ensures
        r@.contains(pid) <==> found@.contains(pid) && (!old(m).workers@.contains(pid)
            || finished@.contains(pid)),
        final(m).workers@.contains(pid) <==> old(m).workers@.contains(pid) && !finished@.contains(
            pid,
        ),
        r@.no_duplicates(),
{
}

/// A sample that was still on its way when a run ended is written as any other,
/// with its process before the URI, and counted.
pub proof fn lemma_drained(
    m: &mut MultiRun,
    msg: SampleMsg,
    clock: u64,
    now_nanos: i64,
    r: Output,
)
    requires
        call_ensures(MultiRun::drained, (m, msg, clock, now_nanos), r),
        old(m).run.taken < u64::MAX,
    ensures
        final(m).run.taken == old(m).run.taken + 1,
        final(m).sink.state() == output::taken(
            old(m).sink.state(),
            zend::frames_view(msg.sample.frames@),
            clock,
            now_nanos,
        ),
        forall|meta: MetaView|
            meta.request_method == msg.sample.meta@.request_method && (
            match msg.sample.meta@.request_uri {
                Some(uri) => meta.request_uri == Some(
                    seq!['[', 'p', 'i', 'd', ' '] + text::signed_decimal(msg.pid as int) + seq![
                        ']',
                        ' ',
                    ] + uri,
                ),
                None => meta.request_uri is None,
            }) ==> r@ == #[trigger] output::taken_output(
                old(m).sink.state(),
                zend::frames_view(msg.sample.frames@),
                meta,
                clock,
                now_nanos,
            ),
{
    pace::lemma_annotated(msg.pid as int, msg.sample.meta@);
    let annotated = sampler::annotated_meta(msg.pid as int, msg.sample.meta@);
    assert forall|meta: MetaView|
        meta.request_method == msg.sample.meta@.request_method && (
        match msg.sample.meta@.request_uri {
            Some(uri) => meta.request_uri == Some(
                seq!['[', 'p', 'i', 'd', ' '] + text::signed_decimal(msg.pid as int) + seq![
                    ']',
                    ' ',
                ] + uri,
            ),
            None => meta.request_uri is None,
        }) implies r@ == #[trigger] output::taken_output(
        old(m).sink.state(),
        zend::frames_view(msg.sample.frames@),
        meta,
        clock,
        now_nanos,
    ) by {
        assert(meta =~= annotated);
    }
}

/// A run of many processes starts with none sampled, and discovers at once unless
/// it never does.
pub proof fn lemma_multi_run(plan: &Plan, sink: OutputSink, now: u64, r: MultiRun)
    requires
        call_ensures(MultiRun::new, (plan, sink, now), r),
    ensures
        r.workers@ == Set::<i32>::empty(),
        r.sink == sink,
        r.run.start == now,
        r.run.taken == 0,
        r.run.duration_secs == plan.duration_secs,
        plan.rediscover_secs is None <==> r.next_rediscover is None,
        r.next_rediscover matches Some(t) ==> t == now,
        r.rediscover_secs == plan.rediscover_secs,
{
}

/// A sample of one process goes into its sink; none goes into it where none could
/// be taken.
pub proof fn lemma_sample_once(
    s: &mut Sampler,
    clock: u64,
    now_nanos: i64,
    r: Result<Option<Output>, ReadError>,
    list: Seq<FrameView>,
    meta: MetaView,
)
    requires
        call_ensures(Sampler::sample_once, (s, clock, now_nanos), r),
    ensures
        sampler::sample_outcome(old(s).target, old(s).capture_request_info, old(s).walk@) == Ok::<
            Option<(Seq<FrameView>, MetaView)>,
            ReadError,
        >(Some((list, meta))) ==> (r matches Ok(Some(out)) && out@ == output::taken_output(
            old(s).sink.state(),
            list,
            meta,
            clock,
            now_nanos,
        )) && final(s).sink.state() == output::taken(
            old(s).sink.state(),
            list,
            clock,
            now_nanos,
        ),
        !(r matches Ok(Some(_))) ==> final(s).sink == old(s).sink,
        final(s).capture_request_info == old(s).capture_request_info,
        final(s).max_depth == old(s).max_depth,
{
}

/// The sink of a command line pushes where a server is given, with the headers of
/// the command line, and writes in the format otherwise.
pub proof fn lemma_build_sink(
    args: &Args,
    clock: u64,
    now_nanos: i64,
    r: Result<OutputSink, String>,
)
    requires
        call_ensures(output::build_sink, (args, clock, now_nanos), r),
    ensures
        args.pyroscope_url is None ==> (r matches Ok(sink) && sink is Write),
        args.pyroscope_url is Some ==> (r matches Ok(sink) ==> sink is Push),
        r matches Ok(OutputSink::Push(s)) ==> s.cfg.push_interval_secs >= 1 && (
        args.pyroscope_tenant_id matches Some(t) ==> (s.cfg.tenant_id matches Some(u) && u@
            == t@)) && (args.pyroscope_auth_token matches Some(t) ==> (
        s.cfg.auth_token matches Some(u) && u@ == t@)),
{
    if let Ok(OutputSink::Push(s)) = r {
        pushes::lemma_configuration(*args, s.cfg);
    }
}

/// Counting anew leaves nothing counted, from now on.
pub proof fn lemma_reset(a: &mut Aggregator, clock: u64, r: ())
    requires
        call_ensures(Aggregator::reset, (a, clock), r),
    ensures
        final(a)@.samples == 0,
        final(a)@.rows.dom() == Set::<Seq<char>>::empty(),
        final(a)@.started == Some(clock),
{
}

/// Attaching gives a target of the process with what was found, from the binary
/// that was named, with nothing read or remembered of it yet.
pub proof fn lemma_attach(
    pid: i32,
    host: Option<Arch>,
    binary: &Binary,
    bytes: &[u8],
    rem: &Remote,
    tls_base: Option<u64>,
    opts: &AttachOptions<'_>,
    overrides: &LayoutOverrides,
    r: Result<Target, AttachError>,
    found: Attachment,
)
    requires
        call_ensures(
            Target::attach,
            (pid, host, binary, bytes, rem, tls_base, opts, overrides),
            r,
        ),
        target::attachment_elf(
            bytes@,
            host,
            target::resolve_view(*binary, *opts),
            rem@,
            tls_base,
            opts.version(),
            *overrides,
        ) == Ok::<Attachment, AttachFault>(found),
    ensures
        r matches Ok(t) && {
            &&& t.pid == pid
            &&& t.exe@ == binary.path@
            &&& t.symbols == found.symbols
            &&& t.php_version@ == found.php_version
            &&& t.layout == found.layout
            &&& t.remote@ == Memory::empty()
            &&& t.cache() == Cache::empty()
        },
{
}

} // verus!
