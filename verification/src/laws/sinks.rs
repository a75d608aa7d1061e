//! What is written of samples.

use crate::cli::{Args, Format};
use crate::laws::texts;
use crate::output;
use crate::output::{MetaView, OutputSink, OutputState, OutputView, Sink, SinkState};
use crate::pprof;
use crate::pyroscope;
use crate::pyroscope::{PushState, PyroscopeConfig};
use crate::sampler;
use crate::text;
use crate::zend;
use crate::zend::FrameView;
use vstd::prelude::*;
use vstd::utf8;

verus! {

// Names

/// A frame goes by its function, after its class and two colons if it has a
/// class.
pub proof fn lemma_name(f: FrameView)
    ensures
        f.class is None ==> zend::qualified(f) == f.function,
        f.class matches Some(c) ==> zend::qualified(f) == c + seq![':', ':'] + f.function,
{
    reveal_strlit("::");
    assert("::"@ =~= seq![':', ':']);
}

/// The names of the frames of a stack, the outermost first.
pub open spec fn names_outermost_first(frames: Seq<FrameView>) -> Seq<Seq<char>> {
    Seq::new(frames.len(), |k: int| zend::qualified(frames[frames.len() - 1 - k]))
}

/// A folded stack has the names of all its frames, the outermost first, with one
/// semicolon between any two.
pub proof fn lemma_folds(frames: Seq<FrameView>)
    ensures
        output::folded_name(frames) == text::joined(names_outermost_first(frames), seq![';']),
    decreases frames.len(),
{
    reveal_strlit(";");
    assert(";"@ =~= seq![';']);
    let names = names_outermost_first(frames);
    if frames.len() > 0 {
        let outer = frames.drop_first();
        lemma_folds(outer);
        assert(names.drop_last() =~= names_outermost_first(outer));
        assert(names.last() == zend::qualified(frames[0]));
    }
}

/// Calling a function from a stack folds to the stack's own name, a semicolon
/// and the function's name, also where the function calls itself.
pub proof fn lemma_folds_call(f: FrameView, stack: Seq<FrameView>)
    ensures
        stack.len() > 0 ==> output::folded_name(seq![f] + stack) == output::folded_name(stack)
            + seq![';'] + zend::qualified(f),
        output::folded_name(seq![f]) == zend::qualified(f),
{
    reveal_strlit(";");
    assert(";"@ =~= seq![';']);
    assert((seq![f] + stack).drop_first() =~= stack);
}

/// Stacks of names without semicolons that fold alike have the same names, frame
/// by frame: so stacks of different depth are not counted as one.
pub proof fn lemma_folds_apart(a: Seq<FrameView>, b: Seq<FrameView>)
    requires
        a.len() > 0,
        b.len() > 0,
        forall|i: int| 0 <= i < a.len() ==> !zend::qualified(#[trigger] a[i]).contains(';'),
        forall|i: int| 0 <= i < b.len() ==> !zend::qualified(#[trigger] b[i]).contains(';'),
        output::folded_name(a) == output::folded_name(b),
    ensures
        a.len() == b.len(),
        forall|i: int|
            0 <= i < a.len() ==> zend::qualified(#[trigger] a[i]) == zend::qualified(b[i]),
{
    lemma_folds(a);
    lemma_folds(b);
    let na = names_outermost_first(a);
    let nb = names_outermost_first(b);
    texts::lemma_joined_apart(na, ';');
    texts::lemma_joined_apart(nb, ';');
    assert(na == nb);
    assert(na.len() == a.len());
    assert(nb.len() == b.len());
    assert forall|i: int| 0 <= i < a.len() implies zend::qualified(#[trigger] a[i])
        == zend::qualified(b[i]) by {
        assert(na[a.len() - 1 - i] == nb[a.len() - 1 - i]);
    }
}

// Counts

/// The samples that are not empty and fold to a stack.
pub open spec fn samples_of(samples: Seq<Seq<FrameView>>, stack: Seq<char>) -> Seq<
    Seq<FrameView>,
> {
    samples.filter(|f: Seq<FrameView>| f.len() > 0 && output::folded_name(f) == stack)
}

proof fn lemma_times_seen(samples: Seq<Seq<FrameView>>, stack: Seq<char>)
    ensures
        output::times_seen(samples, stack) == samples_of(samples, stack).len(),
    decreases samples.len(),
{
    reveal(Seq::filter);
    if samples.len() > 0 {
        lemma_times_seen(samples.drop_last(), stack);
    }
}

proof fn lemma_count_listed(entries: Seq<(Seq<char>, u64)>, k: int)
    requires
        output::ascending(entries),
        0 <= k < entries.len(),
    ensures
        output::count_of(entries, entries[k].0) == entries[k].1,
    decreases entries.len(),
{
    if k > 0 {
        assert(text::precedes(entries[0].0, entries[k].0));
        text::lemma_text_order(entries[0].0, entries[k].0);
        let rest = entries.drop_first();
        assert forall|i: int, j: int| 0 <= i < j < rest.len() implies text::precedes(
            (#[trigger] rest[i]).0,
            (#[trigger] rest[j]).0,
        ) by {
            assert(rest[i] == entries[i + 1]);
            assert(rest[j] == entries[j + 1]);
        }
        lemma_count_listed(rest, k - 1);
    }
}

/// Each entry of folded output has the number of samples that fold to it, and
/// every sample that is not empty folds to one of them.
pub proof fn lemma_counts_samples(samples: Seq<Seq<FrameView>>, k: int, i: int)
    requires
        samples.len() <= u64::MAX,
    ensures
        0 <= k < output::folded_all(samples).len() ==> output::folded_all(samples)[k].1
            == samples_of(samples, output::folded_all(samples)[k].0).len(),
        0 <= i < samples.len() && samples[i].len() > 0 ==> exists|j: int|
            0 <= j < output::folded_all(samples).len() && #[trigger] output::folded_all(
                samples,
            )[j].0 == output::folded_name(samples[i]),
{
    let entries = output::folded_all(samples);
    output::lemma_folded_counts(samples, Seq::empty());
    if 0 <= k < entries.len() {
        output::lemma_folded_counts(samples, entries[k].0);
        lemma_times_seen(samples, entries[k].0);
        lemma_count_listed(entries, k);
    }
    if 0 <= i < samples.len() && samples[i].len() > 0 {
        let name = output::folded_name(samples[i]);
        output::lemma_folded_counts(samples, name);
        lemma_seen(samples, i);
        lemma_counted_is_listed(entries, name);
    }
}

proof fn lemma_seen(samples: Seq<Seq<FrameView>>, i: int)
    requires
        0 <= i < samples.len(),
        samples[i].len() > 0,
    ensures
        output::times_seen(samples, output::folded_name(samples[i])) >= 1,
    decreases samples.len(),
{
    if i < samples.len() - 1 {
        lemma_seen(samples.drop_last(), i);
    }
}

proof fn lemma_counted_is_listed(entries: Seq<(Seq<char>, u64)>, name: Seq<char>)
    requires
        output::count_of(entries, name) >= 1,
    ensures
        exists|j: int| 0 <= j < entries.len() && #[trigger] entries[j].0 == name,
    decreases entries.len(),
{
    if entries[0].0 != name {
        let rest = entries.drop_first();
        lemma_counted_is_listed(rest, name);
        let j = choose|j: int| 0 <= j < rest.len() && #[trigger] rest[j].0 == name;
        assert(entries[j + 1].0 == name);
    }
}

// Lines

/// The line of an entry: the stack, a space and the count.
pub open spec fn entry_line(entry: (Seq<char>, u64)) -> Seq<char> {
    entry.0 + seq![' '] + text::decimal(entry.1 as nat)
}

proof fn lemma_folded_first(entries: Seq<(Seq<char>, u64)>, n: nat)
    requires
        0 < n <= entries.len(),
    ensures
        output::folded_text(entries, n) == entry_line(entries[0]) + seq!['\n']
            + output::folded_text(entries.drop_first(), (n - 1) as nat),
    decreases n,
{
    reveal_strlit(" ");
    reveal_strlit("\n");
    assert(" "@ =~= seq![' ']);
    assert("\n"@ =~= seq!['\n']);
    let rest = entries.drop_first();
    let all = output::folded_text(entries, n);
    if n == 1 {
        assert(output::folded_text(entries, 0) =~= Seq::<char>::empty());
        assert(output::folded_text(rest, 0) =~= Seq::<char>::empty());
        assert(all =~= entry_line(entries[0]) + seq!['\n'] + Seq::<char>::empty());
    } else {
        let m = (n - 1) as nat;
        lemma_folded_first(entries, m);
        assert(rest[m - 1] == entries[n - 1]);
        let before = output::folded_text(rest, (m - 1) as nat);
        let last = entry_line(entries[n - 1]) + seq!['\n'];
        assert(all =~= output::folded_text(entries, m) + last);
        assert(output::folded_text(rest, m) =~= before + last);
        assert(all =~= entry_line(entries[0]) + seq!['\n'] + (before + last));
    }
}

proof fn lemma_digits_end(prefix: Seq<char>, n: nat)
    ensures
        (prefix + text::decimal(n)).len() > 0,
        (prefix + text::decimal(n)).last() != '\r',
        !prefix.contains('\n') ==> !(prefix + text::decimal(n)).contains('\n'),
{
    texts::lemma_writes_decimal(n);
    let digits = text::decimal(n);
    let all = prefix + digits;
    assert('0' <= digits[digits.len() - 1] <= '9');
    assert(all.last() == digits[digits.len() - 1]);
    if !prefix.contains('\n') && all.contains('\n') {
        let i = choose|i: int| 0 <= i < all.len() && all[i] == '\n';
        if i < prefix.len() {
            assert(prefix[i] == '\n');
        } else {
            assert('0' <= digits[i - prefix.len()] <= '9');
        }
    }
}

/// Folded output is one line per entry, in order: the stack, a space and the
/// count in decimal digits.
pub proof fn lemma_folded_lines(entries: Seq<(Seq<char>, u64)>)
    requires
        forall|i: int| 0 <= i < entries.len() ==> !(#[trigger] entries[i]).0.contains('\n'),
    ensures
        text::lines(output::folded_text(entries, entries.len())) == Seq::new(
            entries.len(),
            |i: int| entry_line(entries[i]),
        ),
    decreases entries.len(),
{
    let want = Seq::new(entries.len(), |i: int| entry_line(entries[i]));
    if entries.len() == 0 {
        assert(want =~= Seq::<Seq<char>>::empty());
        assert(output::folded_text(entries, 0) =~= Seq::<char>::empty());
        texts::lemma_lines(Seq::empty(), Seq::empty());
    } else {
        let rest = entries.drop_first();
        let line = entry_line(entries[0]);
        assert forall|i: int| 0 <= i < rest.len() implies !(#[trigger] rest[i]).0.contains(
            '\n',
        ) by {
            assert(rest[i] == entries[i + 1]);
        }
        lemma_folded_lines(rest);
        lemma_folded_first(entries, entries.len());
        let prefix = entries[0].0 + seq![' '];
        assert(!prefix.contains('\n')) by {
            if prefix.contains('\n') {
                let i = choose|i: int| 0 <= i < prefix.len() && prefix[i] == '\n';
                assert(entries[0].0[i] == '\n');
            }
        }
        lemma_digits_end(prefix, entries[0].1 as nat);
        texts::lemma_lines(line, output::folded_text(rest, rest.len()));
        let more = Seq::new(rest.len(), |i: int| entry_line(rest[i]));
        assert(want =~= seq![line] + more);
    }
}

/// The end of folded output is its lines, as UTF-8.
pub proof fn lemma_folded_output(samples: Seq<Seq<FrameView>>, started: i64, now_nanos: i64)
    ensures
        output::final_output(
            output::after_samples(output::new_state(Format::Folded, started), samples),
            now_nanos,
        ) == Some(
            utf8::encode_utf8(
                output::folded_text(
                    output::folded_all(samples),
                    output::folded_all(samples).len(),
                ),
            ),
        ),
{
    output::lemma_after_samples(samples, started);
}

/// A frame on a line: its name, a space, its file or `<unknown>`, a colon and its
/// line number.
pub open spec fn frame_on_line(f: FrameView) -> Seq<char> {
    zend::qualified(f) + seq![' '] + (if f.file is Some {
        f.file->0
    } else {
        "<unknown>"@
    }) + seq![':'] + text::decimal(f.line as nat)
}

/// A frame is written as its name, its file and its line.
pub proof fn lemma_frame_line(f: FrameView)
    ensures
        output::frame_line(f) == frame_on_line(f),
{
    reveal_strlit(" ");
    reveal_strlit(":");
    assert(" "@ =~= seq![' ']);
    assert(":"@ =~= seq![':']);
    assert(output::frame_line(f) =~= frame_on_line(f));
}

/// The line of a frame in a sample: its depth, a space, and the frame.
pub open spec fn numbered_line(frames: Seq<FrameView>, i: int) -> Seq<char> {
    text::decimal(i as nat) + seq![' '] + frame_on_line(frames[i])
}

/// Whether a frame is written on one line.
pub open spec fn one_line(f: FrameView) -> bool {
    &&& !zend::qualified(f).contains('\n')
    &&& f.file matches Some(file) ==> !file.contains('\n')
}

/// Whether a text is written on one line as it is.
pub open spec fn plain(s: Seq<char>) -> bool {
    !s.contains('\n') && (s.len() > 0 ==> s.last() != '\r')
}

proof fn lemma_line_before(line: Seq<char>, after: Seq<char>)
    requires
        plain(line),
    ensures
        text::lines(line + seq!['\n'] + after) == seq![line] + text::lines(after),
{
    texts::lemma_lines(line, after);
}

proof fn lemma_numbered_plain(frames: Seq<FrameView>, i: int)
    requires
        one_line(frames[i]),
        0 <= i,
    ensures
        plain(numbered_line(frames, i)),
{
    let f = frames[i];
    let depth = text::decimal(i as nat);
    let file = if f.file is Some {
        f.file->0
    } else {
        "<unknown>"@
    };
    let prefix = depth + seq![' '] + zend::qualified(f) + seq![' '] + file + seq![':'];
    reveal_strlit("<unknown>");
    texts::lemma_writes_decimal(i as nat);
    assert(!prefix.contains('\n')) by {
        if prefix.contains('\n') {
            let k = choose|k: int| 0 <= k < prefix.len() && prefix[k] == '\n';
            let n1 = depth.len() as int;
            let n2 = n1 + 1 + zend::qualified(f).len();
            if k < n1 {
                assert('0' <= depth[k] <= '9');
                assert(prefix[k] == depth[k]);
            } else if n1 < k < n2 {
                assert(zend::qualified(f)[k - n1 - 1] == '\n');
            } else if n2 < k < n2 + 1 + file.len() {
                assert(file[k - n2 - 1] == '\n');
                assert(file.contains('\n'));
            }
        }
    }
    lemma_digits_end(prefix, f.line as nat);
    assert(numbered_line(frames, i) =~= prefix + text::decimal(f.line as nat));
}

/// The text from the frame at an index on, to the blank line.
spec fn text_from(frames: Seq<FrameView>, i: int) -> Seq<char>
    decreases frames.len() - i,
{
    if i >= frames.len() {
        seq!['\n']
    } else {
        numbered_line(frames, i) + seq!['\n'] + text_from(frames, i + 1)
    }
}

proof fn lemma_text_from(frames: Seq<FrameView>, i: int)
    requires
        0 <= i <= frames.len(),
    ensures
        output::frame_lines(frames, frames.len()) + seq!['\n'] == output::frame_lines(
            frames,
            i as nat,
        ) + text_from(frames, i),
    decreases frames.len() - i,
{
    reveal_strlit(" ");
    reveal_strlit("\n");
    assert(" "@ =~= seq![' ']);
    assert("\n"@ =~= seq!['\n']);
    if i < frames.len() {
        lemma_text_from(frames, i + 1);
        lemma_frame_line(frames[i]);
        let before = output::frame_lines(frames, i as nat);
        assert(output::frame_lines(frames, (i + 1) as nat) =~= before + numbered_line(frames, i)
            + seq!['\n']);
        assert(before + numbered_line(frames, i) + seq!['\n'] + text_from(frames, i + 1) =~= before
            + text_from(frames, i));
    }
}

proof fn lemma_text_lines(frames: Seq<FrameView>, i: int)
    requires
        0 <= i <= frames.len(),
        forall|k: int| 0 <= k < frames.len() ==> one_line(#[trigger] frames[k]),
    ensures
        text::lines(text_from(frames, i)) == Seq::new(
            (frames.len() - i) as nat,
            |k: int| numbered_line(frames, i + k),
        ) + seq![Seq::<char>::empty()],
    decreases frames.len() - i,
{
    let want = Seq::new((frames.len() - i) as nat, |k: int| numbered_line(frames, i + k));
    if i < frames.len() {
        assert(one_line(frames[i]));
        lemma_numbered_plain(frames, i);
        lemma_text_lines(frames, i + 1);
        lemma_line_before(numbered_line(frames, i), text_from(frames, i + 1));
        let more = Seq::new((frames.len() - i - 1) as nat, |k: int| numbered_line(
            frames,
            i + 1 + k,
        ));
        assert(want =~= seq![numbered_line(frames, i)] + more);
        assert(want + seq![Seq::<char>::empty()] =~= seq![numbered_line(frames, i)] + (more + seq![
            Seq::<char>::empty(),
        ]));
    } else {
        texts::lemma_lines(Seq::empty(), Seq::empty());
        assert(Seq::<char>::empty() + seq!['\n'] + Seq::<char>::empty() =~= seq!['\n']);
        assert(text::lines(seq!['\n']) =~= seq![Seq::<char>::empty()]);
        assert(want + seq![Seq::<char>::empty()] =~= seq![Seq::<char>::empty()]);
    }
}

/// The lines that say something of the request, as far as it is known.
pub open spec fn request_lines(meta: MetaView) -> Seq<Seq<char>> {
    (match meta.request_uri {
        Some(uri) => seq!["# request_uri = "@ + uri],
        None => Seq::empty(),
    }) + (match meta.request_method {
        Some(method) => seq!["# request_method = "@ + method],
        None => Seq::empty(),
    })
}

proof fn lemma_plain_meta(prefix: Seq<char>, v: Seq<char>)
    requires
        plain(v),
        prefix.len() > 0,
        plain(prefix),
    ensures
        plain(prefix + v),
{
    let all = prefix + v;
    if all.contains('\n') {
        let k = choose|k: int| 0 <= k < all.len() && all[k] == '\n';
        if k < prefix.len() {
            assert(prefix[k] == '\n');
        } else {
            assert(v[k - prefix.len()] == '\n');
        }
    }
    if v.len() == 0 {
        assert(all =~= prefix);
    }
}

/// A sample is written as the lines that are known of its request, then a line
/// for each frame with its depth, the innermost first, then a blank line.
pub proof fn lemma_sample_lines(frames: Seq<FrameView>, meta: MetaView)
    requires
        forall|k: int| 0 <= k < frames.len() ==> one_line(#[trigger] frames[k]),
        meta.request_uri matches Some(uri) ==> plain(uri),
        meta.request_method matches Some(method) ==> plain(method),
    ensures
        text::lines(output::sample_text(frames, meta)) == request_lines(meta) + Seq::new(
            frames.len(),
            |k: int| numbered_line(frames, k),
        ) + seq![Seq::<char>::empty()],
        output::sample_output(SinkState::Stacks, frames, meta) == utf8::encode_utf8(
            output::sample_text(frames, meta),
        ),
{
    reveal_strlit("\n");
    reveal_strlit("# request_uri = ");
    reveal_strlit("# request_method = ");
    assert("\n"@ =~= seq!['\n']);
    let body = text_from(frames, 0);
    lemma_text_from(frames, 0);
    lemma_text_lines(frames, 0);
    assert(output::frame_lines(frames, 0) =~= Seq::<char>::empty());
    assert(output::frame_lines(frames, frames.len()) + seq!['\n'] =~= body);
    let uri = output::meta_line("# request_uri = "@, meta.request_uri);
    let method = output::meta_line("# request_method = "@, meta.request_method);
    assert(output::sample_text(frames, meta) =~= uri + (method + body));
    let numbered = Seq::new(frames.len(), |k: int| numbered_line(frames, k));
    assert(Seq::new((frames.len() - 0) as nat, |k: int| numbered_line(frames, 0 + k))
        =~= numbered);
    let blank = seq![Seq::<char>::empty()];
    let after_uri = method + body;
    let method_lines = match meta.request_method {
        Some(m) => seq!["# request_method = "@ + m],
        None => Seq::<Seq<char>>::empty(),
    };
    assert(text::lines(after_uri) =~= method_lines + (numbered + blank)) by {
        if let Some(m) = meta.request_method {
            lemma_plain_meta("# request_method = "@, m);
            lemma_line_before("# request_method = "@ + m, body);
            assert(after_uri =~= ("# request_method = "@ + m) + seq!['\n'] + body);
        } else {
            assert(after_uri =~= body);
        }
    }
    if let Some(u) = meta.request_uri {
        lemma_plain_meta("# request_uri = "@, u);
        lemma_line_before("# request_uri = "@ + u, after_uri);
        assert(uri + after_uri =~= ("# request_uri = "@ + u) + seq!['\n'] + after_uri);
    } else {
        assert(uri + after_uri =~= after_uri);
    }
    assert(text::lines(output::sample_text(frames, meta)) =~= request_lines(meta) + numbered
        + blank);
}

// When

/// Samples of stacks output are written as they come, with nothing left for the
/// end; those of folded and pprof output are kept for the end.
pub proof fn lemma_when_written(
    state: SinkState,
    frames: Seq<FrameView>,
    meta: MetaView,
    now_nanos: i64,
)
    ensures
        state is Stacks ==> output::after_sample(state, frames) == state && output::final_output(
            state,
            now_nanos,
        ) == Some(Seq::<u8>::empty()),
        state is Folded ==> output::sample_output(state, frames, meta) == Seq::<u8>::empty()
            && output::after_sample(state, frames) is Folded,
        state matches SinkState::Pprof { profile, started, .. } ==> {
            &&& output::sample_output(state, frames, meta) == Seq::<u8>::empty()
            &&& output::after_sample(state, frames) matches SinkState::Pprof {
                profile: after,
                started: still,
                ..
            } && after.stacks.len() > 0 && still == started
            &&& output::final_output(state, now_nanos) == pprof::gzipped(
                pprof::window_bytes(profile, started, now_nanos),
            )
        },
{
    if let SinkState::Pprof { profile, .. } = state {
        pprof::lemma_stack_not_empty(profile, frames);
    }
}

/// Each format has its own sink, which starts with nothing taken.
pub proof fn lemma_new_sinks(now_nanos: i64)
    ensures
        output::new_state(Format::Stacks, now_nanos) is Stacks,
        output::new_state(Format::Folded, now_nanos) == SinkState::Folded(Seq::empty()),
        output::new_state(Format::Pprof, now_nanos) matches SinkState::Pprof {
            profile,
            started,
            finished,
        } && profile.stacks.len() == 0 && started == now_nanos && !finished,
{
}

// The sink of a run

/// A sink that writes gives the bytes of its format, of each sample and at the
/// end; one that pushes gives its pushes. Neither becomes the other, and the
/// configuration of pushes stays.
pub proof fn lemma_sink_of_run(
    s: SinkState,
    cfg: PyroscopeConfig,
    p: PushState,
    frames: Seq<FrameView>,
    meta: MetaView,
    clock: u64,
    now_nanos: i64,
)
    ensures
        output::taken_output(OutputState::Write(s), frames, meta, clock, now_nanos)
            == OutputView::Bytes(output::sample_output(s, frames, meta)),
        output::taken(OutputState::Write(s), frames, clock, now_nanos) == OutputState::Write(
            output::after_sample(s, frames),
        ),
        output::final_output(s, now_nanos) matches Some(b) ==> output::ended_output(
            OutputState::Write(s),
            now_nanos,
        ) == OutputView::Bytes(b),
        output::final_output(s, now_nanos) is None ==> output::ended_output(
            OutputState::Write(s),
            now_nanos,
        ) is Failed,
        output::taken_output(OutputState::Push(cfg, p), frames, meta, clock, now_nanos)
            == OutputView::Push(
            pyroscope::pushed_after_sample(cfg, p, frames, clock, now_nanos),
        ),
        output::taken(OutputState::Push(cfg, p), frames, clock, now_nanos) == OutputState::Push(
            cfg,
            pyroscope::state_after_sample(cfg, p, frames, clock, now_nanos),
        ),
        output::ended_output(OutputState::Push(cfg, p), now_nanos) == OutputView::Push(
            pyroscope::pushed_window(cfg, p.profile, p.started, now_nanos),
        ),
{
}

/// A sink that was ended has nothing left: folded stacks are counted anew, and a
/// profile starts anew and can be ended no more.
pub proof fn lemma_ended(s: SinkState, now_nanos: i64)
    ensures
        s is Folded ==> output::after_finish(s, now_nanos) == SinkState::Folded(Seq::empty()),
        s is Pprof ==> !output::can_finish(output::after_finish(s, now_nanos)),
        s is Stacks || s is Folded ==> output::can_finish(s) && output::can_finish(
            output::after_finish(s, now_nanos),
        ),
{
}

/// The sink of a command line pushes exactly where a server is given, and has
/// taken nothing yet: a push sink waits from now on, and any other is the one of
/// the format.
pub proof fn lemma_sink_for(args: Args, sink: OutputSink, clock: u64, now_nanos: i64)
    requires
        sampler::sink_for(args, sink, clock, now_nanos),
    ensures
        sink is Push <==> args.pyroscope_url is Some,
        sink matches OutputSink::Push(s) ==> s.builder@.stacks.len() == 0 && s.builder.started()
            == now_nanos && s.last_push == clock,
        sink matches OutputSink::Write(s) ==> {
            &&& args.format == Format::Stacks ==> s.state() is Stacks
            &&& args.format == Format::Folded ==> s.state() == SinkState::Folded(Seq::empty())
            &&& args.format == Format::Pprof ==> (s.state() matches SinkState::Pprof {
                profile,
                started,
                finished,
            } && profile.stacks.len() == 0 && started == now_nanos && !finished)
        },
{
}

} // verus!
