//! Sinks: what is written of the samples, and when.
//!
//! A sink takes samples and gives the bytes that are to be written.

use crate::cli::{Args, Format};
use crate::pprof;
use crate::pprof::{PprofBuilder, Profile};
use crate::pyroscope;
use crate::pyroscope::{Push, PushState, PyroscopeConfig, PyroscopeSink, RequestView};
use crate::text;
use crate::text::Order;
use crate::zend;
use crate::zend::{Frame, FrameView};
use vstd::prelude::*;
use vstd::utf8;

verus! {

/// What is known of the request that a sample is from.
#[derive(Debug)]
pub struct SampleMeta {
    pub request_uri: Option<String>,
    pub request_method: Option<String>,
}

/// What a [`SampleMeta`] says.
#[verifier::ext_equal]
pub ghost struct MetaView {
    pub request_uri: Option<Seq<char>>,
    pub request_method: Option<Seq<char>>,
}

impl View for SampleMeta {
    type V = MetaView;

    open spec fn view(&self) -> MetaView {
        MetaView {
            request_uri: text::opt_string(self.request_uri),
            request_method: text::opt_string(self.request_method),
        }
    }
}

impl SampleMeta {
    /// Nothing is known.
    pub fn none() -> (r: Self)
        ensures
            r@ == (MetaView { request_uri: None, request_method: None }),
    {
        SampleMeta { request_uri: None, request_method: None }
    }
}

/// What a sink has taken.
pub ghost enum SinkState {
    /// Samples are written as they come.
    Stacks,
    /// Stacks and how often they were seen.
    Folded(Seq<(Seq<char>, u64)>),
    /// A profile, when its window started, and whether it has been written.
    Pprof { profile: Profile, started: i64, finished: bool },
}

/// What is written at once of a sample.
pub open spec fn sample_output(state: SinkState, frames: Seq<FrameView>, meta: MetaView) -> Seq<
    u8,
> {
    match state {
        SinkState::Stacks => utf8::encode_utf8(sample_text(frames, meta)),
        _ => Seq::empty(),
    }
}

/// What a sink has taken after a sample.
pub open spec fn after_sample(state: SinkState, frames: Seq<FrameView>) -> SinkState {
    match state {
        SinkState::Stacks => SinkState::Stacks,
        SinkState::Folded(entries) => SinkState::Folded(folded(entries, frames)),
        SinkState::Pprof { profile, started, finished } => SinkState::Pprof {
            profile: pprof::with_stack(profile, frames),
            started,
            finished,
        },
    }
}

/// What is written at the end, if it can be made.
pub open spec fn final_output(state: SinkState, now_nanos: i64) -> Option<Seq<u8>> {
    match state {
        SinkState::Stacks => Some(Seq::empty()),
        SinkState::Folded(entries) => Some(utf8::encode_utf8(folded_text(entries, entries.len()))),
        SinkState::Pprof { profile, started, .. } => pprof::gzipped(
            pprof::window_bytes(profile, started, now_nanos),
        ),
    }
}

/// What a sink has taken after the end.
pub open spec fn after_finish(state: SinkState, now_nanos: i64) -> SinkState {
    match state {
        SinkState::Stacks => SinkState::Stacks,
        SinkState::Folded(_) => SinkState::Folded(Seq::empty()),
        SinkState::Pprof { .. } => SinkState::Pprof {
            profile: pprof::empty_profile(),
            started: now_nanos,
            finished: true,
        },
    }
}

/// Whether a sink can be ended: a profile is written once.
pub open spec fn can_finish(state: SinkState) -> bool {
    !(state matches SinkState::Pprof { finished: true, .. })
}

/// What holds of all that a sink can have taken: stacks are counted in order,
/// and a profile is valid.
pub open spec fn sound(state: SinkState) -> bool {
    match state {
        SinkState::Stacks => true,
        SinkState::Folded(entries) => ascending(entries),
        SinkState::Pprof { profile, .. } => pprof::valid(profile) && pprof::fits(profile),
    }
}

/// Takes samples and gives the bytes to write.
pub trait Sink {
    /// What the sink has taken.
    spec fn state(&self) -> SinkState;

    /// Takes a sample. Returns what is to be written at once.
    fn write_sample(&mut self, frames: &[Frame], meta: &SampleMeta) -> (r: Vec<u8>)
        ensures
            r@ == sample_output(old(self).state(), zend::frames_view(frames@), meta@),
            final(self).state() == after_sample(old(self).state(), zend::frames_view(frames@)),
            sound(final(self).state()),
    ;

    /// Ends the output at `now_nanos`, in nanoseconds since the Unix epoch.
    /// Returns what is left to write, or `None` if it could not be made.
    fn finish(&mut self, now_nanos: i64) -> (r: Option<Vec<u8>>)
        requires
            can_finish(old(self).state()),
        ensures
            match r {
                Some(b) => final_output(old(self).state(), now_nanos) == Some(b@),
                None => final_output(old(self).state(), now_nanos) is None,
            },
            final(self).state() == after_finish(old(self).state(), now_nanos),
    ;
}

// One frame per line

/// A frame on a line: what runs, and where.
pub open spec fn frame_line(f: FrameView) -> Seq<char> {
    zend::qualified(f) + " "@ + (match f.file {
        Some(file) => file,
        None => "<unknown>"@,
    }) + ":"@ + text::decimal(f.line as nat)
}

/// Writes a frame on a line.
pub fn render_frame(f: &Frame) -> (r: String)
    ensures
        r@ == frame_line(f@),
{
    let mut out = zend::qualified_name(f);
    out.append(" ");
    match &f.file {
        Some(file) => out.append(&**file),
        None => out.append("<unknown>"),
    }
    out.append(":");
    text::push_decimal(&mut out, f.line as u64);
    assert(out@ =~= frame_line(f@));
    out
}

/// The first `n` frames of a stack, each on a line after its depth.
pub open spec fn frame_lines(frames: Seq<FrameView>, n: nat) -> Seq<char>
    decreases n,
{
    if n == 0 {
        Seq::empty()
    } else {
        frame_lines(frames, (n - 1) as nat) + text::decimal((n - 1) as nat) + " "@ + frame_line(
            frames[n - 1],
        ) + "\n"@
    }
}

/// A line that says something of the request, if it is known.
pub open spec fn meta_line(prefix: Seq<char>, value: Option<Seq<char>>) -> Seq<char> {
    match value {
        Some(v) => prefix + v + "\n"@,
        None => Seq::empty(),
    }
}

/// A sample: what is known of the request, the frames, and a blank line.
pub open spec fn sample_text(frames: Seq<FrameView>, meta: MetaView) -> Seq<char> {
    meta_line("# request_uri = "@, meta.request_uri) + meta_line(
        "# request_method = "@,
        meta.request_method,
    ) + frame_lines(frames, frames.len()) + "\n"@
}

/// Writes each sample as it comes, one frame per line.
pub struct StacksSink {}

impl Sink for StacksSink {
    open spec fn state(&self) -> SinkState {
        SinkState::Stacks
    }

    fn write_sample(&mut self, frames: &[Frame], meta: &SampleMeta) -> (r: Vec<u8>) {
        let mut out = String::new();
        if let Some(uri) = &meta.request_uri {
            out.append("# request_uri = ");
            out.append(uri.as_str());
            out.append("\n");
        }
        let ghost head = meta_line("# request_uri = "@, meta@.request_uri);
        assert(out@ =~= head);
        if let Some(method) = &meta.request_method {
            out.append("# request_method = ");
            out.append(method.as_str());
            out.append("\n");
        }
        let ghost top = head + meta_line("# request_method = "@, meta@.request_method);
        assert(out@ =~= top);
        let ghost view = zend::frames_view(frames@);
        for i in 0..frames.len()
            invariant
                view == zend::frames_view(frames@),
                out@ == top + frame_lines(view, i as nat),
        {
            text::push_decimal(&mut out, i as u64);
            out.append(" ");
            let line = render_frame(&frames[i]);
            out.append(line.as_str());
            out.append("\n");
            assert(out@ =~= top + frame_lines(view, (i + 1) as nat));
        }
        out.append("\n");
        assert(out@ =~= sample_text(view, meta@));
        text::bytes_of(out.as_str())
    }

    fn finish(&mut self, now_nanos: i64) -> (r: Option<Vec<u8>>) {
        let none: Vec<u8> = Vec::new();
        assert(none@ =~= Seq::<u8>::empty());
        Some(none)
    }
}

// Folded stacks

/// A stack on one line: the names of its frames, outermost first, with
/// semicolons between them.
pub open spec fn folded_name(frames: Seq<FrameView>) -> Seq<char>
    decreases frames.len(),
{
    if frames.len() == 0 {
        Seq::empty()
    } else if frames.len() == 1 {
        zend::qualified(frames[0])
    } else {
        folded_name(frames.drop_first()) + ";"@ + zend::qualified(frames[0])
    }
}

fn fold(frames: &[Frame]) -> (r: String)
    requires
        frames@.len() > 0,
    ensures
        r@ == folded_name(zend::frames_view(frames@)),
{
    let ghost view = zend::frames_view(frames@);
    let mut i: usize = frames.len() - 1;
    let mut out = zend::qualified_name(&frames[i]);
    proof {
        assert(view.skip(i as int).len() == 1);
        assert(view.skip(i as int)[0] == frames@[i as int]@);
    }
    while i > 0
        invariant
            view == zend::frames_view(frames@),
            i < frames@.len(),
            out@ == folded_name(view.skip(i as int)),
        decreases i,
    {
        let name = zend::qualified_name(&frames[i - 1]);
        out.append(";");
        out.append(name.as_str());
        proof {
            assert(view.skip(i - 1).drop_first() =~= view.skip(i as int));
            assert(view.skip(i - 1)[0] == frames@[i - 1]@);
            assert(out@ =~= folded_name(view.skip(i - 1)));
        }
        i = i - 1;
    }
    assert(view.skip(0) =~= view);
    out
}

/// A stack and how often it was seen.
pub struct FoldedEntry {
    pub stack: String,
    pub count: u64,
}

/// What entries say.
pub open spec fn entries_view(list: Seq<FoldedEntry>) -> Seq<(Seq<char>, u64)> {
    Seq::new(list.len(), |i: int| (list[i].stack@, list[i].count))
}

/// Entries with one more of a stack, in their order.
pub open spec fn tallied(entries: Seq<(Seq<char>, u64)>, stack: Seq<char>) -> Seq<
    (Seq<char>, u64),
>
    decreases entries.len(),
{
    if entries.len() == 0 || text::precedes(stack, entries[0].0) {
        seq![(stack, 1u64)] + entries
    } else if entries[0].0 == stack {
        seq![(stack, entries[0].1.wrapping_add(1))] + entries.drop_first()
    } else {
        seq![entries[0]] + tallied(entries.drop_first(), stack)
    }
}

/// Whether entries are in lexicographic order, no stack twice.
pub open spec fn ascending(entries: Seq<(Seq<char>, u64)>) -> bool {
    forall|i: int, j: int|
        0 <= i < j < entries.len() ==> text::precedes(
            (#[trigger] entries[i]).0,
            (#[trigger] entries[j]).0,
        )
}

/// How often a stack was seen, by the entries.
pub open spec fn count_of(entries: Seq<(Seq<char>, u64)>, stack: Seq<char>) -> u64
    decreases entries.len(),
{
    if entries.len() == 0 {
        0
    } else if entries[0].0 == stack {
        entries[0].1
    } else {
        count_of(entries.drop_first(), stack)
    }
}

/// Taking a stack counts it once more, and counts no other.
pub proof fn lemma_tallied_counts(
    entries: Seq<(Seq<char>, u64)>,
    stack: Seq<char>,
    other: Seq<char>,
)
    requires
        ascending(entries),
    ensures
        count_of(tallied(entries, stack), other) == if other == stack {
            count_of(entries, stack).wrapping_add(1)
        } else {
            count_of(entries, other)
        },
    decreases entries.len(),
{
    let after = tallied(entries, stack);
    if entries.len() == 0 || text::precedes(stack, entries[0].0) {
        assert(after.drop_first() =~= entries);
        if other == stack {
            lemma_absent(entries, stack);
        }
    } else if entries[0].0 == stack {
        assert(after.drop_first() =~= entries.drop_first());
    } else {
        lemma_ascending_rest(entries);
        lemma_tallied_counts(entries.drop_first(), stack, other);
        assert(after.drop_first() =~= tallied(entries.drop_first(), stack));
        assert(after[0] == entries[0]);
    }
}

proof fn lemma_ascending_rest(entries: Seq<(Seq<char>, u64)>)
    requires
        ascending(entries),
        entries.len() > 0,
    ensures
        ascending(entries.drop_first()),
        forall|j: int|
            0 <= j < entries.len() - 1 ==> text::precedes(
                entries[0].0,
                (#[trigger] entries.drop_first()[j]).0,
            ),
{
    let rest = entries.drop_first();
    assert forall|i: int, j: int| 0 <= i < j < rest.len() implies text::precedes(
        (#[trigger] rest[i]).0,
        (#[trigger] rest[j]).0,
    ) by {
        assert(rest[i] == entries[i + 1]);
        assert(rest[j] == entries[j + 1]);
    }
    assert forall|j: int| 0 <= j < entries.len() - 1 implies text::precedes(
        entries[0].0,
        (#[trigger] rest[j]).0,
    ) by {
        assert(rest[j] == entries[j + 1]);
    }
}

/// A stack that comes before all entries is not among them.
proof fn lemma_absent(entries: Seq<(Seq<char>, u64)>, stack: Seq<char>)
    requires
        ascending(entries),
        entries.len() > 0 ==> text::precedes(stack, entries[0].0),
    ensures
        count_of(entries, stack) == 0,
    decreases entries.len(),
{
    if entries.len() > 0 {
        text::lemma_text_order(stack, entries[0].0);
        lemma_ascending_rest(entries);
        let rest = entries.drop_first();
        if rest.len() > 0 {
            text::lemma_precedes_transitive(stack, entries[0].0, rest[0].0);
        }
        lemma_absent(rest, stack);
    }
}

/// Entries stay in order when a stack is taken, and they are of that stack and
/// of those that were there.
pub proof fn lemma_tallied_ascending(entries: Seq<(Seq<char>, u64)>, stack: Seq<char>)
    requires
        ascending(entries),
    ensures
        ascending(tallied(entries, stack)),
        tallied(entries, stack).len() > 0,
        forall|k: int|
            0 <= k < tallied(entries, stack).len() ==> (#[trigger] tallied(entries, stack)[k]).0
                == stack || exists|j: int|
                0 <= j < entries.len() && #[trigger] entries[j].0 == tallied(entries, stack)[k].0,
    decreases entries.len(),
{
    let after = tallied(entries, stack);
    if entries.len() == 0 || text::precedes(stack, entries[0].0) {
        assert forall|i: int, j: int| 0 <= i < j < after.len() implies text::precedes(
            (#[trigger] after[i]).0,
            (#[trigger] after[j]).0,
        ) by {
            assert(after[j] == entries[j - 1]);
            if i > 0 {
                assert(after[i] == entries[i - 1]);
            } else if j > 1 {
                assert(text::precedes(entries[0].0, entries[j - 1].0));
                text::lemma_precedes_transitive(stack, entries[0].0, entries[j - 1].0);
            }
        }
        assert forall|k: int| 0 <= k < after.len() implies (#[trigger] after[k]).0 == stack
            || exists|j: int|
            0 <= j < entries.len() && #[trigger] entries[j].0 == after[k].0 by {
            if k > 0 {
                assert(entries[k - 1].0 == after[k].0);
            }
        }
    } else if entries[0].0 == stack {
        assert forall|k: int| 0 <= k < after.len() implies (#[trigger] after[k]).0
            == entries[k].0 by {
            if k > 0 {
                assert(after[k] == entries[k]);
            }
        }
        assert forall|i: int, j: int| 0 <= i < j < after.len() implies text::precedes(
            (#[trigger] after[i]).0,
            (#[trigger] after[j]).0,
        ) by {
            assert(after[i].0 == entries[i].0);
            assert(after[j].0 == entries[j].0);
        }
    } else {
        lemma_ascending_rest(entries);
        let rest = entries.drop_first();
        let rest_after = tallied(rest, stack);
        lemma_tallied_ascending(rest, stack);
        text::lemma_text_order(stack, entries[0].0);
        text::lemma_text_order(entries[0].0, stack);
        assert forall|k: int| 0 <= k < rest_after.len() implies text::precedes(
            entries[0].0,
            (#[trigger] rest_after[k]).0,
        ) by {
            if rest_after[k].0 != stack {
                let j = choose|j: int|
                    0 <= j < rest.len() && #[trigger] rest[j].0 == rest_after[k].0;
                assert(rest[j] == entries[j + 1]);
            }
        }
        assert forall|i: int, j: int| 0 <= i < j < after.len() implies text::precedes(
            (#[trigger] after[i]).0,
            (#[trigger] after[j]).0,
        ) by {
            assert(after[j] == rest_after[j - 1]);
            if i > 0 {
                assert(after[i] == rest_after[i - 1]);
            }
        }
        assert forall|k: int| 0 <= k < after.len() implies (#[trigger] after[k]).0 == stack
            || exists|j: int|
            0 <= j < entries.len() && #[trigger] entries[j].0 == after[k].0 by {
            if k == 0 {
                assert(entries[0].0 == after[0].0);
            } else {
                assert(after[k] == rest_after[k - 1]);
                if after[k].0 != stack {
                    let j = choose|j: int|
                        0 <= j < rest.len() && #[trigger] rest[j].0 == rest_after[k - 1].0;
                    assert(entries[j + 1].0 == after[k].0);
                }
            }
        }
    }
}

/// The first `n` entries, each on a line with its count.
pub open spec fn folded_text(entries: Seq<(Seq<char>, u64)>, n: nat) -> Seq<char>
    decreases n,
{
    if n == 0 {
        Seq::empty()
    } else {
        folded_text(entries, (n - 1) as nat) + entries[n - 1].0 + " "@ + text::decimal(
            entries[n - 1].1 as nat,
        ) + "\n"@
    }
}

/// Counts stacks, and writes them at the end, in lexicographic order.
pub struct FoldedSink {
    entries: Vec<FoldedEntry>,
}

impl View for FoldedSink {
    type V = Seq<(Seq<char>, u64)>;

    closed spec fn view(&self) -> Seq<(Seq<char>, u64)> {
        entries_view(self.entries@)
    }
}

/// Entries with a stack taken, unless it is empty.
pub open spec fn folded(entries: Seq<(Seq<char>, u64)>, frames: Seq<FrameView>) -> Seq<
    (Seq<char>, u64),
> {
    if frames.len() == 0 {
        entries
    } else {
        tallied(entries, folded_name(frames))
    }
}

/// Where a stack stands among entries, or belongs: the index of the first entry
/// that does not come before it.
proof fn lemma_tallied_at(entries: Seq<(Seq<char>, u64)>, stack: Seq<char>, at: int)
    requires
        ascending(entries),
        0 <= at <= entries.len(),
        forall|k: int| 0 <= k < at ==> text::precedes((#[trigger] entries[k]).0, stack),
        at < entries.len() ==> !text::precedes(entries[at].0, stack),
    ensures
        tallied(entries, stack) == if at < entries.len() && entries[at].0 == stack {
            entries.update(at, (stack, entries[at].1.wrapping_add(1)))
        } else {
            entries.insert(at, (stack, 1u64))
        },
    decreases entries.len(),
{
    if at == 0 {
        if entries.len() > 0 {
            text::lemma_text_order(entries[0].0, stack);
            text::lemma_text_order(stack, entries[0].0);
            if entries[0].0 == stack {
                assert(tallied(entries, stack) =~= entries.update(
                    0,
                    (stack, entries[0].1.wrapping_add(1)),
                ));
            } else {
                assert(tallied(entries, stack) =~= entries.insert(0, (stack, 1u64)));
            }
        } else {
            assert(tallied(entries, stack) =~= entries.insert(0, (stack, 1u64)));
        }
    } else {
        let rest = entries.drop_first();
        text::lemma_text_order(entries[0].0, stack);
        text::lemma_text_order(stack, entries[0].0);
        lemma_ascending_rest(entries);
        assert forall|k: int| 0 <= k < at - 1 implies text::precedes(
            (#[trigger] rest[k]).0,
            stack,
        ) by {
            assert(rest[k] == entries[k + 1]);
        }
        lemma_tallied_at(rest, stack, at - 1);
        if at < entries.len() && entries[at].0 == stack {
            assert(seq![entries[0]] + rest.update(
                at - 1,
                (stack, rest[at - 1].1.wrapping_add(1)),
            ) =~= entries.update(at, (stack, entries[at].1.wrapping_add(1))));
        } else {
            assert(seq![entries[0]] + rest.insert(at - 1, (stack, 1u64)) =~= entries.insert(
                at,
                (stack, 1u64),
            ));
        }
    }
}

/// Finds where a stack stands or belongs, by halving.
fn place(entries: &Vec<FoldedEntry>, stack: &str) -> (at: usize)
    requires
        ascending(entries_view(entries@)),
    ensures
        at <= entries@.len(),
        forall|k: int|
            0 <= k < at ==> text::precedes((#[trigger] entries_view(entries@)[k]).0, stack@),
        at < entries@.len() ==> !text::precedes(entries_view(entries@)[at as int].0, stack@),
{
    let ghost view = entries_view(entries@);
    let mut low: usize = 0;
    let mut high: usize = entries.len();
    while low < high
        invariant
            view == entries_view(entries@),
            ascending(view),
            low <= high <= entries@.len(),
            forall|k: int| 0 <= k < low ==> text::precedes((#[trigger] view[k]).0, stack@),
            high < entries@.len() ==> !text::precedes(view[high as int].0, stack@),
        decreases high - low,
    {
        let mid: usize = low + (high - low) / 2;
        if matches!(text::order(entries[mid].stack.as_str(), stack), Order::Less) {
            proof {
                assert forall|k: int| 0 <= k <= mid implies text::precedes(
                    (#[trigger] view[k]).0,
                    stack@,
                ) by {
                    if k < mid {
                        assert(text::precedes(view[k].0, view[mid as int].0));
                        text::lemma_precedes_transitive(view[k].0, view[mid as int].0, stack@);
                    }
                }
            }
            low = mid + 1;
        } else {
            high = mid;
        }
    }
    low
}

impl FoldedSink {
    #[verifier::type_invariant]
    spec fn well_formed(self) -> bool {
        ascending(entries_view(self.entries@))
    }

    /// No stack is counted yet.
    pub fn new() -> (r: Self)
        ensures
            r@ == Seq::<(Seq<char>, u64)>::empty(),
    {
        let r = FoldedSink { entries: Vec::new() };
        assert(r@ =~= Seq::<(Seq<char>, u64)>::empty());
        r
    }
}

impl Sink for FoldedSink {
    open spec fn state(&self) -> SinkState {
        SinkState::Folded(self@)
    }

    fn write_sample(&mut self, frames: &[Frame], meta: &SampleMeta) -> (r: Vec<u8>) {
        proof {
            use_type_invariant(&*self);
        }
        let nothing: Vec<u8> = Vec::new();
        assert(nothing@ =~= Seq::<u8>::empty());
        if frames.len() == 0 {
            return nothing;
        }
        let stack = fold(frames);
        let mut entries: Vec<FoldedEntry> = Vec::new();
        std::mem::swap(&mut entries, &mut self.entries);
        let ghost before = entries_view(entries@);
        let at: usize = place(&entries, stack.as_str());
        proof {
            lemma_tallied_at(before, stack@, at as int);
            lemma_tallied_ascending(before, stack@);
        }
        let there: bool = at < entries.len() && text::same_text(
            entries[at].stack.as_str(),
            stack.as_str(),
        );
        if there {
            let count: u64 = entries[at].count.wrapping_add(1);
            entries.set(at, FoldedEntry { stack, count });
        } else {
            entries.insert(at, FoldedEntry { stack, count: 1 });
        }
        assert(entries_view(entries@) =~= tallied(before, stack@));
        self.entries = entries;
        nothing
    }

    fn finish(&mut self, now_nanos: i64) -> (r: Option<Vec<u8>>) {
        let mut entries: Vec<FoldedEntry> = Vec::new();
        proof {
            use_type_invariant(&*self);
            assert(entries_view(entries@) =~= Seq::<(Seq<char>, u64)>::empty());
        }
        std::mem::swap(&mut entries, &mut self.entries);
        let ghost view = entries_view(entries@);
        let mut out = String::new();
        for i in 0..entries.len()
            invariant
                view == entries_view(entries@),
                out@ == folded_text(view, i as nat),
        {
            out.append(entries[i].stack.as_str());
            out.append(" ");
            text::push_decimal(&mut out, entries[i].count);
            out.append("\n");
            assert(out@ =~= folded_text(view, (i + 1) as nat));
        }
        Some(text::bytes_of(out.as_str()))
    }
}

// Profiles

/// Aggregates samples into a profile, and writes it at the end.
pub struct PprofSink {
    builder: PprofBuilder,
    finished: bool,
}

impl PprofSink {
    /// An empty profile whose window starts at `now`.
    pub fn new(now_nanos: i64) -> (r: Self)
        ensures
            r.state() == (SinkState::Pprof {
                profile: pprof::empty_profile(),
                started: now_nanos,
                finished: false,
            }),
    {
        PprofSink { builder: PprofBuilder::new(now_nanos), finished: false }
    }
}

impl Sink for PprofSink {
    closed spec fn state(&self) -> SinkState {
        SinkState::Pprof {
            profile: self.builder@,
            started: self.builder.started(),
            finished: self.finished,
        }
    }

    fn write_sample(&mut self, frames: &[Frame], meta: &SampleMeta) -> (r: Vec<u8>) {
        self.builder.add(frames);
        let nothing: Vec<u8> = Vec::new();
        assert(nothing@ =~= Seq::<u8>::empty());
        nothing
    }

    fn finish(&mut self, now_nanos: i64) -> (r: Option<Vec<u8>>) {
        self.finished = true;
        match self.builder.take_gzipped(now_nanos) {
            Some((bytes, _, _)) => Some(bytes),
            None => None,
        }
    }
}

// The sink of a format

/// The sink of an output format.
pub enum FormatSink {
    Stacks(StacksSink),
    Folded(FoldedSink),
    Pprof(PprofSink),
}

impl Sink for FormatSink {
    open spec fn state(&self) -> SinkState {
        match *self {
            FormatSink::Stacks(s) => s.state(),
            FormatSink::Folded(s) => s.state(),
            FormatSink::Pprof(s) => s.state(),
        }
    }

    fn write_sample(&mut self, frames: &[Frame], meta: &SampleMeta) -> (r: Vec<u8>) {
        match self {
            FormatSink::Stacks(s) => s.write_sample(frames, meta),
            FormatSink::Folded(s) => s.write_sample(frames, meta),
            FormatSink::Pprof(s) => s.write_sample(frames, meta),
        }
    }

    fn finish(&mut self, now_nanos: i64) -> (r: Option<Vec<u8>>) {
        match self {
            FormatSink::Stacks(s) => s.finish(now_nanos),
            FormatSink::Folded(s) => s.finish(now_nanos),
            FormatSink::Pprof(s) => s.finish(now_nanos),
        }
    }
}

/// What a sink of a format has taken when it is made.
pub open spec fn new_state(format: Format, now_nanos: i64) -> SinkState {
    match format {
        Format::Folded => SinkState::Folded(Seq::empty()),
        Format::Pprof => SinkState::Pprof {
            profile: pprof::empty_profile(),
            started: now_nanos,
            finished: false,
        },
        _ => SinkState::Stacks,
    }
}

/// Makes the sink of an output format. The live display has none.
pub fn make_sink(format: Format, now_nanos: i64) -> (r: FormatSink)
    requires
        format != Format::Top,
    ensures
        r.state() == new_state(format, now_nanos),
        can_finish(r.state()),
{
    match format {
        Format::Folded => FormatSink::Folded(FoldedSink::new()),
        Format::Pprof => FormatSink::Pprof(PprofSink::new(now_nanos)),
        _ => FormatSink::Stacks(StacksSink {  }),
    }
}

// The sink of a command line

/// Where samples go: into what is written, or to a server.
pub enum OutputSink {
    Write(FormatSink),
    Push(PyroscopeSink),
}

/// What is to be done with the output of a sink.
pub enum Output {
    /// These bytes are to be written.
    Bytes(Vec<u8>),
    /// A push is to be made, if there is anything in it.
    Push(Push),
    /// What was to be written could not be made.
    Failed,
}

/// What an [`Output`] says.
pub ghost enum OutputView {
    Bytes(Seq<u8>),
    Push(Option<Option<RequestView>>),
    Failed,
}

impl View for Output {
    type V = OutputView;

    open spec fn view(&self) -> OutputView {
        match *self {
            Output::Bytes(b) => OutputView::Bytes(b@),
            Output::Push(p) => OutputView::Push(pyroscope::push_view(p)),
            Output::Failed => OutputView::Failed,
        }
    }
}

/// What an [`OutputSink`] has taken. The configuration stays.
pub ghost enum OutputState {
    Write(SinkState),
    Push(PyroscopeConfig, PushState),
}

/// What comes of a sample.
pub open spec fn taken_output(
    state: OutputState,
    frames: Seq<FrameView>,
    meta: MetaView,
    clock: u64,
    now_nanos: i64,
) -> OutputView {
    match state {
        OutputState::Write(s) => OutputView::Bytes(sample_output(s, frames, meta)),
        OutputState::Push(cfg, s) => OutputView::Push(
            pyroscope::pushed_after_sample(cfg, s, frames, clock, now_nanos),
        ),
    }
}

/// What a sink has taken after a sample.
pub open spec fn taken(
    state: OutputState,
    frames: Seq<FrameView>,
    clock: u64,
    now_nanos: i64,
) -> OutputState {
    match state {
        OutputState::Write(s) => OutputState::Write(after_sample(s, frames)),
        OutputState::Push(cfg, s) => OutputState::Push(
            cfg,
            pyroscope::state_after_sample(cfg, s, frames, clock, now_nanos),
        ),
    }
}

/// What comes of the end.
pub open spec fn ended_output(state: OutputState, now_nanos: i64) -> OutputView {
    match state {
        OutputState::Write(s) => match final_output(s, now_nanos) {
            Some(b) => OutputView::Bytes(b),
            None => OutputView::Failed,
        },
        OutputState::Push(cfg, s) => OutputView::Push(
            pyroscope::pushed_window(cfg, s.profile, s.started, now_nanos),
        ),
    }
}

/// What a sink has taken after the end.
pub open spec fn ended(state: OutputState, clock: u64, now_nanos: i64) -> OutputState {
    match state {
        OutputState::Write(s) => OutputState::Write(after_finish(s, now_nanos)),
        OutputState::Push(cfg, s) => OutputState::Push(
            cfg,
            pyroscope::after_push(s, clock, now_nanos),
        ),
    }
}

/// What holds of all that a sink can have taken.
pub open spec fn sound_output(state: OutputState) -> bool {
    match state {
        OutputState::Write(s) => sound(s),
        OutputState::Push(_, s) => pprof::valid(s.profile) && pprof::fits(s.profile),
    }
}

/// Whether a sink can be ended.
pub open spec fn can_end(state: OutputState) -> bool {
    state matches OutputState::Write(s) ==> can_finish(s)
}

impl OutputSink {
    /// What the sink has taken.
    pub open spec fn state(&self) -> OutputState {
        match *self {
            OutputSink::Write(s) => OutputState::Write(s.state()),
            OutputSink::Push(s) => OutputState::Push(s.cfg, s.state()),
        }
    }

    /// Takes a sample.
    pub fn write_sample(
        &mut self,
        frames: &[Frame],
        meta: &SampleMeta,
        clock: u64,
        now_nanos: i64,
    ) -> (r: Output)
        ensures
            r@ == taken_output(
                old(self).state(),
                zend::frames_view(frames@),
                meta@,
                clock,
                now_nanos,
            ),
            final(self).state() == taken(
                old(self).state(),
                zend::frames_view(frames@),
                clock,
                now_nanos,
            ),
            sound_output(final(self).state()),
    {
        match self {
            OutputSink::Write(s) => Output::Bytes(s.write_sample(frames, meta)),
            OutputSink::Push(s) => Output::Push(s.write_sample(frames, clock, now_nanos)),
        }
    }

    /// Ends the output.
    pub fn finish(&mut self, clock: u64, now_nanos: i64) -> (r: Output)
        requires
            can_end(old(self).state()),
        ensures
            r@ == ended_output(old(self).state(), now_nanos),
            final(self).state() == ended(old(self).state(), clock, now_nanos),
    {
        match self {
            OutputSink::Write(s) => match s.finish(now_nanos) {
                Some(b) => Output::Bytes(b),
                None => Output::Failed,
            },
            OutputSink::Push(s) => Output::Push(s.finish(clock, now_nanos)),
        }
    }
}

/// Builds the sink that the command line asks for: pushes to a server if one is
/// given, else output in the format. The error is a header that is none.
pub fn build_sink(args: &Args, clock: u64, now_nanos: i64) -> (r: Result<OutputSink, String>)
    requires
        args.pyroscope_url is None ==> args.format != Format::Top,
    ensures
        match r {
            Ok(OutputSink::Push(s)) => args.pyroscope_url is Some && pyroscope::configured(
                *args,
                s.cfg,
            ) && s.state() == (PushState {
                profile: pprof::empty_profile(),
                started: now_nanos,
                last_push: clock,
            }),
            Ok(OutputSink::Write(s)) => args.pyroscope_url is None && s.state() == new_state(
                args.format,
                now_nanos,
            ),
            Err(line) => args.pyroscope_url is Some && pyroscope::headers_of(
                pyroscope::all_lines(text::strings(args.pyroscope_header@)),
            ) == Err::<Seq<(Seq<char>, Seq<char>)>, Seq<char>>(line@),
        },
        r matches Ok(s) ==> can_end(s.state()),
{
    if args.pyroscope_url.is_some() {
        match pyroscope::pyroscope_config(args) {
            Ok(cfg) => Ok(OutputSink::Push(PyroscopeSink::new(cfg, clock, now_nanos))),
            Err(line) => Err(line),
        }
    } else {
        Ok(OutputSink::Write(make_sink(args.format, now_nanos)))
    }
}

// What folded output counts

/// The entries of samples, taken one after the other.
pub open spec fn folded_all(samples: Seq<Seq<FrameView>>) -> Seq<(Seq<char>, u64)>
    decreases samples.len(),
{
    if samples.len() == 0 {
        Seq::empty()
    } else {
        folded(folded_all(samples.drop_last()), samples.last())
    }
}

/// How many samples fold to a stack.
pub open spec fn times_seen(samples: Seq<Seq<FrameView>>, stack: Seq<char>) -> nat
    decreases samples.len(),
{
    if samples.len() == 0 {
        0
    } else {
        times_seen(samples.drop_last(), stack) + if samples.last().len() > 0 && folded_name(
            samples.last(),
        ) == stack {
            1nat
        } else {
            0nat
        }
    }
}

/// Folded output lists stacks in lexicographic order, each with the number of
/// samples that fold to it.
pub proof fn lemma_folded_counts(samples: Seq<Seq<FrameView>>, stack: Seq<char>)
    requires
        samples.len() <= u64::MAX,
    ensures
        ascending(folded_all(samples)),
        count_of(folded_all(samples), stack) == times_seen(samples, stack),
        times_seen(samples, stack) <= samples.len(),
    decreases samples.len(),
{
    if samples.len() > 0 {
        let init = samples.drop_last();
        lemma_folded_counts(init, stack);
        if samples.last().len() > 0 {
            let name = folded_name(samples.last());
            lemma_tallied_ascending(folded_all(init), name);
            lemma_tallied_counts(folded_all(init), name, stack);
        }
    }
}

/// How many samples are not empty.
pub open spec fn stacks_seen(samples: Seq<Seq<FrameView>>) -> nat
    decreases samples.len(),
{
    if samples.len() == 0 {
        0
    } else {
        stacks_seen(samples.drop_last()) + if samples.last().len() > 0 {
            1nat
        } else {
            0nat
        }
    }
}

/// The counts of entries, added up.
pub open spec fn total(entries: Seq<(Seq<char>, u64)>) -> nat
    decreases entries.len(),
{
    if entries.len() == 0 {
        0
    } else {
        entries[0].1 as nat + total(entries.drop_first())
    }
}

proof fn lemma_tallied_total(entries: Seq<(Seq<char>, u64)>, stack: Seq<char>)
    requires
        total(entries) < u64::MAX,
        forall|k: int| 0 <= k < entries.len() ==> (#[trigger] entries[k]).1 >= 1,
    ensures
        total(tallied(entries, stack)) == total(entries) + 1,
        forall|k: int|
            0 <= k < tallied(entries, stack).len() ==> (#[trigger] tallied(entries, stack)[k]).1
                >= 1,
    decreases entries.len(),
{
    let after = tallied(entries, stack);
    if entries.len() == 0 || text::precedes(stack, entries[0].0) {
        assert(after.drop_first() =~= entries);
        assert forall|k: int| 0 <= k < after.len() implies (#[trigger] after[k]).1 >= 1 by {
            if k > 0 {
                assert(after[k] == entries[k - 1]);
            }
        }
    } else {
        let rest = entries.drop_first();
        assert forall|k: int| 0 <= k < rest.len() implies (#[trigger] rest[k]).1 >= 1 by {
            assert(rest[k] == entries[k + 1]);
        }
        if entries[0].0 == stack {
            assert(after.drop_first() =~= rest);
        } else {
            lemma_tallied_total(rest, stack);
            assert(after.drop_first() =~= tallied(rest, stack));
        }
        assert forall|k: int| 0 <= k < after.len() implies (#[trigger] after[k]).1 >= 1 by {
            if k > 0 {
                assert(after[k] == after.drop_first()[k - 1]);
            } else {
                assert(entries[0].1 >= 1);
            }
        }
    }
}

/// The counts of folded output add up to the number of samples that are not
/// empty, and each is at least one.
pub proof fn lemma_folded_total(samples: Seq<Seq<FrameView>>)
    requires
        samples.len() <= u64::MAX,
    ensures
        total(folded_all(samples)) == stacks_seen(samples),
        stacks_seen(samples) <= samples.len(),
        forall|k: int|
            0 <= k < folded_all(samples).len() ==> (#[trigger] folded_all(samples)[k]).1 >= 1,
    decreases samples.len(),
{
    if samples.len() > 0 {
        let init = samples.drop_last();
        lemma_folded_total(init);
        if samples.last().len() > 0 {
            lemma_tallied_total(folded_all(init), folded_name(samples.last()));
        }
    }
}

/// Entries in order are told by what they count.
proof fn lemma_same_counts(a: Seq<(Seq<char>, u64)>, b: Seq<(Seq<char>, u64)>)
    requires
        ascending(a),
        ascending(b),
        forall|k: int| 0 <= k < a.len() ==> (#[trigger] a[k]).1 >= 1,
        forall|k: int| 0 <= k < b.len() ==> (#[trigger] b[k]).1 >= 1,
        forall|stack: Seq<char>| #[trigger] count_of(a, stack) == count_of(b, stack),
    ensures
        a == b,
    decreases a.len(),
{
    if a.len() == 0 {
        if b.len() > 0 {
            assert(count_of(a, b[0].0) == count_of(b, b[0].0));
        }
    } else {
        assert(count_of(a, a[0].0) == count_of(b, a[0].0));
        assert(b.len() > 0);
        assert(count_of(a, b[0].0) == count_of(b, b[0].0));
        text::lemma_text_order(a[0].0, b[0].0);
        text::lemma_text_order(b[0].0, a[0].0);
        if text::precedes(a[0].0, b[0].0) {
            lemma_absent(b, a[0].0);
        }
        if text::precedes(b[0].0, a[0].0) {
            lemma_absent(a, b[0].0);
        }
        assert(a[0] == b[0]);
        let ra = a.drop_first();
        let rb = b.drop_first();
        lemma_ascending_rest(a);
        lemma_ascending_rest(b);
        lemma_absent(ra, a[0].0);
        lemma_absent(rb, a[0].0);
        assert forall|k: int| 0 <= k < ra.len() implies (#[trigger] ra[k]).1 >= 1 by {
            assert(ra[k] == a[k + 1]);
        }
        assert forall|k: int| 0 <= k < rb.len() implies (#[trigger] rb[k]).1 >= 1 by {
            assert(rb[k] == b[k + 1]);
        }
        assert forall|stack: Seq<char>| #[trigger] count_of(ra, stack) == count_of(rb, stack) by {
            if stack != a[0].0 {
                assert(count_of(a, stack) == count_of(b, stack));
            }
        }
        lemma_same_counts(ra, rb);
        assert(a =~= seq![a[0]] + ra);
        assert(b =~= seq![b[0]] + rb);
    }
}

proof fn lemma_times_seen_without(samples: Seq<Seq<FrameView>>, i: int, stack: Seq<char>)
    requires
        0 <= i < samples.len(),
    ensures
        times_seen(samples, stack) == times_seen(samples.remove(i), stack)
            + if samples[i].len() > 0 && folded_name(samples[i]) == stack {
            1nat
        } else {
            0nat
        },
    decreases samples.len(),
{
    let less = samples.remove(i);
    if i < samples.len() - 1 {
        lemma_times_seen_without(samples.drop_last(), i, stack);
        assert(less.drop_last() =~= samples.drop_last().remove(i));
        assert(less.last() == samples.last());
    } else {
        assert(less =~= samples.drop_last());
    }
}

proof fn lemma_times_seen_any_order(
    samples: Seq<Seq<FrameView>>,
    others: Seq<Seq<FrameView>>,
    stack: Seq<char>,
)
    requires
        samples.to_multiset() == others.to_multiset(),
    ensures
        times_seen(samples, stack) == times_seen(others, stack),
    decreases samples.len(),
{
    broadcast use vstd::seq_lib::group_to_multiset_ensures;

    assert(samples.len() == samples.to_multiset().len());
    assert(others.len() == others.to_multiset().len());
    if samples.len() > 0 {
        let last = samples.len() - 1;
        assert(samples.contains(samples[last]));
        assert(others.to_multiset().count(samples[last]) > 0);
        assert(others.contains(samples[last]));
        let i = choose|i: int| 0 <= i < others.len() && others[i] == samples[last];
        assert(samples.remove(last) =~= samples.drop_last());
        assert(samples.remove(last).to_multiset() == others.remove(i).to_multiset());
        lemma_times_seen_any_order(samples.drop_last(), others.remove(i), stack);
        lemma_times_seen_without(others, i, stack);
    }
}

/// Folded output is the same in whatever order the samples come.
pub proof fn lemma_folded_any_order(
    samples: Seq<Seq<FrameView>>,
    others: Seq<Seq<FrameView>>,
    now_nanos: i64,
)
    requires
        samples.len() <= u64::MAX,
        samples.to_multiset() == others.to_multiset(),
    ensures
        folded_all(samples) == folded_all(others),
        final_output(SinkState::Folded(folded_all(samples)), now_nanos) == final_output(
            SinkState::Folded(folded_all(others)),
            now_nanos,
        ),
{
    broadcast use vstd::seq_lib::group_to_multiset_ensures;

    assert(samples.len() == samples.to_multiset().len());
    assert(others.len() == others.to_multiset().len());
    let a = folded_all(samples);
    let b = folded_all(others);
    lemma_folded_total(samples);
    lemma_folded_total(others);
    lemma_folded_counts(samples, Seq::empty());
    lemma_folded_counts(others, Seq::empty());
    assert forall|stack: Seq<char>| #[trigger] count_of(a, stack) == count_of(b, stack) by {
        lemma_folded_counts(samples, stack);
        lemma_folded_counts(others, stack);
        lemma_times_seen_any_order(samples, others, stack);
    }
    lemma_same_counts(a, b);
}

/// What a sink has taken after samples.
pub open spec fn after_samples(state: SinkState, samples: Seq<Seq<FrameView>>) -> SinkState
    decreases samples.len(),
{
    if samples.len() == 0 {
        state
    } else {
        after_sample(after_samples(state, samples.drop_last()), samples.last())
    }
}

/// What sinks that start empty have taken after samples.
pub proof fn lemma_after_samples(samples: Seq<Seq<FrameView>>, now_nanos: i64)
    ensures
        after_samples(new_state(Format::Folded, now_nanos), samples) == SinkState::Folded(
            folded_all(samples),
        ),
        after_samples(new_state(Format::Pprof, now_nanos), samples) == (SinkState::Pprof {
            profile: pprof::profile_of(samples),
            started: now_nanos,
            finished: false,
        }),
    decreases samples.len(),
{
    if samples.len() > 0 {
        lemma_after_samples(samples.drop_last(), now_nanos);
    }
}

/// Folded output that was ended writes nothing when it is ended again.
pub proof fn lemma_folded_ends_once(entries: Seq<(Seq<char>, u64)>, now: i64, later: i64)
    ensures
        final_output(after_finish(SinkState::Folded(entries), now), later) == Some(
            Seq::<u8>::empty(),
        ),
{
}

} // verus!
