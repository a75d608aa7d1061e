//! Profiles in the pprof format: samples aggregated by stack, written as
//! gzipped Protocol Buffers.

use crate::intern;
use crate::intern::{KeyTable, StringTable};
use crate::wire;
use crate::wire::Field;
use crate::zend;
use crate::zend::{Frame, FrameView};
use flate2::write::GzEncoder;
use flate2::Compression;
use std::io::Write;
use vstd::prelude::*;
use vstd::utf8;

verus! {

// The tables of a profile

/// The tables of a profile. A string goes by its index, a function and a
/// location by its index plus one.
#[verifier::ext_equal]
pub ghost struct Profile {
    /// The strings, the empty one first.
    pub strings: Seq<Seq<char>>,
    /// The functions: the indices of the name and of the file name.
    pub functions: Seq<Seq<u64>>,
    /// The locations: the function and the line.
    pub locations: Seq<Seq<u64>>,
    /// The stacks, each a list of locations, innermost first.
    pub stacks: Seq<Seq<u64>>,
    /// How often each stack was seen.
    pub counts: Seq<i64>,
}

/// A profile without samples.
pub open spec fn empty_profile() -> Profile {
    Profile {
        strings: seq![Seq::<char>::empty()],
        functions: Seq::empty(),
        locations: Seq::empty(),
        stacks: Seq::empty(),
        counts: Seq::empty(),
    }
}

/// The file that a frame is in, empty if it is not known.
pub open spec fn file_text(f: FrameView) -> Seq<char> {
    match f.file {
        Some(file) => file,
        None => Seq::empty(),
    }
}

/// A profile with a string added, unless it is there.
pub open spec fn with_string(p: Profile, s: Seq<char>) -> Profile {
    Profile { strings: intern::interned(p.strings, s), ..p }
}

/// The function of a frame, once its strings are there.
pub open spec fn function_key(p: Profile, f: FrameView) -> Seq<u64> {
    seq![
        intern::position(p.strings, zend::qualified(f)) as u64,
        intern::position(p.strings, file_text(f)) as u64,
    ]
}

/// The location of a frame, once its function is there.
pub open spec fn location_key(p: Profile, f: FrameView) -> Seq<u64> {
    seq![
        (intern::position(p.functions, function_key(p, f)) + 1) as u64,
        f.line as u64,
    ]
}

/// A profile with the location of a frame added: its name, its file name, its
/// function and itself, as far as they are not there.
pub open spec fn with_frame(p: Profile, f: FrameView) -> Profile {
    let p2 = with_string(with_string(p, zend::qualified(f)), file_text(f));
    let p3 = Profile { functions: intern::interned(p2.functions, function_key(p2, f)), ..p2 };
    Profile { locations: intern::interned(p3.locations, location_key(p3, f)), ..p3 }
}

/// The number of the location of a frame that has been added.
pub open spec fn location_id(p: Profile, f: FrameView) -> u64 {
    (intern::position(p.locations, location_key(p, f)) + 1) as u64
}

/// A profile with the locations of frames added.
pub open spec fn with_frames(p: Profile, frames: Seq<FrameView>) -> Profile
    decreases frames.len(),
{
    if frames.len() == 0 {
        p
    } else {
        with_frame(with_frames(p, frames.drop_last()), frames.last())
    }
}

/// The numbers of the locations of frames as they are added.
pub open spec fn location_ids(p: Profile, frames: Seq<FrameView>) -> Seq<u64>
    decreases frames.len(),
{
    if frames.len() == 0 {
        Seq::empty()
    } else {
        location_ids(p, frames.drop_last()).push(
            location_id(with_frames(p, frames), frames.last()),
        )
    }
}

/// The counts with one more of the stack at an index.
pub open spec fn counted(counts: Seq<i64>, i: int) -> Seq<i64> {
    if i < counts.len() {
        counts.update(i, counts[i].wrapping_add(1))
    } else {
        counts.push(1)
    }
}

/// A profile with a stack added.
pub open spec fn with_stack(p: Profile, frames: Seq<FrameView>) -> Profile {
    let q = with_frames(p, frames);
    let ids = location_ids(p, frames);
    Profile {
        stacks: intern::interned(q.stacks, ids),
        counts: counted(q.counts, intern::position(q.stacks, ids)),
        ..q
    }
}

// The bytes of a profile

/// A field that holds a number, absent if the number is zero.
pub open spec fn number(tag: nat, v: nat) -> Seq<u8> {
    if v == 0 {
        Seq::empty()
    } else {
        wire::number_field(tag, v)
    }
}

/// A `ValueType`: what is counted, and in what unit.
pub open spec fn value_type_bytes(kind: nat, unit: nat) -> Seq<u8> {
    number(1, kind) + number(2, unit)
}

/// A `Sample`: a stack and its count.
pub open spec fn sample_bytes(stack: Seq<u64>, count: i64) -> Seq<u8> {
    wire::packed_field(1, Seq::new(stack.len(), |i: int| stack[i] as nat)) + wire::packed_field(
        2,
        seq![wire::unsigned(count)],
    )
}

/// A `Line`: a function and a line in it.
pub open spec fn line_bytes(function: nat, line: nat) -> Seq<u8> {
    number(1, function) + number(2, line)
}

/// A `Location`: its number and its line.
pub open spec fn location_bytes(id: nat, location: Seq<u64>) -> Seq<u8> {
    number(1, id) + wire::bytes_field(4, line_bytes(location[0] as nat, location[1] as nat))
}

/// A `Function`: its number, its name, its system name, which is the same, and
/// its file name.
pub open spec fn function_bytes(id: nat, function: Seq<u64>) -> Seq<u8> {
    number(1, id) + number(2, function[0] as nat) + number(3, function[0] as nat) + number(
        4,
        function[1] as nat,
    )
}

/// The first `n` samples of a profile.
pub open spec fn samples_bytes(p: Profile, n: nat) -> Seq<u8>
    decreases n,
{
    if n == 0 {
        Seq::empty()
    } else {
        samples_bytes(p, (n - 1) as nat) + wire::bytes_field(
            2,
            sample_bytes(p.stacks[n - 1], p.counts[n - 1]),
        )
    }
}

/// The first `n` locations of a profile.
pub open spec fn locations_bytes(p: Profile, n: nat) -> Seq<u8>
    decreases n,
{
    if n == 0 {
        Seq::empty()
    } else {
        locations_bytes(p, (n - 1) as nat) + wire::bytes_field(
            4,
            location_bytes(n, p.locations[n - 1]),
        )
    }
}

/// The first `n` functions of a profile.
pub open spec fn functions_bytes(p: Profile, n: nat) -> Seq<u8>
    decreases n,
{
    if n == 0 {
        Seq::empty()
    } else {
        functions_bytes(p, (n - 1) as nat) + wire::bytes_field(
            5,
            function_bytes(n, p.functions[n - 1]),
        )
    }
}

/// The first `n` strings of a profile.
pub open spec fn strings_bytes(p: Profile, n: nat) -> Seq<u8>
    decreases n,
{
    if n == 0 {
        Seq::empty()
    } else {
        strings_bytes(p, (n - 1) as nat) + wire::bytes_field(
            6,
            utf8::encode_utf8(p.strings[n - 1]),
        )
    }
}

/// A `Profile` of the given window: samples counted in `count`, then the tables.
/// Nothing else is set.
pub open spec fn profile_bytes(p: Profile, time: i64, duration: i64) -> Seq<u8> {
    wire::bytes_field(
        1,
        value_type_bytes(
            intern::position(p.strings, "samples"@) as nat,
            intern::position(p.strings, "count"@) as nat,
        ),
    ) + samples_bytes(p, p.stacks.len()) + locations_bytes(p, p.locations.len()) + functions_bytes(
        p,
        p.functions.len(),
    ) + strings_bytes(p, p.strings.len()) + number(9, wire::unsigned(time)) + number(
        10,
        wire::unsigned(duration),
    )
}

/// The time from one instant to another, zero if it runs backwards.
pub open spec fn elapsed(start: i64, end: i64) -> i64 {
    let d = end.wrapping_sub(start);
    if d < 0 {
        0
    } else {
        d
    }
}

/// A profile with the strings that name what is counted.
pub open spec fn with_units(p: Profile) -> Profile {
    with_string(with_string(p, "count"@), "samples"@)
}

/// The bytes of a window that ends.
pub open spec fn window_bytes(p: Profile, start: i64, end: i64) -> Seq<u8> {
    profile_bytes(with_units(p), start, elapsed(start, end))
}

// Compression

/// What `GzEncoder` with the default compression makes of bytes, and `None` if
/// it fails.
pub uninterp spec fn gzipped(bytes: Seq<u8>) -> Option<Seq<u8>>;

/// `GzEncoder::new`, `write_all` and `finish` on a buffer in memory. What comes
/// out starts with the gzip magic number and is a function of the bytes; how
/// they are compressed is left to the name.
#[verifier::external_body]
pub(crate) fn gzip(bytes: &[u8]) -> (r: Option<Vec<u8>>)
    ensures
        match r {
            Some(b) => gzipped(bytes@) == Some(b@) && b@.len() >= 2 && b@[0] == 0x1f && b@[1]
                == 0x8b,
            None => gzipped(bytes@) is None,
        },
{
    let mut gz = GzEncoder::new(Vec::new(), Compression::default());
    gz.write_all(bytes).ok()?;
    gz.finish().ok()
}

// The builder

struct Tables {
    strings: StringTable,
    functions: KeyTable,
    locations: KeyTable,
    stacks: KeyTable,
    counts: Vec<i64>,
}

impl Tables {
    spec fn profile(&self) -> Profile {
        Profile {
            strings: self.strings@,
            functions: self.functions@,
            locations: self.locations@,
            stacks: self.stacks@,
            counts: self.counts@,
        }
    }

    spec fn well_formed(&self) -> bool {
        &&& self.strings.well_formed()
        &&& self.functions.well_formed()
        &&& self.locations.well_formed()
        &&& self.stacks.well_formed()
        &&& fits(self.profile())
        &&& valid(self.profile())
    }

    fn new() -> (r: Self)
        ensures
            r.well_formed(),
            r.profile() == empty_profile(),
    {
        let mut strings = StringTable::new();
        proof {
            reveal_strlit("");
            assert(""@ =~= Seq::<char>::empty());
        }
        let _ = strings.intern("");
        assert(strings@ =~= seq![Seq::<char>::empty()]);
        let r = Tables {
            strings,
            functions: KeyTable::new(),
            locations: KeyTable::new(),
            stacks: KeyTable::new(),
            counts: Vec::new(),
        };
        assert(r.profile() =~= empty_profile());
        r
    }

    fn add_frame(&mut self, f: &Frame) -> (r: u64)
        requires
            old(self).well_formed(),
        ensures
            final(self).well_formed(),
            final(self).profile() == with_frame(old(self).profile(), f@),
            r == location_id(final(self).profile(), f@),
    {
        let ghost p = self.profile();
        let name = zend::qualified_name(f);
        let name_idx: usize = self.strings.intern(name.as_str());
        let ghost p1 = self.profile();
        assert(p1 =~= with_string(p, zend::qualified(f@)));
        let file_idx: usize = match &f.file {
            Some(file) => self.strings.intern(&**file),
            None => {
                proof {
                    reveal_strlit("");
                    assert(""@ =~= Seq::<char>::empty());
                }
                self.strings.intern("")
            },
        };
        let ghost p2 = self.profile();
        proof {
            assert(p2 =~= with_string(p1, file_text(f@)));
            intern::lemma_position(p.strings, zend::qualified(f@));
            intern::lemma_position(p1.strings, file_text(f@));
            lemma_later(p.strings, zend::qualified(f@), p2.strings);
            lemma_later(p1.strings, file_text(f@), p2.strings);
        }
        let function = vec![name_idx as u64, file_idx as u64];
        assert(function@ =~= function_key(p2, f@));
        let fid: u64 = self.functions.intern(function) as u64 + 1;
        let ghost p3 = self.profile();
        proof {
            lemma_later(p2.functions, function_key(p2, f@), p3.functions);
        }
        let location = vec![fid, f.line as u64];
        assert(location@ =~= location_key(p3, f@));
        let lid: u64 = self.locations.intern(location) as u64 + 1;
        proof {
            let p4 = self.profile();
            assert(p4 =~= with_frame(p, f@));
            lemma_later(p3.locations, location_key(p3, f@), p4.locations);
            assert(location_key(p4, f@) =~= location_key(p3, f@));
            lemma_with_frame(p, f@);
        }
        lid
    }
}

impl Tables {
    fn add_stack(&mut self, frames: &[Frame])
        requires
            old(self).well_formed(),
        ensures
            final(self).well_formed(),
            final(self).profile() == with_stack(old(self).profile(), zend::frames_view(frames@)),
    {
        let ghost p = self.profile();
        let ghost view = zend::frames_view(frames@);
        let mut ids: Vec<u64> = Vec::with_capacity(frames.len());
        for i in 0..frames.len()
            invariant
                self.well_formed(),
                view == zend::frames_view(frames@),
                self.profile() == with_frames(p, view.take(i as int)),
                ids@ == location_ids(p, view.take(i as int)),
        {
            proof {
                assert(view.take(i + 1).drop_last() == view.take(i as int));
                assert(view.take(i + 1).last() == frames@[i as int]@);
            }
            let id: u64 = self.add_frame(&frames[i]);
            ids.push(id);
        }
        assert(view.take(frames@.len() as int) == view);
        let ghost q = self.profile();
        let ghost key = ids@;
        proof {
            intern::lemma_position(q.stacks, key);
        }
        let i: usize = self.stacks.intern(ids);
        if i < self.counts.len() {
            let n: i64 = self.counts[i].wrapping_add(1);
            self.counts.set(i, n);
        } else {
            self.counts.push(1);
        }
        proof {
            assert(self.profile() =~= with_stack(p, view));
            lemma_stack_valid(p, view);
        }
    }

    fn encode_samples(&self, buf: &mut Vec<u8>)
        requires
            self.well_formed(),
        ensures
            final(buf)@ == old(buf)@ + samples_bytes(self.profile(), self.stacks@.len()),
    {
        let ghost p = self.profile();
        let n: usize = self.stacks.len();
        for i in 0..n
            invariant
                n == self.stacks@.len(),
                self.well_formed(),
                p == self.profile(),
                buf@ == old(buf)@ + samples_bytes(p, i as nat),
        {
            let mut sample: Vec<u8> = Vec::new();
            let stack = self.stacks.get(i);
            let count = vec![self.counts[i]];
            wire::put_packed_uint64(1, stack.as_slice(), &mut sample);
            wire::put_packed_int64(2, count.as_slice(), &mut sample);
            proof {
                assert(Seq::new(count@.len(), |j: int| wire::unsigned(count@[j])) =~= seq![
                    wire::unsigned(p.counts[i as int]),
                ]);
                assert(sample@ =~= sample_bytes(p.stacks[i as int], p.counts[i as int]));
            }
            wire::put_bytes(2, &sample, buf);
            assert(buf@ =~= old(buf)@ + samples_bytes(p, (i + 1) as nat));
        }
    }

    fn encode_locations(&self, buf: &mut Vec<u8>)
        requires
            self.well_formed(),
        ensures
            final(buf)@ == old(buf)@ + locations_bytes(self.profile(), self.locations@.len()),
    {
        let ghost p = self.profile();
        let n: usize = self.locations.len();
        for i in 0..n
            invariant
                n == self.locations@.len(),
                self.well_formed(),
                p == self.profile(),
                buf@ == old(buf)@ + locations_bytes(p, i as nat),
        {
            let location = self.locations.get(i);
            assert(self.locations@[i as int].len() == 2);
            let mut line: Vec<u8> = Vec::new();
            put_number(1, location[0], &mut line);
            put_number(2, location[1], &mut line);
            assert(line@ =~= line_bytes(location@[0] as nat, location@[1] as nat));
            let mut out: Vec<u8> = Vec::new();
            put_number(1, i as u64 + 1, &mut out);
            wire::put_bytes(4, &line, &mut out);
            assert(out@ =~= location_bytes((i + 1) as nat, p.locations[i as int]));
            wire::put_bytes(4, &out, buf);
            assert(buf@ =~= old(buf)@ + locations_bytes(p, (i + 1) as nat));
        }
    }

    fn encode_functions(&self, buf: &mut Vec<u8>)
        requires
            self.well_formed(),
        ensures
            final(buf)@ == old(buf)@ + functions_bytes(self.profile(), self.functions@.len()),
    {
        let ghost p = self.profile();
        let n: usize = self.functions.len();
        for i in 0..n
            invariant
                n == self.functions@.len(),
                self.well_formed(),
                p == self.profile(),
                buf@ == old(buf)@ + functions_bytes(p, i as nat),
        {
            let function = self.functions.get(i);
            assert(self.functions@[i as int].len() == 2);
            let mut out: Vec<u8> = Vec::new();
            put_number(1, i as u64 + 1, &mut out);
            put_number(2, function[0], &mut out);
            put_number(3, function[0], &mut out);
            put_number(4, function[1], &mut out);
            assert(out@ =~= function_bytes((i + 1) as nat, p.functions[i as int]));
            wire::put_bytes(5, &out, buf);
            assert(buf@ =~= old(buf)@ + functions_bytes(p, (i + 1) as nat));
        }
    }

    fn encode_strings(&self, buf: &mut Vec<u8>)
        ensures
            final(buf)@ == old(buf)@ + strings_bytes(self.profile(), self.strings@.len()),
    {
        let ghost p = self.profile();
        let n: usize = self.strings.len();
        for i in 0..n
            invariant
                n == self.strings@.len(),
                p == self.profile(),
                buf@ == old(buf)@ + strings_bytes(p, i as nat),
        {
            wire::put_string(6, self.strings.get(i), buf);
            assert(buf@ =~= old(buf)@ + strings_bytes(p, (i + 1) as nat));
        }
    }

    /// Writes the window from `start` to `end`.
    fn encode(&mut self, start: i64, end: i64) -> (r: Vec<u8>)
        requires
            old(self).well_formed(),
        ensures
            r@ == window_bytes(old(self).profile(), start, end),
    {
        let ghost p = self.profile();
        let unit: usize = self.strings.intern("count");
        let ghost p1 = self.profile();
        let kind: usize = self.strings.intern("samples");
        let ghost p2 = self.profile();
        proof {
            assert(p1 =~= with_string(p, "count"@));
            assert(p2 =~= with_units(p));
            lemma_with_string(p, "count"@);
            lemma_with_string(p1, "samples"@);
            lemma_later(p.strings, "count"@, p2.strings);
            lemma_later(p1.strings, "samples"@, p2.strings);
        }
        let mut value_type: Vec<u8> = Vec::new();
        put_number(1, kind as u64, &mut value_type);
        put_number(2, unit as u64, &mut value_type);
        assert(value_type@ =~= value_type_bytes(kind as nat, unit as nat));
        let mut buf: Vec<u8> = Vec::with_capacity(4096);
        wire::put_bytes(1, &value_type, &mut buf);
        self.encode_samples(&mut buf);
        self.encode_locations(&mut buf);
        self.encode_functions(&mut buf);
        self.encode_strings(&mut buf);
        let d: i64 = end.wrapping_sub(start);
        let duration: i64 = if d < 0 {
            0
        } else {
            d
        };
        put_signed(9, start, &mut buf);
        put_signed(10, duration, &mut buf);
        assert(buf@ =~= window_bytes(p, start, end));
        buf
    }
}

fn put_number(tag: u32, v: u64, buf: &mut Vec<u8>)
    requires
        wire::valid_tag(tag),
    ensures
        final(buf)@ == old(buf)@ + number(tag as nat, v as nat),
{
    if v != 0 {
        wire::put_uint64(tag, v, buf);
    } else {
        assert(buf@ =~= old(buf)@ + Seq::<u8>::empty());
    }
}

fn put_signed(tag: u32, v: i64, buf: &mut Vec<u8>)
    requires
        wire::valid_tag(tag),
    ensures
        final(buf)@ == old(buf)@ + number(tag as nat, wire::unsigned(v)),
{
    if v != 0 {
        wire::put_int64(tag, v, buf);
    } else {
        assert(buf@ =~= old(buf)@ + Seq::<u8>::empty());
    }
}

/// An item has the same index once it is there and more items have come.
proof fn lemma_later<T>(table: Seq<T>, item: T, later: Seq<T>)
    requires
        intern::interned(table, item).is_prefix_of(later),
    ensures
        intern::position(later, item) == intern::position(table, item),
{
    intern::lemma_position(table, item);
    intern::lemma_position(later, item);
    let p = intern::position(table, item);
    let q = intern::position(later, item);
    let now = intern::interned(table, item);
    assert(now[p] == item);
    assert(later[p] == now[p]);
    if q < p {
        assert(later[q] == now[q]);
        assert(now[q] == table[q]);
    }
}

/// Accumulates samples into a profile, and writes it out window by window.
pub struct PprofBuilder {
    tables: Tables,
    /// Start of the current window, in nanoseconds since the Unix epoch.
    window_start: i64,
}

impl View for PprofBuilder {
    type V = Profile;

    closed spec fn view(&self) -> Profile {
        self.tables.profile()
    }
}

impl PprofBuilder {
    #[verifier::type_invariant]
    spec fn well_formed(self) -> bool {
        self.tables.well_formed()
    }

    /// When the current window started.
    pub closed spec fn started(&self) -> i64 {
        self.window_start
    }

    /// An empty profile whose first window starts at `now`.
    pub fn new(now_nanos: i64) -> (r: Self)
        ensures
            r@ == empty_profile(),
            valid(r@),
            fits(r@),
            r.started() == now_nanos,
    {
        PprofBuilder { tables: Tables::new(), window_start: now_nanos }
    }

    /// When the current window started, in nanoseconds since the Unix epoch.
    pub fn window_start_nanos(&self) -> (r: i64)
        ensures
            r == self.started(),
    {
        self.window_start
    }

    /// Whether the window has no sample yet.
    pub fn is_empty(&self) -> (r: bool)
        ensures
            r == (self@.stacks.len() == 0),
    {
        self.tables.stacks.len() == 0
    }

    /// Adds one captured stack. The stack with its names, files and lines counts
    /// once more, and no other does.
    pub fn add(&mut self, frames: &[Frame])
        ensures
            final(self)@ == with_stack(old(self)@, zend::frames_view(frames@)),
            valid(old(self)@),
            valid(final(self)@),
            fits(final(self)@),
            final(self).started() == old(self).started(),
            final(self)@.stacks.len() > 0,
            exists|i: int| says(final(self)@, i, frames_text(zend::frames_view(frames@))),
            forall|text: Seq<(Seq<char>, Seq<char>, u64)>| #[trigger]
                count_of(final(self)@, text) == if text == frames_text(
                    zend::frames_view(frames@),
                ) {
                    count_of(old(self)@, text).wrapping_add(1)
                } else {
                    count_of(old(self)@, text)
                },
    {
        let ghost p = self@;
        let ghost view = zend::frames_view(frames@);
        proof {
            use_type_invariant(&*self);
        }
        let mut tables = Tables::new();
        std::mem::swap(&mut tables, &mut self.tables);
        tables.add_stack(frames);
        self.tables = tables;
        proof {
            lemma_stack_not_empty(p, view);
            lemma_stack_reads_back(p, view);
            let q = with_stack(p, view);
            let i = intern::position(p.stacks, location_ids(p, view));
            assert(stack_text(q, q.stacks[i]) =~= frames_text(view));
            assert(says(q, i, frames_text(view)));
            assert forall|text: Seq<(Seq<char>, Seq<char>, u64)>| #[trigger]
                count_of(q, text) == if text == frames_text(view) {
                    count_of(p, text).wrapping_add(1)
                } else {
                    count_of(p, text)
                } by {
                lemma_stack_counts(p, view, text);
            }
        }
    }

    /// Writes the current window as a profile, and starts the next one empty at
    /// `now`. Returns the profile and when its window started and ended.
    pub fn take_profile(&mut self, now_nanos: i64) -> (r: (Vec<u8>, i64, i64))
        ensures
            r.0@ == window_bytes(old(self)@, old(self).started(), now_nanos),
            r.1 == old(self).started(),
            r.2 == now_nanos,
            valid(old(self)@),
            fits(old(self)@),
            final(self)@ == empty_profile(),
            valid(final(self)@),
            fits(final(self)@),
            final(self).started() == now_nanos,
    {
        proof {
            use_type_invariant(&*self);
        }
        let start: i64 = self.window_start;
        let mut tables = Tables::new();
        std::mem::swap(&mut tables, &mut self.tables);
        let bytes = tables.encode(start, now_nanos);
        self.window_start = now_nanos;
        (bytes, start, now_nanos)
    }

    /// Writes the current window as a gzipped profile, and starts the next one
    /// empty at `now`. Returns the bytes and when the window started and ended;
    /// `None` if the compressor fails.
    pub fn take_gzipped(&mut self, now_nanos: i64) -> (r: Option<(Vec<u8>, i64, i64)>)
        ensures
            match r {
                Some((bytes, start, end)) => gzipped(
                    window_bytes(old(self)@, old(self).started(), now_nanos),
                ) == Some(bytes@) && bytes@.len() >= 2 && bytes@[0] == 0x1f && bytes@[1] == 0x8b
                    && start == old(self).started() && end == now_nanos,
                None => gzipped(window_bytes(old(self)@, old(self).started(), now_nanos)) is None,
            },
            valid(old(self)@),
            fits(old(self)@),
            final(self)@ == empty_profile(),
            valid(final(self)@),
            fits(final(self)@),
            final(self).started() == now_nanos,
    {
        let (bytes, start, end) = self.take_profile(now_nanos);
        match gzip(bytes.as_slice()) {
            Some(gz) => Some((gz, start, end)),
            None => None,
        }
    }
}

// Laws

/// Whether the tables of a profile are small enough for 64-bit indices.
pub open spec fn fits(p: Profile) -> bool {
    &&& p.strings.len() <= u64::MAX
    &&& p.functions.len() <= u64::MAX
    &&& p.locations.len() <= u64::MAX
}

/// Whether a profile is valid: the empty string comes first, nothing occurs
/// twice, every reference leads somewhere, and each stack has a count.
pub open spec fn valid(p: Profile) -> bool {
    &&& p.strings.len() > 0 && p.strings[0] == Seq::<char>::empty()
    &&& p.strings.no_duplicates()
    &&& p.functions.no_duplicates()
    &&& p.locations.no_duplicates()
    &&& p.stacks.no_duplicates()
    &&& forall|i: int|
        0 <= i < p.functions.len() ==> (#[trigger] p.functions[i]).len() == 2 && p.functions[i][0]
            < p.strings.len() && p.functions[i][1] < p.strings.len()
    &&& forall|i: int|
        0 <= i < p.locations.len() ==> (#[trigger] p.locations[i]).len() == 2 && 1
            <= p.locations[i][0] <= p.functions.len()
    &&& forall|i: int, k: int|
        0 <= i < p.stacks.len() && 0 <= k < p.stacks[i].len() ==> 1 <= #[trigger] p.stacks[i][k]
            <= p.locations.len()
    &&& p.counts.len() == p.stacks.len()
}

/// What a location says: the name, the file and the line.
pub open spec fn frame_of(p: Profile, id: u64) -> (Seq<char>, Seq<char>, u64) {
    let location = p.locations[id - 1];
    let function = p.functions[location[0] - 1];
    (p.strings[function[0] as int], p.strings[function[1] as int], location[1])
}

/// What a frame says in a profile.
pub open spec fn frame_text(f: FrameView) -> (Seq<char>, Seq<char>, u64) {
    (zend::qualified(f), file_text(f), f.line as u64)
}

/// Whether the tables of `q` start with those of `p`.
pub open spec fn grows(p: Profile, q: Profile) -> bool {
    &&& p.strings.is_prefix_of(q.strings)
    &&& p.functions.is_prefix_of(q.functions)
    &&& p.locations.is_prefix_of(q.locations)
}

/// A profile without samples is valid.
pub proof fn lemma_empty_valid()
    ensures
        valid(empty_profile()),
{
}

proof fn lemma_with_string(p: Profile, s: Seq<char>)
    requires
        valid(p),
    ensures
        valid(with_string(p, s)),
{
    intern::lemma_interned(p.strings, s);
    assert(with_string(p, s).strings[0] == p.strings[0]);
}

proof fn lemma_with_frame(p: Profile, f: FrameView)
    requires
        valid(p),
        fits(with_frame(p, f)),
    ensures
        valid(with_frame(p, f)),
        grows(p, with_frame(p, f)),
        with_frame(p, f).stacks == p.stacks,
        with_frame(p, f).counts == p.counts,
        1 <= location_id(with_frame(p, f), f) <= with_frame(p, f).locations.len(),
        frame_of(with_frame(p, f), location_id(with_frame(p, f), f)) == frame_text(f),
        located(with_frame(p, f), f),
{
    let name = zend::qualified(f);
    let file = file_text(f);
    let p1 = with_string(p, name);
    let p2 = with_string(p1, file);
    let p3 = Profile { functions: intern::interned(p2.functions, function_key(p2, f)), ..p2 };
    let p4 = with_frame(p, f);
    intern::lemma_interned(p.strings, name);
    intern::lemma_interned(p1.strings, file);
    intern::lemma_interned(p2.functions, function_key(p2, f));
    intern::lemma_interned(p3.locations, location_key(p3, f));
    lemma_later(p.strings, name, p2.strings);
    lemma_later(p1.strings, file, p2.strings);
    intern::lemma_position(p2.strings, name);
    intern::lemma_position(p2.strings, file);
    lemma_later(p2.functions, function_key(p2, f), p3.functions);
    lemma_later(p3.locations, location_key(p3, f), p4.locations);
    assert(p.strings.is_prefix_of(p2.strings));
    assert(p2.strings[0] == p.strings[0]);
    assert(location_key(p4, f) =~= location_key(p3, f));
    assert(function_key(p4, f) =~= function_key(p2, f));
    assert(function_key(p3, f) =~= function_key(p2, f));
    intern::lemma_position(p2.functions, function_key(p2, f));
    intern::lemma_position(p3.locations, location_key(p3, f));
    assert forall|i: int| 0 <= i < p4.functions.len() implies (#[trigger] p4.functions[i]).len()
        == 2 && p4.functions[i][0] < p4.strings.len() && p4.functions[i][1]
        < p4.strings.len() by {
        if i < p.functions.len() {
            assert(p4.functions[i] == p.functions[i]);
        }
    }
    assert forall|i: int| 0 <= i < p4.locations.len() implies (#[trigger] p4.locations[i]).len()
        == 2 && 1 <= p4.locations[i][0] <= p4.functions.len() by {
        if i < p.locations.len() {
            assert(p4.locations[i] == p.locations[i]);
        }
    }
    let id = location_id(p4, f);
    assert(p4.locations[id - 1] == location_key(p3, f));
    assert(p4.functions[location_key(p3, f)[0] - 1] == function_key(p2, f));
}

/// Whether the location of a frame is in a profile, with all it refers to.
pub open spec fn located(p: Profile, f: FrameView) -> bool {
    &&& intern::position(p.strings, zend::qualified(f)) < p.strings.len()
    &&& intern::position(p.strings, file_text(f)) < p.strings.len()
    &&& intern::position(p.functions, function_key(p, f)) < p.functions.len()
    &&& intern::position(p.locations, location_key(p, f)) < p.locations.len()
}

/// A location that is there stays as it is when the tables grow.
proof fn lemma_located_grows(p: Profile, q: Profile, f: FrameView)
    requires
        located(p, f),
        grows(p, q),
    ensures
        located(q, f),
        location_id(q, f) == location_id(p, f),
{
    lemma_later(p.strings, zend::qualified(f), q.strings);
    lemma_later(p.strings, file_text(f), q.strings);
    assert(function_key(q, f) =~= function_key(p, f));
    lemma_later(p.functions, function_key(p, f), q.functions);
    assert(location_key(q, f) =~= location_key(p, f));
    lemma_later(p.locations, location_key(p, f), q.locations);
}

/// Adding a frame that is there changes nothing.
proof fn lemma_located_again(p: Profile, f: FrameView)
    requires
        located(p, f),
    ensures
        with_frame(p, f) == p,
{
}

/// What locations say stays as it is when the tables grow.
proof fn lemma_frame_of_grows(p: Profile, q: Profile, id: u64)
    requires
        valid(p),
        grows(p, q),
        1 <= id <= p.locations.len(),
    ensures
        frame_of(q, id) == frame_of(p, id),
{
    assert(q.locations[id - 1] == p.locations[id - 1]);
    let location = p.locations[id - 1];
    assert(q.functions[location[0] - 1] == p.functions[location[0] - 1]);
    let function = p.functions[location[0] - 1];
    assert(q.strings[function[0] as int] == p.strings[function[0] as int]);
    assert(q.strings[function[1] as int] == p.strings[function[1] as int]);
}

proof fn lemma_with_frame_grows(p: Profile, f: FrameView)
    ensures
        grows(p, with_frame(p, f)),
{
}

proof fn lemma_with_frames(p: Profile, frames: Seq<FrameView>)
    requires
        valid(p),
        fits(with_frames(p, frames)),
    ensures
        valid(with_frames(p, frames)),
        grows(p, with_frames(p, frames)),
        with_frames(p, frames).stacks == p.stacks,
        with_frames(p, frames).counts == p.counts,
        location_ids(p, frames).len() == frames.len(),
        forall|k: int|
            0 <= k < frames.len() ==> 1 <= #[trigger] location_ids(p, frames)[k] <= with_frames(
                p,
                frames,
            ).locations.len() && frame_of(with_frames(p, frames), location_ids(p, frames)[k])
                == frame_text(frames[k]) && located(with_frames(p, frames), frames[k])
                && location_id(with_frames(p, frames), frames[k]) == location_ids(p, frames)[k],
    decreases frames.len(),
{
    if frames.len() > 0 {
        let init = frames.drop_last();
        let q = with_frames(p, init);
        let r = with_frames(p, frames);
        lemma_with_frame_grows(q, frames.last());
        lemma_with_frames(p, init);
        lemma_with_frame(q, frames.last());
        let ids = location_ids(p, frames);
        assert forall|k: int| 0 <= k < frames.len() implies 1 <= #[trigger] ids[k]
            <= r.locations.len() && frame_of(r, ids[k]) == frame_text(frames[k]) && located(
            r,
            frames[k],
        ) && location_id(r, frames[k]) == ids[k] by {
            if k < init.len() {
                assert(ids[k] == location_ids(p, init)[k]);
                assert(frames[k] == init[k]);
                lemma_frame_of_grows(q, r, ids[k]);
                lemma_located_grows(q, r, init[k]);
            }
        }
    }
}

/// A profile stays valid when a stack is added.
pub proof fn lemma_stack_valid(p: Profile, frames: Seq<FrameView>)
    requires
        valid(p),
        fits(with_stack(p, frames)),
    ensures
        valid(with_stack(p, frames)),
{
    lemma_with_frames(p, frames);
    let q = with_frames(p, frames);
    let ids = location_ids(p, frames);
    let r = with_stack(p, frames);
    intern::lemma_interned(q.stacks, ids);
    intern::lemma_position(q.stacks, ids);
    assert forall|i: int, k: int| 0 <= i < r.stacks.len() && 0 <= k < r.stacks[i].len() implies 1
        <= #[trigger] r.stacks[i][k] <= r.locations.len() by {
        if i < p.stacks.len() {
            assert(r.stacks[i] == p.stacks[i]);
            assert(1 <= p.stacks[i][k] <= p.locations.len());
        }
    }
}

/// A profile to which a stack was added has a sample.
pub proof fn lemma_stack_not_empty(p: Profile, frames: Seq<FrameView>)
    ensures
        with_stack(p, frames).stacks.len() > 0,
{
    let q = with_frames(p, frames);
    intern::lemma_position(q.stacks, location_ids(p, frames));
}

/// Reading back: after a stack is added, there is a sample whose locations say
/// what the frames of the stack say, one for one.
pub proof fn lemma_stack_reads_back(p: Profile, frames: Seq<FrameView>)
    requires
        valid(p),
        fits(with_stack(p, frames)),
    ensures
        ({
            let q = with_stack(p, frames);
            let i = intern::position(p.stacks, location_ids(p, frames));
            &&& 0 <= i < q.stacks.len()
            &&& q.stacks[i].len() == frames.len()
            &&& forall|k: int|
                0 <= k < frames.len() ==> frame_of(q, #[trigger] q.stacks[i][k]) == frame_text(
                    frames[k],
                )
        }),
{
    lemma_with_frames(p, frames);
    let q = with_stack(p, frames);
    let ids = location_ids(p, frames);
    intern::lemma_interned(p.stacks, ids);
    intern::lemma_position(p.stacks, ids);
    let i = intern::position(p.stacks, ids);
    assert(q.stacks[i] == ids);
    assert forall|k: int| 0 <= k < frames.len() implies frame_of(q, #[trigger] q.stacks[i][k])
        == frame_text(frames[k]) by {
        assert(frame_of(with_frames(p, frames), ids[k]) == frame_text(frames[k]));
    }
}

/// Adding a stack leaves what the samples before it say, and their counts but
/// for that of the same stack.
pub proof fn lemma_stack_keeps(p: Profile, frames: Seq<FrameView>, i: int)
    requires
        valid(p),
        fits(with_stack(p, frames)),
        0 <= i < p.stacks.len(),
    ensures
        with_stack(p, frames).stacks[i] == p.stacks[i],
        forall|k: int|
            0 <= k < p.stacks[i].len() ==> frame_of(
                with_stack(p, frames),
                #[trigger] p.stacks[i][k],
            ) == frame_of(p, p.stacks[i][k]),
        with_stack(p, frames).counts[i] == if p.stacks[i] == location_ids(p, frames) {
            p.counts[i].wrapping_add(1)
        } else {
            p.counts[i]
        },
{
    lemma_with_frames(p, frames);
    let q = with_stack(p, frames);
    let ids = location_ids(p, frames);
    intern::lemma_position(p.stacks, ids);
    if p.stacks[i] == ids {
        intern::lemma_position_unique(p.stacks, ids, i);
    }
    assert forall|k: int| 0 <= k < p.stacks[i].len() implies frame_of(q, #[trigger] p.stacks[i][k])
        == frame_of(p, p.stacks[i][k]) by {
        lemma_frame_of_grows(p, q, p.stacks[i][k]);
    }
}

proof fn lemma_frames_again(p: Profile, frames: Seq<FrameView>)
    requires
        forall|k: int| 0 <= k < frames.len() ==> located(p, #[trigger] frames[k]),
    ensures
        with_frames(p, frames) == p,
        location_ids(p, frames) == Seq::new(
            frames.len(),
            |k: int| location_id(p, frames[k]),
        ),
    decreases frames.len(),
{
    if frames.len() > 0 {
        let init = frames.drop_last();
        assert forall|k: int| 0 <= k < init.len() implies located(p, #[trigger] init[k]) by {
            assert(located(p, frames[k]));
        }
        lemma_frames_again(p, init);
        assert(located(p, frames[frames.len() - 1]));
        lemma_located_again(p, frames.last());
        assert(location_ids(p, frames) =~= Seq::new(
            frames.len(),
            |k: int| location_id(p, frames[k]),
        ));
    } else {
        assert(location_ids(p, frames) =~= Seq::new(
            frames.len(),
            |k: int| location_id(p, frames[k]),
        ));
    }
}

/// A stack that is added twice is one sample, counted once more.
pub proof fn lemma_stack_again(p: Profile, frames: Seq<FrameView>)
    requires
        valid(p),
        fits(with_stack(p, frames)),
    ensures
        ({
            let q = with_stack(p, frames);
            let i = intern::position(p.stacks, location_ids(p, frames));
            with_stack(q, frames) == Profile {
                counts: q.counts.update(i, q.counts[i].wrapping_add(1)),
                ..q
            }
        }),
{
    lemma_with_frames(p, frames);
    let q0 = with_frames(p, frames);
    let q = with_stack(p, frames);
    let ids = location_ids(p, frames);
    assert forall|k: int| 0 <= k < frames.len() implies located(q, #[trigger] frames[k]) by {
        assert(1 <= ids[k]);
        lemma_located_grows(q0, q, frames[k]);
    }
    lemma_frames_again(q, frames);
    assert(location_ids(q, frames) =~= ids) by {
        assert forall|k: int| 0 <= k < frames.len() implies location_ids(q, frames)[k]
            == ids[k] by {
            assert(1 <= ids[k]);
            lemma_located_grows(q0, q, frames[k]);
        }
    }
    intern::lemma_interned(p.stacks, ids);
    lemma_later(p.stacks, ids, q.stacks);
    assert(with_stack(q, frames) =~= Profile {
        counts: q.counts.update(
            intern::position(p.stacks, ids),
            q.counts[intern::position(p.stacks, ids)].wrapping_add(1),
        ),
        ..q
    });
}

/// The strings that name what is counted leave a profile valid, with the same
/// samples, and are in it.
pub proof fn lemma_units_valid(p: Profile)
    requires
        valid(p),
    ensures
        valid(with_units(p)),
        grows(p, with_units(p)),
        with_units(p).stacks == p.stacks,
        with_units(p).counts == p.counts,
        with_units(p).strings.contains("samples"@),
        with_units(p).strings.contains("count"@),
{
    let p1 = with_string(p, "count"@);
    let p2 = with_string(p1, "samples"@);
    lemma_with_string(p, "count"@);
    lemma_with_string(p1, "samples"@);
    intern::lemma_interned(p.strings, "count"@);
    intern::lemma_interned(p1.strings, "samples"@);
    intern::lemma_position(p.strings, "count"@);
    intern::lemma_position(p1.strings, "samples"@);
    assert(p2.strings[intern::position(p.strings, "count"@)] == "count"@);
    assert(p2.strings[intern::position(p1.strings, "samples"@)] == "samples"@);
}

// What a profile counts

/// The profile of stacks, added one after the other to an empty one.
pub open spec fn profile_of(stacks: Seq<Seq<FrameView>>) -> Profile
    decreases stacks.len(),
{
    if stacks.len() == 0 {
        empty_profile()
    } else {
        with_stack(profile_of(stacks.drop_last()), stacks.last())
    }
}

/// Counts, added up.
pub open spec fn total(counts: Seq<i64>) -> int
    decreases counts.len(),
{
    if counts.len() == 0 {
        0
    } else {
        total(counts.drop_last()) + counts.last()
    }
}

proof fn lemma_total_bound(counts: Seq<i64>, i: int)
    requires
        forall|k: int| 0 <= k < counts.len() ==> #[trigger] counts[k] >= 1,
        0 <= i <= counts.len(),
    ensures
        total(counts) >= 0,
        i < counts.len() ==> counts[i] <= total(counts),
    decreases counts.len(),
{
    if counts.len() > 0 {
        let init = counts.drop_last();
        assert(counts[counts.len() - 1] >= 1);
        if i < init.len() {
            lemma_total_bound(init, i);
            assert(init[i] == counts[i]);
        } else {
            lemma_total_bound(init, 0);
        }
    }
}

proof fn lemma_total_update(counts: Seq<i64>, i: int, c: i64)
    requires
        0 <= i < counts.len(),
    ensures
        total(counts.update(i, c)) == total(counts) - counts[i] + c,
    decreases counts.len(),
{
    let after = counts.update(i, c);
    if i < counts.len() - 1 {
        lemma_total_update(counts.drop_last(), i, c);
        assert(after.drop_last() =~= counts.drop_last().update(i, c));
    } else {
        assert(after.drop_last() =~= counts.drop_last());
    }
}

proof fn lemma_frames_grow(p: Profile, frames: Seq<FrameView>)
    ensures
        grows(p, with_frames(p, frames)),
    decreases frames.len(),
{
    if frames.len() > 0 {
        let init = with_frames(p, frames.drop_last());
        let all = with_frames(p, frames);
        lemma_frames_grow(p, frames.drop_last());
        lemma_with_frame_grows(init, frames.last());
        assert(p.strings.is_prefix_of(all.strings));
        assert(p.functions.is_prefix_of(all.functions));
        assert(p.locations.is_prefix_of(all.locations));
    }
}

/// The counts of a profile add up to the number of stacks that were added since
/// it was empty, and each is at least one. The profile is valid.
pub proof fn lemma_counts_add_up(stacks: Seq<Seq<FrameView>>)
    requires
        stacks.len() <= i64::MAX,
        fits(profile_of(stacks)),
    ensures
        valid(profile_of(stacks)),
        total(profile_of(stacks).counts) == stacks.len(),
        forall|i: int|
            0 <= i < profile_of(stacks).counts.len() ==> #[trigger] profile_of(stacks).counts[i]
                >= 1,
    decreases stacks.len(),
{
    if stacks.len() > 0 {
        let p = profile_of(stacks.drop_last());
        let frames = stacks.last();
        let q = profile_of(stacks);
        let ids = location_ids(p, frames);
        lemma_frames_grow(p, frames);
        assert(fits(p));
        lemma_counts_add_up(stacks.drop_last());
        lemma_stack_valid(p, frames);
        lemma_with_frames(p, frames);
        intern::lemma_position(p.stacks, ids);
        let i = intern::position(p.stacks, ids);
        lemma_total_bound(p.counts, i);
        if i < p.counts.len() {
            lemma_total_update(p.counts, i, p.counts[i].wrapping_add(1));
        } else {
            assert(q.counts.drop_last() =~= p.counts);
        }
    }
}

/// What the locations of a stack say, one for one.
pub open spec fn stack_text(p: Profile, stack: Seq<u64>) -> Seq<(Seq<char>, Seq<char>, u64)> {
    Seq::new(stack.len(), |k: int| frame_of(p, stack[k]))
}

/// What the frames of a stack say, one for one.
pub open spec fn frames_text(frames: Seq<FrameView>) -> Seq<(Seq<char>, Seq<char>, u64)> {
    Seq::new(frames.len(), |k: int| frame_text(frames[k]))
}

/// Whether the sample at an index says what is given.
pub open spec fn says(p: Profile, i: int, text: Seq<(Seq<char>, Seq<char>, u64)>) -> bool {
    0 <= i < p.stacks.len() && stack_text(p, p.stacks[i]) == text
}

/// How often a stack was seen, told by the names, files and lines of its frames;
/// zero if it was not.
pub open spec fn count_of(p: Profile, text: Seq<(Seq<char>, Seq<char>, u64)>) -> i64 {
    if exists|i: int| says(p, i, text) {
        p.counts[choose|i: int| says(p, i, text)]
    } else {
        0
    }
}

/// Different locations say different things.
proof fn lemma_frame_of_differs(p: Profile, a: u64, b: u64)
    requires
        valid(p),
        1 <= a <= p.locations.len(),
        1 <= b <= p.locations.len(),
        frame_of(p, a) == frame_of(p, b),
    ensures
        a == b,
{
    let la = p.locations[a - 1];
    let lb = p.locations[b - 1];
    let fa = p.functions[la[0] - 1];
    let fb = p.functions[lb[0] - 1];
    assert(p.strings[fa[0] as int] == p.strings[fb[0] as int]);
    assert(p.strings[fa[1] as int] == p.strings[fb[1] as int]);
    assert(fa =~= fb);
    assert(la =~= lb);
}

/// Different samples say different things.
pub proof fn lemma_samples_differ(p: Profile, i: int, j: int)
    requires
        valid(p),
        0 <= i < p.stacks.len(),
        0 <= j < p.stacks.len(),
        stack_text(p, p.stacks[i]) == stack_text(p, p.stacks[j]),
    ensures
        i == j,
{
    let a = p.stacks[i];
    let b = p.stacks[j];
    assert(stack_text(p, a).len() == a.len());
    assert(stack_text(p, b).len() == b.len());
    assert forall|k: int| 0 <= k < a.len() implies a[k] == b[k] by {
        assert(1 <= p.stacks[i][k] <= p.locations.len());
        assert(1 <= p.stacks[j][k] <= p.locations.len());
        assert(stack_text(p, a)[k] == stack_text(p, b)[k]);
        lemma_frame_of_differs(p, a[k], b[k]);
    }
    assert(a =~= b);
}

proof fn lemma_count_at(p: Profile, i: int)
    requires
        valid(p),
        0 <= i < p.stacks.len(),
    ensures
        count_of(p, stack_text(p, p.stacks[i])) == p.counts[i],
{
    let text = stack_text(p, p.stacks[i]);
    assert(says(p, i, text));
    let j = choose|j: int| says(p, j, text);
    lemma_samples_differ(p, i, j);
}

/// Adding a stack counts the stack with its names, files and lines once more,
/// and no other.
pub proof fn lemma_stack_counts(
    p: Profile,
    frames: Seq<FrameView>,
    text: Seq<(Seq<char>, Seq<char>, u64)>,
)
    requires
        valid(p),
        fits(with_stack(p, frames)),
    ensures
        count_of(with_stack(p, frames), text) == if text == frames_text(frames) {
            count_of(p, text).wrapping_add(1)
        } else {
            count_of(p, text)
        },
{
    let q = with_stack(p, frames);
    let ids = location_ids(p, frames);
    let m = intern::position(p.stacks, ids);
    lemma_with_frames(p, frames);
    lemma_stack_valid(p, frames);
    lemma_stack_reads_back(p, frames);
    intern::lemma_position(p.stacks, ids);
    intern::lemma_interned(p.stacks, ids);
    assert(stack_text(q, q.stacks[m]) =~= frames_text(frames));
    lemma_count_at(q, m);
    assert forall|i: int| 0 <= i < p.stacks.len() implies stack_text(q, #[trigger] q.stacks[i])
        == stack_text(p, p.stacks[i]) by {
        lemma_stack_keeps(p, frames, i);
        assert(stack_text(q, q.stacks[i]) =~= stack_text(p, p.stacks[i]));
    }
    if exists|i: int| says(p, i, text) {
        let i = choose|i: int| says(p, i, text);
        lemma_count_at(p, i);
        assert(stack_text(q, q.stacks[i]) == text);
        lemma_count_at(q, i);
        lemma_stack_keeps(p, frames, i);
        if text == frames_text(frames) {
            lemma_samples_differ(q, i, m);
        } else if p.stacks[i] == ids {
            assert(q.stacks[i] == q.stacks[m]);
        }
    } else if text == frames_text(frames) {
        if m < p.stacks.len() {
            assert(says(p, m, text));
        }
    } else {
        assert forall|i: int| !says(q, i, text) by {
            if says(q, i, text) {
                if i < p.stacks.len() {
                    assert(stack_text(q, q.stacks[i]) == stack_text(p, p.stacks[i]));
                    assert(says(p, i, text));
                } else {
                    assert(i == m);
                }
            }
        }
    }
}

// What a profile's bytes say

/// The field of a number, none if it is zero.
pub open spec fn number_fields(tag: nat, v: nat) -> Seq<Field> {
    if v == 0 {
        Seq::empty()
    } else {
        seq![Field::Number(tag, v)]
    }
}

/// The field of a list of numbers, none if it is empty.
pub open spec fn packed_fields(tag: nat, vs: Seq<nat>) -> Seq<Field> {
    if vs.len() == 0 {
        Seq::empty()
    } else {
        seq![Field::Bytes(tag, wire::varints(vs))]
    }
}

/// The fields of a `Sample`.
pub open spec fn sample_fields(stack: Seq<u64>, count: i64) -> Seq<Field> {
    packed_fields(1, Seq::new(stack.len(), |i: int| stack[i] as nat)) + packed_fields(
        2,
        seq![wire::unsigned(count)],
    )
}

/// The fields of a `Location`.
pub open spec fn location_fields(id: nat, location: Seq<u64>) -> Seq<Field> {
    number_fields(1, id) + seq![
        Field::Bytes(4, line_bytes(location[0] as nat, location[1] as nat)),
    ]
}

/// The fields of a `Line`.
pub open spec fn line_fields(function: nat, line: nat) -> Seq<Field> {
    number_fields(1, function) + number_fields(2, line)
}

/// The fields of a `Function`.
pub open spec fn function_fields(id: nat, function: Seq<u64>) -> Seq<Field> {
    number_fields(1, id) + number_fields(2, function[0] as nat) + number_fields(
        3,
        function[0] as nat,
    ) + number_fields(4, function[1] as nat)
}

/// The fields of a `Profile`: what is counted, a sample for each stack, the
/// locations, functions and strings in the order of their tables, and the time.
pub open spec fn profile_fields(p: Profile, time: i64, duration: i64) -> Seq<Field> {
    seq![
        Field::Bytes(
            1,
            value_type_bytes(
                intern::position(p.strings, "samples"@) as nat,
                intern::position(p.strings, "count"@) as nat,
            ),
        ),
    ] + Seq::new(
        p.stacks.len(),
        |i: int| Field::Bytes(2, sample_bytes(p.stacks[i], p.counts[i])),
    ) + Seq::new(
        p.locations.len(),
        |i: int| Field::Bytes(4, location_bytes((i + 1) as nat, p.locations[i])),
    ) + Seq::new(
        p.functions.len(),
        |i: int| Field::Bytes(5, function_bytes((i + 1) as nat, p.functions[i])),
    ) + Seq::new(
        p.strings.len(),
        |i: int| Field::Bytes(6, utf8::encode_utf8(p.strings[i])),
    ) + number_fields(9, wire::unsigned(time)) + number_fields(10, wire::unsigned(duration))
}

proof fn lemma_one_field(f: Field)
    ensures
        wire::fields_bytes(seq![f]) == wire::field_bytes(f),
{
    assert(seq![f].drop_last() =~= Seq::<Field>::empty());
    assert(wire::fields_bytes(Seq::<Field>::empty()) =~= Seq::<u8>::empty());
    assert(wire::fields_bytes(seq![f]) =~= wire::field_bytes(f));
}

proof fn lemma_number_fields(tag: nat, v: nat)
    ensures
        wire::fields_bytes(number_fields(tag, v)) == number(tag, v),
{
    if v != 0 {
        lemma_one_field(Field::Number(tag, v));
    }
}

proof fn lemma_packed_fields(tag: nat, vs: Seq<nat>)
    ensures
        wire::fields_bytes(packed_fields(tag, vs)) == wire::packed_field(tag, vs),
{
    if vs.len() != 0 {
        lemma_one_field(Field::Bytes(tag, wire::varints(vs)));
    }
}

/// The messages of a profile are made of their fields.
pub proof fn lemma_messages_have_their_fields(
    stack: Seq<u64>,
    count: i64,
    id: nat,
    entry: Seq<u64>,
    function: nat,
    line: nat,
)
    ensures
        sample_bytes(stack, count) == wire::fields_bytes(sample_fields(stack, count)),
        line_bytes(function, line) == wire::fields_bytes(line_fields(function, line)),
        value_type_bytes(function, line) == wire::fields_bytes(line_fields(function, line)),
        location_bytes(id, entry) == wire::fields_bytes(location_fields(id, entry)),
        function_bytes(id, entry) == wire::fields_bytes(function_fields(id, entry)),
{
    let ids = Seq::new(stack.len(), |i: int| stack[i] as nat);
    lemma_packed_fields(1, ids);
    lemma_packed_fields(2, seq![wire::unsigned(count)]);
    wire::lemma_fields_append(packed_fields(1, ids), packed_fields(2, seq![wire::unsigned(count)]));
    lemma_number_fields(1, function);
    lemma_number_fields(2, line);
    wire::lemma_fields_append(number_fields(1, function), number_fields(2, line));
    let line_field = Field::Bytes(4, line_bytes(entry[0] as nat, entry[1] as nat));
    lemma_number_fields(1, id);
    lemma_one_field(line_field);
    wire::lemma_fields_append(number_fields(1, id), seq![line_field]);
    let name = number_fields(2, entry[0] as nat);
    let system_name = number_fields(3, entry[0] as nat);
    let file = number_fields(4, entry[1] as nat);
    lemma_number_fields(2, entry[0] as nat);
    lemma_number_fields(3, entry[0] as nat);
    lemma_number_fields(4, entry[1] as nat);
    wire::lemma_fields_append(number_fields(1, id), name);
    wire::lemma_fields_append(number_fields(1, id) + name, system_name);
    wire::lemma_fields_append(number_fields(1, id) + name + system_name, file);
}

proof fn lemma_sample_list(p: Profile, n: nat)
    ensures
        samples_bytes(p, n) == wire::fields_bytes(
            Seq::new(n, |i: int| Field::Bytes(2, sample_bytes(p.stacks[i], p.counts[i]))),
        ),
    decreases n,
{
    let all = Seq::new(n, |i: int| Field::Bytes(2, sample_bytes(p.stacks[i], p.counts[i])));
    if n > 0 {
        lemma_sample_list(p, (n - 1) as nat);
        assert(all.drop_last() =~= Seq::new(
            (n - 1) as nat,
            |i: int| Field::Bytes(2, sample_bytes(p.stacks[i], p.counts[i])),
        ));
    }
}

proof fn lemma_location_list(p: Profile, n: nat)
    ensures
        locations_bytes(p, n) == wire::fields_bytes(
            Seq::new(n, |i: int| Field::Bytes(4, location_bytes((i + 1) as nat, p.locations[i]))),
        ),
    decreases n,
{
    let all = Seq::new(n, |i: int| Field::Bytes(4, location_bytes((i + 1) as nat, p.locations[i])));
    if n > 0 {
        lemma_location_list(p, (n - 1) as nat);
        assert(all.drop_last() =~= Seq::new(
            (n - 1) as nat,
            |i: int| Field::Bytes(4, location_bytes((i + 1) as nat, p.locations[i])),
        ));
    }
}

proof fn lemma_function_list(p: Profile, n: nat)
    ensures
        functions_bytes(p, n) == wire::fields_bytes(
            Seq::new(n, |i: int| Field::Bytes(5, function_bytes((i + 1) as nat, p.functions[i]))),
        ),
    decreases n,
{
    let all = Seq::new(n, |i: int| Field::Bytes(5, function_bytes((i + 1) as nat, p.functions[i])));
    if n > 0 {
        lemma_function_list(p, (n - 1) as nat);
        assert(all.drop_last() =~= Seq::new(
            (n - 1) as nat,
            |i: int| Field::Bytes(5, function_bytes((i + 1) as nat, p.functions[i])),
        ));
    }
}

proof fn lemma_string_list(p: Profile, n: nat)
    ensures
        strings_bytes(p, n) == wire::fields_bytes(
            Seq::new(n, |i: int| Field::Bytes(6, utf8::encode_utf8(p.strings[i]))),
        ),
    decreases n,
{
    let all = Seq::new(n, |i: int| Field::Bytes(6, utf8::encode_utf8(p.strings[i])));
    if n > 0 {
        lemma_string_list(p, (n - 1) as nat);
        assert(all.drop_last() =~= Seq::new(
            (n - 1) as nat,
            |i: int| Field::Bytes(6, utf8::encode_utf8(p.strings[i])),
        ));
    }
}

/// A profile that is written can be read back: its bytes are its fields, and
/// nothing is left over.
pub proof fn lemma_profile_reads_back(p: Profile, time: i64, duration: i64)
    ensures
        wire::read_fields(
            profile_bytes(p, time, duration),
            profile_fields(p, time, duration).len(),
        ) == Some((profile_fields(p, time, duration), Seq::<u8>::empty())),
{
    let kind = Field::Bytes(
        1,
        value_type_bytes(
            intern::position(p.strings, "samples"@) as nat,
            intern::position(p.strings, "count"@) as nat,
        ),
    );
    let samples = Seq::new(
        p.stacks.len(),
        |i: int| Field::Bytes(2, sample_bytes(p.stacks[i], p.counts[i])),
    );
    let locations = Seq::new(
        p.locations.len(),
        |i: int| Field::Bytes(4, location_bytes((i + 1) as nat, p.locations[i])),
    );
    let functions = Seq::new(
        p.functions.len(),
        |i: int| Field::Bytes(5, function_bytes((i + 1) as nat, p.functions[i])),
    );
    let strings = Seq::new(
        p.strings.len(),
        |i: int| Field::Bytes(6, utf8::encode_utf8(p.strings[i])),
    );
    let at = number_fields(9, wire::unsigned(time));
    let lasting = number_fields(10, wire::unsigned(duration));
    lemma_one_field(kind);
    lemma_sample_list(p, p.stacks.len());
    lemma_location_list(p, p.locations.len());
    lemma_function_list(p, p.functions.len());
    lemma_string_list(p, p.strings.len());
    lemma_number_fields(9, wire::unsigned(time));
    lemma_number_fields(10, wire::unsigned(duration));
    let f1 = seq![kind] + samples;
    let f2 = f1 + locations;
    let f3 = f2 + functions;
    let f4 = f3 + strings;
    let f5 = f4 + at;
    wire::lemma_fields_append(seq![kind], samples);
    wire::lemma_fields_append(f1, locations);
    wire::lemma_fields_append(f2, functions);
    wire::lemma_fields_append(f3, strings);
    wire::lemma_fields_append(f4, at);
    wire::lemma_fields_append(f5, lasting);
    let all = profile_fields(p, time, duration);
    assert(all =~= f5 + lasting);
    assert(profile_bytes(p, time, duration) =~= wire::fields_bytes(all));
    wire::lemma_fields_read_back(all, Seq::empty());
    assert(wire::fields_bytes(all) + Seq::<u8>::empty() =~= wire::fields_bytes(all));
}

/// The window of stacks that were added since a profile was empty reads back as
/// a valid profile with all of them: its tables are free of duplicates and of
/// references that lead nowhere, its counts add up to the number of stacks, what
/// it counts is `samples` in `count`, and it has the time and duration of the
/// window.
pub proof fn lemma_window(stacks: Seq<Seq<FrameView>>, start: i64, end: i64)
    requires
        stacks.len() <= i64::MAX,
        fits(profile_of(stacks)),
    ensures
        ({
            let p = with_units(profile_of(stacks));
            let fields = profile_fields(p, start, elapsed(start, end));
            &&& wire::read_fields(window_bytes(profile_of(stacks), start, end), fields.len())
                == Some((fields, Seq::<u8>::empty()))
            &&& valid(p)
            &&& p.stacks == profile_of(stacks).stacks
            &&& total(p.counts) == stacks.len()
            &&& 0 <= intern::position(p.strings, "samples"@) < p.strings.len()
            &&& p.strings[intern::position(p.strings, "samples"@)] == "samples"@
            &&& 0 <= intern::position(p.strings, "count"@) < p.strings.len()
            &&& p.strings[intern::position(p.strings, "count"@)] == "count"@
            &&& i64::MIN <= end - start <= i64::MAX ==> elapsed(start, end) == if end > start {
                end - start
            } else {
                0
            }
        }),
{
    let q = profile_of(stacks);
    let p = with_units(q);
    lemma_counts_add_up(stacks);
    lemma_units_valid(q);
    lemma_profile_reads_back(p, start, elapsed(start, end));
    intern::lemma_position(p.strings, "samples"@);
    intern::lemma_position(p.strings, "count"@);
}

} // verus!
