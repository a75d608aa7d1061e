//! What a profile says, in its tables and in its bytes.

use crate::intern;
use crate::pprof;
use crate::pprof::Profile;
use crate::wire;
use crate::wire::Field;
use crate::zend;
use crate::zend::FrameView;
use vstd::prelude::*;
use vstd::utf8;

verus! {

// Tables

/// After a stack is added there is a sample with a location for each of its
/// frames, the innermost first: the location has the frame's line, its function
/// the frame's name and the name of the frame's file, empty if there is none.
pub proof fn lemma_sample_of_stack(p: Profile, frames: Seq<FrameView>)
    requires
        pprof::valid(p),
        pprof::fits(pprof::with_stack(p, frames)),
    ensures
        exists|i: int|
            0 <= i < pprof::with_stack(p, frames).stacks.len() && #[trigger] is_sample_of(
                pprof::with_stack(p, frames),
                i,
                frames,
            ),
{
    let q = pprof::with_stack(p, frames);
    let i = intern::position(p.stacks, pprof::location_ids(p, frames));
    pprof::lemma_stack_reads_back(p, frames);
    assert forall|k: int| 0 <= k < frames.len() implies #[trigger] is_frame(
        q,
        q.stacks[i][k],
        frames[k],
    ) by {
        assert(pprof::frame_of(q, q.stacks[i][k]) == pprof::frame_text(frames[k]));
    }
    assert(is_sample_of(q, i, frames));
}

/// Whether the location of a number says what a frame says.
pub open spec fn is_frame(p: Profile, id: u64, f: FrameView) -> bool {
    let location = p.locations[id - 1];
    let function = p.functions[location[0] - 1];
    &&& location[1] == f.line
    &&& p.strings[function[0] as int] == zend::qualified(f)
    &&& f.file matches Some(file) ==> p.strings[function[1] as int] == file
    &&& f.file is None ==> p.strings[function[1] as int] == Seq::<char>::empty()
}

/// Whether the sample at an index is of a stack, frame by frame.
pub open spec fn is_sample_of(p: Profile, i: int, frames: Seq<FrameView>) -> bool {
    &&& p.stacks[i].len() == frames.len()
    &&& forall|k: int|
        0 <= k < frames.len() ==> #[trigger] is_frame(p, p.stacks[i][k], frames[k])
}

/// In a profile of stacks, the sample of a stack counts how often it was added:
/// once more with each time, and not with any other.
pub proof fn lemma_adds_to_its_sample(
    p: Profile,
    frames: Seq<FrameView>,
    other: Seq<FrameView>,
)
    requires
        pprof::valid(p),
        pprof::fits(pprof::with_stack(p, frames)),
        frames_differ(frames, other),
    ensures
        pprof::count_of(pprof::with_stack(p, frames), pprof::frames_text(frames))
            == pprof::count_of(p, pprof::frames_text(frames)).wrapping_add(1),
        pprof::count_of(pprof::with_stack(p, frames), pprof::frames_text(other))
            == pprof::count_of(p, pprof::frames_text(other)),
{
    pprof::lemma_stack_counts(p, frames, pprof::frames_text(frames));
    pprof::lemma_stack_counts(p, frames, pprof::frames_text(other));
    let a = pprof::frames_text(frames);
    let b = pprof::frames_text(other);
    if frames.len() == other.len() {
        let k = choose|k: int|
            0 <= k < frames.len() && frame_differs(#[trigger] frames[k], other[k]);
        assert(a[k] != b[k]);
    } else {
        assert(a.len() != b.len());
    }
}

/// Whether two frames differ in the name, the file or the line. A file that is
/// not known counts as an empty one.
pub open spec fn frame_differs(f: FrameView, g: FrameView) -> bool {
    ||| zend::qualified(f) != zend::qualified(g)
    ||| f.line != g.line
    ||| f.file is Some && g.file is Some && f.file != g.file
    ||| f.file is None && (g.file matches Some(file) && file.len() > 0)
    ||| g.file is None && (f.file matches Some(file) && file.len() > 0)
}

/// Whether two stacks differ in their depth or in a frame.
pub open spec fn frames_differ(a: Seq<FrameView>, b: Seq<FrameView>) -> bool {
    a.len() != b.len() || exists|k: int|
        0 <= k < a.len() && frame_differs(#[trigger] a[k], b[k])
}

// Messages

/// The number that fields have under a tag: that of the last field with it, and
/// zero if there is none.
pub open spec fn number_in(fields: Seq<Field>, tag: nat) -> nat
    decreases fields.len(),
{
    if fields.len() == 0 {
        0
    } else {
        match fields.last() {
            Field::Number(t, v) => if t == tag {
                v
            } else {
                number_in(fields.drop_last(), tag)
            },
            Field::Bytes(_, _) => number_in(fields.drop_last(), tag),
        }
    }
}

proof fn lemma_number_append(a: Seq<Field>, tag: nat, v: nat, wanted: nat)
    ensures
        number_in(a + pprof::number_fields(tag, v), wanted) == if tag == wanted && v != 0 {
            v
        } else {
            number_in(a, wanted)
        },
{
    if v == 0 {
        assert(a + pprof::number_fields(tag, v) =~= a);
    } else {
        assert((a + pprof::number_fields(tag, v)).drop_last() =~= a);
    }
}

proof fn lemma_pair(a: nat, v: nat, b: nat, w: nat)
    requires
        a != b,
    ensures
        number_in(pprof::number_fields(a, v) + pprof::number_fields(b, w), a) == v,
        number_in(pprof::number_fields(a, v) + pprof::number_fields(b, w), b) == w,
{
    let none = Seq::<Field>::empty();
    assert(none + pprof::number_fields(a, v) =~= pprof::number_fields(a, v));
    lemma_number_append(none, a, v, a);
    lemma_number_append(none, a, v, b);
    lemma_number_append(pprof::number_fields(a, v), b, w, a);
    lemma_number_append(pprof::number_fields(a, v), b, w, b);
}

/// Whether a message has the given fields, and nothing else.
pub open spec fn is_message(bytes: Seq<u8>, fields: Seq<Field>) -> bool {
    wire::read_fields(bytes, fields.len()) == Some((fields, Seq::<u8>::empty()))
}

proof fn lemma_message(bytes: Seq<u8>, fields: Seq<Field>)
    requires
        bytes == wire::fields_bytes(fields),
    ensures
        is_message(bytes, fields),
{
    wire::lemma_fields_read_back(fields, Seq::empty());
    assert(bytes + Seq::<u8>::empty() =~= bytes);
}

/// The message of a sample has the stack's locations under tag 1, in order, and
/// its count under tag 2.
pub proof fn lemma_sample_message(stack: Seq<u64>, count: i64)
    requires
        count >= 0,
    ensures
        ({
            let ids = Seq::new(stack.len(), |k: int| stack[k] as nat);
            let value = Field::Bytes(2, wire::varints(seq![count as nat]));
            &&& stack.len() > 0 ==> is_message(
                pprof::sample_bytes(stack, count),
                seq![Field::Bytes(1, wire::varints(ids)), value],
            )
            &&& stack.len() == 0 ==> is_message(pprof::sample_bytes(stack, count), seq![value])
            &&& wire::read_varints(wire::varints(ids), ids.len()) == Some(ids)
            &&& wire::read_varints(wire::varints(seq![count as nat]), 1) == Some(
                seq![count as nat],
            )
        }),
{
    let ids = Seq::new(stack.len(), |k: int| stack[k] as nat);
    let value = Field::Bytes(2, wire::varints(seq![count as nat]));
    pprof::lemma_messages_have_their_fields(stack, count, 1, seq![1, 1], 1, 1);
    let fields = pprof::sample_fields(stack, count);
    lemma_message(pprof::sample_bytes(stack, count), fields);
    if stack.len() > 0 {
        assert(fields =~= seq![Field::Bytes(1, wire::varints(ids)), value]);
    } else {
        assert(fields =~= seq![value]);
    }
    wire::lemma_varints_read_back(ids);
    wire::lemma_varints_read_back(seq![count as nat]);
}

/// The message of a location has its number under tag 1 and its line under tag
/// 4; the message of that line has the function under tag 1 and the line number
/// under tag 2.
pub proof fn lemma_location_message(id: nat, location: Seq<u64>)
    requires
        id > 0,
    ensures
        ({
            let line = pprof::line_bytes(location[0] as nat, location[1] as nat);
            let in_line = pprof::line_fields(location[0] as nat, location[1] as nat);
            &&& is_message(
                pprof::location_bytes(id, location),
                seq![Field::Number(1, id), Field::Bytes(4, line)],
            )
            &&& is_message(line, in_line)
            &&& number_in(in_line, 1) == location[0]
            &&& number_in(in_line, 2) == location[1]
        }),
{
    let line = pprof::line_bytes(location[0] as nat, location[1] as nat);
    pprof::lemma_messages_have_their_fields(
        Seq::empty(),
        0,
        id,
        location,
        location[0] as nat,
        location[1] as nat,
    );
    lemma_message(pprof::location_bytes(id, location), pprof::location_fields(id, location));
    assert(pprof::location_fields(id, location) =~= seq![
        Field::Number(1, id),
        Field::Bytes(4, line),
    ]);
    lemma_message(line, pprof::line_fields(location[0] as nat, location[1] as nat));
    lemma_pair(1, location[0] as nat, 2, location[1] as nat);
}

/// The message of a function has its number under tag 1, its name under tags 2
/// and 3, and its file name under tag 4.
pub proof fn lemma_function_message(id: nat, function: Seq<u64>)
    ensures
        ({
            let fields = pprof::function_fields(id, function);
            &&& is_message(pprof::function_bytes(id, function), fields)
            &&& number_in(fields, 1) == id
            &&& number_in(fields, 2) == function[0]
            &&& number_in(fields, 3) == function[0]
            &&& number_in(fields, 4) == function[1]
        }),
{
    pprof::lemma_messages_have_their_fields(Seq::empty(), 0, id, function, 1, 1);
    lemma_message(pprof::function_bytes(id, function), pprof::function_fields(id, function));
    let name = function[0] as nat;
    let file = function[1] as nat;
    let none = Seq::<Field>::empty();
    let f1 = pprof::number_fields(1, id);
    let f2 = f1 + pprof::number_fields(2, name);
    let f3 = f2 + pprof::number_fields(3, name);
    assert(none + f1 =~= f1);
    assert(pprof::function_fields(id, function) =~= f3 + pprof::number_fields(4, file));
    lemma_number_append(none, 1, id, 1);
    lemma_number_append(none, 1, id, 2);
    lemma_number_append(none, 1, id, 3);
    lemma_number_append(none, 1, id, 4);
    lemma_number_append(f1, 2, name, 1);
    lemma_number_append(f1, 2, name, 2);
    lemma_number_append(f1, 2, name, 3);
    lemma_number_append(f1, 2, name, 4);
    lemma_number_append(f2, 3, name, 1);
    lemma_number_append(f2, 3, name, 2);
    lemma_number_append(f2, 3, name, 3);
    lemma_number_append(f2, 3, name, 4);
    lemma_number_append(f3, 4, file, 1);
    lemma_number_append(f3, 4, file, 2);
    lemma_number_append(f3, 4, file, 3);
    lemma_number_append(f3, 4, file, 4);
}

/// The message of what is counted has the string that says what under tag 1, and
/// that of the unit under tag 2.
pub proof fn lemma_value_type_message(kind: nat, unit: nat)
    ensures
        ({
            let fields = pprof::line_fields(kind, unit);
            &&& is_message(pprof::value_type_bytes(kind, unit), fields)
            &&& number_in(fields, 1) == kind
            &&& number_in(fields, 2) == unit
        }),
{
    pprof::lemma_messages_have_their_fields(Seq::empty(), 0, 1, seq![1, 1], kind, unit);
    lemma_message(pprof::value_type_bytes(kind, unit), pprof::line_fields(kind, unit));
    lemma_pair(1, kind, 2, unit);
}

/// The message of a profile has what is counted under tag 1, a sample for each
/// stack under tag 2, and the locations, functions and strings under tags 4, 5
/// and 6, each table in order and whole and numbered from one; the time under tag
/// 9 and the duration under tag 10; and nothing else.
#[verifier::spinoff_prover]
#[verifier::rlimit(40)]
pub proof fn lemma_profile_message(p: Profile, time: i64, duration: i64, i: int)
    ensures
        ({
            let fields = pprof::profile_fields(p, time, duration);
            let s = 1 + p.stacks.len();
            let l = s + p.locations.len();
            let f = l + p.functions.len();
            let end = f + p.strings.len();
            &&& is_message(pprof::profile_bytes(p, time, duration), fields)
            &&& fields[0] == Field::Bytes(
                1,
                pprof::value_type_bytes(
                    intern::position(p.strings, "samples"@) as nat,
                    intern::position(p.strings, "count"@) as nat,
                ),
            )
            &&& 0 <= i < p.stacks.len() ==> fields[1 + i] == Field::Bytes(
                2,
                pprof::sample_bytes(p.stacks[i], p.counts[i]),
            )
            &&& 0 <= i < p.locations.len() ==> fields[s + i] == Field::Bytes(
                4,
                pprof::location_bytes((i + 1) as nat, p.locations[i]),
            )
            &&& 0 <= i < p.functions.len() ==> fields[l + i] == Field::Bytes(
                5,
                pprof::function_bytes((i + 1) as nat, p.functions[i]),
            )
            &&& 0 <= i < p.strings.len() ==> fields[f + i] == Field::Bytes(
                6,
                utf8::encode_utf8(p.strings[i]),
            )
            &&& fields.len() == end + (if time != 0 {
                1int
            } else {
                0
            }) + (if duration != 0 {
                1int
            } else {
                0
            })
            &&& time >= 0 ==> number_in(fields, 9) == time
            &&& duration >= 0 ==> number_in(fields, 10) == duration
        }),
{
    pprof::lemma_profile_reads_back(p, time, duration);
    let fields = pprof::profile_fields(p, time, duration);
    let at = pprof::number_fields(9, wire::unsigned(time));
    let lasting = pprof::number_fields(10, wire::unsigned(duration));
    let end = 1 + p.stacks.len() + p.locations.len() + p.functions.len() + p.strings.len();
    let tables = fields.take(end as int);
    assert(fields =~= tables + at + lasting);
    assert forall|k: int| 0 <= k < tables.len() implies (#[trigger] tables[k]) is Bytes by {}
    lemma_no_numbers(tables, 9);
    lemma_no_numbers(tables, 10);
    lemma_number_append(tables, 9, wire::unsigned(time), 9);
    lemma_number_append(tables, 9, wire::unsigned(time), 10);
    lemma_number_append(tables + at, 10, wire::unsigned(duration), 9);
    lemma_number_append(tables + at, 10, wire::unsigned(duration), 10);
}

proof fn lemma_no_numbers(fields: Seq<Field>, tag: nat)
    requires
        forall|k: int| 0 <= k < fields.len() ==> (#[trigger] fields[k]) is Bytes,
    ensures
        number_in(fields, tag) == 0,
    decreases fields.len(),
{
    if fields.len() > 0 {
        assert(fields[fields.len() - 1] is Bytes);
        assert forall|k: int| 0 <= k < fields.len() - 1 implies (
        #[trigger] fields.drop_last()[k]) is Bytes by {
            assert(fields[k] is Bytes);
        }
        lemma_no_numbers(fields.drop_last(), tag);
    }
}

} // verus!
