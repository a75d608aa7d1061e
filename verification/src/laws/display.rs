//! What the live display counts and shows.

use crate::tui;
use crate::tui::{Aggregate, Counts, Step};
use crate::zend;
use crate::zend::FrameView;
use vstd::prelude::*;

verus! {

/// Recording a stack counts its innermost function once more exclusively, each
/// function of it once more inclusively, however often it is in it, and no other
/// function; and one more sample. The clock starts with the first stack.
pub proof fn lemma_records(a: Aggregate, frames: Seq<FrameView>, clock: u64, name: Seq<char>)
    requires
        frames.len() > 0,
        a.samples < u64::MAX,
        tui::counts_of(a.rows, name).exclusive < u64::MAX,
        tui::counts_of(a.rows, name).inclusive < u64::MAX,
    ensures
        ({
            let after = tui::recorded(a, frames, clock);
            let before = tui::counts_of(a.rows, name);
            let counts = tui::counts_of(after.rows, name);
            &&& counts.exclusive == before.exclusive + if zend::qualified(frames[0]) == name {
                1int
            } else {
                0
            }
            &&& counts.inclusive == before.inclusive + if exists|k: int|
                0 <= k < frames.len() && zend::qualified(#[trigger] frames[k]) == name {
                1int
            } else {
                0
            }
            &&& after.samples == a.samples + 1
            &&& after.started == if a.started is Some {
                a.started
            } else {
                Some(clock)
            }
        }),
{
    let names = tui::names_of(frames);
    assert(names[0] == zend::qualified(frames[0]));
    if exists|k: int| 0 <= k < frames.len() && zend::qualified(#[trigger] frames[k]) == name {
        let k = choose|k: int|
            0 <= k < frames.len() && zend::qualified(#[trigger] frames[k]) == name;
        assert(names[k] == name);
        assert(names.contains(name));
    } else if names.contains(name) {
        let k = choose|k: int| 0 <= k < names.len() && names[k] == name;
        assert(zend::qualified(frames[k]) == name);
    }
    if zend::qualified(frames[0]) == name {
        assert(names.contains(name));
    }
}

proof fn lemma_how_many(
    samples: Seq<Seq<FrameView>>,
    which: spec_fn(Seq<FrameView>) -> bool,
    same: spec_fn(Seq<FrameView>) -> bool,
)
    requires
        forall|f: Seq<FrameView>| #[trigger] which(f) == same(f),
    ensures
        tui::how_many(samples, which) == samples.filter(same).len(),
    decreases samples.len(),
{
    reveal(Seq::filter);
    if samples.len() > 0 {
        lemma_how_many(samples.drop_last(), which, same);
        assert(which(samples.last()) == same(samples.last()));
    }
}

/// Whether a stack's innermost function is the one of a name.
pub open spec fn innermost_is(frames: Seq<FrameView>, name: Seq<char>) -> bool {
    frames.len() > 0 && zend::qualified(frames[0]) == name
}

/// Whether a function of a name is in a stack.
pub open spec fn some_is(frames: Seq<FrameView>, name: Seq<char>) -> bool {
    exists|k: int| 0 <= k < frames.len() && zend::qualified(#[trigger] frames[k]) == name
}

/// From any reset on, a function's counts are those of the stacks recorded: those
/// that it is the innermost function of, and those that it is in; and the number
/// of samples is that of the stacks that are not empty.
pub proof fn lemma_counts_stacks(steps: Seq<Step>, name: Seq<char>)
    requires
        tui::since_reset(steps).len() <= u64::MAX,
    ensures
        ({
            let stacks = tui::since_reset(steps);
            let counts = tui::counts_of(tui::reached(steps).rows, name);
            &&& counts.exclusive == stacks.filter(
                |f: Seq<FrameView>| innermost_is(f, name),
            ).len()
            &&& counts.inclusive == stacks.filter(|f: Seq<FrameView>| some_is(f, name)).len()
            &&& tui::reached(steps).samples == stacks.filter(
                |f: Seq<FrameView>| f.len() > 0,
            ).len()
        }),
{
    let stacks = tui::since_reset(steps);
    tui::lemma_counts(steps, name);
    let leaf = |f: Seq<FrameView>| tui::is_leaf(f, name);
    let innermost = |f: Seq<FrameView>| innermost_is(f, name);
    lemma_how_many(stacks, leaf, innermost);
    let anywhere = |f: Seq<FrameView>| tui::is_in(f, name);
    let some = |f: Seq<FrameView>| some_is(f, name);
    assert forall|f: Seq<FrameView>| #[trigger] anywhere(f) == some(f) by {
        let names = tui::names_of(f);
        if names.contains(name) {
            let k = choose|k: int| 0 <= k < names.len() && names[k] == name;
            assert(zend::qualified(f[k]) == name);
        }
        if some_is(f, name) {
            let k = choose|k: int| 0 <= k < f.len() && zend::qualified(#[trigger] f[k]) == name;
            assert(names[k] == name);
        }
    }
    lemma_how_many(stacks, anywhere, some);
    let nonempty = |f: Seq<FrameView>| f.len() > 0;
    lemma_how_many(stacks, nonempty, nonempty);
}

/// The stacks since the last reset: one that is recorded joins them, and a reset
/// leaves none.
pub proof fn lemma_since_reset(steps: Seq<Step>, frames: Seq<FrameView>, clock: u64)
    ensures
        tui::since_reset(steps.push(Step::Record(frames, clock))) == tui::since_reset(steps).push(
            frames,
        ),
        tui::since_reset(steps.push(Step::Reset(clock))) == Seq::<Seq<FrameView>>::empty(),
        tui::reached(steps.push(Step::Reset(clock))).samples == 0,
        tui::reached(steps.push(Step::Reset(clock))).started == Some(clock),
        tui::reached(steps.push(Step::Record(frames, clock))) == tui::recorded(
            tui::reached(steps),
            frames,
            clock,
        ),
{
    assert(steps.push(Step::Record(frames, clock)).drop_last() =~= steps);
}

/// The rows that are shown are rows that were counted, with their counts, none
/// twice, in the order of the count that is asked for, the highest first; and no
/// row that is not shown has a higher count than one that is.
pub proof fn lemma_top_rows(
    rows: Map<Seq<char>, Counts>,
    by_inclusive: bool,
    limit: nat,
    top: Seq<(Seq<char>, Counts)>,
    i: int,
    j: int,
    name: Seq<char>,
)
    requires
        tui::is_top(rows, by_inclusive, limit, top),
        0 <= i < top.len(),
    ensures
        top.len() <= limit,
        rows.dom().contains(top[i].0),
        rows[top[i].0] == top[i].1,
        i < j < top.len() ==> top[i].0 != top[j].0,
        i < j < top.len() && by_inclusive ==> top[i].1.inclusive >= top[j].1.inclusive,
        i < j < top.len() && !by_inclusive ==> top[i].1.exclusive >= top[j].1.exclusive,
        rows.dom().contains(name) && !(exists|k: int|
            0 <= k < top.len() && (#[trigger] top[k]).0 == name) ==> if by_inclusive {
            rows[name].inclusive <= top[i].1.inclusive
        } else {
            rows[name].exclusive <= top[i].1.exclusive
        },
{
    let (name_i, counts_i) = top[i];
    if i < j < top.len() {
        let other = top[j];
    }
}

/// All rows are shown if there is room for them.
pub proof fn lemma_all_rows(
    rows: Map<Seq<char>, Counts>,
    by_inclusive: bool,
    limit: nat,
    top: Seq<(Seq<char>, Counts)>,
    name: Seq<char>,
)
    requires
        tui::is_top(rows, by_inclusive, limit, top),
        rows.dom().finite(),
        rows.dom().len() <= limit,
        rows.dom().contains(name),
    ensures
        exists|k: int| 0 <= k < top.len() && (#[trigger] top[k]).0 == name,
{
    let names = Seq::new(top.len(), |k: int| top[k].0);
    assert(names.no_duplicates()) by {
        assert forall|i: int, j: int|
            0 <= i < names.len() && 0 <= j < names.len() && i != j implies names[i]
            != names[j] by {
            if i < j {
                assert(top[i].0 != top[j].0);
            } else {
                assert(top[j].0 != top[i].0);
            }
        }
    }
    names.unique_seq_to_set();
    vstd::seq_lib::seq_to_set_is_finite(names);
    assert(names.to_set().subset_of(rows.dom())) by {
        assert forall|n: Seq<char>| #[trigger] names.to_set().contains(n) implies rows.dom()
            .contains(n) by {
            let k = choose|k: int| 0 <= k < names.len() && names[k] == n;
            assert(rows.dom().contains(top[k].0));
        }
    }
    vstd::set_lib::lemma_subset_equality(names.to_set(), rows.dom());
    assert(names.to_set().contains(name));
    let k = choose|k: int| 0 <= k < names.len() && names[k] == name;
    assert(top[k].0 == name);
}

} // verus!
