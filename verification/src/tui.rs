//! Live `top`-style display: samples aggregated by function.
//!
//! Keys: `q` or Esc quits, `i` toggles the sort, `r` resets.

use crate::intern;
use crate::intern::StringTable;
use crate::zend;
use crate::zend::{Frame, FrameView};
use std::collections::HashSet;
use vstd::prelude::*;

verus! {

broadcast use vstd::std_specs::hash::group_hash_axioms;

/// How many samples a function was seen in.
#[derive(Debug, Clone, Copy, PartialEq, Eq, Structural)]
pub struct Counts {
    /// As the innermost frame.
    pub exclusive: u64,
    /// Anywhere in the stack.
    pub inclusive: u64,
}

/// What an [`Aggregator`] has counted.
#[verifier::ext_equal]
pub ghost struct Aggregate {
    pub rows: Map<Seq<char>, Counts>,
    pub samples: u64,
    /// When counting started, by the clock.
    pub started: Option<u64>,
}

/// Nothing counted.
pub open spec fn empty_aggregate(started: Option<u64>) -> Aggregate {
    Aggregate { rows: Map::empty(), samples: 0, started }
}

/// The counts of a function, zero if it was not seen.
pub open spec fn counts_of(rows: Map<Seq<char>, Counts>, name: Seq<char>) -> Counts {
    if rows.dom().contains(name) {
        rows[name]
    } else {
        Counts { exclusive: 0, inclusive: 0 }
    }
}

/// The names of the functions of a stack.
pub open spec fn names_of(frames: Seq<FrameView>) -> Seq<Seq<char>> {
    Seq::new(frames.len(), |i: int| zend::qualified(frames[i]))
}

/// A count with one more, if there is one more.
pub open spec fn plus(n: u64, more: bool) -> u64 {
    if more {
        n.wrapping_add(1)
    } else {
        n
    }
}

/// Rows with a stack counted: its innermost function once more exclusively, and
/// each distinct function of it once more inclusively.
pub open spec fn counted(rows: Map<Seq<char>, Counts>, names: Seq<Seq<char>>) -> Map<
    Seq<char>,
    Counts,
> {
    Map::new(
        |n: Seq<char>| rows.dom().contains(n) || names.contains(n),
        |n: Seq<char>|
            Counts {
                exclusive: plus(counts_of(rows, n).exclusive, n == names[0]),
                inclusive: plus(counts_of(rows, n).inclusive, names.contains(n)),
            },
    )
}

/// An aggregate with a sample counted. An empty stack only starts the clock.
pub open spec fn recorded(a: Aggregate, frames: Seq<FrameView>, clock: u64) -> Aggregate {
    let started = match a.started {
        Some(t) => Some(t),
        None => Some(clock),
    };
    if frames.len() == 0 {
        Aggregate { started, ..a }
    } else {
        Aggregate {
            rows: counted(a.rows, names_of(frames)),
            samples: a.samples.wrapping_add(1),
            started,
        }
    }
}

// Rows

struct Rows {
    names: StringTable,
    counts: Vec<Counts>,
}

impl Rows {
    spec fn map(&self) -> Map<Seq<char>, Counts> {
        Map::new(
            |n: Seq<char>| self.names@.contains(n),
            |n: Seq<char>| self.counts@[intern::position(self.names@, n)],
        )
    }

    spec fn well_formed(&self) -> bool {
        &&& self.names.well_formed()
        &&& self.names@.no_duplicates()
        &&& self.counts@.len() == self.names@.len()
    }

    fn new() -> (r: Self)
        ensures
            r.well_formed(),
            r.map() == Map::<Seq<char>, Counts>::empty(),
    {
        let r = Rows { names: StringTable::new(), counts: Vec::new() };
        assert(r.map() =~= Map::<Seq<char>, Counts>::empty());
        r
    }

    /// The row of a function, a new one if it has none.
    fn row(&mut self, name: &str) -> (i: usize)
        requires
            old(self).well_formed(),
        ensures
            final(self).well_formed(),
            i < final(self).names@.len(),
            final(self).names@[i as int] == name@,
            old(self).names@.is_prefix_of(final(self).names@),
            final(self).names@ == intern::interned(old(self).names@, name@),
            final(self).counts@ == if final(self).names@.len() == old(self).names@.len() {
                old(self).counts@
            } else {
                old(self).counts@.push(Counts { exclusive: 0, inclusive: 0 })
            },
    {
        proof {
            intern::lemma_interned(self.names@, name@);
            intern::lemma_position(self.names@, name@);
        }
        let i: usize = self.names.intern(name);
        if i == self.counts.len() {
            self.counts.push(Counts { exclusive: 0, inclusive: 0 });
        }
        i
    }

    fn count(&mut self, frames: &[Frame])
        requires
            old(self).well_formed(),
            frames@.len() > 0,
        ensures
            final(self).well_formed(),
            final(self).map() == counted(old(self).map(), names_of(zend::frames_view(frames@))),
    {
        let ghost view = zend::frames_view(frames@);
        let ghost names = names_of(view);
        let ghost before = *self;
        let mut index: Vec<usize> = Vec::with_capacity(frames.len());
        for k in 0..frames.len()
            invariant
                view == zend::frames_view(frames@),
                names == names_of(view),
                self.well_formed(),
                before.well_formed(),
                index@.len() == k,
                before.names@.is_prefix_of(self.names@),
                forall|j: int|
                    0 <= j < k ==> (#[trigger] index@[j]) < self.names@.len()
                        && self.names@[index@[j] as int] == names[j],
                forall|r: int|
                    before.names@.len() <= r < self.names@.len() ==> names.contains(
                        #[trigger] self.names@[r],
                    ),
                forall|r: int|
                    0 <= r < self.counts@.len() ==> #[trigger] self.counts@[r] == if r
                        < before.counts@.len() {
                        before.counts@[r]
                    } else {
                        (Counts { exclusive: 0, inclusive: 0 })
                    },
        {
            let name = zend::qualified_name(&frames[k]);
            let ghost then = self.names@;
            assert(names[k as int] == name@);
            let i: usize = self.row(name.as_str());
            index.push(i);
            proof {
                assert forall|j: int| 0 <= j <= k implies (#[trigger] index@[j]) < self.names@.len()
                    && self.names@[index@[j] as int] == names[j] by {
                    if j < k {
                        assert(self.names@[index@[j] as int] == then[index@[j] as int]);
                    }
                }
                assert forall|r: int|
                    before.names@.len() <= r < self.names@.len() implies names.contains(
                    #[trigger] self.names@[r],
                ) by {
                    if r < then.len() {
                        assert(self.names@[r] == then[r]);
                    } else {
                        assert(self.names@[r] == names[k as int]);
                    }
                }
            }
        }
        let ghost base = self.counts@;
        let ghost table = self.names@;
        let leaf: usize = index[0];
        let c: Counts = self.counts[leaf];
        self.counts.set(
            leaf,
            Counts { exclusive: c.exclusive.wrapping_add(1), inclusive: c.inclusive },
        );
        let mut seen: HashSet<usize> = HashSet::new();
        for k in 0..index.len()
            invariant
                self.well_formed(),
                self.names@ == table,
                base.len() == table.len(),
                index@.len() == frames@.len(),
                leaf == index@[0],
                0 < index@.len(),
                forall|j: int| 0 <= j < index@.len() ==> (#[trigger] index@[j]) < table.len(),
                forall|i: usize| #[trigger] seen@.contains(i) <==> hit(index@, k as int, i as int),
                forall|r: int|
                    0 <= r < table.len() ==> #[trigger] self.counts@[r] == (Counts {
                        exclusive: plus(base[r].exclusive, r == leaf),
                        inclusive: plus(base[r].inclusive, hit(index@, k as int, r)),
                    }),
        {
            let i: usize = index[k];
            let ghost then = self.counts@;
            proof {
                assert forall|r: int| hit(index@, k + 1, r) == (hit(index@, k as int, r) || r
                    == i) by {
                    if r == i {
                        assert(index@[k as int] == r);
                    }
                }
            }
            if seen.insert(i) {
                let c: Counts = self.counts[i];
                self.counts.set(
                    i,
                    Counts { exclusive: c.exclusive, inclusive: c.inclusive.wrapping_add(1) },
                );
            }
            proof {
                assert forall|r: int| 0 <= r < table.len() implies #[trigger] self.counts@[r] == (
                Counts {
                    exclusive: plus(base[r].exclusive, r == leaf),
                    inclusive: plus(base[r].inclusive, hit(index@, k + 1, r)),
                }) by {
                    assert(then[r] == (Counts {
                        exclusive: plus(base[r].exclusive, r == leaf),
                        inclusive: plus(base[r].inclusive, hit(index@, k as int, r)),
                    }));
                }
            }
        }
        proof {
            let after = self.map();
            let wanted = counted(before.map(), names);
            assert forall|n: Seq<char>| #[trigger]
                after.dom().contains(n) == wanted.dom().contains(n) by {
                if self.names@.contains(n) {
                    let r = choose|r: int| 0 <= r < self.names@.len() && self.names@[r] == n;
                    if r < before.names@.len() {
                        assert(before.names@[r] == n);
                    }
                }
                if before.names@.contains(n) {
                    let r = choose|r: int| 0 <= r < before.names@.len() && before.names@[r] == n;
                    assert(self.names@[r] == n);
                }
                if names.contains(n) {
                    let j = choose|j: int| 0 <= j < names.len() && names[j] == n;
                    assert(self.names@[index@[j] as int] == n);
                }
            }
            assert forall|n: Seq<char>| #[trigger] after.dom().contains(n) implies after[n]
                == wanted[n] by {
                let r = intern::position(table, n);
                intern::lemma_position(table, n);
                intern::lemma_position(before.names@, n);
                assert(after[n] == self.counts@[r]);
                if r < before.names@.len() {
                    assert(before.names@[r] == n);
                    intern::lemma_position_unique(before.names@, n, r);
                } else if before.names@.contains(n) {
                    let q = intern::position(before.names@, n);
                    assert(table[q] == n);
                    intern::lemma_position_unique(table, n, q);
                }
                assert(base[r] == counts_of(before.map(), n));
                assert((r == leaf) == (n == names[0])) by {
                    assert(table[index@[0] as int] == names[0]);
                    if n == names[0] {
                        intern::lemma_position_unique(table, n, leaf as int);
                    }
                }
                assert(hit(index@, index@.len() as int, r) == names.contains(n)) by {
                    if hit(index@, index@.len() as int, r) {
                        let j = choose|j: int|
                            0 <= j < index@.len() && #[trigger] index@[j] == r;
                        assert(table[index@[j] as int] == names[j]);
                    }
                    if names.contains(n) {
                        let j = choose|j: int| 0 <= j < names.len() && names[j] == n;
                        assert(table[index@[j] as int] == names[j]);
                        intern::lemma_position_unique(table, n, index@[j] as int);
                        assert(index@[j] == r);
                    }
                }
            }
            assert(after =~= wanted);
        }
    }
}

/// Whether a row is among the first `k` of an index.
spec fn hit(index: Seq<usize>, k: int, r: int) -> bool {
    exists|j: int| 0 <= j < k && #[trigger] index[j] == r
}

// The top rows

/// The count that rows are sorted by.
pub open spec fn sort_count(c: Counts, by_inclusive: bool) -> u64 {
    if by_inclusive {
        c.inclusive
    } else {
        c.exclusive
    }
}

/// Whether a list holds the top rows: rows that there are, each once, as many as
/// there are up to the limit, the higher counts first, and none left out that
/// has a higher count than one of them.
pub open spec fn is_top(
    rows: Map<Seq<char>, Counts>,
    by_inclusive: bool,
    limit: nat,
    top: Seq<(Seq<char>, Counts)>,
) -> bool {
    &&& top.len() == if rows.dom().len() < limit {
        rows.dom().len()
    } else {
        limit
    }
    &&& forall|i: int|
        0 <= i < top.len() ==> rows.dom().contains((#[trigger] top[i]).0) && rows[top[i].0]
            == top[i].1
    &&& forall|i: int, j: int|
        0 <= i < j < top.len() ==> (#[trigger] top[i]).0 != (#[trigger] top[j]).0 && sort_count(
            top[i].1,
            by_inclusive,
        ) >= sort_count(top[j].1, by_inclusive)
    &&& forall|n: Seq<char>, i: int|
        #![trigger rows.dom().contains(n), top[i]]
        rows.dom().contains(n) && 0 <= i < top.len() && sort_count(rows[n], by_inclusive)
            > sort_count(top[i].1, by_inclusive) ==> exists|j: int|
            0 <= j < top.len() && (#[trigger] top[j]).0 == n
}

/// What a list of rows says.
pub open spec fn rows_view(list: Seq<(String, Counts)>) -> Seq<(Seq<char>, Counts)> {
    Seq::new(list.len(), |i: int| (list[i].0@, list[i].1))
}

/// Whether a list of row numbers holds the top rows among the first `k`.
spec fn top_indices(keys: Seq<u64>, k: int, limit: int, top: Seq<usize>) -> bool {
    &&& top.len() == if k < limit {
        k
    } else {
        limit
    }
    &&& forall|i: int| 0 <= i < top.len() ==> (#[trigger] top[i]) < k
    &&& forall|i: int, j: int|
        0 <= i < j < top.len() ==> #[trigger] top[i] != #[trigger] top[j] && keys[top[i] as int]
            >= keys[top[j] as int]
    &&& forall|r: int, i: int|
        #![trigger keys[r], top[i]]
        0 <= r < k && 0 <= i < top.len() && keys[r] > keys[top[i] as int] ==> top.contains(
            r as usize,
        )
}

fn pick_top(keys: &Vec<u64>, limit: usize) -> (top: Vec<usize>)
    ensures
        top_indices(keys@, keys@.len() as int, limit as int, top@),
{
    let mut top: Vec<usize> = Vec::new();
    let n: usize = keys.len();
    for k in 0..n
        invariant
            n == keys@.len(),
            top_indices(keys@, k as int, limit as int, top@),
    {
        let ghost before = top@;
        let key: u64 = keys[k];
        let mut at: usize = top.len();
        while at > 0 && keys[top[at - 1]] < key
            invariant
                n == keys@.len(),
                k < n,
                key == keys@[k as int],
                at <= top@.len(),
                top@ == before,
                forall|i: int| 0 <= i < top@.len() ==> (#[trigger] top@[i]) < k,
                forall|i: int|
                    at <= i < top@.len() ==> keys@[(#[trigger] top@[i]) as int] < key,
            decreases at,
        {
            at = at - 1;
        }
        if at < limit {
            top.insert(at, k);
            if top.len() > limit {
                let _ = top.pop();
            }
            proof {
                lemma_inserted(keys@, k as int, limit as int, before, at as int, top@);
            }
        } else {
            proof {
                assert(before.len() == limit);
                assert forall|r: int, i: int|
                    #![trigger keys@[r], top@[i]]
                    0 <= r < k + 1 && 0 <= i < top@.len() && keys@[r]
                        > keys@[top@[i] as int] implies top@.contains(r as usize) by {
                    if r == k {
                        assert(keys@[top@[at - 1] as int] >= key);
                        if i < at - 1 {
                            assert(keys@[top@[i] as int] >= keys@[top@[at - 1] as int]);
                        }
                    }
                }
            }
        }
    }
    top
}

proof fn lemma_inserted(
    keys: Seq<u64>,
    k: int,
    limit: int,
    before: Seq<usize>,
    at: int,
    after: Seq<usize>,
)
    requires
        0 <= k < keys.len() <= usize::MAX,
        top_indices(keys, k, limit, before),
        0 <= at <= before.len(),
        at < limit,
        at > 0 ==> keys[before[at - 1] as int] >= keys[k],
        forall|i: int| at <= i < before.len() ==> keys[(#[trigger] before[i]) as int] < keys[k],
        after == if before.len() + 1 > limit {
            before.insert(at, k as usize).drop_last()
        } else {
            before.insert(at, k as usize)
        },
    ensures
        top_indices(keys, k + 1, limit, after),
{
    let grown = before.insert(at, k as usize);
    assert forall|i: int| 0 <= i < grown.len() implies #[trigger] grown[i] == if i < at {
        before[i]
    } else if i == at {
        k as usize
    } else {
        before[i - 1]
    } by {}
    assert forall|i: int| 0 <= i < after.len() implies #[trigger] after[i] == grown[i] by {}
    assert forall|i: int, j: int| 0 <= i < j < after.len() implies #[trigger] after[i]
        != #[trigger] after[j] && keys[after[i] as int] >= keys[after[j] as int] by {
        assert(after[i] == grown[i]);
        assert(after[j] == grown[j]);
        if j < at {
            assert(before[i] != before[j]);
        } else if j == at {
            assert(before[i] < k);
            if i < at - 1 {
                assert(keys[before[i] as int] >= keys[before[at - 1] as int]);
            }
        } else if i == at {
            assert(before[j - 1] < k);
        } else if i < at {
            assert(before[i] != before[j - 1]);
        } else {
            assert(before[i - 1] != before[j - 1]);
        }
    }
    assert forall|i: int| 0 <= i < after.len() implies (#[trigger] after[i]) < k + 1 by {
        assert(after[i] == grown[i]);
    }
    assert forall|r: int, i: int|
        #![trigger keys[r], after[i]]
        0 <= r < k + 1 && 0 <= i < after.len() && keys[r]
            > keys[after[i] as int] implies after.contains(r as usize) by {
        assert(after[i] == grown[i]);
        if r == k {
            assert(after[at] == grown[at]);
        } else {
            // The row that `after[i]` was before, or the one that the new row
            // displaced, is below `r` too.
            if i < at {
                assert(keys[r] > keys[before[i] as int]);
            } else if i > at {
                assert(keys[r] > keys[before[i - 1] as int]);
            } else if at < before.len() {
                assert(keys[before[at] as int] < keys[k]);
                assert(keys[r] > keys[before[at] as int]);
            }
            if at < before.len() || i != at {
                assert(before.contains(r as usize));
                let m = choose|m: int| 0 <= m < before.len() && before[m] == r as usize;
                let p = if m < at {
                    m
                } else {
                    m + 1
                };
                assert(grown[p] == r as usize);
                if p < after.len() {
                    assert(after[p] == grown[p]);
                } else {
                    // The displaced row is the lowest: it is not above any other.
                    assert(m == before.len() - 1);
                    if i < at {
                        assert(keys[before[i] as int] >= keys[before[m] as int]);
                    } else if i > at {
                        assert(i - 1 < m);
                        assert(keys[before[i - 1] as int] >= keys[before[m] as int]);
                    } else {
                        assert(keys[before[m] as int] < keys[k]);
                    }
                }
            } else {
                // The new row is the last, so every row before it is above it or
                // equal, and a row above it that was left out would be above
                // none that stayed.
                if before.len() < limit {
                    lemma_all_there(keys, k, limit, before, r);
                    let m = choose|m: int| 0 <= m < before.len() && before[m] == r as usize;
                    assert(after[m] == grown[m]);
                }
            }
        }
    }
}

/// As long as the limit is not reached, every row is there.
proof fn lemma_all_there(keys: Seq<u64>, k: int, limit: int, top: Seq<usize>, r: int)
    requires
        top_indices(keys, k, limit, top),
        top.len() < limit,
        0 <= r < k <= usize::MAX,
    ensures
        top.contains(r as usize),
{
    let all = vstd::set_lib::set_int_range(0, k);
    let mapped = top.map_values(|i: usize| i as int);
    assert(mapped.no_duplicates()) by {
        assert forall|i: int, j: int| 0 <= i < mapped.len() && 0 <= j < mapped.len() && i
            != j implies mapped[i] != mapped[j] by {
            if i < j {
                assert(top[i] != top[j]);
            } else {
                assert(top[j] != top[i]);
            }
        }
    }
    mapped.unique_seq_to_set();
    vstd::set_lib::lemma_int_range(0, k);
    assert(mapped.to_set().subset_of(all)) by {
        assert forall|x: int| mapped.to_set().contains(x) implies all.contains(x) by {
            let i = choose|i: int| 0 <= i < mapped.len() && mapped[i] == x;
            assert(top[i] < k);
        }
    }
    vstd::set_lib::lemma_subset_equality(mapped.to_set(), all);
    assert(all.contains(r));
    let i = choose|i: int| 0 <= i < mapped.len() && mapped[i] == r;
    assert(top[i] == r as usize);
}

impl Rows {
    fn top_rows(&self, by_inclusive: bool, limit: usize) -> (r: Vec<(String, Counts)>)
        requires
            self.well_formed(),
        ensures
            is_top(self.map(), by_inclusive, limit as nat, rows_view(r@)),
    {
        let n: usize = self.counts.len();
        let mut keys: Vec<u64> = Vec::with_capacity(n);
        for i in 0..n
            invariant
                n == self.counts@.len(),
                keys@.len() == i,
                forall|j: int|
                    0 <= j < i ==> #[trigger] keys@[j] == sort_count(self.counts@[j], by_inclusive),
        {
            let key: u64 = if by_inclusive {
                self.counts[i].inclusive
            } else {
                self.counts[i].exclusive
            };
            keys.push(key);
        }
        let top = pick_top(&keys, limit);
        let mut out: Vec<(String, Counts)> = Vec::with_capacity(top.len());
        for i in 0..top.len()
            invariant
                self.well_formed(),
                n == self.counts@.len(),
                top_indices(keys@, n as int, limit as int, top@),
                out@.len() == i,
                forall|j: int|
                    0 <= j < i ==> (#[trigger] out@[j]).0@ == self.names@[top@[j] as int]
                        && out@[j].1 == self.counts@[top@[j] as int],
        {
            let r: usize = top[i];
            let name: String = self.names.get(r).clone();
            out.push((name, self.counts[r]));
        }
        proof {
            let rows = self.map();
            let view = rows_view(out@);
            let table = self.names@;
            assert(rows.dom() =~= table.to_set());
            table.unique_seq_to_set();
            assert forall|i: int| 0 <= i < view.len() implies rows.dom().contains(
                (#[trigger] view[i]).0,
            ) && rows[view[i].0] == view[i].1 by {
                let r = top@[i] as int;
                assert(out@[i].0@ == table[r]);
                intern::lemma_position_unique(table, table[r], r);
            }
            assert forall|i: int, j: int| 0 <= i < j < view.len() implies (#[trigger] view[i]).0
                != (#[trigger] view[j]).0 && sort_count(view[i].1, by_inclusive) >= sort_count(
                view[j].1,
                by_inclusive,
            ) by {
                assert(top@[i] != top@[j]);
                assert(out@[i].0@ == table[top@[i] as int]);
                assert(out@[j].0@ == table[top@[j] as int]);
            }
            assert forall|m: Seq<char>, i: int|
                #![trigger rows.dom().contains(m), view[i]]
                rows.dom().contains(m) && 0 <= i < view.len() && sort_count(rows[m], by_inclusive)
                    > sort_count(view[i].1, by_inclusive) implies exists|j: int|
                0 <= j < view.len() && (#[trigger] view[j]).0 == m by {
                intern::lemma_position(table, m);
                let r = intern::position(table, m);
                assert(keys@[r] > keys@[top@[i] as int]);
                assert(top@.contains(r as usize));
                let j = choose|j: int| 0 <= j < top@.len() && top@[j] == r as usize;
                assert(out@[j].0@ == table[top@[j] as int]);
                assert(view[j].0 == m);
            }
        }
        out
    }
}

// The aggregator

/// Aggregates samples by function.
pub struct Aggregator {
    rows: Rows,
    samples: u64,
    started: Option<u64>,
}

impl View for Aggregator {
    type V = Aggregate;

    closed spec fn view(&self) -> Aggregate {
        Aggregate { rows: self.rows.map(), samples: self.samples, started: self.started }
    }
}

impl Aggregator {
    #[verifier::type_invariant]
    spec fn well_formed(self) -> bool {
        self.rows.well_formed()
    }

    pub fn new() -> (r: Self)
        ensures
            r@ == empty_aggregate(None),
    {
        let r = Aggregator { rows: Rows::new(), samples: 0, started: None };
        assert(r@ =~= empty_aggregate(None));
        r
    }

    /// Counts a sample, whose innermost frame comes first.
    pub fn record(&mut self, frames: &[Frame], clock: u64)
        ensures
            final(self)@ == recorded(old(self)@, zend::frames_view(frames@), clock),
    {
        proof {
            use_type_invariant(&*self);
        }
        if self.started.is_none() {
            self.started = Some(clock);
        }
        if frames.len() == 0 {
            return;
        }
        self.samples = self.samples.wrapping_add(1);
        let mut rows = Rows::new();
        std::mem::swap(&mut rows, &mut self.rows);
        rows.count(frames);
        self.rows = rows;
        assert(self@ =~= recorded(old(self)@, zend::frames_view(frames@), clock));
    }

    /// Starts counting anew.
    pub fn reset(&mut self, clock: u64)
        ensures
            final(self)@ == empty_aggregate(Some(clock)),
    {
        self.rows = Rows::new();
        self.samples = 0;
        self.started = Some(clock);
        assert(self@ =~= empty_aggregate(Some(clock)));
    }

    /// How many samples were counted.
    pub fn samples(&self) -> (r: u64)
        ensures
            r == self@.samples,
    {
        self.samples
    }

    /// When counting started, by the clock.
    pub fn started(&self) -> (r: Option<u64>)
        ensures
            r == self@.started,
    {
        self.started
    }

    /// The rows with the highest counts, highest first.
    pub fn top_rows(&self, by_inclusive: bool, limit: usize) -> (r: Vec<(String, Counts)>)
        ensures
            is_top(self@.rows, by_inclusive, limit as nat, rows_view(r@)),
    {
        proof {
            use_type_invariant(self);
        }
        self.rows.top_rows(by_inclusive, limit)
    }
}

// What is counted

/// What is done with an [`Aggregator`], each at some time of the clock.
pub ghost enum Step {
    /// A sample is recorded.
    Record(Seq<FrameView>, u64),
    /// Counting starts anew.
    Reset(u64),
}

/// What an aggregator that starts with nothing has counted after steps.
pub open spec fn reached(steps: Seq<Step>) -> Aggregate
    decreases steps.len(),
{
    if steps.len() == 0 {
        empty_aggregate(None)
    } else {
        match steps.last() {
            Step::Record(frames, clock) => recorded(reached(steps.drop_last()), frames, clock),
            Step::Reset(clock) => empty_aggregate(Some(clock)),
        }
    }
}

/// The stacks recorded since the last reset, or since the start.
pub open spec fn since_reset(steps: Seq<Step>) -> Seq<Seq<FrameView>>
    decreases steps.len(),
{
    if steps.len() == 0 {
        Seq::empty()
    } else {
        match steps.last() {
            Step::Record(frames, _) => since_reset(steps.drop_last()).push(frames),
            Step::Reset(_) => Seq::empty(),
        }
    }
}

/// How many samples satisfy a condition.
pub open spec fn how_many(
    samples: Seq<Seq<FrameView>>,
    which: spec_fn(Seq<FrameView>) -> bool,
) -> nat
    decreases samples.len(),
{
    if samples.len() == 0 {
        0
    } else {
        how_many(samples.drop_last(), which) + if which(samples.last()) {
            1nat
        } else {
            0nat
        }
    }
}

/// Whether a function is the innermost of a stack.
pub open spec fn is_leaf(frames: Seq<FrameView>, name: Seq<char>) -> bool {
    frames.len() > 0 && zend::qualified(frames[0]) == name
}

/// Whether a function is anywhere in a stack.
pub open spec fn is_in(frames: Seq<FrameView>, name: Seq<char>) -> bool {
    names_of(frames).contains(name)
}

proof fn lemma_how_many_bound(
    samples: Seq<Seq<FrameView>>,
    few: spec_fn(Seq<FrameView>) -> bool,
    many: spec_fn(Seq<FrameView>) -> bool,
)
    requires
        forall|f: Seq<FrameView>| #[trigger] few(f) ==> many(f),
    ensures
        how_many(samples, few) <= how_many(samples, many) <= samples.len(),
    decreases samples.len(),
{
    if samples.len() > 0 {
        lemma_how_many_bound(samples.drop_last(), few, many);
        assert(few(samples.last()) ==> many(samples.last()));
    }
}

/// From any reset on, each function's exclusive count is the number of samples
/// that it is the innermost function of, its inclusive count the number of
/// samples that it is in, however often it is in one, and the number of samples
/// is that of the stacks that are not empty.
pub proof fn lemma_counts(steps: Seq<Step>, name: Seq<char>)
    requires
        since_reset(steps).len() <= u64::MAX,
    ensures
        counts_of(reached(steps).rows, name).exclusive == how_many(
            since_reset(steps),
            |f: Seq<FrameView>| is_leaf(f, name),
        ),
        counts_of(reached(steps).rows, name).inclusive == how_many(
            since_reset(steps),
            |f: Seq<FrameView>| is_in(f, name),
        ),
        reached(steps).samples == how_many(
            since_reset(steps),
            |f: Seq<FrameView>| f.len() > 0,
        ),
    decreases steps.len(),
{
    let leaf = |f: Seq<FrameView>| is_leaf(f, name);
    let anywhere = |f: Seq<FrameView>| is_in(f, name);
    let some = |f: Seq<FrameView>| f.len() > 0;
    if steps.len() > 0 && steps.last() is Record {
        let before = steps.drop_last();
        let init = since_reset(before);
        let last = steps.last()->Record_0;
        assert(since_reset(steps).drop_last() =~= init);
        lemma_counts(before, name);
        lemma_how_many_bound(init, leaf, leaf);
        lemma_how_many_bound(init, anywhere, anywhere);
        lemma_how_many_bound(init, some, some);
        if last.len() > 0 {
            assert(names_of(last)[0] == zend::qualified(last[0]));
            if is_leaf(last, name) {
                assert(names_of(last).contains(name));
            }
        } else {
            assert(!names_of(last).contains(name));
        }
    }
}

/// From any reset on, there is a row for the functions of the samples, and for
/// no other.
pub proof fn lemma_rows(steps: Seq<Step>, name: Seq<char>)
    ensures
        reached(steps).rows.dom().contains(name) <==> exists|k: int|
            0 <= k < since_reset(steps).len() && is_in(#[trigger] since_reset(steps)[k], name),
    decreases steps.len(),
{
    if steps.len() > 0 && steps.last() is Record {
        let before = steps.drop_last();
        let init = since_reset(before);
        let all = since_reset(steps);
        let last = steps.last()->Record_0;
        lemma_rows(before, name);
        assert(all[all.len() - 1] == last);
        if reached(before).rows.dom().contains(name) {
            let k = choose|k: int| 0 <= k < init.len() && is_in(#[trigger] init[k], name);
            assert(is_in(all[k], name));
        }
        if exists|k: int| 0 <= k < all.len() && is_in(#[trigger] all[k], name) {
            let k = choose|k: int| 0 <= k < all.len() && is_in(#[trigger] all[k], name);
            if k < init.len() {
                assert(is_in(init[k], name));
            }
        }
        if last.len() == 0 {
            assert(!names_of(last).contains(name));
        }
    }
}

/// The rows can be listed: there are finitely many.
pub proof fn lemma_rows_finite(steps: Seq<Step>)
    ensures
        reached(steps).rows.dom().finite(),
    decreases steps.len(),
{
    if steps.len() > 0 {
        if let Step::Record(frames, clock) = steps.last() {
            let before = reached(steps.drop_last());
            lemma_rows_finite(steps.drop_last());
            if frames.len() > 0 {
                let names = names_of(frames);
                vstd::seq_lib::seq_to_set_is_finite(names);
                assert(reached(steps).rows.dom() =~= before.rows.dom().union(names.to_set()));
            }
        }
    }
}

/// No function is seen exclusively more often than inclusively, nor inclusively
/// more often than there are samples, and one that has a row was seen.
pub proof fn lemma_count_bounds(steps: Seq<Step>, name: Seq<char>)
    requires
        since_reset(steps).len() <= u64::MAX,
    ensures
        ({
            let a = reached(steps);
            let c = counts_of(a.rows, name);
            &&& c.exclusive <= c.inclusive <= a.samples
            &&& a.rows.dom().contains(name) ==> c.inclusive >= 1
        }),
{
    let samples = since_reset(steps);
    let leaf = |f: Seq<FrameView>| is_leaf(f, name);
    let anywhere = |f: Seq<FrameView>| is_in(f, name);
    let some = |f: Seq<FrameView>| f.len() > 0;
    lemma_counts(steps, name);
    assert forall|f: Seq<FrameView>| #[trigger] leaf(f) implies anywhere(f) by {
        assert(names_of(f)[0] == name);
    }
    lemma_how_many_bound(samples, leaf, anywhere);
    lemma_how_many_bound(samples, anywhere, some);
    if reached(steps).rows.dom().contains(name) {
        lemma_rows(steps, name);
        let k = choose|k: int| 0 <= k < samples.len() && is_in(#[trigger] samples[k], name);
        lemma_how_many_some(samples, anywhere, k);
    }
}

proof fn lemma_how_many_some(
    samples: Seq<Seq<FrameView>>,
    which: spec_fn(Seq<FrameView>) -> bool,
    k: int,
)
    requires
        0 <= k < samples.len(),
        which(samples[k]),
    ensures
        how_many(samples, which) >= 1,
    decreases samples.len(),
{
    if k < samples.len() - 1 {
        lemma_how_many_some(samples.drop_last(), which, k);
    }
}

/// The exclusive counts of functions, added up.
pub open spec fn exclusive_sum(rows: Map<Seq<char>, Counts>, names: Seq<Seq<char>>) -> nat
    decreases names.len(),
{
    if names.len() == 0 {
        0
    } else {
        exclusive_sum(rows, names.drop_last()) + rows[names.last()].exclusive as nat
    }
}

/// How often functions are the innermost of samples, added up.
spec fn leaf_sum(samples: Seq<Seq<FrameView>>, names: Seq<Seq<char>>) -> nat
    decreases names.len(),
{
    if names.len() == 0 {
        0
    } else {
        leaf_sum(samples, names.drop_last()) + how_many(
            samples,
            |f: Seq<FrameView>| is_leaf(f, names.last()),
        )
    }
}

proof fn lemma_leaf_sum_last(samples: Seq<Seq<FrameView>>, names: Seq<Seq<char>>)
    requires
        samples.len() > 0,
        names.no_duplicates(),
    ensures
        leaf_sum(samples, names) == leaf_sum(samples.drop_last(), names) + if exists|i: int|
            0 <= i < names.len() && is_leaf(samples.last(), #[trigger] names[i]) {
            1nat
        } else {
            0nat
        },
    decreases names.len(),
{
    let last = samples.last();
    if names.len() > 0 {
        let init = names.drop_last();
        lemma_leaf_sum_last(samples, init);
        if is_leaf(last, names.last()) {
            assert(is_leaf(last, names[names.len() - 1]));
            assert forall|i: int| 0 <= i < init.len() implies !is_leaf(
                last,
                #[trigger] init[i],
            ) by {
                assert(init[i] == names[i]);
                assert(names[i] != names[names.len() - 1]);
            }
        } else if exists|i: int| 0 <= i < names.len() && is_leaf(last, #[trigger] names[i]) {
            let i = choose|i: int| 0 <= i < names.len() && is_leaf(last, #[trigger] names[i]);
            assert(is_leaf(last, init[i]));
        } else {
            assert forall|i: int| 0 <= i < init.len() implies !is_leaf(
                last,
                #[trigger] init[i],
            ) by {
                assert(init[i] == names[i]);
            }
        }
    }
}

proof fn lemma_leaf_sum(samples: Seq<Seq<FrameView>>, names: Seq<Seq<char>>)
    requires
        names.no_duplicates(),
        forall|k: int|
            0 <= k < samples.len() && samples[k].len() > 0 ==> names.contains(
                zend::qualified((#[trigger] samples[k])[0]),
            ),
    ensures
        leaf_sum(samples, names) == how_many(samples, |f: Seq<FrameView>| f.len() > 0),
    decreases samples.len(),
{
    if samples.len() == 0 {
        lemma_leaf_sum_none(samples, names);
    } else {
        let init = samples.drop_last();
        let last = samples.last();
        assert forall|k: int| 0 <= k < init.len() && init[k].len() > 0 implies names.contains(
            zend::qualified((#[trigger] init[k])[0]),
        ) by {
            assert(init[k] == samples[k]);
        }
        lemma_leaf_sum(init, names);
        lemma_leaf_sum_last(samples, names);
        if last.len() > 0 {
            assert(names.contains(zend::qualified(samples[samples.len() - 1][0])));
            let i = choose|i: int| 0 <= i < names.len() && names[i] == zend::qualified(last[0]);
            assert(is_leaf(last, names[i]));
        }
    }
}

proof fn lemma_leaf_sum_none(samples: Seq<Seq<FrameView>>, names: Seq<Seq<char>>)
    requires
        samples.len() == 0,
    ensures
        leaf_sum(samples, names) == 0,
    decreases names.len(),
{
    if names.len() > 0 {
        lemma_leaf_sum_none(samples, names.drop_last());
    }
}

proof fn lemma_sums_agree(steps: Seq<Step>, names: Seq<Seq<char>>)
    requires
        since_reset(steps).len() <= u64::MAX,
        forall|i: int|
            0 <= i < names.len() ==> reached(steps).rows.dom().contains(#[trigger] names[i]),
    ensures
        exclusive_sum(reached(steps).rows, names) == leaf_sum(since_reset(steps), names),
    decreases names.len(),
{
    if names.len() > 0 {
        let init = names.drop_last();
        assert forall|i: int| 0 <= i < init.len() implies reached(steps).rows.dom().contains(
            #[trigger] init[i],
        ) by {
            assert(init[i] == names[i]);
        }
        lemma_sums_agree(steps, init);
        assert(reached(steps).rows.dom().contains(names[names.len() - 1]));
        lemma_counts(steps, names.last());
    }
}

/// From any reset on, the exclusive counts of all rows, in whatever order they
/// are listed, add up to the number of samples: each sample has one innermost
/// function.
pub proof fn lemma_exclusive_sum(steps: Seq<Step>, names: Seq<Seq<char>>)
    requires
        since_reset(steps).len() <= u64::MAX,
        names.no_duplicates(),
        names.to_set() == reached(steps).rows.dom(),
    ensures
        exclusive_sum(reached(steps).rows, names) == reached(steps).samples,
{
    let samples = since_reset(steps);
    let rows = reached(steps).rows;
    assert forall|i: int| 0 <= i < names.len() implies rows.dom().contains(
        #[trigger] names[i],
    ) by {
        assert(names.to_set().contains(names[i]));
    }
    assert forall|k: int| 0 <= k < samples.len() && samples[k].len() > 0 implies names.contains(
        zend::qualified((#[trigger] samples[k])[0]),
    ) by {
        let name = zend::qualified(samples[k][0]);
        assert(names_of(samples[k])[0] == name);
        assert(is_in(samples[k], name));
        lemma_rows(steps, name);
        assert(names.to_set().contains(name));
    }
    lemma_sums_agree(steps, names);
    lemma_leaf_sum(samples, names);
    lemma_counts(steps, Seq::empty());
}

/// An empty stack changes neither the rows nor the number of samples.
pub proof fn lemma_empty_stack_counts_nothing(a: Aggregate, clock: u64)
    ensures
        recorded(a, Seq::empty(), clock).rows == a.rows,
        recorded(a, Seq::empty(), clock).samples == a.samples,
{
}

// The display

/// A key of the keyboard.
#[derive(Debug, Clone, Copy, PartialEq, Eq, Structural)]
pub enum Key {
    Char(char),
    Esc,
    Other,
}

/// The state of the display. Times are in nanoseconds of the clock.
pub struct Display {
    pub agg: Aggregator,
    pub by_inclusive: bool,
    pub last_draw: Option<u64>,
}

impl Display {
    /// Nothing is counted or drawn yet.
    pub fn new() -> (r: Self)
        ensures
            r.agg@ == empty_aggregate(None),
            r.by_inclusive,
            r.last_draw is None,
    {
        Display { agg: Aggregator::new(), by_inclusive: true, last_draw: None }
    }

    /// Whether the display is to be drawn: at first, and then once per tick.
    pub fn draw_due(&self, clock: u64, tick: u64) -> (r: bool)
        ensures
            r == (match self.last_draw {
                Some(t) => (if clock > t {
                    clock - t
                } else {
                    0
                }) >= tick,
                None => true,
            }),
    {
        match self.last_draw {
            Some(t) => (if clock > t {
                clock - t
            } else {
                0
            }) >= tick,
            None => true,
        }
    }

    /// Notes that the display was drawn.
    pub fn drawn(&mut self, clock: u64)
        ensures
            final(self).agg == old(self).agg,
            final(self).by_inclusive == old(self).by_inclusive,
            final(self).last_draw == Some(clock),
    {
        self.last_draw = Some(clock);
    }

    /// Acts on a key. Returns whether it quits.
    pub fn on_key(&mut self, key: Key, clock: u64) -> (quit: bool)
        ensures
            quit == (key == Key::Esc || key == Key::Char('q')),
            final(self).by_inclusive == (old(self).by_inclusive != (key == Key::Char('i'))),
            final(self).agg@ == if key == Key::Char('r') {
                empty_aggregate(Some(clock))
            } else {
                old(self).agg@
            },
            final(self).last_draw == old(self).last_draw,
    {
        match key {
            Key::Char('q') => true,
            Key::Esc => true,
            Key::Char('i') => {
                self.by_inclusive = !self.by_inclusive;
                false
            },
            Key::Char('r') => {
                self.agg.reset(clock);
                false
            },
            _ => false,
        }
    }
}

} // verus!
