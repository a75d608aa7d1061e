//! What the memory maps of a process say, and which binary they are of.

use crate::laws::texts;
use crate::proc;
use crate::proc::{EntryView, MapsFault};
use crate::text;
use vstd::prelude::*;

verus! {

// Lines

/// Whether a text is a column: not empty, and without white space.
pub open spec fn is_column(s: Seq<char>) -> bool {
    s.len() > 0 && forall|i: int| 0 <= i < s.len() ==> !text::white(#[trigger] s[i])
}

/// Columns one after the other, each with a space after it.
pub open spec fn spaced(columns: Seq<Seq<char>>) -> Seq<char>
    decreases columns.len(),
{
    if columns.len() == 0 {
        Seq::empty()
    } else {
        columns[0] + seq![' '] + spaced(columns.drop_first())
    }
}

proof fn lemma_find_white(s: Seq<char>, rest: Seq<char>)
    requires
        forall|i: int| 0 <= i < s.len() ==> !text::white(#[trigger] s[i]),
    ensures
        text::find_white(s + seq![' '] + rest) == s.len(),
        text::find_white(s) == s.len(),
    decreases s.len(),
{
    if s.len() > 0 {
        let less = s.drop_first();
        assert forall|i: int| 0 <= i < less.len() implies !text::white(#[trigger] less[i]) by {
            assert(less[i] == s[i + 1]);
        }
        lemma_find_white(less, rest);
        assert((s + seq![' '] + rest).drop_first() =~= less + seq![' '] + rest);
        assert((s + seq![' '] + rest)[0] == s[0]);
    } else {
        assert((s + seq![' '] + rest)[0] == ' ');
    }
}

proof fn lemma_first_column(column: Seq<char>, rest: Seq<char>, n: nat)
    requires
        is_column(column),
        n > 1,
    ensures
        text::non_empty(text::white_pieces(column + seq![' '] + rest, n)) == seq![column]
            + text::non_empty(text::white_pieces(rest, (n - 1) as nat)),
{
    let s = column + seq![' '] + rest;
    lemma_find_white(column, rest);
    let i = column.len() as int;
    assert(s.take(i) =~= column);
    assert(s.skip(i + 1) =~= rest);
    let more = text::white_pieces(rest, (n - 1) as nat);
    assert((seq![column] + more).drop_first() =~= more);
}

proof fn lemma_columns(columns: Seq<Seq<char>>, rest: Seq<char>, n: nat)
    requires
        forall|i: int| 0 <= i < columns.len() ==> is_column(#[trigger] columns[i]),
        columns.len() < n,
    ensures
        text::non_empty(text::white_pieces(spaced(columns) + rest, n)) == columns
            + text::non_empty(text::white_pieces(rest, (n - columns.len()) as nat)),
    decreases columns.len(),
{
    if columns.len() == 0 {
        assert(spaced(columns) + rest =~= rest);
        let more = text::non_empty(text::white_pieces(rest, n));
        assert(columns + more =~= more);
    } else {
        let others = columns.drop_first();
        assert(is_column(columns[0]));
        assert forall|i: int| 0 <= i < others.len() implies is_column(#[trigger] others[i]) by {
            assert(others[i] == columns[i + 1]);
        }
        lemma_columns(others, rest, (n - 1) as nat);
        assert(spaced(columns) + rest =~= columns[0] + seq![' '] + (spaced(others) + rest));
        lemma_first_column(columns[0], spaced(others) + rest, n);
        let more = text::non_empty(
            text::white_pieces(rest, (n - columns.len()) as nat),
        );
        assert(seq![columns[0]] + (others + more) =~= columns + more);
    }
}

proof fn lemma_rest(rest: Seq<char>)
    ensures
        text::non_empty(text::white_pieces(rest, 1)) == if rest.len() == 0 {
            Seq::<Seq<char>>::empty()
        } else {
            seq![rest]
        },
{
    assert(text::white_pieces(rest, 1) =~= seq![rest]);
    assert(seq![rest].drop_first() =~= Seq::<Seq<char>>::empty());
    assert(text::non_empty(Seq::<Seq<char>>::empty()) =~= Seq::<Seq<char>>::empty());
    if rest.len() > 0 {
        assert(seq![rest] + Seq::<Seq<char>>::empty() =~= seq![rest]);
    }
}

/// A line of maps gives an entry: it starts at the hexadecimal number before the
/// dash, has the permissions of the second column, and the path that is left
/// after five columns, without white space around it, if there is any left.
pub proof fn lemma_line(
    start: Seq<char>,
    end: Seq<char>,
    perms: Seq<char>,
    offset: Seq<char>,
    device: Seq<char>,
    inode: Seq<char>,
    rest: Seq<char>,
)
    requires
        texts::all_hex(start),
        start.len() > 0,
        texts::hex_value(start) <= u64::MAX,
        is_column(start + seq!['-'] + end),
        is_column(perms),
        is_column(offset),
        is_column(device),
        is_column(inode),
    ensures
        proc::entry_of(
            spaced(seq![start + seq!['-'] + end, perms, offset, device, inode]) + rest,
        ) == Ok::<EntryView, MapsFault>(
            EntryView {
                start: texts::hex_value(start) as u64,
                perms,
                path: if text::trimmed(rest).len() == 0 {
                    None
                } else {
                    Some(text::trimmed(rest))
                },
            },
        ),
{
    let range = start + seq!['-'] + end;
    let columns = seq![range, perms, offset, device, inode];
    let line = spaced(columns) + rest;
    lemma_columns(columns, rest, 6);
    lemma_rest(rest);
    let cols = proc::columns(line);
    texts::lemma_trims(rest);
    let n = start.len() as int;
    assert forall|j: int| 0 <= j < n implies range[j] != '-' by {
        assert(range[j] == start[j]);
        assert(texts::hex_digit(start[j]) is Some);
    }
    assert(range[n] == '-');
    text::lemma_find_char_unique(range, '-', n);
    assert(range.take(n) =~= start);
    texts::lemma_reads_hex(start, u64::MAX as int);
    assert(texts::hex_digit(start[0]) is Some);
    assert(texts::unsigned_digits(start) == start);
    assert(cols[0] == range);
    assert(cols[1] == perms);
}

/// A line with a single column, and one whose first column has no dash, are
/// errors that name them.
pub proof fn lemma_bad_line(column: Seq<char>, perms: Seq<char>)
    requires
        is_column(column),
        is_column(perms),
    ensures
        proc::entry_of(column) == Err::<EntryView, MapsFault>(MapsFault::Line(column)),
        !column.contains('-') ==> proc::entry_of(column + seq![' '] + perms) == Err::<
            EntryView,
            MapsFault,
        >(MapsFault::Range(column)),
{
    lemma_find_white(column, Seq::empty());
    lemma_find_white(perms, Seq::empty());
    assert(text::white_pieces(column, 6) =~= seq![column]);
    assert(text::white_pieces(perms, 5) =~= seq![perms]);
    lemma_one(column);
    lemma_one(perms);
    lemma_first_column(column, perms, 6);
    let cols = proc::columns(column + seq![' '] + perms);
    assert(cols =~= seq![column, perms]);
    if !column.contains('-') {
        assert forall|j: int| 0 <= j < column.len() implies column[j] != '-' by {
            assert(column.contains(column[j]));
        }
        text::lemma_find_char_unique(column, '-', column.len() as int);
    }
}

proof fn lemma_one(s: Seq<char>)
    requires
        s.len() > 0,
    ensures
        text::non_empty(seq![s]) == seq![s],
{
    assert(seq![s].drop_first() =~= Seq::<Seq<char>>::empty());
    assert(text::non_empty(Seq::<Seq<char>>::empty()) =~= Seq::<Seq<char>>::empty());
    assert(seq![s] + Seq::<Seq<char>>::empty() =~= seq![s]);
}

/// Lines give an entry each, in order; the first bad one is the error.
pub proof fn lemma_lines(lines: Seq<Seq<char>>, i: int)
    requires
        0 <= i < lines.len(),
        forall|j: int| 0 <= j < i ==> proc::entry_of(#[trigger] lines[j]) is Ok,
    ensures
        proc::entry_of(lines[i]) matches Err(e) ==> proc::entries_of(lines) == Err::<
            Seq<EntryView>,
            MapsFault,
        >(e),
        proc::entries_of(lines) matches Ok(entries) ==> entries.len() == lines.len()
            && proc::entry_of(lines[i]) == Ok::<EntryView, MapsFault>(entries[i]),
    decreases lines.len(),
{
    proc::lemma_one_entry_per_line(lines);
    if let Ok(entries) = proc::entries_of(lines) {
        let there = entries[i];
    }
    if i > 0 {
        let rest = lines.drop_first();
        assert(proc::entry_of(lines[0]) is Ok);
        assert forall|j: int| 0 <= j < i - 1 implies proc::entry_of(#[trigger] rest[j]) is Ok by {
            assert(rest[j] == lines[j + 1]);
        }
        lemma_lines(rest, i - 1);
        assert(rest[i - 1] == lines[i]);
    }
}

// The binary

/// Program text is what is mapped executable and private from a file on disk:
/// not from a pseudo-path in brackets, not from a device, and not from a file that
/// was deleted.
pub proof fn lemma_is_text(m: EntryView)
    ensures
        proc::is_text(m) <==> m.perms.contains('x') && m.perms.contains('p') && (
        m.path matches Some(p) && p.len() > 0 && p[0] != '[' && !seq!['/', 'd', 'e', 'v', '/']
            .is_prefix_of(p) && !(p.len() >= 9 && p.skip(p.len() - 9) == seq![
            '(',
            'd',
            'e',
            'l',
            'e',
            't',
            'e',
            'd',
            ')',
        ])),
{
    reveal_strlit("[");
    reveal_strlit("/dev/");
    reveal_strlit("(deleted)");
    assert("["@ =~= seq!['[']);
    assert("/dev/"@ =~= seq!['/', 'd', 'e', 'v', '/']);
    assert("(deleted)"@ =~= seq!['(', 'd', 'e', 'l', 'e', 't', 'e', 'd', ')']);
    if let Some(p) = m.path {
        texts::lemma_occurs(p, "["@, 0);
        texts::lemma_occurs(p, "/dev/"@, 0);
        if p.len() > 0 {
            let first = p.subrange(0, 1);
            assert(first[0] == p[0]);
            if p[0] == '[' {
                assert(first =~= seq!['[']);
            }
        }
        if p.len() >= 9 {
            assert(p.skip(p.len() - 9) =~= p.subrange(p.len() - 9, p.len() as int));
        }
    }
}

/// The binary of a process is the file of the program text that is mapped lowest,
/// and its load base is where that file is mapped lowest, as text or not.
pub proof fn lemma_binary(maps: Seq<EntryView>, t: int, b: int)
    requires
        0 <= t < maps.len(),
        proc::is_text(maps[t]),
        forall|j: int|
            0 <= j < maps.len() && j != t && #[trigger] proc::is_text(maps[j]) ==> maps[t].start
                < maps[j].start,
        0 <= b < maps.len(),
        maps[b].path == maps[t].path,
        forall|j: int|
            0 <= j < maps.len() && (#[trigger] maps[j]).path == maps[t].path ==> maps[b].start
                <= maps[j].start,
    ensures
        proc::principal(maps) matches Some(i) && 0 <= i < maps.len() && maps[i].start
            == maps[b].start && maps[i].path == maps[t].path,
{
    proc::lemma_principal(maps);
    let i = proc::principal(maps)->0;
    if proc::principal(maps) is Some {
        let found = choose|found: int|
            0 <= found < maps.len() && maps[found].path == maps[i].path && #[trigger] proc::is_text(
                maps[found],
            ) && (forall|j: int|
                0 <= j < maps.len() && #[trigger] proc::is_text(maps[j]) ==> maps[found].start
                    <= maps[j].start);
        assert(found == t);
        assert(maps[b].path == maps[i].path);
    }
}

} // verus!
