//! The memory maps of a process, and the binary that it runs.

use crate::text;
use crate::text::IntError;
use vstd::prelude::*;
use vstd::slice::slice_subrange;

verus! {

/// One line of a process's memory maps.
#[derive(Debug, Clone)]
pub struct MapEntry {
    pub start: u64,
    pub perms: String,
    pub path: Option<String>,
}

/// What a [`MapEntry`] says.
#[verifier::ext_equal]
pub ghost struct EntryView {
    pub start: u64,
    pub perms: Seq<char>,
    pub path: Option<Seq<char>>,
}

impl View for MapEntry {
    type V = EntryView;

    open spec fn view(&self) -> EntryView {
        EntryView {
            start: self.start,
            perms: self.perms@,
            path: match self.path {
                Some(p) => Some(p@),
                None => None,
            },
        }
    }
}

/// What the entries of a list say.
pub open spec fn entries_view(maps: Seq<MapEntry>) -> Seq<EntryView> {
    Seq::new(maps.len(), |i: int| maps[i]@)
}

/// Why memory maps could not be read.
#[derive(Debug)]
pub enum MapsError {
    /// A line without its first two columns.
    Line(String),
    /// An address range without a dash.
    Range(String),
    /// An address range that does not start with a number.
    Address(IntError),
}

/// What a [`MapsError`] says.
pub ghost enum MapsFault {
    Line(Seq<char>),
    Range(Seq<char>),
    Address(IntError),
}

impl View for MapsError {
    type V = MapsFault;

    open spec fn view(&self) -> MapsFault {
        match *self {
            MapsError::Line(l) => MapsFault::Line(l@),
            MapsError::Range(l) => MapsFault::Range(l@),
            MapsError::Address(e) => MapsFault::Address(e),
        }
    }
}

/// The message for a fault.
pub open spec fn maps_message(fault: MapsFault) -> Seq<char> {
    match fault {
        MapsFault::Line(l) => "bad maps line: "@ + l,
        MapsFault::Range(l) => "bad range: "@ + l,
        MapsFault::Address(e) => text::int_error_text(e),
    }
}

impl MapsError {
    /// Says what is wrong.
    pub fn message(&self) -> (r: String)
        ensures
            r@ == maps_message(self@),
    {
        let mut out = String::new();
        match self {
            MapsError::Line(l) => {
                out.append("bad maps line: ");
                out.append(l.as_str());
            },
            MapsError::Range(l) => {
                out.append("bad range: ");
                out.append(l.as_str());
            },
            MapsError::Address(e) => {
                out.append(e.text());
            },
        }
        assert(out@ =~= maps_message(self@));
        out
    }
}

/// The columns of a line: address range, permissions, offset, device, inode and
/// path, as far as they are there.
pub open spec fn columns(line: Seq<char>) -> Seq<Seq<char>> {
    text::non_empty(text::white_pieces(line, 6))
}

/// The path that a line names: its sixth column, without white space around it.
pub open spec fn path_of(columns: Seq<Seq<char>>) -> Option<Seq<char>> {
    if columns.len() < 6 || text::trimmed(columns[5]).len() == 0 {
        None
    } else {
        Some(text::trimmed(columns[5]))
    }
}

/// The entry that a line describes.
pub open spec fn entry_of(line: Seq<char>) -> Result<EntryView, MapsFault> {
    let cols = columns(line);
    if cols.len() < 2 {
        Err(MapsFault::Line(line))
    } else {
        let dash = text::find_char(cols[0], '-');
        if dash >= cols[0].len() {
            Err(MapsFault::Range(cols[0]))
        } else {
            match text::unsigned_value(cols[0].take(dash), 16, u64::MAX as int) {
                Err(e) => Err(MapsFault::Address(e)),
                Ok(start) => Ok(
                    EntryView { start: start as u64, perms: cols[1], path: path_of(cols) },
                ),
            }
        }
    }
}

/// The entries that lines describe, or what is wrong with the first bad line.
pub open spec fn entries_of(lines: Seq<Seq<char>>) -> Result<Seq<EntryView>, MapsFault>
    decreases lines.len(),
{
    if lines.len() == 0 {
        Ok(Seq::empty())
    } else {
        match entry_of(lines[0]) {
            Err(e) => Err(e),
            Ok(entry) => match entries_of(lines.drop_first()) {
                Err(e) => Err(e),
                Ok(rest) => Ok(seq![entry] + rest),
            },
        }
    }
}

/// Every line of maps that can be read gives one entry.
pub proof fn lemma_one_entry_per_line(lines: Seq<Seq<char>>)
    ensures
        entries_of(lines) matches Ok(entries) ==> entries.len() == lines.len() && forall|i: int|
            0 <= i < lines.len() ==> entry_of(lines[i]) == Ok::<EntryView, MapsFault>(
                #[trigger] entries[i],
            ),
    decreases lines.len(),
{
    if lines.len() > 0 {
        let rest = lines.drop_first();
        lemma_one_entry_per_line(rest);
        if let Ok(entries) = entries_of(lines) {
            assert forall|i: int| 0 <= i < lines.len() implies entry_of(lines[i]) == Ok::<
                EntryView,
                MapsFault,
            >(#[trigger] entries[i]) by {
                if i > 0 {
                    assert(lines[i] == rest[i - 1]);
                    assert(entries[i] == entries_of(rest)->Ok_0[i - 1]);
                }
            }
        }
    }
}

fn parse_line(line: &[char]) -> (r: Result<MapEntry, MapsError>)
    ensures
        match r {
            Ok(entry) => entry_of(line@) == Ok::<EntryView, MapsFault>(entry@),
            Err(e) => entry_of(line@) == Err::<EntryView, MapsFault>(e@),
        },
{
    let cols = text::split_white(line, 6);
    let ghost view = text::texts(cols@);
    assert(view.len() == cols@.len());
    assert(forall|i: int| 0 <= i < cols@.len() ==> view[i] == #[trigger] cols@[i]@);
    if cols.len() < 2 {
        return Err(MapsError::Line(text::string_of(line)));
    }
    let range = cols[0];
    let dash = text::index_of(range, '-');
    if dash >= range.len() {
        return Err(MapsError::Range(text::string_of(range)));
    }
    let head = slice_subrange(range, 0, dash);
    assert(head@ == range@.take(dash as int));
    let start: u64 = match text::parse_unsigned(head, 16) {
        Ok(v) => v,
        Err(e) => return Err(MapsError::Address(e)),
    };
    let path: Option<String> = if cols.len() < 6 {
        None
    } else {
        let name = text::trim(cols[5]);
        if name.len() == 0 {
            None
        } else {
            Some(text::string_of(name))
        }
    };
    Ok(MapEntry { start, perms: text::string_of(cols[1]), path })
}

/// Parses the text of `/proc/PID/maps`.
pub fn parse_maps(raw: &str) -> (r: Result<Vec<MapEntry>, MapsError>)
    ensures
        match r {
            Ok(maps) => entries_of(text::lines(raw@)) == Ok::<Seq<EntryView>, MapsFault>(
                entries_view(maps@),
            ),
            Err(e) => entries_of(text::lines(raw@)) == Err::<Seq<EntryView>, MapsFault>(e@),
        },
{
    let chars = text::chars_of(raw);
    let lines = text::split_lines(chars.as_slice());
    let ghost all = text::lines(raw@);
    let mut out: Vec<MapEntry> = Vec::new();
    let mut i: usize = 0;
    assert(all.skip(0) == all);
    assert(all.len() == lines@.len());
    while i < lines.len()
        invariant
            i <= lines@.len(),
            all == text::lines(raw@),
            all == text::texts(lines@),
            all.len() == lines@.len(),
            entries_of(all) == match entries_of(all.skip(i as int)) {
                Ok(rest) => Ok::<Seq<EntryView>, MapsFault>(entries_view(out@) + rest),
                Err(e) => Err::<Seq<EntryView>, MapsFault>(e),
            },
        decreases lines@.len() - i,
    {
        let ghost rest = all.skip(i as int);
        let ghost before = out@;
        proof {
            assert(rest[0] == lines@[i as int]@);
            assert(rest.drop_first() == all.skip(i + 1));
        }
        match parse_line(lines[i]) {
            Ok(entry) => {
                out.push(entry);
                proof {
                    assert(entries_view(out@) =~= entries_view(before).push(entry@));
                    if let Ok(tail) = entries_of(all.skip(i + 1)) {
                        assert(entries_view(before) + (seq![entry@] + tail) =~= entries_view(out@)
                            + tail);
                    }
                }
            },
            Err(e) => return Err(e),
        }
        i = i + 1;
    }
    assert(entries_of(all.skip(i as int)) == Ok::<Seq<EntryView>, MapsFault>(Seq::empty()));
    assert(entries_view(out@) + Seq::<EntryView>::empty() =~= entries_view(out@));
    Ok(out)
}

// The principal binary

/// Whether a path looks like a file on disk: not a pseudo-path such as
/// `[heap]`, not a device, and not deleted.
pub open spec fn on_disk(path: Seq<char>) -> bool {
    &&& !text::begins(path, "["@)
    &&& path.len() > 0
    &&& !text::begins(path, "/dev/"@)
    &&& !text::ends(path, "(deleted)"@)
}

/// Whether an entry is a program text: an executable private mapping of a file
/// on disk. Shared executable mappings are memory pools.
pub open spec fn is_text(m: EntryView) -> bool {
    &&& m.perms.contains('x')
    &&& m.perms.contains('p')
    &&& m.path matches Some(p) && on_disk(p)
}

/// The entry with the lowest start among the first `n` that satisfy `keep`, the
/// earlier one where two start alike.
pub open spec fn lowest(maps: Seq<EntryView>, keep: spec_fn(EntryView) -> bool, n: int) -> Option<
    int,
>
    decreases n,
{
    if n <= 0 {
        None
    } else {
        let best = lowest(maps, keep, n - 1);
        let m = maps[n - 1];
        if keep(m) && (best matches Some(b) ==> m.start < maps[b].start) {
            Some(n - 1)
        } else {
            best
        }
    }
}

/// The lowest entry is among those asked for, satisfies the condition, and no
/// other that does starts below it. There is one unless none does.
pub proof fn lemma_lowest(maps: Seq<EntryView>, keep: spec_fn(EntryView) -> bool, n: int)
    requires
        0 <= n <= maps.len(),
    ensures
        match lowest(maps, keep, n) {
            Some(i) => 0 <= i < n && keep(maps[i]) && forall|j: int|
                0 <= j < n && #[trigger] keep(maps[j]) ==> maps[i].start <= maps[j].start,
            None => forall|j: int| 0 <= j < n ==> !#[trigger] keep(maps[j]),
        },
    decreases n,
{
    if n > 0 {
        lemma_lowest(maps, keep, n - 1);
    }
}

/// The first mapping of the binary behind a process. The binary is the file
/// whose text is mapped at the lowest address; its lowest mapping, often a
/// header before the text, is the load base.
pub open spec fn principal(maps: Seq<EntryView>) -> Option<int> {
    match lowest(maps, |m: EntryView| is_text(m), maps.len() as int) {
        Some(i) => lowest(maps, |m: EntryView| m.path == maps[i].path, maps.len() as int),
        None => None,
    }
}

/// The principal binary is a file whose text is mapped, no other text is mapped
/// below that, and the entry returned is its lowest mapping. There is one
/// unless no text is mapped.
pub proof fn lemma_principal(maps: Seq<EntryView>)
    ensures
        match principal(maps) {
            Some(i) => 0 <= i < maps.len() && (exists|t: int|
                0 <= t < maps.len() && maps[t].path == maps[i].path && #[trigger] is_text(maps[t])
                    && (forall|j: int|
                    0 <= j < maps.len() && #[trigger] is_text(maps[j]) ==> maps[t].start
                        <= maps[j].start)) && forall|j: int|
                0 <= j < maps.len() && (#[trigger] maps[j]).path == maps[i].path ==> maps[i].start
                    <= maps[j].start,
            None => forall|j: int| 0 <= j < maps.len() ==> !#[trigger] is_text(maps[j]),
        },
{
    let n = maps.len() as int;
    let text = |m: EntryView| is_text(m);
    lemma_lowest(maps, text, n);
    match lowest(maps, text, n) {
        Some(t) => {
            let same = |m: EntryView| m.path == maps[t].path;
            lemma_lowest(maps, same, n);
            assert(same(maps[t]));
            assert(text(maps[t]));
            assert forall|j: int| 0 <= j < n && #[trigger] is_text(maps[j]) implies maps[t].start
                <= maps[j].start by {
                assert(text(maps[j]));
            }
            if let Some(i) = principal(maps) {
                assert(same(maps[i]));
                assert forall|j: int|
                    0 <= j < n && (#[trigger] maps[j]).path == maps[i].path implies maps[i].start
                    <= maps[j].start by {
                    assert(same(maps[j]));
                }
                assert(is_text(maps[t]));
            }
        },
        None => {
            assert forall|j: int| 0 <= j < n implies !#[trigger] is_text(maps[j]) by {
                assert(!text(maps[j]));
            }
        },
    }
}

fn has_prefix(s: &Vec<char>, prefix: &str) -> (r: bool)
    ensures
        r == text::begins(s@, prefix@),
{
    let wanted = text::chars_of(prefix);
    text::starts_with(s.as_slice(), wanted.as_slice())
}

fn names_file(path: &str) -> (r: bool)
    ensures
        r == on_disk(path@),
{
    let p = text::chars_of(path);
    let suffix = text::chars_of("(deleted)");
    !has_prefix(&p, "[") && p.len() > 0 && !has_prefix(&p, "/dev/") && !text::ends_with(
        p.as_slice(),
        suffix.as_slice(),
    )
}

fn maps_text(m: &MapEntry) -> (r: bool)
    ensures
        r == is_text(m@),
{
    let perms = text::chars_of(m.perms.as_str());
    if !text::contains_char(perms.as_slice(), 'x') || !text::contains_char(perms.as_slice(), 'p') {
        return false;
    }
    match &m.path {
        Some(p) => names_file(p.as_str()),
        None => false,
    }
}

fn maps_path(m: &MapEntry, path: &str) -> (r: bool)
    ensures
        r == (m@.path == Some(path@)),
{
    match &m.path {
        Some(p) => text::same_text(p.as_str(), path),
        None => false,
    }
}

/// Finds the binary behind a process: its lowest mapping, whose start is the
/// load base.
///
/// `/proc/PID/exe` is not relied on: where programs run under an emulator, it
/// names the emulator.
pub fn principal_binary(maps: &[MapEntry]) -> (r: Option<&MapEntry>)
    ensures
        match r {
            Some(m) => principal(entries_view(maps@)) matches Some(i) && 0 <= i < maps@.len() && *m
                == maps@[i],
            None => principal(entries_view(maps@)) is None,
        },
{
    let ghost view = entries_view(maps@);
    let ghost keep_text = |m: EntryView| is_text(m);
    let mut exe: Option<usize> = None;
    for i in 0..maps.len()
        invariant
            view == entries_view(maps@),
            keep_text == (|m: EntryView| is_text(m)),
            match exe {
                Some(b) => b < i && lowest(view, keep_text, i as int) == Some(b as int),
                None => lowest(view, keep_text, i as int) is None,
            },
    {
        assert(view[i as int] == maps@[i as int]@);
        if maps_text(&maps[i]) {
            match exe {
                Some(b) => {
                    if maps[i].start < maps[b].start {
                        exe = Some(i);
                    }
                },
                None => {
                    exe = Some(i);
                },
            }
        }
    }
    proof {
        lemma_lowest(view, keep_text, maps@.len() as int);
    }
    let exe: usize = match exe {
        Some(b) => b,
        None => return None,
    };
    assert(keep_text(view[exe as int]));
    let path: &str = match &maps[exe].path {
        Some(p) => p.as_str(),
        None => return None,
    };
    let ghost keep_path = |m: EntryView| m.path == view[exe as int].path;
    let mut first: Option<usize> = None;
    for i in 0..maps.len()
        invariant
            view == entries_view(maps@),
            exe < maps@.len(),
            maps@[exe as int]@.path == Some(path@),
            keep_path == (|m: EntryView| m.path == view[exe as int].path),
            match first {
                Some(b) => b < i && lowest(view, keep_path, i as int) == Some(b as int),
                None => lowest(view, keep_path, i as int) is None,
            },
    {
        assert(view[i as int] == maps@[i as int]@);
        if maps_path(&maps[i], path) {
            match first {
                Some(b) => {
                    if maps[i].start < maps[b].start {
                        first = Some(i);
                    }
                },
                None => {
                    first = Some(i);
                },
            }
        }
    }
    match first {
        Some(b) => Some(&maps[b]),
        None => None,
    }
}

} // verus!
