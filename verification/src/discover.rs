//! Process discovery: which processes match a name, a command line or a
//! container, from what `/proc` says of them.

use crate::text;
use std::collections::HashSet;
use vstd::prelude::*;
use vstd::slice::slice_subrange;

verus! {

broadcast use vstd::std_specs::hash::group_hash_axioms;

/// Which processes are wanted.
#[derive(Debug, Clone)]
pub struct ProcessFilter {
    /// Those whose `comm` contains this.
    pub name: Option<String>,
    /// Those whose `cmdline` contains this, with spaces between the arguments.
    pub cmdline: Option<String>,
    /// Those whose `cgroup` contains this, such as a container's id.
    pub cgroup: Option<String>,
}

/// What `/proc` says of a process, as far as it was read; nothing stands for
/// what could not be.
#[derive(Debug)]
pub struct ProcessInfo {
    pub comm: Option<String>,
    pub cmdline: Option<Vec<u8>>,
    pub cgroup: Option<String>,
}

/// An entry of `/proc`: its name and what it says.
#[derive(Debug)]
pub struct ProcEntry {
    pub name: String,
    pub info: ProcessInfo,
}

/// A text with spaces in place of NULs.
pub open spec fn spaced(s: Seq<char>) -> Seq<char> {
    Seq::new(
        s.len(),
        |i: int|
            if s[i] == '\0' {
                ' '
            } else {
                s[i]
            },
    )
}

/// A command line as it is matched: its arguments with spaces between them.
pub open spec fn cmdline_text(raw: Seq<u8>) -> Seq<char> {
    text::trimmed(spaced(text::utf8_lossy(raw)))
}

/// Whether a process is one of those wanted. What could not be read does not
/// match, but for the cgroup, which is empty then.
pub open spec fn wanted(info: ProcessInfo, f: ProcessFilter) -> bool {
    &&& f.name matches Some(needle) ==> (info.comm matches Some(comm) && text::contains_text(
        text::trimmed(comm@),
        needle@,
    ))
    &&& f.cmdline matches Some(needle) ==> (info.cmdline matches Some(raw) && text::contains_text(
        cmdline_text(raw@),
        needle@,
    ))
    &&& f.cgroup matches Some(needle) ==> text::contains_text(
        match info.cgroup {
            Some(cg) => text::trimmed(cg@),
            None => Seq::empty(),
        },
        needle@,
    )
}

fn trimmed_contains(s: &str, needle: &str) -> (r: bool)
    ensures
        r == text::contains_text(text::trimmed(s@), needle@),
{
    let chars = text::chars_of(s);
    let wanted = text::chars_of(needle);
    text::contains(text::trim(chars.as_slice()), wanted.as_slice())
}

fn cmdline_contains(raw: &[u8], needle: &str) -> (r: bool)
    ensures
        r == text::contains_text(cmdline_text(raw@), needle@),
{
    let decoded = text::decode_lossy(raw);
    let chars = text::chars_of(decoded.as_str());
    let mut out: Vec<char> = Vec::new();
    for i in 0..chars.len()
        invariant
            out@ == spaced(chars@).take(i as int),
    {
        out.push(
            if chars[i] == '\0' {
                ' '
            } else {
                chars[i]
            },
        );
        assert(out@ =~= spaced(chars@).take(i + 1));
    }
    assert(spaced(chars@).take(chars@.len() as int) =~= spaced(chars@));
    let wanted = text::chars_of(needle);
    text::contains(text::trim(out.as_slice()), wanted.as_slice())
}

/// Whether a process is one of those wanted.
pub fn process_matches(info: &ProcessInfo, f: &ProcessFilter) -> (r: bool)
    ensures
        r == wanted(*info, *f),
{
    if let Some(needle) = &f.name {
        match &info.comm {
            Some(comm) => {
                if !trimmed_contains(comm.as_str(), needle.as_str()) {
                    return false;
                }
            },
            None => return false,
        }
    }
    if let Some(needle) = &f.cmdline {
        match &info.cmdline {
            Some(raw) => {
                if !cmdline_contains(raw.as_slice(), needle.as_str()) {
                    return false;
                }
            },
            None => return false,
        }
    }
    if let Some(needle) = &f.cgroup {
        let found: bool = match &info.cgroup {
            Some(cg) => trimmed_contains(cg.as_str(), needle.as_str()),
            None => {
                proof {
                    reveal_strlit("");
                    assert(text::trimmed(""@) =~= Seq::<char>::empty());
                }
                trimmed_contains("", needle.as_str())
            },
        };
        if !found {
            return false;
        }
    }
    true
}

/// The process that an entry of `/proc` is about.
pub fn pid_of(name: &str) -> (r: Option<i32>)
    ensures
        match r {
            Some(pid) => text::signed_value(name@) == Some(pid as int),
            None => text::signed_value(name@) is None,
        },
{
    let chars = text::chars_of(name);
    text::parse_i32(chars.as_slice())
}

/// Whether an entry is about the given process, and it is wanted.
pub open spec fn found(entry: ProcEntry, f: ProcessFilter, pid: i32) -> bool {
    text::signed_value(entry.name@) == Some(pid as int) && wanted(entry.info, f)
}

/// The wanted processes among the entries of `/proc`.
pub fn discover(entries: &[ProcEntry], filter: &ProcessFilter) -> (r: HashSet<i32>)
    ensures
        forall|pid: i32| #[trigger]
            r@.contains(pid) <==> exists|i: int|
                0 <= i < entries@.len() && #[trigger] found(entries@[i], *filter, pid),
{
    let mut out: HashSet<i32> = HashSet::new();
    for k in 0..entries.len()
        invariant
            forall|pid: i32| #[trigger]
                out@.contains(pid) <==> exists|i: int|
                    0 <= i < k && #[trigger] found(entries@[i], *filter, pid),
    {
        let ghost before = out@;
        let entry = &entries[k];
        let pid = pid_of(entry.name.as_str());
        if let Some(pid) = pid {
            if process_matches(&entry.info, filter) {
                out.insert(pid);
            }
        }
        proof {
            assert forall|p: i32| #[trigger]
                out@.contains(p) <==> exists|i: int|
                    0 <= i < k + 1 && #[trigger] found(entries@[i], *filter, p) by {
                if before.contains(p) {
                    let i = choose|i: int| 0 <= i < k && #[trigger] found(entries@[i], *filter, p);
                    assert(found(entries@[i], *filter, p));
                }
                if found(entries@[k as int], *filter, p) {
                    assert(out@.contains(p));
                }
                if exists|i: int| 0 <= i < k + 1 && #[trigger] found(entries@[i], *filter, p) {
                    let i = choose|i: int|
                        0 <= i < k + 1 && #[trigger] found(entries@[i], *filter, p);
                    if i < k {
                        assert(before.contains(p));
                    }
                }
            }
        }
    }
    out
}

// Containers

/// The path that a line of a cgroup file ends with: what follows its last colon.
pub open spec fn cgroup_path(line: Seq<char>) -> Seq<char> {
    match text::rfind_text(line, ":"@) {
        Some(i) => line.skip(i + 1),
        None => line,
    }
}

/// The container that a path names: what stands between `docker-` and the next
/// dot, or else up to 64 characters after `/docker/`.
pub open spec fn container_of(path: Seq<char>) -> Option<Seq<char>> {
    match text::rfind_text(path, "docker-"@) {
        Some(i) => {
            let after = path.skip(i + 7);
            Some(after.take(text::find_char(after, '.')))
        },
        None => match text::rfind_text(path, "/docker/"@) {
            Some(i) => {
                let after = path.skip(i + 8);
                Some(
                    if after.len() > 64 {
                        after.take(64)
                    } else {
                        after
                    },
                )
            },
            None => None,
        },
    }
}

/// The container that the first line to name one names.
pub open spec fn first_container(lines: Seq<Seq<char>>) -> Option<Seq<char>>
    decreases lines.len(),
{
    if lines.len() == 0 {
        None
    } else {
        match container_of(cgroup_path(lines[0])) {
            Some(id) => Some(id),
            None => first_container(lines.drop_first()),
        }
    }
}

fn container(line: &[char]) -> (r: Option<String>)
    ensures
        match r {
            Some(id) => container_of(cgroup_path(line@)) == Some(id@),
            None => container_of(cgroup_path(line@)) is None,
        },
{
    let colon = text::chars_of(":");
    let scope = text::chars_of("docker-");
    let dir = text::chars_of("/docker/");
    proof {
        reveal_strlit(":");
        reveal_strlit("docker-");
        reveal_strlit("/docker/");
    }
    let n: usize = line.len();
    let path = match text::rfind(line, colon.as_slice()) {
        Some(i) => slice_subrange(line, i + 1, n),
        None => line,
    };
    assert(path@ =~= cgroup_path(line@));
    let n: usize = path.len();
    if let Some(i) = text::rfind(path, scope.as_slice()) {
        let after = slice_subrange(path, i + 7, n);
        assert(after@ =~= path@.skip(i + 7));
        let dot = text::index_of(after, '.');
        let id = slice_subrange(after, 0, dot);
        assert(id@ =~= after@.take(dot as int));
        return Some(text::string_of(id));
    }
    if let Some(i) = text::rfind(path, dir.as_slice()) {
        let after = slice_subrange(path, i + 8, n);
        assert(after@ =~= path@.skip(i + 8));
        let end: usize = if after.len() > 64 {
            64
        } else {
            after.len()
        };
        let id = slice_subrange(after, 0, end);
        assert(id@ =~= after@.take(end as int));
        assert(after@.take(after@.len() as int) =~= after@);
        return Some(text::string_of(id));
    }
    None
}

/// The container that the text of a cgroup file names, for matching other
/// processes of the same container.
pub fn self_cgroup_id(cgroup: &str) -> (r: Option<String>)
    ensures
        match r {
            Some(id) => first_container(text::lines(cgroup@)) == Some(id@),
            None => first_container(text::lines(cgroup@)) is None,
        },
{
    let chars = text::chars_of(cgroup);
    let lines = text::split_lines(chars.as_slice());
    let ghost all = text::lines(cgroup@);
    let mut i: usize = 0;
    assert(all.skip(0) =~= all);
    assert(all.len() == lines@.len());
    while i < lines.len()
        invariant
            i <= lines@.len(),
            all == text::lines(cgroup@),
            all == text::texts(lines@),
            all.len() == lines@.len(),
            first_container(all) == first_container(all.skip(i as int)),
        decreases lines@.len() - i,
    {
        proof {
            assert(all.skip(i as int)[0] == lines@[i as int]@);
            assert(all.skip(i as int).drop_first() =~= all.skip(i + 1));
        }
        if let Some(id) = container(lines[i]) {
            return Some(id);
        }
        i = i + 1;
    }
    None
}

} // verus!
