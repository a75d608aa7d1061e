//! Which processes are profiled, and how the command line says so.

use crate::cli;
use crate::cli::{Args, Format, Mode, RunError, Source};
use crate::discover;
use crate::discover::{ProcEntry, ProcessFilter, ProcessInfo};
use crate::laws::texts;
use crate::text;
use vstd::prelude::*;

verus! {

// Matching

/// Whether a text has another in it, character by character.
pub open spec fn has_in_it(s: Seq<char>, needle: Seq<char>) -> bool {
    exists|before: Seq<char>, after: Seq<char>| s == #[trigger] (before + needle + after)
}

/// A text contains another where it is that one with something before and after.
pub proof fn lemma_contains(s: Seq<char>, needle: Seq<char>)
    ensures
        text::contains_text(s, needle) <==> has_in_it(s, needle),
{
    if text::contains_text(s, needle) {
        let i = choose|i: int| text::occurs_at(s, needle, i);
        assert(s =~= s.take(i) + needle + s.skip(i + needle.len()));
    }
    if has_in_it(s, needle) {
        let (before, after) = choose|before: Seq<char>, after: Seq<char>|
            s == #[trigger] (before + needle + after);
        let n = before.len() as int;
        assert(s.subrange(n, n + needle.len()) =~= needle);
        assert(text::occurs_at(s, needle, n));
    }
}

/// A process is wanted exactly if it meets every condition that is given: its name
/// has the name in it, its command line the text that it must have, and its cgroup
/// the container. What is not known of it has nothing in it.
pub proof fn lemma_wanted(info: ProcessInfo, f: ProcessFilter)
    ensures
        discover::wanted(info, f) <==> meets_name(info, f) && meets_cmdline(info, f)
            && meets_cgroup(info, f),
        f.name is None && f.cmdline is None && f.cgroup is None ==> discover::wanted(info, f),
{
    if let Some(needle) = f.name {
        if let Some(comm) = info.comm {
            lemma_contains(text::trimmed(comm@), needle@);
        }
    }
    if let Some(needle) = f.cmdline {
        if let Some(raw) = info.cmdline {
            lemma_contains(discover::cmdline_text(raw@), needle@);
        }
    }
    if let Some(needle) = f.cgroup {
        if let Some(cg) = info.cgroup {
            lemma_contains(text::trimmed(cg@), needle@);
        } else {
            lemma_contains(Seq::empty(), needle@);
        }
    }
}

/// Whether a process has the name that is wanted in its own.
pub open spec fn meets_name(info: ProcessInfo, f: ProcessFilter) -> bool {
    f.name is None || (info.comm is Some && has_in_it(
        text::trimmed(info.comm->0@),
        f.name->0@,
    ))
}

/// Whether a process has the text that is wanted in its command line.
pub open spec fn meets_cmdline(info: ProcessInfo, f: ProcessFilter) -> bool {
    f.cmdline is None || (info.cmdline is Some && has_in_it(
        discover::cmdline_text(info.cmdline->0@),
        f.cmdline->0@,
    ))
}

/// Whether a process has the container that is wanted in its cgroup.
pub open spec fn meets_cgroup(info: ProcessInfo, f: ProcessFilter) -> bool {
    f.cgroup is None || has_in_it(
        if info.cgroup is Some {
            text::trimmed(info.cgroup->0@)
        } else {
            Seq::empty()
        },
        f.cgroup->0@,
    )
}

/// An entry is about the process whose number is its name, in decimal, and it is
/// found if it meets all that is asked for.
pub proof fn lemma_found(entry: ProcEntry, f: ProcessFilter, pid: i32)
    ensures
        entry.name@ == text::signed_decimal(pid as int) ==> (discover::found(entry, f, pid)
            <==> meets_name(entry.info, f) && meets_cmdline(entry.info, f) && meets_cgroup(
            entry.info,
            f,
        )),
        discover::found(entry, f, pid) ==> text::signed_value(entry.name@) == Some(pid as int),
{
    texts::lemma_writes_signed(pid as int);
    lemma_wanted(entry.info, f);
}

/// A command line is matched with a space for each zero character, all others as
/// they are, and without white space around it.
pub proof fn lemma_cmdline(raw: Seq<u8>, s: Seq<char>, i: int)
    requires
        s == text::utf8_lossy(raw),
    ensures
        discover::cmdline_text(raw) == text::trimmed(discover::spaced(s)),
        discover::spaced(s).len() == s.len(),
        0 <= i < s.len() ==> discover::spaced(s)[i] == if s[i] == '\0' {
            ' '
        } else {
            s[i]
        },
{
}

// Containers

/// A line of a cgroup file names the path after its last colon.
pub proof fn lemma_cgroup_path(before: Seq<char>, path: Seq<char>)
    requires
        !path.contains(':'),
    ensures
        discover::cgroup_path(before + seq![':'] + path) == path,
        discover::cgroup_path(path) == path,
{
    reveal_strlit(":");
    assert(":"@ =~= seq![':']);
    let line = before + seq![':'] + path;
    let n = before.len() as int;
    texts::lemma_finds_last(line, ":"@);
    assert(line.subrange(n, n + 1) =~= ":"@);
    assert(text::occurs_at(line, ":"@, n));
    assert forall|j: int| #[trigger] text::occurs_at(line, ":"@, j) implies j <= n by {
        assert(line.subrange(j, j + 1)[0] == line[j]);
        if j > n {
            assert(path[j - n - 1] == ':');
            assert(path.contains(':'));
        }
    }
    assert(line.skip(n + 1) =~= path);
    texts::lemma_finds_last(path, ":"@);
    assert forall|j: int| !#[trigger] text::occurs_at(path, ":"@, j) by {
        if text::occurs_at(path, ":"@, j) {
            assert(path.subrange(j, j + 1)[0] == path[j]);
            assert(path.contains(':'));
        }
    }
}

/// A path names the container between its last `docker-` and the next dot.
pub proof fn lemma_docker_scope(before: Seq<char>, id: Seq<char>, after: Seq<char>)
    requires
        !id.contains('.'),
        after.len() > 0 ==> after[0] == '.',
        forall|j: int|
            j > before.len() ==> !#[trigger] text::occurs_at(
                before + "docker-"@ + id + after,
                "docker-"@,
                j,
            ),
    ensures
        discover::container_of(before + "docker-"@ + id + after) == Some(id),
{
    reveal_strlit("docker-");
    let path = before + "docker-"@ + id + after;
    let n = before.len() as int;
    texts::lemma_finds_last(path, "docker-"@);
    assert(path.subrange(n, n + 7) =~= "docker-"@);
    assert(text::occurs_at(path, "docker-"@, n));
    assert(text::rfind_text(path, "docker-"@) == Some(n));
    let rest = path.skip(n + 7);
    assert(rest =~= id + after);
    assert forall|j: int| 0 <= j < id.len() implies rest[j] != '.' by {
        assert(id.contains(id[j]));
    }
    text::lemma_find_char_unique(rest, '.', id.len() as int);
    assert(rest.take(id.len() as int) =~= id);
}

/// A path without `docker-` names the container after its last `/docker/`, in 64
/// characters at most.
pub proof fn lemma_docker_path(before: Seq<char>, id: Seq<char>)
    requires
        forall|j: int|
            !#[trigger] text::occurs_at(before + "/docker/"@ + id, "docker-"@, j),
        forall|j: int|
            j > before.len() ==> !#[trigger] text::occurs_at(
                before + "/docker/"@ + id,
                "/docker/"@,
                j,
            ),
    ensures
        discover::container_of(before + "/docker/"@ + id) == Some(
            if id.len() > 64 {
                id.take(64)
            } else {
                id
            },
        ),
{
    reveal_strlit("/docker/");
    let path = before + "/docker/"@ + id;
    let n = before.len() as int;
    texts::lemma_finds_last(path, "docker-"@);
    texts::lemma_finds_last(path, "/docker/"@);
    assert(path.subrange(n, n + 8) =~= "/docker/"@);
    assert(text::occurs_at(path, "/docker/"@, n));
    assert(path.skip(n + 8) =~= id);
}

/// The container of a cgroup file is that of its first line that names one.
pub proof fn lemma_first_container(lines: Seq<Seq<char>>, i: int, id: Seq<char>)
    requires
        0 <= i < lines.len(),
        discover::container_of(discover::cgroup_path(lines[i])) == Some(id),
        forall|j: int|
            0 <= j < i ==> discover::container_of(
                discover::cgroup_path(#[trigger] lines[j]),
            ) is None,
    ensures
        discover::first_container(lines) == Some(id),
    decreases lines.len(),
{
    if i > 0 {
        let rest = lines.drop_first();
        let first = lines[0];
        assert forall|j: int| 0 <= j < i - 1 implies discover::container_of(
            discover::cgroup_path(#[trigger] rest[j]),
        ) is None by {
            assert(rest[j] == lines[j + 1]);
        }
        assert(rest[i - 1] == lines[i]);
        lemma_first_container(rest, i - 1, id);
    }
}

/// A cgroup file none of whose lines names a container has none.
pub proof fn lemma_no_container(lines: Seq<Seq<char>>)
    requires
        forall|j: int|
            0 <= j < lines.len() ==> discover::container_of(
                discover::cgroup_path(#[trigger] lines[j]),
            ) is None,
    ensures
        discover::first_container(lines) is None,
    decreases lines.len(),
{
    if lines.len() > 0 {
        let rest = lines.drop_first();
        let first = lines[0];
        assert forall|j: int| 0 <= j < rest.len() implies discover::container_of(
            discover::cgroup_path(#[trigger] rest[j]),
        ) is None by {
            assert(rest[j] == lines[j + 1]);
        }
        lemma_no_container(rest);
    }
}

// The command line

/// A process that is named is the source, whatever else is given.
pub proof fn lemma_named_process(
    args: Args,
    cgroup: Option<Seq<char>>,
    r: Result<Source, RunError>,
    pid: i32,
)
    requires
        args.pid == Some(pid),
        cli::source_of(args, cgroup, r),
    ensures
        r == Ok::<Source, RunError>(Source::Pid(pid)),
{
}

/// Without a process, the source is the processes that match what is given of
/// the name and of the command line, both if both are given, and of the
/// profiler's container if that is asked for.
pub proof fn lemma_matching_processes(
    args: Args,
    cgroup: Option<Seq<char>>,
    r: Result<Source, RunError>,
)
    requires
        args.pid is None,
        args.pgrep is Some || args.cmdline is Some,
        cli::source_of(args, cgroup, r),
    ensures
        r matches Ok(source) ==> (source matches Source::Matching(f) && {
            &&& text::opt_string(f.name) == text::opt_string(args.pgrep)
            &&& text::opt_string(f.cmdline) == text::opt_string(args.cmdline)
            &&& !args.this_container ==> f.cgroup is None
            &&& args.this_container ==> cgroup is Some && discover::first_container(
                text::lines(cgroup->0),
            ) is Some && text::opt_string(f.cgroup) == discover::first_container(
                text::lines(cgroup->0),
            )
        }),
        r is Err <==> args.this_container && (cgroup is None || discover::first_container(
            text::lines(cgroup->0),
        ) is None),
        r matches Err(e) ==> e == RunError::NoContainer,
{
}

/// Where nothing says which processes, that is the error.
pub proof fn lemma_no_selection(
    args: Args,
    cgroup: Option<Seq<char>>,
    r: Result<Source, RunError>,
)
    requires
        args.pid is None,
        args.pgrep is None,
        args.cmdline is None,
        cli::source_of(args, cgroup, r),
    ensures
        r == Err::<Source, RunError>(RunError::NoSelection),
{
}

/// Samples are displayed live exactly where that is the format and they are not
/// pushed to a server.
pub proof fn lemma_mode(args: Args)
    ensures
        cli::mode_of(args) == Mode::Top <==> args.pyroscope_url is None && args.format
            == Format::Top,
{
}

/// A second has as many whole intervals as samples are to be taken in it, and no
/// longer interval would do. Zero counts as one.
pub proof fn lemma_interval(rate_hz: u32)
    ensures
        rate_hz > 0 ==> cli::interval_of(rate_hz) * rate_hz <= 1_000_000_000
            < (cli::interval_of(rate_hz) + 1) * rate_hz,
        cli::interval_of(0) == 1_000_000_000,
{
    if rate_hz > 0 {
        let n: int = 1_000_000_000;
        let d = rate_hz as int;
        vstd::arithmetic::div_mod::lemma_fundamental_div_mod(n, d);
        vstd::arithmetic::div_mod::lemma_mod_bound(n, d);
        let q = n / d;
        assert(0 <= q <= n) by {
            vstd::arithmetic::div_mod::lemma_div_pos_is_pos(n, d);
            vstd::arithmetic::div_mod::lemma_div_is_ordered_by_denominator(n, 1, d);
        }
        assert(cli::interval_of(rate_hz) == q);
        assert(q * d == d * q) by (nonlinear_arith);
        assert((q + 1) * d == d * q + d) by (nonlinear_arith);
    }
}

/// Zero seconds is never; any other number is that many.
pub proof fn lemma_seconds_given(secs: u64)
    ensures
        secs == 0 <==> cli::unless_zero(secs) is None,
        cli::unless_zero(secs) matches Some(s) ==> s == secs,
{
}

/// An address is read in hexadecimal digits of either case, with `0x` or `0X`
/// before them or without.
pub proof fn lemma_address(digits: Seq<char>, addr: u64)
    requires
        digits.len() > 0,
        texts::all_hex(digits),
        texts::hex_value(digits) == addr,
    ensures
        cli::hex_addr(digits) == Ok::<int, text::IntError>(addr as int),
        cli::hex_addr(seq!['0', 'x'] + digits) == Ok::<int, text::IntError>(addr as int),
        cli::hex_addr(seq!['0', 'X'] + digits) == Ok::<int, text::IntError>(addr as int),
{
    reveal_strlit("0x");
    reveal_strlit("0X");
    assert("0x"@ =~= seq!['0', 'x']);
    assert("0X"@ =~= seq!['0', 'X']);
    assert(texts::hex_digit(digits[0]) is Some);
    assert(texts::unsigned_digits(digits) == digits);
    texts::lemma_reads_hex(digits, u64::MAX as int);
    texts::lemma_occurs(digits, "0x"@, 0);
    texts::lemma_occurs(digits, "0X"@, 0);
    assert(!text::begins(digits, "0x"@) && !text::begins(digits, "0X"@)) by {
        if digits.len() >= 2 {
            assert(texts::hex_digit(digits[1]) is Some);
            assert(digits.subrange(0, 2)[1] == digits[1]);
            assert("0x"@[1] == 'x');
            assert("0X"@[1] == 'X');
        }
    }
    cli::lemma_prefix_is_optional(digits);
}

/// Only such a text is an address, but for a plus sign before its digits.
pub proof fn lemma_is_no_other_address(s: Seq<char>)
    requires
        cli::hex_addr(s) is Ok,
    ensures
        ({
            let digits = texts::unsigned_digits(
                if s.len() >= 2 && s[0] == '0' && (s[1] == 'x' || s[1] == 'X') {
                    s.skip(2)
                } else {
                    s
                },
            );
            digits.len() > 0 && texts::all_hex(digits) && cli::hex_addr(s) == Ok::<
                int,
                text::IntError,
            >(texts::hex_value(digits))
        }),
{
    reveal_strlit("0x");
    reveal_strlit("0X");
    assert("0x"@ =~= seq!['0', 'x']);
    assert("0X"@ =~= seq!['0', 'X']);
    if s.len() >= 2 {
        let two = s.subrange(0, 2);
        assert(two[0] == s[0] && two[1] == s[1]);
        if s[0] == '0' && s[1] == 'x' {
            assert(two =~= "0x"@);
        }
        if s[0] == '0' && s[1] == 'X' {
            assert(two =~= "0X"@);
        }
    }
    texts::lemma_reads_hex(s, u64::MAX as int);
    if s.len() >= 2 {
        texts::lemma_reads_hex(s.skip(2), u64::MAX as int);
    }
}

} // verus!
