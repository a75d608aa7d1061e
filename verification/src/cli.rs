//! What the command line asks for.

use crate::discover;
use crate::discover::ProcessFilter;
use crate::pyroscope;
use crate::pyroscope::PyroscopeConfig;
use crate::text;
use vstd::prelude::*;

verus! {

/// The output format.
#[derive(Debug, Clone, Copy, PartialEq, Eq, Structural)]
pub enum Format {
    /// One frame per line, blank line between samples.
    Stacks,
    /// Folded stacks, joined by semicolons.
    Folded,
    /// Gzipped pprof protobuf.
    Pprof,
    /// Live `top`-style display in the terminal.
    Top,
}

/// The command line.
#[derive(Debug, Clone)]
pub struct Args {
    /// The process to attach to.
    pub pid: Option<i32>,
    /// Discover processes whose `comm` contains this.
    pub pgrep: Option<String>,
    /// Discover processes whose `cmdline` contains this.
    pub cmdline: Option<String>,
    /// Restrict discovery to the profiler's own container.
    pub this_container: bool,
    /// Discover anew every so many seconds; 0 is never.
    pub rediscover_secs: u64,
    /// Samples per second.
    pub rate_hz: u32,
    /// Stop after so many seconds; 0 is never.
    pub duration_secs: u64,
    /// The deepest stack that is captured.
    pub max_depth: usize,
    pub format: Format,
    /// The output file; standard output if there is none.
    pub output: Option<String>,
    /// Push profiles to this Pyroscope server instead of writing them.
    pub pyroscope_url: Option<String>,
    pub pyroscope_app: String,
    /// Labels of the Pyroscope series, `key=value` each.
    pub pyroscope_label: Vec<String>,
    /// Seconds between pushes.
    pub push_interval_secs: u64,
    pub pyroscope_auth_token: Option<String>,
    pub pyroscope_tenant_id: Option<String>,
    /// Further request headers, `Name: value` each.
    pub pyroscope_header: Vec<String>,
    /// Capture the URI and the method of the request.
    pub request_info: bool,
    /// The PHP version, in place of the one that would be found.
    pub php_version: Option<String>,
    /// The address of `executor_globals`, in place of the one that would be found.
    pub executor_globals: Option<u64>,
}

/// The address that a text writes in hexadecimal, with or without `0x`.
pub open spec fn hex_addr(s: Seq<char>) -> Result<int, text::IntError> {
    let digits = if text::begins(s, "0x"@) || text::begins(s, "0X"@) {
        s.skip(2)
    } else {
        s
    };
    text::unsigned_value(digits, 16, u64::MAX as int)
}

/// The prefix may be left out, and its letter may be of either case.
pub proof fn lemma_prefix_is_optional(s: Seq<char>)
    requires
        !text::begins(s, "0x"@),
        !text::begins(s, "0X"@),
    ensures
        hex_addr("0x"@ + s) == hex_addr(s),
        hex_addr("0X"@ + s) == hex_addr(s),
{
    reveal_strlit("0x");
    reveal_strlit("0X");
    assert(("0x"@ + s).subrange(0, 2) =~= "0x"@);
    assert(("0X"@ + s).subrange(0, 2) =~= "0X"@);
    assert(("0x"@ + s).skip(2) =~= s);
    assert(("0X"@ + s).skip(2) =~= s);
}

/// Reads an address in hexadecimal.
pub fn parse_hex_addr(s: &str) -> (r: Result<u64, String>)
    ensures
        match r {
            Ok(addr) => hex_addr(s@) == Ok::<int, text::IntError>(addr as int),
            Err(message) => hex_addr(s@) matches Err(e) && message@ == "invalid hex address: "@
                + text::int_error_text(e),
        },
{
    let chars = text::chars_of(s);
    let lower = text::chars_of("0x");
    let upper = text::chars_of("0X");
    proof {
        reveal_strlit("0x");
        reveal_strlit("0X");
    }
    let from: usize = if text::starts_with(chars.as_slice(), lower.as_slice()) || text::starts_with(
        chars.as_slice(),
        upper.as_slice(),
    ) {
        2
    } else {
        0
    };
    let digits = vstd::slice::slice_subrange(chars.as_slice(), from, chars.len());
    assert(digits@ == s@.skip(from as int));
    assert(s@.skip(0) == s@);
    match text::parse_unsigned(digits, 16) {
        Ok(v) => Ok(v),
        Err(e) => {
            let mut message = String::new();
            message.append("invalid hex address: ");
            message.append(e.text());
            assert(message@ =~= "invalid hex address: "@ + text::int_error_text(e));
            Err(message)
        },
    }
}

/// Where samples come from.
pub enum Source {
    /// One process.
    Pid(i32),
    /// Every process that matches.
    Matching(ProcessFilter),
}

/// What is done with samples.
#[derive(Debug, Clone, Copy, PartialEq, Eq, Structural)]
pub enum Mode {
    /// They are displayed live.
    Top,
    /// They are written or pushed.
    Record,
}

/// What the command line asks to be done.
pub struct Plan {
    pub mode: Mode,
    pub source: Source,
    /// The time between samples, in nanoseconds.
    pub interval_nanos: u64,
    /// Stop after so many seconds.
    pub duration_secs: Option<u64>,
    /// Discover anew every so many seconds.
    pub rediscover_secs: Option<u64>,
}

/// Why nothing can be done.
#[derive(Debug, Clone, Copy, PartialEq, Eq, Structural)]
pub enum RunError {
    /// No process is selected.
    NoSelection,
    /// The profiler is to stay in its container, but is in none.
    NoContainer,
}

/// The message for an error.
pub open spec fn run_error_text(e: RunError) -> Seq<char> {
    match e {
        RunError::NoSelection => "must specify -p PID, -P PGREP, or --cmdline"@,
        RunError::NoContainer =>
            "--this-container set but no cgroup id detected (not in a container?)"@,
    }
}

impl RunError {
    /// Says what is wrong.
    pub fn text(self) -> (r: &'static str)
        ensures
            r@ == run_error_text(self),
    {
        match self {
            RunError::NoSelection => "must specify -p PID, -P PGREP, or --cmdline",
            RunError::NoContainer =>
                "--this-container set but no cgroup id detected (not in a container?)",
        }
    }
}

/// What is done with samples: they are displayed live where that is the format,
/// unless they are pushed to a server, for then the format is ignored.
pub open spec fn mode_of(args: Args) -> Mode {
    if args.pyroscope_url is None && args.format == Format::Top {
        Mode::Top
    } else {
        Mode::Record
    }
}

/// The time between samples at a rate; a rate of zero counts as one.
pub open spec fn interval_of(rate_hz: u32) -> u64 {
    if rate_hz == 0 {
        1_000_000_000
    } else {
        (1_000_000_000int / rate_hz as int) as u64
    }
}

/// A number of seconds, none for zero.
pub open spec fn unless_zero(secs: u64) -> Option<u64> {
    if secs == 0 {
        None
    } else {
        Some(secs)
    }
}

/// The container that discovery is restricted to, given the text of the
/// profiler's own cgroup file if it can be read.
pub open spec fn restriction(this_container: bool, cgroup: Option<Seq<char>>) -> Result<
    Option<Seq<char>>,
    RunError,
> {
    if !this_container {
        Ok(None)
    } else {
        match cgroup {
            None => Err(RunError::NoContainer),
            Some(cg) => match discover::first_container(text::lines(cg)) {
                Some(id) => Ok(Some(id)),
                None => Err(RunError::NoContainer),
            },
        }
    }
}

/// Whether a filter is for what the command line asks for.
pub open spec fn filter_of(args: Args, id: Option<Seq<char>>, f: ProcessFilter) -> bool {
    &&& text::opt_string(f.name) == text::opt_string(args.pgrep)
    &&& text::opt_string(f.cmdline) == text::opt_string(args.cmdline)
    &&& text::opt_string(f.cgroup) == id
}

/// Whether a source is the one that the command line asks for: the process that
/// it names, or else those that match.
pub open spec fn source_of(
    args: Args,
    cgroup: Option<Seq<char>>,
    r: Result<Source, RunError>,
) -> bool {
    match args.pid {
        Some(pid) => r == Ok::<Source, RunError>(Source::Pid(pid)),
        None => if args.pgrep is None && args.cmdline is None {
            r == Err::<Source, RunError>(RunError::NoSelection)
        } else {
            match restriction(args.this_container, cgroup) {
                Err(e) => r == Err::<Source, RunError>(e),
                Ok(id) => r matches Ok(Source::Matching(f)) && filter_of(args, id, f),
            }
        },
    }
}

fn pick_source(args: &Args, cgroup: Option<&str>) -> (r: Result<Source, RunError>)
    ensures
        source_of(
            *args,
            match cgroup {
                Some(cg) => Some(cg@),
                None => None,
            },
            r,
        ),
{
    if let Some(pid) = args.pid {
        return Ok(Source::Pid(pid));
    }
    if args.pgrep.is_none() && args.cmdline.is_none() {
        return Err(RunError::NoSelection);
    }
    let id: Option<String> = if args.this_container {
        match cgroup {
            None => return Err(RunError::NoContainer),
            Some(cg) => match discover::self_cgroup_id(cg) {
                Some(id) => Some(id),
                None => return Err(RunError::NoContainer),
            },
        }
    } else {
        None
    };
    Ok(
        Source::Matching(
            ProcessFilter {
                name: text::copied(&args.pgrep),
                cmdline: text::copied(&args.cmdline),
                cgroup: id,
            },
        ),
    )
}

/// What the command line asks to be done. `cgroup` is the text of the profiler's
/// own cgroup file, if it can be read; it is looked at only where discovery is
/// restricted to the profiler's container.
pub fn run(args: &Args, cgroup: Option<&str>) -> (r: Result<Plan, RunError>)
    ensures
        source_of(
            *args,
            match cgroup {
                Some(cg) => Some(cg@),
                None => None,
            },
            match r {
                Ok(plan) => Ok(plan.source),
                Err(e) => Err(e),
            },
        ),
        r matches Ok(plan) ==> plan.mode == mode_of(*args) && plan.interval_nanos == interval_of(
            args.rate_hz,
        ) && plan.duration_secs == unless_zero(args.duration_secs) && plan.rediscover_secs
            == unless_zero(args.rediscover_secs),
{
    let source = match pick_source(args, cgroup) {
        Ok(s) => s,
        Err(e) => return Err(e),
    };
    let rate: u64 = if args.rate_hz == 0 {
        1
    } else {
        args.rate_hz as u64
    };
    Ok(
        Plan {
            mode: if args.pyroscope_url.is_none() && args.format == Format::Top {
                Mode::Top
            } else {
                Mode::Record
            },
            source,
            interval_nanos: 1_000_000_000 / rate,
            duration_secs: if args.duration_secs == 0 {
                None
            } else {
                Some(args.duration_secs)
            },
            rediscover_secs: if args.rediscover_secs == 0 {
                None
            } else {
                Some(args.rediscover_secs)
            },
        },
    )
}

/// Where profiles are pushed to a server, neither the format nor the output file
/// changes what is done: samples of the same processes are recorded, at the same
/// times, and pushed in the same way.
pub proof fn lemma_pushing_ignores_format(
    a: Args,
    b: Args,
    cgroup: Option<Seq<char>>,
    r: Result<Source, RunError>,
    cfg: PyroscopeConfig,
)
    requires
        a.pyroscope_url is Some,
        b == (Args { format: b.format, output: b.output, ..a }),
    ensures
        mode_of(a) == Mode::Record,
        mode_of(b) == Mode::Record,
        source_of(a, cgroup, r) == source_of(b, cgroup, r),
        interval_of(a.rate_hz) == interval_of(b.rate_hz),
        unless_zero(a.duration_secs) == unless_zero(b.duration_secs),
        unless_zero(a.rediscover_secs) == unless_zero(b.rediscover_secs),
        pyroscope::configured(a, cfg) == pyroscope::configured(b, cfg),
{
}

} // verus!
