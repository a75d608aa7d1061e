//! A process that is being profiled.

use crate::arch::Arch;
use crate::offsets;
use crate::offsets::{LayoutOverrides, VersionLayout};
use crate::proc;
use crate::proc::MapEntry;
use crate::prologue;
use crate::prologue::PrologueError;
use crate::remote;
use crate::remote::{Memory, ReadError, Remote};
use crate::replies;
use crate::symbols;
use crate::symbols::{ResolveOptions, ResolveView, SymbolError, SymbolFault, Symbols};
use crate::text;
use crate::tls;
use crate::tls::ZtsError;
use crate::zend;
use crate::zend::{Cache, Frame, FrameView, StackWalker};
use vstd::prelude::*;

verus! {

/// What the user says of a target in place of what would be found.
pub struct AttachOptions<'a> {
    pub executor_globals: Option<u64>,
    pub php_version_addr: Option<u64>,
    pub php_version_string: Option<&'a str>,
}

impl<'a> AttachOptions<'a> {
    /// The version that the user gives.
    pub open spec fn version(&self) -> Option<Seq<char>> {
        match self.php_version_string {
            Some(s) => Some(s@),
            None => None,
        }
    }
}

impl<'a> Default for AttachOptions<'a> {
    fn default() -> (r: Self)
        ensures
            r.executor_globals is None,
            r.php_version_addr is None,
            r.php_version_string is None,
    {
        AttachOptions { executor_globals: None, php_version_addr: None, php_version_string: None }
    }
}

/// The file behind a process and where it is loaded.
pub struct Binary {
    pub path: String,
    pub load_base: u64,
}

/// Why a target was not attached to.
#[derive(Debug)]
pub enum AttachError {
    /// The binary lacks what is needed.
    Symbols(SymbolError),
    /// A read has no reply yet, or it failed.
    Read(ReadError),
    /// The `php_version` accessor was not recognised.
    Accessor(PrologueError),
    /// Nothing says which PHP version the target runs.
    NoVersion,
    /// The PHP version is not a supported one.
    UnsupportedVersion(String),
    /// The executor globals of a ZTS build were not found.
    Zts(ZtsError),
}

/// What an [`AttachError`] says.
pub ghost enum AttachFault {
    Symbols(Seq<char>, SymbolFault),
    Read(ReadError),
    Accessor(PrologueError),
    NoVersion,
    UnsupportedVersion(Seq<char>),
    Zts(ZtsError),
}

impl View for AttachError {
    type V = AttachFault;

    open spec fn view(&self) -> AttachFault {
        match *self {
            AttachError::Symbols(e) => AttachFault::Symbols(e.label@, e.fault),
            AttachError::Read(e) => AttachFault::Read(e),
            AttachError::Accessor(e) => AttachFault::Accessor(e),
            AttachError::NoVersion => AttachFault::NoVersion,
            AttachError::UnsupportedVersion(v) => AttachFault::UnsupportedVersion(v@),
            AttachError::Zts(e) => AttachFault::Zts(e),
        }
    }
}

impl AttachError {
    /// The read whose reply the attaching waits for.
    pub open spec fn awaited(&self) -> Option<(u64, usize)> {
        match *self {
            AttachError::Read(ReadError::Pending { addr, len }) => Some((addr, len)),
            AttachError::Zts(ZtsError::Read(ReadError::Pending { addr, len })) => Some((addr, len)),
            _ => None,
        }
    }

    /// The read that has to be made before attaching is tried again, if it is
    /// for want of one that it did not succeed.
    pub fn pending_read(&self) -> (r: Option<(u64, usize)>)
        ensures
            r == self.awaited(),
    {
        match self {
            AttachError::Read(ReadError::Pending { addr, len }) => Some((*addr, *len)),
            AttachError::Zts(ZtsError::Read(ReadError::Pending { addr, len })) => Some(
                (*addr, *len),
            ),
            _ => None,
        }
    }
}

/// What is done next where attaching did not succeed.
#[derive(Debug, Clone, Copy, PartialEq, Eq, Structural)]
pub enum AttachNext {
    /// This read is made, and attaching is tried again.
    Read { addr: u64, len: usize },
    /// The thread pointer of a task is read, and attaching is tried again.
    TlsBase,
    /// The error stands.
    Stop,
}

/// What is done next about an error: what is missing is supplied, the thread
/// pointer only if it has not been.
pub fn attach_next(e: &AttachError, has_base: bool) -> (r: AttachNext)
    ensures
        r == (match e.awaited() {
            Some((addr, len)) => AttachNext::Read { addr, len },
            None => if e@ == AttachFault::Zts(ZtsError::NeedTlsBase) && !has_base {
                AttachNext::TlsBase
            } else {
                AttachNext::Stop
            },
        }),
{
    match e.pending_read() {
        Some((addr, len)) => AttachNext::Read { addr, len },
        None => match e {
            AttachError::Zts(ZtsError::NeedTlsBase) => if has_base {
                AttachNext::Stop
            } else {
                AttachNext::TlsBase
            },
            _ => AttachNext::Stop,
        },
    }
}

/// The binary behind a process, from its memory maps.
pub fn locate_binary(maps: &[MapEntry]) -> (r: Option<Binary>)
    ensures
        match r {
            Some(b) => proc::principal(proc::entries_view(maps@)) matches Some(i) && b.load_base
                == maps@[i].start && maps@[i]@.path == Some(b.path@),
            None => proc::principal(proc::entries_view(maps@)) is None,
        },
{
    proof {
        proc::lemma_principal(proc::entries_view(maps@));
    }
    let entry = match proc::principal_binary(maps) {
        Some(m) => m,
        None => return None,
    };
    match &entry.path {
        Some(p) => Some(Binary { path: p.clone(), load_base: entry.start }),
        None => None,
    }
}

// The PHP version

/// How many bytes of the `php_version` accessor are read.
pub const ACCESSOR_LEN: usize = 20;

/// The longest version string that is read.
pub const MAX_VERSION_LEN: usize = 32;

/// The version string that the accessor at an address returns.
pub open spec fn php_version_at(mem: Memory, machine: Arch, fn_addr: u64) -> Result<
    Seq<char>,
    AttachFault,
> {
    match remote::fetch(mem, fn_addr, ACCESSOR_LEN) {
        Err(e) => Err(AttachFault::Read(e)),
        Ok(buf) => match prologue::accessor_target(machine, fn_addr, buf) {
            Err(e) => Err(AttachFault::Accessor(e)),
            Ok(str_addr) => match remote::fetch_cstring(mem, str_addr, MAX_VERSION_LEN) {
                Err(e) => Err(AttachFault::Read(e)),
                Ok(s) => Ok(s),
            },
        },
    }
}

/// Reads the version string of a target through its `php_version` accessor.
pub fn read_php_version(rem: &Remote, machine: Arch, fn_addr: u64) -> (r: Result<
    String,
    AttachError,
>)
    ensures
        match r {
            Ok(s) => php_version_at(rem@, machine, fn_addr) == Ok::<Seq<char>, AttachFault>(s@),
            Err(e) => php_version_at(rem@, machine, fn_addr) == Err::<Seq<char>, AttachFault>(e@),
        },
{
    let buf = match rem.read_vec(fn_addr, ACCESSOR_LEN) {
        Ok(b) => b,
        Err(e) => return Err(AttachError::Read(e)),
    };
    let str_addr: u64 = match prologue::decode_php_version_prologue(
        machine,
        fn_addr,
        buf.as_slice(),
    ) {
        Ok(a) => a,
        Err(e) => return Err(AttachError::Accessor(e)),
    };
    match rem.read_cstring(str_addr, MAX_VERSION_LEN) {
        Ok(s) => Ok(s),
        Err(e) => Err(AttachError::Read(e)),
    }
}

/// The PHP version of a target: as the user gives it, or else as the accessor
/// returns it, or else as the binary's read-only data has it.
pub open spec fn version_of(
    mem: Memory,
    machine: Arch,
    symbols: Symbols,
    literal: Option<Seq<char>>,
    given: Option<Seq<char>>,
) -> Result<Seq<char>, AttachFault> {
    match given {
        Some(s) => Ok(s),
        None => match symbols.php_version {
            Some(addr) => php_version_at(mem, machine, addr),
            None => match literal {
                Some(s) => Ok(s),
                None => Err(AttachFault::NoVersion),
            },
        },
    }
}

// Attaching

/// What is known of a target once it is attached to.
pub ghost struct Attachment {
    pub symbols: Symbols,
    pub php_version: Seq<char>,
    pub layout: VersionLayout,
}

/// The symbols of a target with the executor globals of a ZTS build found.
pub open spec fn located(
    mem: Memory,
    machine: Arch,
    symbols: Symbols,
    tls_base: Option<u64>,
) -> Result<Symbols, AttachFault> {
    match symbols.zts {
        Some(zts) => if symbols.executor_globals == 0 {
            match tls::zts_executor_globals(
                mem,
                machine,
                tls_base,
                zts.tcb_offset_fn,
                zts.eg_offset_var,
            ) {
                Err(e) => Err(AttachFault::Zts(e)),
                Ok(eg) => Ok(Symbols { executor_globals: eg, ..symbols }),
            }
        } else {
            Ok(symbols)
        },
        None => Ok(symbols),
    }
}

/// What attaching to a target with the given symbols finds.
pub open spec fn attachment(
    mem: Memory,
    machine: Arch,
    symbols: Symbols,
    literal: Option<Seq<char>>,
    tls_base: Option<u64>,
    given: Option<Seq<char>>,
    overrides: LayoutOverrides,
) -> Result<Attachment, AttachFault> {
    match version_of(mem, machine, symbols, literal, given) {
        Err(e) => Err(e),
        Ok(php_version) => match offsets::picked(php_version, overrides) {
            None => Err(AttachFault::UnsupportedVersion(php_version)),
            Some(layout) => match located(mem, machine, symbols, tls_base) {
                Err(e) => Err(e),
                Ok(symbols) => Ok(Attachment { symbols, php_version, layout }),
            },
        },
    }
}

/// What attaching finds, given the bytes of the binary.
pub open spec fn attachment_elf(
    bytes: Seq<u8>,
    host: Option<Arch>,
    resolve: ResolveView,
    mem: Memory,
    tls_base: Option<u64>,
    given: Option<Seq<char>>,
    overrides: LayoutOverrides,
) -> Result<Attachment, AttachFault> {
    match symbols::resolved_elf(bytes, host, resolve) {
        Err(fault) => Err(AttachFault::Symbols(resolve.label, fault)),
        Ok(symbols) => attachment(
            mem,
            host->0,
            symbols,
            symbols::version_literal(bytes),
            tls_base,
            given,
            overrides,
        ),
    }
}

/// How the symbols of a binary are resolved: a stripped one is allowed where the
/// user gives the executor globals or the version.
pub open spec fn resolve_view(binary: Binary, opts: AttachOptions) -> ResolveView {
    ResolveView {
        load_base: binary.load_base,
        executor_globals_override: opts.executor_globals,
        php_version_override: opts.php_version_addr,
        allow_stripped: opts.executor_globals is Some || opts.php_version_string is Some,
        label: binary.path@,
    }
}

// Stacks

/// The frames from the one at `ex` on, down to `depth` of them, and what is
/// remembered after reading them. A frame that cannot be read ends the stack.
pub open spec fn stack_from(
    cache: Cache,
    mem: Memory,
    ex: u64,
    layout: VersionLayout,
    depth: nat,
) -> (Result<Seq<FrameView>, ReadError>, Cache)
    decreases depth,
{
    if ex == 0 || depth == 0 {
        (Ok(Seq::empty()), cache)
    } else {
        let (frame, after) = zend::frame_at(cache, mem, ex, layout);
        match frame {
            Err(ReadError::Failed { .. }) => (Ok(Seq::empty()), after),
            Err(e) => (Err(e), after),
            Ok((frame, prev)) => joined(
                seq![frame],
                stack_from(after, mem, prev, layout, (depth - 1) as nat),
            ),
        }
    }
}

/// An outcome with frames put before those it has.
pub open spec fn joined(
    head: Seq<FrameView>,
    tail: (Result<Seq<FrameView>, ReadError>, Cache),
) -> (Result<Seq<FrameView>, ReadError>, Cache) {
    match tail.0 {
        Ok(frames) => (Ok(head + frames), tail.1),
        Err(e) => (Err(e), tail.1),
    }
}

/// The call stack of a target, innermost frame first, and what is remembered
/// after reading it.
pub open spec fn captured(
    cache: Cache,
    mem: Memory,
    executor_globals: u64,
    layout: VersionLayout,
    max_depth: nat,
) -> (Result<Seq<FrameView>, ReadError>, Cache) {
    match remote::fetch_u64(mem, executor_globals.wrapping_add(layout.eg_current_execute_data)) {
        Err(e) => (Err(e), cache),
        Ok(ex) => stack_from(cache, mem, ex, layout, max_depth),
    }
}

// Walks

/// A walk along a stack that may stop for want of a reply and be taken up again.
pub struct Walk {
    /// The frames that have been read.
    pub frames: Vec<Frame>,
    /// The address of the next frame, 0 after the last; `None` if the walk has
    /// not begun.
    pub ex: Option<u64>,
    /// How many frames may still be read.
    pub left: usize,
}

/// What a [`Walk`] says.
#[verifier::ext_equal]
pub ghost struct WalkView {
    pub frames: Seq<FrameView>,
    pub ex: Option<u64>,
    pub left: nat,
}

impl View for Walk {
    type V = WalkView;

    open spec fn view(&self) -> WalkView {
        WalkView {
            frames: zend::frames_view(self.frames@),
            ex: self.ex,
            left: self.left as nat,
        }
    }
}

/// A walk that has not begun.
pub open spec fn fresh_walk(max_depth: nat) -> WalkView {
    WalkView { frames: Seq::empty(), ex: None, left: max_depth }
}

impl Walk {
    /// A walk of up to `max_depth` frames that has not begun.
    pub fn new(max_depth: usize) -> (r: Self)
        ensures
            r@ == fresh_walk(max_depth as nat),
    {
        let r = Walk { frames: Vec::with_capacity(16), ex: None, left: max_depth };
        assert(r@ =~= fresh_walk(max_depth as nat));
        r
    }
}

/// The stack that a walk comes to, and what is remembered then.
pub open spec fn walked(
    cache: Cache,
    mem: Memory,
    executor_globals: u64,
    layout: VersionLayout,
    walk: WalkView,
) -> (Result<Seq<FrameView>, ReadError>, Cache) {
    match walk.ex {
        None => joined(walk.frames, captured(cache, mem, executor_globals, layout, walk.left)),
        Some(ex) => joined(walk.frames, stack_from(cache, mem, ex, layout, walk.left)),
    }
}

/// A walk from the beginning comes to the whole stack.
pub proof fn lemma_fresh_walk(
    cache: Cache,
    mem: Memory,
    executor_globals: u64,
    layout: VersionLayout,
    max_depth: nat,
)
    ensures
        walked(cache, mem, executor_globals, layout, fresh_walk(max_depth)) == captured(
            cache,
            mem,
            executor_globals,
            layout,
            max_depth,
        ),
{
    let all = captured(cache, mem, executor_globals, layout, max_depth);
    if let Ok(frames) = all.0 {
        assert(Seq::<FrameView>::empty() + frames =~= frames);
    }
}

/// Whether a walk comes to the same stack as another one, with the replies there
/// are and with any more.
pub open spec fn leads_on(
    cache: Cache,
    walk: WalkView,
    cache_after: Cache,
    walk_after: WalkView,
    mem: Memory,
    executor_globals: u64,
    layout: VersionLayout,
) -> bool {
    forall|more: Memory| #[trigger]
        remote::extends(more, mem) ==> walked(
            cache_after,
            more,
            executor_globals,
            layout,
            walk_after,
        ).0 == walked(cache, more, executor_globals, layout, walk).0
}

/// A process that is being profiled.
pub struct Target {
    pub pid: i32,
    pub remote: Remote,
    pub symbols: Symbols,
    pub php_version: String,
    pub layout: VersionLayout,
    pub exe: String,
    pub walker: StackWalker,
}

impl Target {
    /// Whether the fields of a function lie within what is read of it.
    pub open spec fn well_formed(&self) -> bool {
        self.layout.fits()
    }

    /// The strings that are remembered of the target.
    pub open spec fn cache(&self) -> Cache {
        self.walker@
    }

    /// What is known of the target.
    pub open spec fn found(&self) -> Attachment {
        Attachment {
            symbols: self.symbols,
            php_version: self.php_version@,
            layout: self.layout,
        }
    }

    /// Whether the target is the same as another, but for the strings that are
    /// remembered of it.
    pub open spec fn is_still(&self, other: Target) -> bool {
        &&& self.pid == other.pid
        &&& self.remote == other.remote
        &&& self.found() == other.found()
        &&& self.exe@ == other.exe@
    }

    /// The stack that a walk comes to, and what is remembered then.
    pub open spec fn walk_outcome(&self, walk: WalkView) -> (
        Result<Seq<FrameView>, ReadError>,
        Cache,
    ) {
        walked(
            self.cache(),
            self.remote@,
            self.symbols.executor_globals,
            self.layout,
            walk,
        )
    }

    /// The call stack, and what is remembered after reading it.
    pub open spec fn stack_outcome(&self, max_depth: nat) -> (
        Result<Seq<FrameView>, ReadError>,
        Cache,
    ) {
        captured(
            self.cache(),
            self.remote@,
            self.symbols.executor_globals,
            self.layout,
            max_depth,
        )
    }

    /// Attaches to a target whose symbols are resolved. `literal` is the version
    /// that its binary holds, which is looked at last. Nothing of the target's
    /// memory is kept.
    pub fn attach_resolved(
        pid: i32,
        machine: Arch,
        exe: &str,
        symbols: Symbols,
        literal: Option<String>,
        rem: &Remote,
        tls_base: Option<u64>,
        opts: &AttachOptions<'_>,
        overrides: &LayoutOverrides,
    ) -> (r: Result<Self, AttachError>)
        ensures
            match r {
                Ok(t) => attachment(
                    rem@,
                    machine,
                    symbols,
                    text::opt_string(literal),
                    tls_base,
                    opts.version(),
                    *overrides,
                ) == Ok::<Attachment, AttachFault>(t.found()) && t.pid == pid && t.exe@ == exe@
                    && t.remote@ == Memory::empty() && t.remote.process() == pid && t.cache()
                    == Cache::empty() && t.well_formed(),
                Err(e) => attachment(
                    rem@,
                    machine,
                    symbols,
                    text::opt_string(literal),
                    tls_base,
                    opts.version(),
                    *overrides,
                ) == Err::<Attachment, AttachFault>(e@),
            },
    {
        let php_version: String = match opts.php_version_string {
            Some(s) => s.to_string(),
            None => match symbols.php_version {
                Some(addr) => match read_php_version(rem, machine, addr) {
                    Ok(s) => s,
                    Err(e) => return Err(e),
                },
                None => match literal {
                    Some(s) => s,
                    None => return Err(AttachError::NoVersion),
                },
            },
        };
        let layout: VersionLayout = match offsets::pick(php_version.as_str(), overrides) {
            Some(l) => l,
            None => return Err(AttachError::UnsupportedVersion(php_version)),
        };
        let mut found: Symbols = symbols;
        if let Some(zts) = symbols.zts {
            if symbols.executor_globals == 0 {
                match tls::resolve_zts_executor_globals(
                    rem,
                    machine,
                    tls_base,
                    zts.tcb_offset_fn,
                    zts.eg_offset_var,
                ) {
                    Ok(eg) => {
                        found.executor_globals = eg;
                    },
                    Err(e) => return Err(AttachError::Zts(e)),
                }
            }
        }
        Ok(
            Target {
                pid,
                remote: Remote::new(pid),
                symbols: found,
                php_version,
                layout,
                exe: exe.to_string(),
                walker: StackWalker::new(),
            },
        )
    }

    /// Attaches to a process, from the bytes of its binary and the replies to
    /// the reads made so far. Where a reply is missing the error says which;
    /// attaching is then tried again.
    pub fn attach(
        pid: i32,
        host: Option<Arch>,
        binary: &Binary,
        elf_bytes: &[u8],
        rem: &Remote,
        tls_base: Option<u64>,
        opts: &AttachOptions<'_>,
        overrides: &LayoutOverrides,
    ) -> (r: Result<Self, AttachError>)
        ensures
            match r {
                Ok(t) => attachment_elf(
                    elf_bytes@,
                    host,
                    resolve_view(*binary, *opts),
                    rem@,
                    tls_base,
                    opts.version(),
                    *overrides,
                ) == Ok::<Attachment, AttachFault>(t.found()) && t.pid == pid && t.exe@
                    == binary.path@ && t.remote@ == Memory::empty() && t.remote.process() == pid
                    && t.cache() == Cache::empty() && t.well_formed(),
                Err(e) => attachment_elf(
                    elf_bytes@,
                    host,
                    resolve_view(*binary, *opts),
                    rem@,
                    tls_base,
                    opts.version(),
                    *overrides,
                ) == Err::<Attachment, AttachFault>(e@),
            },
    {
        let label: &str = binary.path.as_str();
        let resolve_opts = ResolveOptions {
            load_base: binary.load_base,
            executor_globals_override: opts.executor_globals,
            php_version_override: opts.php_version_addr,
            allow_stripped: opts.executor_globals.is_some() || opts.php_version_string.is_some(),
            label,
        };
        assert(resolve_opts@ == resolve_view(*binary, *opts));
        let symbols: Symbols = match symbols::resolve(elf_bytes, host, &resolve_opts) {
            Ok(s) => s,
            Err(e) => return Err(AttachError::Symbols(e)),
        };
        let machine: Arch = match host {
            Some(m) => m,
            None => return Err(AttachError::NoVersion),
        };
        // Only a binary that does not say its version otherwise is scanned.
        let literal: Option<String> = if opts.php_version_string.is_none()
            && symbols.php_version.is_none() {
            symbols::find_php_version_in_elf(elf_bytes)
        } else {
            None
        };
        Self::attach_resolved(
            pid,
            machine,
            label,
            symbols,
            literal,
            rem,
            tls_base,
            opts,
            overrides,
        )
    }

    /// Begins a walk: finds the frame that is running.
    fn begin(&self, walk: &mut Walk) -> (r: Result<u64, ReadError>)
        requires
            old(walk).ex is None,
        ensures
            match r {
                Ok(ex) => final(walk)@ == (WalkView { ex: Some(ex), ..old(walk)@ })
                    && forall|more: Memory| #[trigger]
                    remote::extends(more, self.remote@) ==> walked(
                        self.cache(),
                        more,
                        self.symbols.executor_globals,
                        self.layout,
                        final(walk)@,
                    ) == walked(
                        self.cache(),
                        more,
                        self.symbols.executor_globals,
                        self.layout,
                        old(walk)@,
                    ),
                Err(e) => *final(walk) == *old(walk) && walked(
                    self.cache(),
                    self.remote@,
                    self.symbols.executor_globals,
                    self.layout,
                    old(walk)@,
                ) == (Err::<Seq<FrameView>, ReadError>(e), self.cache()),
            },
    {
        match zend::current_execute_data(
            &self.remote,
            self.symbols.executor_globals,
            &self.layout,
        ) {
            Ok(ex) => {
                walk.ex = Some(ex);
                proof {
                    assert(walk@ =~= WalkView { ex: Some(ex), ..old(walk)@ });
                    assert forall|more: Memory| #[trigger]
                        remote::extends(more, self.remote@) implies remote::fetch_u64(
                        more,
                        self.symbols.executor_globals.wrapping_add(
                            self.layout.eg_current_execute_data,
                        ),
                    ) == Ok::<u64, ReadError>(ex) by {
                        remote::lemma_fetch_stable(
                            self.remote@,
                            more,
                            self.symbols.executor_globals.wrapping_add(
                                self.layout.eg_current_execute_data,
                            ),
                            8,
                        );
                    }
                }
                Ok(ex)
            },
            Err(e) => Err(e),
        }
    }

    /// Goes on with a walk to its end, or to the first reply that is missing. A
    /// frame that cannot be read ends the stack. The walk is left such that
    /// going on with it, with more replies, comes to the same.
    pub fn walk_on(&mut self, walk: &mut Walk) -> (r: Result<(), ReadError>)
        requires
            old(self).well_formed(),
        ensures
            final(self).is_still(*old(self)),
            final(self).cache() == old(self).walk_outcome(old(walk)@).1,
            match r {
                Ok(_) => old(self).walk_outcome(old(walk)@).0 == Ok::<Seq<FrameView>, ReadError>(
                    final(walk)@.frames,
                ) && final(walk).ex == Some(0u64),
                Err(e) => old(self).walk_outcome(old(walk)@).0 == Err::<Seq<FrameView>, ReadError>(
                    e,
                ),
            },
            leads_on(
                old(self).cache(),
                old(walk)@,
                final(self).cache(),
                final(walk)@,
                old(self).remote@,
                old(self).symbols.executor_globals,
                old(self).layout,
            ),
    {
        let ghost eg = self.symbols.executor_globals;
        let ghost mem = self.remote@;
        let ghost layout = self.layout;
        let ghost cache0 = self.cache();
        let ghost walk0 = walk@;
        let mut ex: u64 = match walk.ex {
            Some(ex) => ex,
            None => match self.begin(walk) {
                Ok(ex) => ex,
                Err(e) => return Err(e),
            },
        };
        while ex != 0 && walk.left > 0
            invariant
                walk.ex == Some(ex),
                self.layout == layout,
                layout.fits(),
                self.remote == old(self).remote,
                mem == self.remote@,
                self.symbols == old(self).symbols,
                eg == self.symbols.executor_globals,
                self.php_version == old(self).php_version,
                self.layout == old(self).layout,
                self.pid == old(self).pid,
                self.exe == old(self).exe,
                cache0 == old(self).cache(),
                walk0 == old(walk)@,
                forall|more: Memory| #[trigger]
                    remote::extends(more, mem) ==> walked(self.cache(), more, eg, layout, walk@)
                        == walked(cache0, more, eg, layout, walk0),
            decreases walk.left,
        {
            let ghost cache1 = self.cache();
            let ghost walk1 = walk@;
            assert(remote::extends(mem, mem));
            match self.walker.read_frame(&self.remote, ex, &self.layout) {
                Ok((frame, prev)) => {
                    walk.frames.push(frame);
                    walk.ex = Some(prev);
                    walk.left = walk.left - 1;
                    proof {
                        assert(walk@.frames =~= walk1.frames.push(frame@));
                        assert forall|more: Memory| #[trigger]
                            remote::extends(more, mem) implies walked(
                            self.cache(),
                            more,
                            eg,
                            layout,
                            walk@,
                        ) == walked(cache0, more, eg, layout, walk0) by {
                            replies::lemma_frame(cache1, mem, more, ex, layout);
                            let rest = stack_from(self.cache(), more, prev, layout, walk@.left);
                            if let Ok(tail) = rest.0 {
                                assert(walk1.frames + (seq![frame@] + tail) =~= walk@.frames
                                    + tail);
                            }
                            assert(walked(self.cache(), more, eg, layout, walk@) == walked(
                                cache1,
                                more,
                                eg,
                                layout,
                                walk1,
                            ));
                        }
                    }
                    ex = prev;
                },
                Err(ReadError::Failed { .. }) => {
                    walk.ex = Some(0);
                    proof {
                        assert(walk@.frames + Seq::<FrameView>::empty() =~= walk@.frames);
                        assert forall|more: Memory| #[trigger]
                            remote::extends(more, mem) implies walked(
                            self.cache(),
                            more,
                            eg,
                            layout,
                            walk@,
                        ).0 == walked(cache0, more, eg, layout, walk0).0 by {
                            replies::lemma_frame(cache1, mem, more, ex, layout);
                        }
                    }
                    return Ok(());
                },
                Err(e) => {
                    proof {
                        replies::lemma_frame(cache1, mem, mem, ex, layout);
                        assert forall|more: Memory| #[trigger]
                            remote::extends(more, mem) implies walked(
                            self.cache(),
                            more,
                            eg,
                            layout,
                            walk@,
                        ).0 == walked(cache0, more, eg, layout, walk0).0 by {
                            replies::lemma_frame(cache1, mem, more, ex, layout);
                            replies::lemma_same_stack(
                                cache1,
                                self.cache(),
                                more,
                                ex,
                                layout,
                                walk@.left,
                            );
                        }
                    }
                    return Err(e);
                },
            }
        }
        walk.ex = Some(0);
        proof {
            assert(remote::extends(mem, mem));
            assert(walk@.frames + Seq::<FrameView>::empty() =~= walk@.frames);
        }
        Ok(())
    }

    /// Captures the call stack, innermost frame first, down to `max_depth`
    /// frames. A frame that cannot be read ends the stack.
    pub fn capture_stack(&mut self, max_depth: usize) -> (r: Result<Vec<Frame>, ReadError>)
        requires
            old(self).well_formed(),
        ensures
            final(self).is_still(*old(self)),
            final(self).cache() == old(self).stack_outcome(max_depth as nat).1,
            match r {
                Ok(frames) => old(self).stack_outcome(max_depth as nat).0 == Ok::<
                    Seq<FrameView>,
                    ReadError,
                >(zend::frames_view(frames@)),
                Err(e) => old(self).stack_outcome(max_depth as nat).0 == Err::<
                    Seq<FrameView>,
                    ReadError,
                >(e),
            },
    {
        let mut walk = Walk::new(max_depth);
        proof {
            lemma_fresh_walk(
                self.cache(),
                self.remote@,
                self.symbols.executor_globals,
                self.layout,
                max_depth as nat,
            );
        }
        match self.walk_on(&mut walk) {
            Ok(_) => Ok(walk.frames),
            Err(e) => Err(e),
        }
    }

    /// Looks up a key in `$_SERVER`. `None` if there is no string under it, or
    /// if what leads to it cannot be read.
    pub fn request_var(&self, key: &str) -> (r: Result<Option<String>, ReadError>)
        ensures
            match r {
                Ok(s) => request_variable(
                    self.remote@,
                    self.symbols.executor_globals,
                    self.layout,
                    key@,
                ) == Ok::<Option<Seq<char>>, ReadError>(text::opt_string(s)),
                Err(e) => request_variable(
                    self.remote@,
                    self.symbols.executor_globals,
                    self.layout,
                    key@,
                ) == Err::<Option<Seq<char>>, ReadError>(e),
            },
    {
        match request_var_impl(self, key) {
            Err(ReadError::Failed { .. }) => Ok(None),
            r => r,
        }
    }
}

// Request variables

/// The name of the global that holds the request variables.
pub const SERVER: &'static str = "_SERVER";

/// The first bucket from index `i` on that is the one of `$_SERVER`.
pub open spec fn server_bucket(mem: Memory, ar_data: u64, i: u64, limit: u64) -> Result<
    Option<u64>,
    ReadError,
>
    decreases limit - i,
{
    if i >= limit {
        Ok(None)
    } else {
        let bucket = zend::bucket_at(ar_data, i);
        match zend::bucket_has_key(mem, bucket, SERVER@) {
            Err(e) => Err(e),
            Ok(true) => Ok(Some(bucket)),
            Ok(false) => server_bucket(mem, ar_data, (i + 1) as u64, limit),
        }
    }
}

/// The hash table that a bucket holds or refers to, 0 if it holds none.
pub open spec fn table_in_bucket(mem: Memory, bucket: u64) -> Result<u64, ReadError> {
    let zval = bucket.wrapping_add(offsets::BUCKET_VAL);
    match remote::fetch_u32(mem, zval.wrapping_add(offsets::ZVAL_TYPE_INFO)) {
        Err(e) => Err(e),
        Ok(type_info) => if zend::tag_of(type_info) == offsets::IS_REFERENCE {
            match remote::fetch_u64(mem, zval.wrapping_add(offsets::ZVAL_VALUE)) {
                Err(e) => Err(e),
                Ok(r) => remote::fetch_u64(
                    mem,
                    r.wrapping_add(offsets::REFERENCE_VAL).wrapping_add(offsets::ZVAL_VALUE),
                ),
            }
        } else if zend::tag_of(type_info) == offsets::IS_ARRAY {
            remote::fetch_u64(mem, zval.wrapping_add(offsets::ZVAL_VALUE))
        } else {
            Ok(0)
        },
    }
}

/// The address of the table of `$_SERVER` among the globals, 0 if there is none.
pub open spec fn server_table(mem: Memory, symbol_table: u64) -> Result<u64, ReadError> {
    match remote::fetch_u32(mem, symbol_table.wrapping_add(offsets::HT_N_NUM_USED)) {
        Err(e) => Err(e),
        Ok(n_used) => match remote::fetch_u64(
            mem,
            symbol_table.wrapping_add(offsets::HT_AR_DATA),
        ) {
            Err(e) => Err(e),
            Ok(ar_data) => if ar_data == 0 {
                Ok(0)
            } else {
                match server_bucket(mem, ar_data, 0, zend::bucket_limit(n_used)) {
                    Err(e) => Err(e),
                    Ok(None) => Ok(0),
                    Ok(Some(bucket)) => table_in_bucket(mem, bucket),
                }
            },
        },
    }
}

/// The string under a key of `$_SERVER`, with the reads that failed on the way.
pub open spec fn server_string(
    mem: Memory,
    executor_globals: u64,
    layout: VersionLayout,
    key: Seq<char>,
) -> Result<Option<Seq<char>>, ReadError> {
    match server_table(mem, executor_globals.wrapping_add(layout.eg_symbol_table)) {
        Err(e) => Err(e),
        Ok(table) => if table == 0 {
            Ok(None)
        } else {
            zend::string_in_table(mem, table, key)
        },
    }
}

/// The string under a key of `$_SERVER`. A read that failed leaves it absent.
pub open spec fn request_variable(
    mem: Memory,
    executor_globals: u64,
    layout: VersionLayout,
    key: Seq<char>,
) -> Result<Option<Seq<char>>, ReadError> {
    match server_string(mem, executor_globals, layout, key) {
        Err(ReadError::Failed { .. }) => Ok(None),
        r => r,
    }
}

fn read_table(rem: &Remote, bucket: u64) -> (r: Result<u64, ReadError>)
    ensures
        r == table_in_bucket(rem@, bucket),
{
    let zval: u64 = bucket.wrapping_add(offsets::BUCKET_VAL);
    let type_info: u32 = match rem.read_u32(zval.wrapping_add(offsets::ZVAL_TYPE_INFO)) {
        Ok(t) => t,
        Err(e) => return Err(e),
    };
    let tag: u8 = (type_info % 256) as u8;
    if tag == offsets::IS_REFERENCE {
        match rem.read_u64(zval.wrapping_add(offsets::ZVAL_VALUE)) {
            Ok(r) => rem.read_u64(
                r.wrapping_add(offsets::REFERENCE_VAL).wrapping_add(offsets::ZVAL_VALUE),
            ),
            Err(e) => Err(e),
        }
    } else if tag == offsets::IS_ARRAY {
        rem.read_u64(zval.wrapping_add(offsets::ZVAL_VALUE))
    } else {
        Ok(0)
    }
}

fn find_server(rem: &Remote, symbol_table: u64) -> (r: Result<u64, ReadError>)
    ensures
        r == server_table(rem@, symbol_table),
{
    let n_used: u32 = match rem.read_u32(symbol_table.wrapping_add(offsets::HT_N_NUM_USED)) {
        Ok(n) => n,
        Err(e) => return Err(e),
    };
    let ar_data: u64 = match rem.read_u64(symbol_table.wrapping_add(offsets::HT_AR_DATA)) {
        Ok(p) => p,
        Err(e) => return Err(e),
    };
    if ar_data == 0 {
        return Ok(0);
    }
    let limit: u64 = if (n_used as u64) < zend::MAX_BUCKETS {
        n_used as u64
    } else {
        zend::MAX_BUCKETS
    };
    let mut i: u64 = 0;
    while i < limit
        invariant
            i <= limit <= zend::MAX_BUCKETS,
            server_table(rem@, symbol_table) == match server_bucket(rem@, ar_data, i, limit) {
                Err(e) => Err(e),
                Ok(None) => Ok(0),
                Ok(Some(bucket)) => table_in_bucket(rem@, bucket),
            },
        decreases limit - i,
    {
        let bucket: u64 = ar_data.wrapping_add(i * offsets::BUCKET_SIZE);
        match zend::has_key(rem, bucket, SERVER) {
            Ok(true) => return read_table(rem, bucket),
            Ok(false) => {},
            Err(e) => return Err(e),
        }
        i = i + 1;
    }
    Ok(0)
}

fn request_var_impl(t: &Target, key: &str) -> (r: Result<Option<String>, ReadError>)
    ensures
        match r {
            Ok(s) => server_string(t.remote@, t.symbols.executor_globals, t.layout, key@) == Ok::<
                Option<Seq<char>>,
                ReadError,
            >(text::opt_string(s)),
            Err(e) => server_string(t.remote@, t.symbols.executor_globals, t.layout, key@) == Err::<
                Option<Seq<char>>,
                ReadError,
            >(e),
        },
{
    let symbol_table: u64 = t.symbols.executor_globals.wrapping_add(t.layout.eg_symbol_table);
    let table: u64 = match find_server(&t.remote, symbol_table) {
        Ok(p) => p,
        Err(e) => return Err(e),
    };
    if table == 0 {
        return Ok(None);
    }
    zend::ht_get_string(&t.remote, table, key)
}

} // verus!
