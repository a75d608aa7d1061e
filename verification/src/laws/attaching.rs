//! What attaching to a target finds.

use crate::arch::Arch;
use crate::cli::Args;
use crate::offsets;
use crate::offsets::{LayoutOverrides, VersionLayout};
use crate::remote::Memory;
use crate::sampler;
use crate::symbols;
use crate::symbols::{ResolveView, SymbolFault, Symbols};
use crate::target;
use crate::target::{AttachFault, AttachOptions, Attachment, Binary};
use crate::tls;
use crate::tls::ZtsError;
use vstd::prelude::*;

verus! {

/// The version is the one that the user gives, or else the accessor's, or else
/// the binary's; without any of them there is none.
pub proof fn lemma_version(
    mem: Memory,
    machine: Arch,
    symbols: Symbols,
    literal: Option<Seq<char>>,
    v: Seq<char>,
    accessor: u64,
)
    ensures
        target::version_of(mem, machine, symbols, literal, Some(v)) == Ok::<
            Seq<char>,
            AttachFault,
        >(v),
        symbols.php_version == Some(accessor) ==> target::version_of(
            mem,
            machine,
            symbols,
            literal,
            None,
        ) == target::php_version_at(mem, machine, accessor),
        symbols.php_version is None ==> target::version_of(mem, machine, symbols, Some(v), None)
            == Ok::<Seq<char>, AttachFault>(v),
        symbols.php_version is None ==> target::version_of(mem, machine, symbols, None, None)
            == Err::<Seq<char>, AttachFault>(AttachFault::NoVersion),
{
}

/// Attaching finds the version, the layout of that version, and the symbols as
/// they were resolved; of a thread-safe build whose executor globals are not
/// given, it finds those of a thread.
pub proof fn lemma_attaches(
    mem: Memory,
    machine: Arch,
    symbols: Symbols,
    literal: Option<Seq<char>>,
    tls_base: Option<u64>,
    given: Option<Seq<char>>,
    overrides: LayoutOverrides,
    v: Seq<char>,
    layout: VersionLayout,
    globals: u64,
)
    requires
        target::version_of(mem, machine, symbols, literal, given) == Ok::<Seq<char>, AttachFault>(
            v,
        ),
        offsets::picked(v, overrides) == Some(layout),
    ensures
        symbols.zts is None || symbols.executor_globals != 0 ==> target::attachment(
            mem,
            machine,
            symbols,
            literal,
            tls_base,
            given,
            overrides,
        ) == Ok::<Attachment, AttachFault>(Attachment { symbols, php_version: v, layout }),
        symbols.executor_globals == 0 && (symbols.zts matches Some(zts)
            && tls::zts_executor_globals(
            mem,
            machine,
            tls_base,
            zts.tcb_offset_fn,
            zts.eg_offset_var,
        ) == Ok::<u64, ZtsError>(globals)) ==> target::attachment(
            mem,
            machine,
            symbols,
            literal,
            tls_base,
            given,
            overrides,
        ) == Ok::<Attachment, AttachFault>(
            Attachment {
                symbols: Symbols {
                    executor_globals: globals,
                    php_version: symbols.php_version,
                    zts: symbols.zts,
                },
                php_version: v,
                layout,
            },
        ),
{
}

/// A target of a version that has no layout is refused with that version.
pub proof fn lemma_unsupported(
    mem: Memory,
    machine: Arch,
    symbols: Symbols,
    literal: Option<Seq<char>>,
    tls_base: Option<u64>,
    v: Seq<char>,
    overrides: LayoutOverrides,
)
    requires
        offsets::picked(v, overrides) is None,
    ensures
        target::attachment(mem, machine, symbols, literal, tls_base, Some(v), overrides) == Err::<
            Attachment,
            AttachFault,
        >(AttachFault::UnsupportedVersion(v)),
{
}

/// Attaching to a binary goes by its symbols and the version that it holds; what
/// is wrong with its symbols is the error, with the binary's name.
pub proof fn lemma_attaches_binary(
    bytes: Seq<u8>,
    host: Arch,
    resolve: ResolveView,
    mem: Memory,
    tls_base: Option<u64>,
    given: Option<Seq<char>>,
    overrides: LayoutOverrides,
    found: Symbols,
    fault: SymbolFault,
)
    ensures
        symbols::resolved_elf(bytes, Some(host), resolve) == Ok::<Symbols, SymbolFault>(found)
            ==> target::attachment_elf(
            bytes,
            Some(host),
            resolve,
            mem,
            tls_base,
            given,
            overrides,
        ) == target::attachment(
            mem,
            host,
            found,
            symbols::version_literal(bytes),
            tls_base,
            given,
            overrides,
        ),
        symbols::resolved_elf(bytes, Some(host), resolve) == Err::<Symbols, SymbolFault>(fault)
            ==> target::attachment_elf(
            bytes,
            Some(host),
            resolve,
            mem,
            tls_base,
            given,
            overrides,
        ) == Err::<Attachment, AttachFault>(AttachFault::Symbols(resolve.label, fault)),
{
}

/// The symbols of a binary are resolved at its load base, with the executor
/// globals that are given; a stripped one is allowed exactly where those or the
/// version are given.
pub proof fn lemma_resolving(binary: Binary, opts: AttachOptions<'_>, args: Args)
    ensures
        ({
            let r = target::resolve_view(binary, opts);
            &&& r.load_base == binary.load_base
            &&& r.label == binary.path@
            &&& r.executor_globals_override == opts.executor_globals
            &&& r.php_version_override == opts.php_version_addr
            &&& r.allow_stripped <==> opts.executor_globals is Some
                || opts.php_version_string is Some
        }),
        ({
            let r = sampler::resolve_view(binary, args);
            &&& r.load_base == binary.load_base
            &&& r.label == binary.path@
            &&& r.executor_globals_override == args.executor_globals
            &&& r.php_version_override is None
            &&& r.allow_stripped <==> args.executor_globals is Some || args.php_version is Some
        }),
{
}

} // verus!
