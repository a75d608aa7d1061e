//! Resolution of the symbols that a target is read through, and of the PHP
//! version literal that its binary holds.

use crate::arch::Arch;
use crate::elf;
use crate::elf::{Header, Section, Symbol};
use crate::text;
use vstd::prelude::*;
use vstd::slice::slice_subrange;

verus! {

/// The ELF type of a position-independent file.
pub const ET_DYN: u16 = 3;

/// The ELF type of an executable at fixed addresses.
pub const ET_EXEC: u16 = 2;

/// Resolved virtual addresses, ready for remote reads.
#[derive(Debug, Clone, Copy)]
pub struct Symbols {
    /// The address of `executor_globals`. In a ZTS build without an override it
    /// is 0, and the address is found per thread from [`Zts`].
    pub executor_globals: u64,
    pub php_version: Option<u64>,
    /// Set when the target is a ZTS build.
    pub zts: Option<Zts>,
}

/// The addresses from which the executor globals of a thread are found.
#[derive(Debug, Clone, Copy)]
pub struct Zts {
    /// The accessor function `tsrm_get_ls_cache_tcb_offset`.
    pub tcb_offset_fn: u64,
    /// The variable `executor_globals_offset`, which holds the offset into the
    /// per-thread cache.
    pub eg_offset_var: u64,
}

pub struct ResolveOptions<'a> {
    pub load_base: u64,
    pub executor_globals_override: Option<u64>,
    pub php_version_override: Option<u64>,
    pub allow_stripped: bool,
    pub label: &'a str,
}

/// What [`ResolveOptions`] say.
pub ghost struct ResolveView {
    pub load_base: u64,
    pub executor_globals_override: Option<u64>,
    pub php_version_override: Option<u64>,
    pub allow_stripped: bool,
    pub label: Seq<char>,
}

impl<'a> View for ResolveOptions<'a> {
    type V = ResolveView;

    open spec fn view(&self) -> ResolveView {
        ResolveView {
            load_base: self.load_base,
            executor_globals_override: self.executor_globals_override,
            php_version_override: self.php_version_override,
            allow_stripped: self.allow_stripped,
            label: self.label@,
        }
    }
}

/// What is wrong with a binary.
#[derive(Debug, Clone, Copy, PartialEq, Eq, Structural)]
pub enum SymbolFault {
    /// It is not a readable ELF file.
    NotElf,
    /// It is neither position-independent nor an executable.
    UnsupportedType { e_type: u16 },
    /// The profiler itself runs on an architecture it cannot read.
    UnsupportedHost,
    /// It is for another architecture than the profiler.
    WrongMachine { machine: u16, expected: u16 },
    /// It is a ZTS build without the symbols that ZTS needs.
    ZtsStripped,
    /// It does not say where `executor_globals` is, and nobody else does.
    NoExecutorGlobals { allow_stripped: bool },
}

/// Why the symbols of a binary were not resolved.
#[derive(Debug)]
pub struct SymbolError {
    /// The binary, as the caller named it.
    pub label: String,
    pub fault: SymbolFault,
}

/// The message for a fault of the binary with the given label.
pub open spec fn fault_message(label: Seq<char>, fault: SymbolFault) -> Seq<char> {
    match fault {
        SymbolFault::NotElf => "parsing ELF "@ + label,
        SymbolFault::UnsupportedType { e_type } => "unsupported ELF type "@ + text::decimal(
            e_type as nat,
        ),
        SymbolFault::UnsupportedHost =>
            "pfp built for unsupported host arch (need x86_64 or aarch64)"@,
        SymbolFault::WrongMachine { machine, expected } => label + " is built for ELF machine 0x"@
            + text::hexadecimal(machine as nat) + ", but pfp was built for 0x"@
            + text::hexadecimal(expected as nat)
            + ". Run a pfp binary that matches the target's architecture."@,
        SymbolFault::ZtsStripped => label
            + " appears to be a ZTS build but is missing one of tsrm_get_ls_cache_tcb_offset / executor_globals_offset (binary too stripped for ZTS attach)"@,
        SymbolFault::NoExecutorGlobals { allow_stripped } => "symbol `executor_globals` not found in "@
            + label + if allow_stripped {
            " and no --executor-globals override given"@
        } else {
            " (binary appears fully stripped — pass --executor-globals 0xADDR)"@
        },
    }
}

impl SymbolError {
    fn new(label: &str, fault: SymbolFault) -> (r: Self)
        ensures
            r.label@ == label@,
            r.fault == fault,
    {
        SymbolError { label: label.to_string(), fault }
    }

    /// Says what is wrong.
    pub fn message(&self) -> (r: String)
        ensures
            r@ == fault_message(self.label@, self.fault),
    {
        let label: &str = self.label.as_str();
        let mut out = String::new();
        match self.fault {
            SymbolFault::NotElf => {
                out.append("parsing ELF ");
                out.append(label);
            },
            SymbolFault::UnsupportedType { e_type } => {
                out.append("unsupported ELF type ");
                text::push_decimal(&mut out, e_type as u64);
            },
            SymbolFault::UnsupportedHost => {
                out.append("pfp built for unsupported host arch (need x86_64 or aarch64)");
            },
            SymbolFault::WrongMachine { machine, expected } => {
                out.append(label);
                out.append(" is built for ELF machine 0x");
                text::push_hex(&mut out, machine as u64);
                out.append(", but pfp was built for 0x");
                text::push_hex(&mut out, expected as u64);
                out.append(". Run a pfp binary that matches the target's architecture.");
            },
            SymbolFault::ZtsStripped => {
                out.append(label);
                out.append(
                    " appears to be a ZTS build but is missing one of tsrm_get_ls_cache_tcb_offset / executor_globals_offset (binary too stripped for ZTS attach)",
                );
            },
            SymbolFault::NoExecutorGlobals { allow_stripped } => {
                out.append("symbol `executor_globals` not found in ");
                out.append(label);
                if allow_stripped {
                    out.append(" and no --executor-globals override given");
                } else {
                    out.append(
                        " (binary appears fully stripped — pass --executor-globals 0xADDR)",
                    );
                }
            },
        }
        assert(out@ =~= fault_message(self.label@, self.fault));
        out
    }
}

// Symbols

/// The address of the first symbol of a list that has the given name.
pub open spec fn first_named(list: Seq<(Option<Seq<char>>, u64)>, name: Seq<char>) -> Option<u64>
    decreases list.len(),
{
    if list.len() == 0 {
        None
    } else if list[0].0 == Some(name) {
        Some(list[0].1)
    } else {
        first_named(list.drop_first(), name)
    }
}

fn find_symbol(list: &[Symbol], name: &str) -> (r: Option<u64>)
    ensures
        r == first_named(elf::symbols_view(list@), name@),
{
    let ghost all = elf::symbols_view(list@);
    let mut i: usize = 0;
    assert(all.skip(0) == all);
    while i < list.len()
        invariant
            i <= list@.len(),
            all == elf::symbols_view(list@),
            first_named(all, name@) == first_named(all.skip(i as int), name@),
        decreases list@.len() - i,
    {
        proof {
            assert(all.skip(i as int)[0] == list@[i as int]@);
            assert(all.skip(i as int).drop_first() == all.skip(i + 1));
        }
        if let Some(n) = &list[i].name {
            if text::same_text(n.as_str(), name) {
                return Some(list[i].address);
            }
        }
        i = i + 1;
    }
    None
}

/// What is read of a binary to resolve its symbols.
pub struct ElfImage {
    pub header: Header,
    pub symbols: Vec<Symbol>,
    pub dynamic_symbols: Vec<Symbol>,
}

/// What an [`ElfImage`] says: its header, and the symbols of the symbol table
/// before those of the dynamic symbol table.
pub ghost struct ImageView {
    pub header: Header,
    pub symbols: Seq<(Option<Seq<char>>, u64)>,
}

impl View for ElfImage {
    type V = ImageView;

    open spec fn view(&self) -> ImageView {
        ImageView {
            header: self.header,
            symbols: elf::symbols_view(self.symbols@) + elf::symbols_view(self.dynamic_symbols@),
        }
    }
}

/// The first symbol of two lists in a row is the one of the first list, or else
/// the one of the second.
pub proof fn lemma_first_named_append(
    a: Seq<(Option<Seq<char>>, u64)>,
    b: Seq<(Option<Seq<char>>, u64)>,
    name: Seq<char>,
)
    ensures
        first_named(a + b, name) == match first_named(a, name) {
            Some(addr) => Some(addr),
            None => first_named(b, name),
        },
    decreases a.len(),
{
    if a.len() == 0 {
        assert(a + b =~= b);
    } else {
        lemma_first_named_append(a.drop_first(), b, name);
        assert((a + b).drop_first() =~= a.drop_first() + b);
    }
}

impl ElfImage {
    fn wanted(&self, name: &str) -> (r: Option<u64>)
        ensures
            r == first_named(self@.symbols, name@),
    {
        proof {
            lemma_first_named_append(
                elf::symbols_view(self.symbols@),
                elf::symbols_view(self.dynamic_symbols@),
                name@,
            );
        }
        match find_symbol(self.symbols.as_slice(), name) {
            Some(addr) => Some(addr),
            None => find_symbol(self.dynamic_symbols.as_slice(), name),
        }
    }
}

/// An address that was given by hand: absolute from the load base up, else
/// relative to it.
pub open spec fn overridden_address(addr: u64, load_base: u64) -> u64 {
    if addr >= load_base {
        addr
    } else {
        addr.wrapping_add(load_base)
    }
}

pub fn apply_override(addr: u64, load_base: u64) -> (r: u64)
    ensures
        r == overridden_address(addr, load_base),
{
    if addr >= load_base {
        addr
    } else {
        addr.wrapping_add(load_base)
    }
}

/// The addresses that a ZTS build is read through. Both are needed in one, and
/// neither in a build that is not ZTS.
pub open spec fn zts_symbols(
    tcb_offset_fn: Option<u64>,
    eg_offset_var: Option<u64>,
    is_zts: bool,
    bias: u64,
) -> Result<Option<Zts>, SymbolFault> {
    if !is_zts {
        Ok(None)
    } else {
        match (tcb_offset_fn, eg_offset_var) {
            (Some(tcb), Some(eg)) => Ok(
                Some(
                    Zts {
                        tcb_offset_fn: tcb.wrapping_add(bias),
                        eg_offset_var: eg.wrapping_add(bias),
                    },
                ),
            ),
            _ => Err(SymbolFault::ZtsStripped),
        }
    }
}

pub fn resolve_zts(
    tcb_offset_fn: Option<u64>,
    eg_offset_var: Option<u64>,
    is_zts: bool,
    bias: u64,
    label: &str,
) -> (r: Result<Option<Zts>, SymbolError>)
    ensures
        match r {
            Ok(zts) => zts_symbols(tcb_offset_fn, eg_offset_var, is_zts, bias) == Ok::<
                Option<Zts>,
                SymbolFault,
            >(zts),
            Err(e) => zts_symbols(tcb_offset_fn, eg_offset_var, is_zts, bias) == Err::<
                Option<Zts>,
                SymbolFault,
            >(e.fault) && e.label@ == label@,
        },
{
    if !is_zts {
        return Ok(None);
    }
    match (tcb_offset_fn, eg_offset_var) {
        (Some(tcb), Some(eg)) => Ok(
            Some(
                Zts { tcb_offset_fn: tcb.wrapping_add(bias), eg_offset_var: eg.wrapping_add(bias) },
            ),
        ),
        _ => Err(SymbolError::new(label, SymbolFault::ZtsStripped)),
    }
}

/// The address of `executor_globals`: the override, or else the symbol, or else
/// 0 for a ZTS build, whose threads each have their own.
pub open spec fn executor_globals_address(
    override_addr: Option<u64>,
    sym_addr: Option<u64>,
    is_zts: bool,
    allow_stripped: bool,
    load_base: u64,
    bias: u64,
) -> Result<u64, SymbolFault> {
    match override_addr {
        Some(addr) => Ok(overridden_address(addr, load_base)),
        None => match sym_addr {
            Some(rel) => Ok(rel.wrapping_add(bias)),
            None => if is_zts {
                Ok(0)
            } else {
                Err(SymbolFault::NoExecutorGlobals { allow_stripped })
            },
        },
    }
}

pub fn resolve_executor_globals(
    override_addr: Option<u64>,
    sym_addr: Option<u64>,
    is_zts: bool,
    allow_stripped: bool,
    label: &str,
    load_base: u64,
    bias: u64,
) -> (r: Result<u64, SymbolError>)
    ensures
        match r {
            Ok(addr) => executor_globals_address(
                override_addr,
                sym_addr,
                is_zts,
                allow_stripped,
                load_base,
                bias,
            ) == Ok::<u64, SymbolFault>(addr),
            Err(e) => executor_globals_address(
                override_addr,
                sym_addr,
                is_zts,
                allow_stripped,
                load_base,
                bias,
            ) == Err::<u64, SymbolFault>(e.fault) && e.label@ == label@,
        },
{
    match (override_addr, sym_addr) {
        (Some(addr), _) => Ok(apply_override(addr, load_base)),
        (None, Some(rel)) => Ok(rel.wrapping_add(bias)),
        (None, None) => if is_zts {
            Ok(0)
        } else {
            Err(SymbolError::new(label, SymbolFault::NoExecutorGlobals { allow_stripped }))
        },
    }
}

/// The address of the `php_version` accessor, if there is one.
pub open spec fn php_version_address(
    override_addr: Option<u64>,
    sym_addr: Option<u64>,
    load_base: u64,
    bias: u64,
) -> Option<u64> {
    match override_addr {
        Some(addr) => Some(overridden_address(addr, load_base)),
        None => match sym_addr {
            Some(rel) => Some(rel.wrapping_add(bias)),
            None => None,
        },
    }
}

/// What is added to the addresses of a file: the load base for a
/// position-independent one, nothing for an executable.
pub open spec fn load_bias(e_type: u16, load_base: u64) -> Option<u64> {
    if e_type == ET_DYN {
        Some(load_base)
    } else if e_type == ET_EXEC {
        Some(0)
    } else {
        None
    }
}

/// Whether the symbols are those of a ZTS build.
pub open spec fn has_zts_symbols(symbols: Seq<(Option<Seq<char>>, u64)>) -> bool {
    first_named(symbols, "tsrm_get_ls_cache"@) is Some || first_named(
        symbols,
        "executor_globals_offset"@,
    ) is Some
}

/// The resolved symbols of a binary on a profiler for `host`.
pub open spec fn resolved(image: ImageView, host: Option<Arch>, opts: ResolveView) -> Result<
    Symbols,
    SymbolFault,
> {
    match load_bias(image.header.e_type, opts.load_base) {
        None => Err(SymbolFault::UnsupportedType { e_type: image.header.e_type }),
        Some(bias) => match host {
            None => Err(SymbolFault::UnsupportedHost),
            Some(host) => if image.header.e_machine != host.machine_number() {
                Err(
                    SymbolFault::WrongMachine {
                        machine: image.header.e_machine,
                        expected: host.machine_number(),
                    },
                )
            } else {
                let is_zts = has_zts_symbols(image.symbols);
                match zts_symbols(
                    first_named(image.symbols, "tsrm_get_ls_cache_tcb_offset"@),
                    first_named(image.symbols, "executor_globals_offset"@),
                    is_zts,
                    bias,
                ) {
                    Err(e) => Err(e),
                    Ok(zts) => match executor_globals_address(
                        opts.executor_globals_override,
                        first_named(image.symbols, "executor_globals"@),
                        is_zts,
                        opts.allow_stripped,
                        opts.load_base,
                        bias,
                    ) {
                        Err(e) => Err(e),
                        Ok(executor_globals) => Ok(
                            Symbols {
                                executor_globals,
                                php_version: php_version_address(
                                    opts.php_version_override,
                                    first_named(image.symbols, "php_version"@),
                                    opts.load_base,
                                    bias,
                                ),
                                zts,
                            },
                        ),
                    },
                }
            },
        },
    }
}

/// Resolves the symbols of a binary from what was read of it.
pub fn resolve_image(image: &ElfImage, host: Option<Arch>, opts: &ResolveOptions<'_>) -> (r: Result<
    Symbols,
    SymbolError,
>)
    ensures
        match r {
            Ok(s) => resolved(image@, host, opts@) == Ok::<Symbols, SymbolFault>(s),
            Err(e) => resolved(image@, host, opts@) == Err::<Symbols, SymbolFault>(e.fault)
                && e.label@ == opts.label@,
        },
{
    let e_type: u16 = image.header.e_type;
    let bias: u64 = if e_type == ET_DYN {
        opts.load_base
    } else if e_type == ET_EXEC {
        0
    } else {
        return Err(SymbolError::new(opts.label, SymbolFault::UnsupportedType { e_type }));
    };
    let expected: u16 = match host {
        Some(host) => host.machine(),
        None => return Err(SymbolError::new(opts.label, SymbolFault::UnsupportedHost)),
    };
    let machine: u16 = image.header.e_machine;
    if machine != expected {
        return Err(SymbolError::new(opts.label, SymbolFault::WrongMachine { machine, expected }));
    }
    let eg_offset = image.wanted("executor_globals_offset");
    let is_zts: bool = image.wanted("tsrm_get_ls_cache").is_some() || eg_offset.is_some();
    let zts = match resolve_zts(
        image.wanted("tsrm_get_ls_cache_tcb_offset"),
        eg_offset,
        is_zts,
        bias,
        opts.label,
    ) {
        Ok(zts) => zts,
        Err(e) => return Err(e),
    };
    let executor_globals = match resolve_executor_globals(
        opts.executor_globals_override,
        image.wanted("executor_globals"),
        is_zts,
        opts.allow_stripped,
        opts.label,
        opts.load_base,
        bias,
    ) {
        Ok(addr) => addr,
        Err(e) => return Err(e),
    };
    let php_version = match (opts.php_version_override, image.wanted("php_version")) {
        (Some(addr), _) => Some(apply_override(addr, opts.load_base)),
        (None, Some(rel)) => Some(rel.wrapping_add(bias)),
        (None, None) => None,
    };
    Ok(Symbols { executor_globals, php_version, zts })
}

/// What is read of the bytes of a file that can be read.
pub open spec fn image_of(bytes: Seq<u8>) -> ImageView {
    ImageView {
        header: Header {
            e_type: elf::field16(bytes, 16),
            e_machine: elf::field16(bytes, 18),
        },
        symbols: elf::elf_symbols(bytes) + elf::elf_dynamic_symbols(bytes),
    }
}

/// The resolved symbols of a binary, given its bytes.
pub open spec fn resolved_elf(bytes: Seq<u8>, host: Option<Arch>, opts: ResolveView) -> Result<
    Symbols,
    SymbolFault,
> {
    if elf::elf_parses(bytes) {
        resolved(image_of(bytes), host, opts)
    } else {
        Err(SymbolFault::NotElf)
    }
}

/// Resolves the symbols of a binary from its bytes.
pub fn resolve(elf_bytes: &[u8], host: Option<Arch>, opts: &ResolveOptions<'_>) -> (r: Result<
    Symbols,
    SymbolError,
>)
    ensures
        match r {
            Ok(s) => resolved_elf(elf_bytes@, host, opts@) == Ok::<Symbols, SymbolFault>(s),
            Err(e) => resolved_elf(elf_bytes@, host, opts@) == Err::<Symbols, SymbolFault>(e.fault)
                && e.label@ == opts.label@,
        },
{
    let header = match elf::read_header(elf_bytes) {
        Ok(h) => h,
        Err(_) => return Err(SymbolError::new(opts.label, SymbolFault::NotElf)),
    };
    let symbols = match elf::read_symbols(elf_bytes) {
        Ok(list) => list,
        Err(_) => return Err(SymbolError::new(opts.label, SymbolFault::NotElf)),
    };
    let dynamic_symbols = match elf::read_dynamic_symbols(elf_bytes) {
        Ok(list) => list,
        Err(_) => return Err(SymbolError::new(opts.label, SymbolFault::NotElf)),
    };
    let image = ElfImage { header, symbols, dynamic_symbols };
    assert(image@ == image_of(elf_bytes@));
    resolve_image(&image, host, opts)
}

// The version literal

/// Whether a text is one to three decimal digits.
pub open spec fn version_number(s: Seq<char>) -> bool {
    1 <= s.len() <= 3 && forall|i: int| 0 <= i < s.len() ==> '0' <= #[trigger] s[i] <= '9'
}

/// Whether a text is a PHP version: `8`, the minor and the patch number, with
/// dots between them and nothing after.
pub open spec fn php_version_text(s: Seq<char>) -> bool {
    let parts = text::pieces(s, '.');
    parts.len() == 3 && parts[0] == "8"@ && version_number(parts[1]) && version_number(parts[2])
}

fn is_version_number(s: &[char]) -> (r: bool)
    ensures
        r == version_number(s@),
{
    if s.len() < 1 || s.len() > 3 {
        return false;
    }
    for i in 0..s.len()
        invariant
            1 <= s@.len() <= 3,
            forall|j: int| 0 <= j < i ==> '0' <= #[trigger] s@[j] <= '9',
    {
        if !('0' <= s[i] && s[i] <= '9') {
            return false;
        }
    }
    true
}

fn is_php_version(s: &[char]) -> (r: bool)
    ensures
        r == php_version_text(s@),
{
    let parts = text::split(s, '.');
    assert(parts@.len() == text::texts(parts@).len());
    if parts.len() != 3 {
        return false;
    }
    let major: bool = parts[0].len() == 1 && parts[0][0] == '8';
    proof {
        reveal_strlit("8");
        assert("8"@ =~= seq!['8']);
        if major {
            assert(parts@[0]@ =~= seq!['8']);
        }
        assert(text::texts(parts@)[0] == parts@[0]@);
    }
    major && is_version_number(parts[1]) && is_version_number(parts[2])
}

/// Whether a text is a PHP 8 version such as `8.0.30`.
pub fn looks_like_php_version(s: &str) -> (r: bool)
    ensures
        r == php_version_text(s@),
{
    let chars = text::chars_of(s);
    is_php_version(chars.as_slice())
}

/// The index of the first zero byte of `data` from `i` on, or the length.
pub open spec fn next_nul(data: Seq<u8>, i: int) -> int
    decreases data.len() - i,
{
    if i >= data.len() || data[i] == 0 {
        i
    } else {
        next_nul(data, i + 1)
    }
}

/// What bytes say, each as the character of its number.
pub open spec fn byte_text(data: Seq<u8>) -> Seq<char> {
    Seq::new(data.len(), |i: int| data[i] as char)
}

/// The first string of `data` from `i` on that is a PHP version. A string is
/// what stands before a zero byte; bytes after the last one are no string.
pub open spec fn version_from(data: Seq<u8>, i: int) -> Option<Seq<char>>
    decreases data.len() - i,
    when 0 <= i
    via version_from_ends
{
    let end = next_nul(data, i);
    if i >= data.len() || end >= data.len() {
        None
    } else if php_version_text(byte_text(data.subrange(i, end))) {
        Some(byte_text(data.subrange(i, end)))
    } else {
        version_from(data, end + 1)
    }
}

#[via_fn]
proof fn version_from_ends(data: Seq<u8>, i: int) {
    lemma_next_nul(data, i);
}

proof fn lemma_next_nul(data: Seq<u8>, i: int)
    ensures
        next_nul(data, i) >= i,
    decreases data.len() - i,
{
    if i < data.len() && data[i] != 0 {
        lemma_next_nul(data, i + 1);
    }
}

/// Whether the bytes from `i` to `end` are a string of `data`: they follow a
/// zero byte or stand first, end before a zero byte, and hold none.
pub open spec fn is_string(data: Seq<u8>, i: int, end: int) -> bool {
    &&& 0 <= i <= end < data.len()
    &&& i == 0 || data[i - 1] == 0
    &&& data[end] == 0
    &&& forall|k: int| i <= k < end ==> data[k] != 0
}

proof fn lemma_next_nul_of(data: Seq<u8>, i: int, end: int)
    requires
        0 <= i <= end < data.len(),
        data[end] == 0,
        forall|k: int| i <= k < end ==> data[k] != 0,
    ensures
        next_nul(data, i) == end,
    decreases end - i,
{
    if i < end {
        assert(data[i] != 0);
        lemma_next_nul_of(data, i + 1, end);
    }
}

proof fn lemma_next_nul_is(data: Seq<u8>, i: int)
    requires
        0 <= i <= data.len(),
    ensures
        i <= next_nul(data, i) <= data.len(),
        next_nul(data, i) < data.len() ==> data[next_nul(data, i)] == 0,
        forall|k: int| i <= k < next_nul(data, i) ==> data[k] != 0,
    decreases data.len() - i,
{
    if i < data.len() && data[i] != 0 {
        lemma_next_nul_is(data, i + 1);
    }
}

proof fn lemma_version_from(data: Seq<u8>, from: int)
    requires
        0 <= from <= data.len(),
        from == 0 || data[from - 1] == 0,
    ensures
        version_from(data, from) matches Some(v) ==> exists|i: int, end: int|
            from <= i && #[trigger] is_string(data, i, end) && php_version_text(v) && v
                == byte_text(data.subrange(i, end)),
        version_from(data, from) is None ==> forall|i: int, end: int|
            from <= i && #[trigger] is_string(data, i, end) ==> !php_version_text(
                byte_text(data.subrange(i, end)),
            ),
    decreases data.len() - from,
{
    if from < data.len() {
        let end = next_nul(data, from);
        lemma_next_nul_is(data, from);
        if end < data.len() {
            assert(is_string(data, from, end));
            if !php_version_text(byte_text(data.subrange(from, end))) {
                lemma_version_from(data, end + 1);
                assert forall|i: int, e: int|
                    from <= i && #[trigger] is_string(data, i, e) && version_from(
                        data,
                        from,
                    ) is None implies !php_version_text(byte_text(data.subrange(i, e))) by {
                    if i <= end {
                        if i > from {
                            assert(data[i - 1] != 0);
                        }
                        lemma_next_nul_of(data, i, e);
                        assert(e == end);
                    }
                }
            }
        } else {
            assert forall|i: int, e: int| from <= i && #[trigger] is_string(
                data,
                i,
                e,
            ) implies !php_version_text(byte_text(data.subrange(i, e))) by {
                assert(data[e] != 0);
            }
        }
    }
}

/// What the scan finds is a PHP version, and a string of the data; and if it
/// finds nothing, no string of the data is a PHP version.
pub proof fn lemma_scan(data: Seq<u8>)
    ensures
        version_from(data, 0) matches Some(v) ==> php_version_text(v) && exists|i: int, end: int|
            #[trigger]
            is_string(data, i, end) && v == byte_text(data.subrange(i, end)),
        version_from(data, 0) is None ==> forall|i: int, end: int| #[trigger]
            is_string(data, i, end) ==> !php_version_text(byte_text(data.subrange(i, end))),
{
    lemma_version_from(data, 0);
}

/// Scans read-only data for a NUL-terminated PHP version literal.
pub fn scan_for_version(data: &[u8]) -> (r: Option<String>)
    ensures
        match r {
            Some(s) => version_from(data@, 0) == Some(s@),
            None => version_from(data@, 0) is None,
        },
{
    let n: usize = data.len();
    let mut i: usize = 0;
    while i < n
        invariant
            i <= n,
            n == data@.len(),
            version_from(data@, 0) == version_from(data@, i as int),
        decreases n - i,
    {
        let mut run: Vec<char> = Vec::new();
        let mut end: usize = i;
        while end < n && data[end] != 0
            invariant
                i <= end <= n,
                n == data@.len(),
                next_nul(data@, i as int) == next_nul(data@, end as int),
                run@ == byte_text(data@.subrange(i as int, end as int)),
            decreases n - end,
        {
            run.push(data[end] as char);
            end = end + 1;
            assert(run@ =~= byte_text(data@.subrange(i as int, end as int)));
        }
        if end == n {
            return None;
        }
        if is_php_version(run.as_slice()) {
            return Some(text::string_of(run.as_slice()));
        }
        i = end + 1;
    }
    None
}

/// Whether a section of this name holds read-only data.
pub open spec fn read_only_section(name: Option<Seq<char>>) -> bool {
    name == Some(".rodata"@) || name == Some(".rodata1"@) || name == Some(".data.rel.ro"@)
}

/// The version that one section holds.
pub open spec fn section_version(section: (Option<Seq<char>>, Option<Seq<u8>>)) -> Option<
    Seq<char>,
> {
    match section.1 {
        Some(data) => if read_only_section(section.0) {
            version_from(data, 0)
        } else {
            None
        },
        None => None,
    }
}

/// The version that the first section with one holds.
pub open spec fn first_version(sections: Seq<(Option<Seq<char>>, Option<Seq<u8>>)>) -> Option<
    Seq<char>,
>
    decreases sections.len(),
{
    if sections.len() == 0 {
        None
    } else {
        match section_version(sections[0]) {
            Some(v) => Some(v),
            None => first_version(sections.drop_first()),
        }
    }
}

fn holds_read_only_data(name: &str) -> (r: bool)
    ensures
        r == read_only_section(Some(name@)),
{
    text::same_text(name, ".rodata") || text::same_text(name, ".rodata1") || text::same_text(
        name,
        ".data.rel.ro",
    )
}

/// Finds a PHP version literal in the read-only sections of a binary.
pub fn find_php_version_in_sections(sections: &[Section<'_>]) -> (r: Option<String>)
    ensures
        match r {
            Some(s) => first_version(elf::sections_view(sections@)) == Some(s@),
            None => first_version(elf::sections_view(sections@)) is None,
        },
{
    let ghost all = elf::sections_view(sections@);
    let mut i: usize = 0;
    assert(all.skip(0) == all);
    while i < sections.len()
        invariant
            i <= sections@.len(),
            all == elf::sections_view(sections@),
            first_version(all) == first_version(all.skip(i as int)),
        decreases sections@.len() - i,
    {
        proof {
            assert(all.skip(i as int)[0] == sections@[i as int]@);
            assert(all.skip(i as int).drop_first() == all.skip(i + 1));
        }
        if let (Some(name), Some(data)) = (&sections[i].name, sections[i].data) {
            if holds_read_only_data(name.as_str()) {
                if let Some(v) = scan_for_version(data) {
                    return Some(v);
                }
            }
        }
        i = i + 1;
    }
    None
}

/// The PHP version literal that a binary holds, if it can be read at all.
pub open spec fn version_literal(bytes: Seq<u8>) -> Option<Seq<char>> {
    if elf::elf_parses(bytes) {
        first_version(elf::elf_sections(bytes))
    } else {
        None
    }
}

/// Finds a PHP version literal in a binary, for those that do not export
/// `php_version`: builds before 8.3 do not.
pub fn find_php_version_in_elf(elf_bytes: &[u8]) -> (r: Option<String>)
    ensures
        match r {
            Some(s) => version_literal(elf_bytes@) == Some(s@),
            None => version_literal(elf_bytes@) is None,
        },
{
    match elf::read_sections(elf_bytes) {
        Ok(sections) => find_php_version_in_sections(sections.as_slice()),
        Err(_) => None,
    }
}

} // verus!
