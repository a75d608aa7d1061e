//! What is found in a binary: its symbols, and the version that it holds.

use crate::arch::Arch;
use crate::elf;
use crate::laws::discovery::has_in_it;
use crate::laws::texts;
use crate::symbols;
use crate::symbols::{ImageView, ResolveView, SymbolFault, Symbols, Zts};
use crate::text;
use vstd::prelude::*;

verus! {

// Symbols

/// Whether a list has a symbol of a name, the first of which is at an address.
pub open spec fn has(list: Seq<(Option<Seq<char>>, u64)>, name: Seq<char>, addr: u64) -> bool {
    exists|i: int| #[trigger] is_first(list, name, addr, i)
}

/// Whether the symbol at an index is the first of its name.
pub open spec fn is_first(
    list: Seq<(Option<Seq<char>>, u64)>,
    name: Seq<char>,
    addr: u64,
    i: int,
) -> bool {
    &&& 0 <= i < list.len()
    &&& list[i] == (Some(name), addr)
    &&& forall|j: int| 0 <= j < i ==> (#[trigger] list[j]).0 != Some(name)
}

/// Whether a list has no symbol of a name.
pub open spec fn lacks(list: Seq<(Option<Seq<char>>, u64)>, name: Seq<char>) -> bool {
    forall|j: int| 0 <= j < list.len() ==> (#[trigger] list[j]).0 != Some(name)
}

/// A symbol is found where the first of its name is, and nowhere else.
pub proof fn lemma_finds_symbol(list: Seq<(Option<Seq<char>>, u64)>, name: Seq<char>, addr: u64)
    ensures
        has(list, name, addr) <==> symbols::first_named(list, name) == Some(addr),
        lacks(list, name) <==> symbols::first_named(list, name) is None,
    decreases list.len(),
{
    if list.len() > 0 {
        let rest = list.drop_first();
        lemma_finds_symbol(rest, name, addr);
        if list[0].0 == Some(name) {
            if list[0].1 == addr {
                assert(is_first(list, name, addr, 0));
            }
        } else {
            if has(rest, name, addr) {
                let i = choose|i: int| #[trigger] is_first(rest, name, addr, i);
                assert forall|j: int| 0 <= j < i + 1 implies (#[trigger] list[j]).0 != Some(
                    name,
                ) by {
                    if j > 0 {
                        assert(rest[j - 1] == list[j]);
                    }
                }
                assert(is_first(list, name, addr, i + 1));
            }
            if has(list, name, addr) {
                let i = choose|i: int| #[trigger] is_first(list, name, addr, i);
                assert forall|j: int| 0 <= j < i - 1 implies (#[trigger] rest[j]).0 != Some(
                    name,
                ) by {
                    assert(rest[j] == list[j + 1]);
                }
                assert(rest[i - 1] == list[i]);
                assert(is_first(rest, name, addr, i - 1));
            }
            if lacks(rest, name) {
                assert forall|j: int| 0 <= j < list.len() implies (#[trigger] list[j]).0 != Some(
                    name,
                ) by {
                    if j > 0 {
                        assert(rest[j - 1] == list[j]);
                    }
                }
            }
            if lacks(list, name) {
                assert forall|j: int| 0 <= j < rest.len() implies (#[trigger] rest[j]).0 != Some(
                    name,
                ) by {
                    assert(rest[j] == list[j + 1]);
                }
            }
        }
    } else if has(list, name, addr) {
        let i = choose|i: int| #[trigger] is_first(list, name, addr, i);
    }
}

/// The symbols of a binary are those of its symbol table and then those of its
/// dynamic symbol table; its type and machine are the two-byte numbers at offsets
/// 16 and 18.
pub proof fn lemma_image(bytes: Seq<u8>)
    ensures
        symbols::image_of(bytes).symbols == elf::elf_symbols(bytes) + elf::elf_dynamic_symbols(
            bytes,
        ),
        symbols::image_of(bytes).header.e_type == bytes[16] + 256 * bytes[17],
        symbols::image_of(bytes).header.e_machine == bytes[18] + 256 * bytes[19],
{
}

/// Whether a binary is for a host: x86_64 or aarch64 on the same.
pub open spec fn runs_on(image: ImageView, host: Arch) -> bool {
    match host {
        Arch::X86_64 => image.header.e_machine == 62,
        Arch::Aarch64 => image.header.e_machine == 183,
    }
}

/// What is added to the addresses of a binary: nothing if it is of type 2, the
/// load base if it is of type 3.
pub open spec fn added(image: ImageView, load_base: u64) -> u64 {
    if image.header.e_type == 2 {
        0
    } else {
        load_base
    }
}

/// An address that is given by hand stands for itself from the load base on, and
/// for one relative to it below.
pub proof fn lemma_override(addr: u64, load_base: u64)
    ensures
        addr >= load_base ==> symbols::overridden_address(addr, load_base) == addr,
        addr < load_base && addr + load_base <= u64::MAX ==> symbols::overridden_address(
            addr,
            load_base,
        ) == addr + load_base,
{
}

/// In a build that is not thread-safe the executor globals are where the override
/// says, or else the symbol; the version accessor is where its symbol is, if there
/// is one. Addresses of symbols are moved by what is added to them.
pub proof fn lemma_resolves(
    image: ImageView,
    host: Arch,
    opts: ResolveView,
    globals: u64,
    version: u64,
)
    requires
        image.header.e_type == 2 || image.header.e_type == 3,
        runs_on(image, host),
        lacks(image.symbols, "tsrm_get_ls_cache"@),
        lacks(image.symbols, "executor_globals_offset"@),
        opts.php_version_override is None,
        opts.executor_globals_override is Some || has(
            image.symbols,
            "executor_globals"@,
            globals,
        ),
        has(image.symbols, "php_version"@, version) || lacks(image.symbols, "php_version"@),
    ensures
        symbols::resolved(image, Some(host), opts) == Ok::<Symbols, SymbolFault>(
            Symbols {
                executor_globals: match opts.executor_globals_override {
                    Some(addr) => symbols::overridden_address(addr, opts.load_base),
                    None => globals.wrapping_add(added(image, opts.load_base)),
                },
                php_version: if lacks(image.symbols, "php_version"@) {
                    None
                } else {
                    Some(version.wrapping_add(added(image, opts.load_base)))
                },
                zts: None,
            },
        ),
{
    lemma_finds_symbol(image.symbols, "tsrm_get_ls_cache"@, 0);
    lemma_finds_symbol(image.symbols, "executor_globals_offset"@, 0);
    lemma_finds_symbol(image.symbols, "executor_globals"@, globals);
    lemma_finds_symbol(image.symbols, "php_version"@, version);
}

/// In a thread-safe build, known by either of two symbols, the two addresses that
/// its threads are read through are those of their symbols; the executor globals
/// are left to be found, unless they are overridden. It is refused where one of
/// the two symbols is missing.
pub proof fn lemma_resolves_zts(
    image: ImageView,
    host: Arch,
    opts: ResolveView,
    accessor: u64,
    variable: u64,
)
    requires
        image.header.e_type == 2 || image.header.e_type == 3,
        runs_on(image, host),
        !lacks(image.symbols, "tsrm_get_ls_cache"@) || !lacks(
            image.symbols,
            "executor_globals_offset"@,
        ),
        lacks(image.symbols, "executor_globals"@),
    ensures
        has(image.symbols, "tsrm_get_ls_cache_tcb_offset"@, accessor) && has(
            image.symbols,
            "executor_globals_offset"@,
            variable,
        ) ==> {
            let bias = added(image, opts.load_base);
            symbols::resolved(image, Some(host), opts) matches Ok(s) && s.zts == Some(
                Zts {
                    tcb_offset_fn: accessor.wrapping_add(bias),
                    eg_offset_var: variable.wrapping_add(bias),
                },
            ) && s.executor_globals == match opts.executor_globals_override {
                Some(addr) => symbols::overridden_address(addr, opts.load_base),
                None => 0,
            }
        },
        lacks(image.symbols, "tsrm_get_ls_cache_tcb_offset"@) || lacks(
            image.symbols,
            "executor_globals_offset"@,
        ) ==> symbols::resolved(image, Some(host), opts) == Err::<Symbols, SymbolFault>(
            SymbolFault::ZtsStripped,
        ),
{
    lemma_finds_symbol(image.symbols, "tsrm_get_ls_cache"@, 0);
    lemma_finds_symbol(image.symbols, "tsrm_get_ls_cache_tcb_offset"@, accessor);
    lemma_finds_symbol(image.symbols, "executor_globals_offset"@, variable);
    lemma_finds_symbol(image.symbols, "executor_globals"@, 0);
}

/// A binary is refused that is of another type, that is for another machine than
/// the profiler's, or that says nowhere where its executor globals are.
pub proof fn lemma_refuses(image: ImageView, host: Arch, opts: ResolveView)
    ensures
        image.header.e_type != 2 && image.header.e_type != 3 ==> symbols::resolved(
            image,
            Some(host),
            opts,
        ) == Err::<Symbols, SymbolFault>(
            SymbolFault::UnsupportedType { e_type: image.header.e_type },
        ),
        (image.header.e_type == 2 || image.header.e_type == 3) && !runs_on(image, host)
            ==> (symbols::resolved(image, Some(host), opts) matches Err(
            SymbolFault::WrongMachine { machine, .. },
        ) && machine == image.header.e_machine),
        (image.header.e_type == 2 || image.header.e_type == 3) && runs_on(image, host) && lacks(
            image.symbols,
            "tsrm_get_ls_cache"@,
        ) && lacks(image.symbols, "executor_globals_offset"@) && lacks(
            image.symbols,
            "executor_globals"@,
        ) && opts.executor_globals_override is None ==> symbols::resolved(image, Some(host), opts)
            == Err::<Symbols, SymbolFault>(
            SymbolFault::NoExecutorGlobals { allow_stripped: opts.allow_stripped },
        ),
{
    lemma_finds_symbol(image.symbols, "tsrm_get_ls_cache"@, 0);
    lemma_finds_symbol(image.symbols, "executor_globals_offset"@, 0);
    lemma_finds_symbol(image.symbols, "executor_globals"@, 0);
}

// Versions

/// Whether a text is one to three digits.
pub open spec fn is_number(s: Seq<char>) -> bool {
    1 <= s.len() <= 3 && texts::all_digits(s)
}

/// A version is an eight, a dot, one to three digits, a dot, one to three digits,
/// and nothing else.
pub proof fn lemma_is_version(minor: Seq<char>, patch: Seq<char>)
    requires
        is_number(minor),
        is_number(patch),
    ensures
        symbols::php_version_text(seq!['8', '.'] + minor + seq!['.'] + patch),
{
    reveal_strlit("8");
    assert("8"@ =~= seq!['8']);
    let parts = seq![seq!['8'], minor, patch];
    let s = seq!['8', '.'] + minor + seq!['.'] + patch;
    assert(parts =~= seq![seq!['8']] + seq![minor, patch]);
    assert(seq![minor, patch] =~= seq![minor] + seq![patch]);
    texts::lemma_joins(seq![seq!['8']], seq![minor, patch], seq!['.']);
    texts::lemma_joins(seq![minor], seq![patch], seq!['.']);
    texts::lemma_joins(seq![patch], Seq::empty(), seq!['.']);
    assert(text::joined(parts, seq!['.']) =~= s);
    assert forall|i: int| 0 <= i < parts.len() implies !(#[trigger] parts[i]).contains('.') by {
        if parts[i].contains('.') {
            let k = choose|k: int| 0 <= k < parts[i].len() && parts[i][k] == '.';
            if i == 1 {
                assert('0' <= minor[k] <= '9');
            } else if i == 2 {
                assert('0' <= patch[k] <= '9');
            }
        }
    }
    texts::lemma_joined_apart(parts, '.');
}

/// Only such a text is a version.
pub proof fn lemma_is_no_other_version(s: Seq<char>)
    requires
        symbols::php_version_text(s),
    ensures
        exists|minor: Seq<char>, patch: Seq<char>|
            #![trigger is_number(minor), is_number(patch)]
            is_number(minor) && is_number(patch) && s == seq!['8', '.'] + minor + seq!['.']
                + patch,
{
    reveal_strlit("8");
    assert("8"@ =~= seq!['8']);
    let parts = text::pieces(s, '.');
    let minor = parts[1];
    let patch = parts[2];
    texts::lemma_splits(s, '.');
    assert(parts =~= seq![seq!['8']] + seq![minor, patch]);
    assert(seq![minor, patch] =~= seq![minor] + seq![patch]);
    texts::lemma_joins(seq![seq!['8']], seq![minor, patch], seq!['.']);
    texts::lemma_joins(seq![minor], seq![patch], seq!['.']);
    texts::lemma_joins(seq![patch], Seq::empty(), seq!['.']);
    assert(s =~= seq!['8', '.'] + minor + seq!['.'] + patch);
    assert(is_number(minor) && is_number(patch));
}

/// Whether the string at an index of data is a version, and none before it is.
pub open spec fn is_first_version(data: Seq<u8>, from: int, i: int, end: int) -> bool {
    &&& from <= i
    &&& symbols::is_string(data, i, end)
    &&& symbols::php_version_text(symbols::byte_text(data.subrange(i, end)))
    &&& forall|j: int, e: int|
        from <= j < i && #[trigger] symbols::is_string(data, j, e) ==> !symbols::php_version_text(
            symbols::byte_text(data.subrange(j, e)),
        )
}

proof fn lemma_next(data: Seq<u8>, i: int, end: int)
    requires
        0 <= i <= end < data.len(),
        data[end] == 0,
        forall|k: int| i <= k < end ==> data[k] != 0,
    ensures
        symbols::next_nul(data, i) == end,
    decreases end - i,
{
    if i < end {
        lemma_next(data, i + 1, end);
    }
}

proof fn lemma_scans_from(data: Seq<u8>, from: int, i: int, end: int)
    requires
        0 <= from,
        from == 0 || data[from - 1] == 0,
        is_first_version(data, from, i, end),
    ensures
        symbols::version_from(data, from) == Some(symbols::byte_text(data.subrange(i, end))),
    decreases i - from,
{
    if i == from {
        lemma_next(data, i, end);
    } else {
        // The string that starts here ends before the one that is found.
        let e = symbols::next_nul(data, from);
        lemma_next_before(data, from, i - 1);
        assert(symbols::is_string(data, from, e));
        lemma_scans_from(data, e + 1, i, end);
    }
}

proof fn lemma_next_before(data: Seq<u8>, i: int, nul: int)
    requires
        0 <= i <= nul < data.len(),
        data[nul] == 0,
    ensures
        i <= symbols::next_nul(data, i) <= nul,
        data[symbols::next_nul(data, i)] == 0,
        forall|k: int| i <= k < symbols::next_nul(data, i) ==> data[k] != 0,
    decreases nul - i,
{
    if data[i] != 0 {
        lemma_next_before(data, i + 1, nul);
    }
}

/// The scan of data finds its first string that is a version.
pub proof fn lemma_scans(data: Seq<u8>, i: int, end: int)
    requires
        is_first_version(data, 0, i, end),
    ensures
        symbols::version_from(data, 0) == Some(symbols::byte_text(data.subrange(i, end))),
{
    lemma_scans_from(data, 0, i, end);
}

/// The version of a binary is that of its first section of read-only data that
/// holds one.
pub proof fn lemma_sections(
    sections: Seq<(Option<Seq<char>>, Option<Seq<u8>>)>,
    i: int,
    data: Seq<u8>,
    v: Seq<char>,
)
    requires
        0 <= i < sections.len(),
        sections[i].0 == Some(".rodata"@) || sections[i].0 == Some(".rodata1"@) || sections[i].0
            == Some(".data.rel.ro"@),
        sections[i].1 == Some(data),
        symbols::version_from(data, 0) == Some(v),
        forall|j: int| 0 <= j < i ==> holds_none(#[trigger] sections[j]),
    ensures
        symbols::first_version(sections) == Some(v),
    decreases sections.len(),
{
    if i > 0 {
        let rest = sections.drop_first();
        assert(holds_none(sections[0]));
        assert forall|j: int| 0 <= j < i - 1 implies holds_none(#[trigger] rest[j]) by {
            assert(rest[j] == sections[j + 1]);
        }
        assert(rest[i - 1] == sections[i]);
        lemma_sections(rest, i - 1, data, v);
    }
}

/// Whether a section holds no version: it is of other data, cannot be read, or
/// has no string that is one.
pub open spec fn holds_none(section: (Option<Seq<char>>, Option<Seq<u8>>)) -> bool {
    ||| section.0 != Some(".rodata"@) && section.0 != Some(".rodata1"@) && section.0 != Some(
        ".data.rel.ro"@,
    )
    ||| section.1 is None
    ||| section.1 matches Some(data) && symbols::version_from(data, 0) is None
}

/// A binary whose sections hold none has no version.
pub proof fn lemma_no_section(sections: Seq<(Option<Seq<char>>, Option<Seq<u8>>)>)
    requires
        forall|j: int| 0 <= j < sections.len() ==> holds_none(#[trigger] sections[j]),
    ensures
        symbols::first_version(sections) is None,
    decreases sections.len(),
{
    if sections.len() > 0 {
        let rest = sections.drop_first();
        assert(holds_none(sections[0]));
        assert forall|j: int| 0 <= j < rest.len() implies holds_none(#[trigger] rest[j]) by {
            assert(rest[j] == sections[j + 1]);
        }
        lemma_no_section(rest);
    }
}

// Messages

/// What is wrong with a binary is said with its name; how a stripped one can be
/// read after all is said with the option for it.
pub proof fn lemma_messages(label: Seq<char>, fault: SymbolFault)
    ensures
        !(fault is UnsupportedType) && !(fault is UnsupportedHost) ==> has_in_it(
            symbols::fault_message(label, fault),
            label,
        ),
        fault is NoExecutorGlobals ==> has_in_it(
            symbols::fault_message(label, fault),
            "--executor-globals"@,
        ),
        fault matches SymbolFault::UnsupportedType { e_type } ==> has_in_it(
            symbols::fault_message(label, fault),
            text::decimal(e_type as nat),
        ),
        fault matches SymbolFault::WrongMachine { machine, expected } ==> has_in_it(
            symbols::fault_message(label, fault),
            text::hexadecimal(machine as nat),
        ) && has_in_it(
            symbols::fault_message(label, fault),
            text::hexadecimal(expected as nat),
        ),
{
    let m = symbols::fault_message(label, fault);
    match fault {
        SymbolFault::NotElf => {
            lemma_in(m, "parsing ELF "@, label, Seq::empty());
        },
        SymbolFault::UnsupportedType { e_type } => {
            lemma_in(
                m,
                "unsupported ELF type "@,
                text::decimal(e_type as nat),
                Seq::empty(),
            );
        },
        SymbolFault::UnsupportedHost => {},
        SymbolFault::WrongMachine { machine, expected } => {
            let a = text::hexadecimal(machine as nat);
            let b = text::hexadecimal(expected as nat);
            let built = " is built for ELF machine 0x"@;
            let but = ", but pfp was built for 0x"@;
            let end = ". Run a pfp binary that matches the target's architecture."@;
            lemma_in(m, Seq::empty(), label, built + a + but + b + end);
            lemma_in(m, label + built, a, but + b + end);
            lemma_in(m, label + built + a + but, b, end);
        },
        SymbolFault::ZtsStripped => {
            lemma_in(m, Seq::empty(), label, m.skip(label.len() as int));
        },
        SymbolFault::NoExecutorGlobals { allow_stripped } => {
            let start = "symbol `executor_globals` not found in "@;
            let tail = m.skip((start + label).len() as int);
            lemma_in(m, start, label, tail);
            reveal_strlit("--executor-globals");
            reveal_strlit(" and no --executor-globals override given");
            reveal_strlit(" (binary appears fully stripped — pass --executor-globals 0xADDR)");
            if allow_stripped {
                let t = " and no --executor-globals override given"@;
                assert(t.subrange(8, 26) =~= "--executor-globals"@);
                lemma_in(m, start + label + t.take(8), "--executor-globals"@, t.skip(26));
            } else {
                let t = " (binary appears fully stripped — pass --executor-globals 0xADDR)"@;
                assert(t.subrange(39, 57) =~= "--executor-globals"@);
                lemma_in(m, start + label + t.take(39), "--executor-globals"@, t.skip(57));
            }
        },
    }
}

proof fn lemma_in(s: Seq<char>, before: Seq<char>, needle: Seq<char>, after: Seq<char>)
    requires
        s =~= before + needle + after,
    ensures
        has_in_it(s, needle),
{
    assert(s == before + needle + after);
}

} // verus!
