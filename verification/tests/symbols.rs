use pfp::arch::Arch;
use pfp::cli::{Args, Format};
use pfp::elf::{Header, Section, Symbol};
use pfp::offsets::LayoutOverrides;
use pfp::output::Output;
use pfp::remote::{ReadError, Remote};
use pfp::sampler::{Sampler, SamplerError};
use pfp::symbols::{
    apply_override, find_php_version_in_elf, find_php_version_in_sections, looks_like_php_version,
    resolve, resolve_executor_globals, resolve_image, resolve_zts, scan_for_version, ElfImage,
    ResolveOptions, SymbolFault,
};
use pfp::target::{AttachError, Binary};

#[test]
fn looks_like_php_version_accepts_real_versions() {
    assert!(looks_like_php_version("8.0.30"));
    assert!(looks_like_php_version("8.1.34"));
    assert!(looks_like_php_version("8.5.6"));
}

#[test]
fn looks_like_php_version_rejects_garbage() {
    assert!(!looks_like_php_version(""));
    assert!(!looks_like_php_version("8"));
    assert!(!looks_like_php_version("8.0"));
    assert!(!looks_like_php_version("7.4.33")); // major must be 8
    assert!(!looks_like_php_version("8.0.30-rc1")); // extra dash
    assert!(!looks_like_php_version("8.0.30.1")); // 4 parts
    assert!(!looks_like_php_version("8.x.y"));
}

#[test]
fn resolve_eg_uses_override_when_provided() {
    let addr = resolve_executor_globals(Some(0x1000), None, false, false, "x", 0x10000, 0x10000)
        .unwrap();
    // Below load_base, so it's treated as relative and rebiased.
    assert_eq!(addr, 0x11000);

    let addr = resolve_executor_globals(Some(0x20000), None, false, false, "x", 0x10000, 0x10000)
        .unwrap();
    // Above load_base, used as absolute.
    assert_eq!(addr, 0x20000);
}

#[test]
fn resolve_eg_adds_bias_for_pie_symbol() {
    let addr =
        resolve_executor_globals(None, Some(0x500), false, false, "x", 0x10000, 0x10000).unwrap();
    assert_eq!(addr, 0x10500);
}

#[test]
fn resolve_zts_returns_none_for_nts_builds() {
    let z = resolve_zts(None, None, false, 0x1000, "x").unwrap();
    assert!(z.is_none());
}

#[test]
fn resolve_zts_biases_addresses() {
    let z = resolve_zts(Some(0x100), Some(0x200), true, 0x5000_0000, "x").unwrap().unwrap();
    assert_eq!(z.tcb_offset_fn, 0x5000_0100);
    assert_eq!(z.eg_offset_var, 0x5000_0200);
}

#[test]
fn resolve_zts_errors_when_tcb_offset_fn_missing() {
    let err = resolve_zts(None, Some(0x200), true, 0, "/usr/bin/php-zts").unwrap_err().message();
    assert!(err.contains("tsrm_get_ls_cache_tcb_offset"), "{err}");
    assert!(err.contains("/usr/bin/php-zts"), "missing label: {err}");
}

#[test]
fn resolve_zts_errors_when_eg_offset_var_missing() {
    let err = resolve_zts(Some(0x100), None, true, 0, "/usr/bin/php-zts").unwrap_err().message();
    assert!(err.contains("executor_globals_offset"), "{err}");
}

#[test]
fn resolve_eg_zts_returns_sentinel_for_runtime_resolution() {
    // ZTS builds don't have a static EG address.
    let addr =
        resolve_executor_globals(None, None, true, false, "/usr/bin/php8.3-zts", 0, 0).unwrap();
    assert_eq!(addr, 0);
}

#[test]
fn resolve_eg_stripped_message_suggests_override() {
    let err = resolve_executor_globals(None, None, false, false, "/usr/bin/php", 0, 0)
        .unwrap_err()
        .message();
    assert!(err.contains("--executor-globals"), "missing flag hint: {err}");
}

#[test]
fn scan_finds_version_among_other_strings() {
    // A .rodata blob: random strings and a version literal.
    let mut data = Vec::new();
    data.extend_from_slice(b"some other string\0");
    data.extend_from_slice(b"X-Powered-By: PHP/8.0.30\0");
    data.extend_from_slice(b"8.0.30\0");
    data.extend_from_slice(b"junk\0");
    let v = scan_for_version(&data).unwrap();
    assert_eq!(v, "8.0.30");
}

#[test]
fn the_shortest_version_is_found() {
    assert_eq!(scan_for_version(b"8.0.0\0").as_deref(), Some("8.0.0"));
    assert_eq!(scan_for_version(b"\0\08.123.456\0").as_deref(), Some("8.123.456"));
}

#[test]
fn versions_must_be_terminated_and_exact() {
    assert_eq!(scan_for_version(b"8.0.30"), None);
    assert_eq!(scan_for_version(b"x8.0.30\0"), None);
    assert_eq!(scan_for_version(b"8.1234.1\0"), None);
    assert_eq!(scan_for_version(&[b'8', b'.', 0xb0, b'.', b'1', 0]), None);
    assert_eq!(scan_for_version(b""), None);
    // The first one counts.
    assert_eq!(scan_for_version(b"8.1.2\08.3.4\0").as_deref(), Some("8.1.2"));
}

#[test]
fn addresses_below_the_base_are_relative() {
    assert_eq!(apply_override(0x5000, 0x5000), 0x5000);
    assert_eq!(apply_override(0x4fff, 0x5000), 0x9fff);
    assert_eq!(apply_override(0, 0), 0);
}

fn named(list: &[(&str, u64)]) -> Vec<Symbol> {
    list.iter().map(|(n, a)| Symbol { name: Some(n.to_string()), address: *a }).collect()
}

fn options() -> ResolveOptions<'static> {
    ResolveOptions {
        load_base: 0x10000,
        executor_globals_override: None,
        php_version_override: None,
        allow_stripped: false,
        label: "/usr/bin/php",
    }
}

fn image(e_type: u16, symbols: &[(&str, u64)], dynamic: &[(&str, u64)]) -> ElfImage {
    ElfImage {
        header: Header { e_type, e_machine: 62 },
        symbols: named(symbols),
        dynamic_symbols: named(dynamic),
    }
}

#[test]
fn symbols_are_biased_where_the_file_is_position_independent() {
    let syms = [("main", 1), ("executor_globals", 0x500), ("php_version", 0x600)];
    let s = resolve_image(&image(3, &syms, &[]), Some(Arch::X86_64), &options()).unwrap();
    assert_eq!(s.executor_globals, 0x10500);
    assert_eq!(s.php_version, Some(0x10600));
    assert!(s.zts.is_none());
    let s = resolve_image(&image(2, &syms, &[]), Some(Arch::X86_64), &options()).unwrap();
    assert_eq!(s.executor_globals, 0x500);
    assert_eq!(s.php_version, Some(0x600));
}

#[test]
fn the_first_symbol_counts_and_the_symbol_table_goes_first() {
    let i = image(
        2,
        &[("executor_globals", 0x100), ("executor_globals", 0x200)],
        &[("executor_globals", 0x300), ("php_version", 0x400)],
    );
    let s = resolve_image(&i, Some(Arch::X86_64), &options()).unwrap();
    assert_eq!(s.executor_globals, 0x100);
    assert_eq!(s.php_version, Some(0x400));
}

#[test]
fn overrides_go_before_symbols() {
    let i = image(3, &[("executor_globals", 0x500), ("php_version", 0x600)], &[]);
    let mut opts = options();
    opts.executor_globals_override = Some(0x1000);
    opts.php_version_override = Some(0x20000);
    let s = resolve_image(&i, Some(Arch::X86_64), &opts).unwrap();
    assert_eq!(s.executor_globals, 0x11000);
    assert_eq!(s.php_version, Some(0x20000));
}

#[test]
fn zts_builds_are_recognised_by_their_symbols() {
    let i = image(
        3,
        &[
            ("tsrm_get_ls_cache", 0x10),
            ("tsrm_get_ls_cache_tcb_offset", 0x20),
            ("executor_globals_offset", 0x30),
        ],
        &[],
    );
    let s = resolve_image(&i, Some(Arch::X86_64), &options()).unwrap();
    let z = s.zts.unwrap();
    assert_eq!((s.executor_globals, z.tcb_offset_fn, z.eg_offset_var), (0, 0x10020, 0x10030));
    let i = image(3, &[("tsrm_get_ls_cache", 0x10)], &[]);
    let e = resolve_image(&i, Some(Arch::X86_64), &options()).unwrap_err();
    assert_eq!(e.fault, SymbolFault::ZtsStripped);
}

#[test]
fn unsuitable_binaries_are_refused() {
    let i = image(1, &[], &[]);
    let e = resolve_image(&i, Some(Arch::X86_64), &options()).unwrap_err();
    assert_eq!(e.fault, SymbolFault::UnsupportedType { e_type: 1 });
    assert_eq!(e.message(), "unsupported ELF type 1");
    let i = image(3, &[], &[]);
    let e = resolve_image(&i, None, &options()).unwrap_err();
    assert_eq!(
        e.message(),
        "pfp built for unsupported host arch (need x86_64 or aarch64)"
    );
    let e = resolve_image(&i, Some(Arch::Aarch64), &options()).unwrap_err();
    assert_eq!(e.fault, SymbolFault::WrongMachine { machine: 62, expected: 183 });
    assert_eq!(
        e.message(),
        "/usr/bin/php is built for ELF machine 0x3e, but pfp was built for 0xb7. \
         Run a pfp binary that matches the target's architecture."
    );
    let e = resolve_image(&i, Some(Arch::X86_64), &options()).unwrap_err();
    assert_eq!(e.fault, SymbolFault::NoExecutorGlobals { allow_stripped: false });
    let mut opts = options();
    opts.allow_stripped = true;
    let e = resolve_image(&i, Some(Arch::X86_64), &opts).unwrap_err();
    assert_eq!(
        e.message(),
        "symbol `executor_globals` not found in /usr/bin/php and no --executor-globals override given"
    );
}

/// A little ELF file with a read-only data section and two symbol tables.
fn elf(
    e_type: u16,
    machine: u16,
    symbols: &[(&str, u64)],
    dynamic: &[(&str, u64)],
    rodata: &[u8],
) -> Vec<u8> {
    fn table(list: &[(&str, u64)]) -> (Vec<u8>, Vec<u8>) {
        let mut syms = vec![0u8; 24];
        let mut strs = vec![0u8];
        for (name, addr) in list {
            syms.extend_from_slice(&(strs.len() as u32).to_le_bytes());
            syms.extend_from_slice(&[0x11, 0, 1, 0]);
            syms.extend_from_slice(&addr.to_le_bytes());
            syms.extend_from_slice(&[0; 8]);
            strs.extend_from_slice(name.as_bytes());
            strs.push(0);
        }
        (syms, strs)
    }
    let (symtab, strtab) = table(symbols);
    let (dynsym, dynstr) = table(dynamic);
    let names = b"\0.rodata\0.symtab\0.strtab\0.dynsym\0.dynstr\0.shstrtab\0.text\0";
    let at = |n: &[u8]| {
        names.windows(n.len() + 1).position(|w| w[..n.len()] == *n && w[n.len()] == 0).unwrap()
            as u32
    };
    // Name, type, contents, link, entry size.
    let sections: Vec<(u32, u32, &[u8], u32, u64)> = vec![
        (0, 0, &[], 0, 0),
        (at(b".text"), 1, b"8.9.9\0", 0, 0),
        (at(b".rodata"), 1, rodata, 0, 0),
        (at(b".symtab"), 2, &symtab, 4, 24),
        (at(b".strtab"), 3, &strtab, 0, 0),
        (at(b".dynsym"), 11, &dynsym, 6, 24),
        (at(b".dynstr"), 3, &dynstr, 0, 0),
        (at(b".shstrtab"), 3, names, 0, 0),
    ];
    let mut out = vec![0u8; 64];
    let mut headers = Vec::new();
    for (name, kind, data, link, entry) in &sections {
        let offset = out.len() as u64;
        out.extend_from_slice(data);
        headers.extend_from_slice(&name.to_le_bytes());
        headers.extend_from_slice(&kind.to_le_bytes());
        headers.extend_from_slice(&[0; 16]);
        headers.extend_from_slice(&offset.to_le_bytes());
        headers.extend_from_slice(&(data.len() as u64).to_le_bytes());
        headers.extend_from_slice(&link.to_le_bytes());
        headers.extend_from_slice(&1u32.to_le_bytes());
        headers.extend_from_slice(&1u64.to_le_bytes());
        headers.extend_from_slice(&entry.to_le_bytes());
    }
    let shoff = out.len() as u64;
    out.extend_from_slice(&headers);
    out[..7].copy_from_slice(&[0x7f, b'E', b'L', b'F', 2, 1, 1]);
    out[16..18].copy_from_slice(&e_type.to_le_bytes());
    out[18..20].copy_from_slice(&machine.to_le_bytes());
    out[20] = 1;
    out[40..48].copy_from_slice(&shoff.to_le_bytes());
    out[52..54].copy_from_slice(&64u16.to_le_bytes());
    out[54..56].copy_from_slice(&56u16.to_le_bytes());
    out[58..60].copy_from_slice(&64u16.to_le_bytes());
    out[60..62].copy_from_slice(&(sections.len() as u16).to_le_bytes());
    out[62..64].copy_from_slice(&7u16.to_le_bytes());
    out
}

#[test]
fn symbols_are_resolved_from_a_file() {
    let bytes = elf(
        3,
        183,
        &[("main", 0x1), ("executor_globals", 0x500)],
        &[("php_version", 0x600), ("executor_globals", 0x700)],
        b"",
    );
    let s = resolve(&bytes, Some(Arch::Aarch64), &options()).unwrap();
    assert_eq!(s.executor_globals, 0x10500);
    assert_eq!(s.php_version, Some(0x10600));
    let e = resolve(&bytes, Some(Arch::X86_64), &options()).unwrap_err();
    assert_eq!(e.fault, SymbolFault::WrongMachine { machine: 183, expected: 62 });
    let e = resolve(&elf(4, 62, &[], &[], b""), Some(Arch::X86_64), &options()).unwrap_err();
    assert_eq!(e.fault, SymbolFault::UnsupportedType { e_type: 4 });
}

#[test]
fn a_file_that_is_not_elf() {
    let e = resolve(b"#!/bin/sh\n", Some(Arch::X86_64), &options()).unwrap_err();
    assert_eq!(e.fault, SymbolFault::NotElf);
    assert_eq!(e.message(), "parsing ELF /usr/bin/php");
    assert_eq!(find_php_version_in_elf(b"8.0.30\0"), None);
}

#[test]
fn the_version_is_found_in_read_only_data_alone() {
    let bytes = elf(3, 62, &[], &[], b"x\08.2.31\0y");
    assert_eq!(find_php_version_in_elf(&bytes).as_deref(), Some("8.2.31"));
    // The section that holds code has a version too, and is not looked at.
    let bytes = elf(3, 62, &[], &[], b"nothing here\0");
    assert_eq!(find_php_version_in_elf(&bytes), None);
}

#[test]
fn sections_are_searched_in_order() {
    let section = |name: Option<&str>, data: Option<&'static [u8]>| Section {
        name: name.map(str::to_string),
        data,
    };
    let list = [
        section(None, Some(b"8.0.1\0")),
        section(Some(".data"), Some(b"8.0.2\0")),
        section(Some(".rodata1"), None),
        section(Some(".data.rel.ro"), Some(b"8.0.3\0")),
        section(Some(".rodata"), Some(b"8.0.4\0")),
    ];
    assert_eq!(find_php_version_in_sections(&list).as_deref(), Some("8.0.3"));
    assert_eq!(find_php_version_in_sections(&list[..3]), None);
}

fn args() -> Args {
    Args {
        pid: Some(7),
        pgrep: None,
        cmdline: None,
        this_container: false,
        rediscover_secs: 5,
        rate_hz: 99,
        duration_secs: 0,
        max_depth: 8,
        format: Format::Stacks,
        output: None,
        pyroscope_url: None,
        pyroscope_app: "php".to_string(),
        pyroscope_label: Vec::new(),
        push_interval_secs: 10,
        pyroscope_auth_token: None,
        pyroscope_tenant_id: None,
        pyroscope_header: Vec::new(),
        request_info: true,
        php_version: None,
        executor_globals: None,
    }
}

fn attach_sampler(a: &Args, bytes: &[u8]) -> Result<Sampler, SamplerError> {
    let binary = Binary { path: "/usr/bin/php".to_string(), load_base: 0x10000 };
    Sampler::attach(
        7,
        a,
        Some(Arch::X86_64),
        &binary,
        bytes,
        &Remote::new(7),
        None,
        &LayoutOverrides::none(),
        0,
        0,
    )
}

#[test]
fn a_sampler_attaches_by_the_literal_and_samples() {
    let bytes = elf(3, 62, &[("executor_globals", 0x500)], &[], b"8.3.1\0");
    let mut s = attach_sampler(&args(), &bytes).ok().unwrap();
    assert_eq!(s.target.php_version, "8.3.1");
    assert_eq!(s.target.symbols.executor_globals, 0x10500);
    assert_eq!((s.target.pid, s.max_depth, s.capture_request_info), (7, 8, true));
    // Nothing runs: there is nothing to write.
    let running = 0x10500 + 488;
    assert_eq!(
        s.sample_once(0, 0).err(),
        Some(ReadError::Pending { addr: running, len: 8 })
    );
    s.target.remote.supply(running, 8, Some(vec![0; 8]));
    assert!(matches!(s.sample_once(0, 0), Ok(None)));
    // One frame without a function, and no request that can be read.
    s.target.remote.forget();
    s.target.remote.supply(running, 8, Some(0x9000u64.to_le_bytes().to_vec()));
    s.target.remote.supply(0x9000, 64, Some(vec![0; 64]));
    s.target.remote.supply(0x10500 + 304 + 24, 4, None);
    match s.sample_once(0, 0) {
        Ok(Some(Output::Bytes(b))) => assert_eq!(b, b"0 <unknown> <unknown>:0\n\n"),
        _ => panic!("a sample is written"),
    }
    // The executor globals cannot be read.
    s.target.remote.supply(running, 8, None);
    assert_eq!(
        s.sample_once(0, 0).err(),
        Some(ReadError::Failed { addr: running, len: 8 })
    );
}

#[test]
fn a_sampler_is_refused_without_symbols_or_with_a_bad_header() {
    let bytes = elf(3, 62, &[], &[], b"8.3.1\0");
    match attach_sampler(&args(), &bytes).err().unwrap() {
        SamplerError::Attach(AttachError::Symbols(e)) => {
            assert_eq!(e.fault, SymbolFault::NoExecutorGlobals { allow_stripped: false })
        }
        _ => panic!("symbols are missing"),
    }
    // With the address and the version given by hand it works.
    let mut a = args();
    a.executor_globals = Some(0x500);
    a.php_version = Some("8.5".to_string());
    let s = attach_sampler(&a, &bytes).ok().unwrap();
    assert_eq!(s.target.symbols.executor_globals, 0x10500);
    assert_eq!(s.target.layout.label, "8.5");
    a.pyroscope_url = Some("http://p".to_string());
    a.pyroscope_header = vec!["nonsense".to_string()];
    assert!(matches!(
        attach_sampler(&a, &bytes).err().unwrap(),
        SamplerError::Header(line) if line == "nonsense"
    ));
}
