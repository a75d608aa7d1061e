use pfp::arch::Arch;
use pfp::offsets::{layout_8_3, LayoutOverrides};
use pfp::prologue::{decode_php_version_prologue, PrologueError};
use pfp::remote::{ReadError, Remote};
use pfp::sampler::take_sample;
use pfp::symbols::{SymbolFault, Symbols, Zts};
use pfp::target::{
    attach_next, AttachError, AttachNext, AttachOptions, Binary, Target, Walk,
};
use pfp::tls::ZtsError;

fn x86(fn_addr: u64, buf: &[u8]) -> Result<u64, PrologueError> {
    decode_php_version_prologue(Arch::X86_64, fn_addr, buf)
}

fn arm(fn_addr: u64, buf: &[u8]) -> Result<u64, PrologueError> {
    decode_php_version_prologue(Arch::Aarch64, fn_addr, buf)
}

#[test]
fn x86_64_prologue_no_endbr() {
    //   29d640: lea 0x1a63de(%rip), %rax
    //   29d647: ret
    // RIP-relative target = 0x29d640 + 7 + 0x1a63de = 0x443a25
    let buf = [0x48, 0x8d, 0x05, 0xde, 0x63, 0x1a, 0x00, 0xc3, 0, 0, 0, 0];
    let addr = x86(0x29d640, &buf).unwrap();
    assert_eq!(addr, 0x443a25);
}

#[test]
fn x86_64_prologue_with_endbr64() {
    // Same disp32 but with endbr64 prepended: the target moves by 4 bytes too.
    let buf = [
        0xf3, 0x0f, 0x1e, 0xfa, 0x48, 0x8d, 0x05, 0xde, 0x63, 0x1a, 0x00, 0xc3,
    ];
    let addr = x86(0x29d640, &buf).unwrap();
    assert_eq!(addr, 0x443a29);
}

#[test]
fn x86_64_prologue_rejects_garbage() {
    let buf = [0x90; 12];
    assert!(x86(0x1000, &buf).is_err());
}

#[test]
fn aarch64_prologue_decodes_real_sury_bytes() {
    // At 0x288ba0:
    //   adrp x0, 0x402000   ; needs imm = 0x17a (page delta = 0x17a000)
    //   add  x0, x0, #0xbc8
    //   ret
    let adrp = 0xd000_0bc0_u32.to_le_bytes();
    // ADD imm12: 0x91000000 | (0xbc8 << 10) | (0 << 5) | 0 = 0x912f2000
    let add = 0x912f_2000_u32.to_le_bytes();
    let ret = 0xd65f_03c0_u32.to_le_bytes();
    let mut buf = [0u8; 16];
    buf[0..4].copy_from_slice(&adrp);
    buf[4..8].copy_from_slice(&add);
    buf[8..12].copy_from_slice(&ret);

    let str_addr = arm(0x288ba0, &buf).unwrap();
    assert_eq!(str_addr, 0x402bc8);
}

#[test]
fn aarch64_prologue_skips_bti_landing_pad() {
    //   d503245f  bti c
    //   f0000c00  adrp x0, ...
    //   91152000  add  x0, x0, #0x548
    //   d65f03c0  ret
    let bti = 0xd503_245f_u32.to_le_bytes();
    let adrp = 0xf000_0c00_u32.to_le_bytes();
    let add = 0x9115_2000_u32.to_le_bytes();
    let ret = 0xd65f_03c0_u32.to_le_bytes();
    let mut buf = [0u8; 20];
    buf[0..4].copy_from_slice(&bti);
    buf[4..8].copy_from_slice(&adrp);
    buf[8..12].copy_from_slice(&add);
    buf[12..16].copy_from_slice(&ret);

    let result = arm(0x100000, &buf);
    assert!(result.is_ok(), "BTI prologue should decode: {result:?}");
    // 0x183 pages on, at 0x548 there.
    assert_eq!(result, Ok(0x283548));
}

#[test]
fn aarch64_prologue_rejects_non_adrp() {
    // First instruction is a NOP (0xd503201f).
    let mut buf = [0u8; 16];
    buf[0..4].copy_from_slice(&0xd503_201f_u32.to_le_bytes());
    buf[4..8].copy_from_slice(&0x9100_0000_u32.to_le_bytes());
    buf[8..12].copy_from_slice(&0xd65f_03c0_u32.to_le_bytes());
    assert!(arm(0x1000, &buf).is_err());
}

#[test]
fn aarch64_prologue_rejects_missing_ret() {
    let mut buf = [0u8; 16];
    buf[0..4].copy_from_slice(&0x9000_0000_u32.to_le_bytes());
    buf[4..8].copy_from_slice(&0x9100_0000_u32.to_le_bytes());
    buf[8..12].copy_from_slice(&0xdead_beef_u32.to_le_bytes());
    assert!(arm(0x1000, &buf).is_err());
}

fn words(ws: &[u32]) -> Vec<u8> {
    ws.iter().flat_map(|w| w.to_le_bytes()).collect()
}

#[test]
fn prologue_errors_are_told_apart() {
    assert_eq!(x86(0, &[0x48, 0x8d, 0x05]), Err(PrologueError::NotLeaRet));
    assert_eq!(arm(0, &[0; 15]), Err(PrologueError::Short { len: 15 }));
    let (adrp, add, ret) = (0x9000_0000, 0x9100_0000, 0xd65f_03c0);
    assert_eq!(arm(0, &words(&[1, add, ret, 0])), Err(PrologueError::NotAdrp { word: 1 }));
    assert_eq!(arm(0, &words(&[adrp, 2, ret, 0])), Err(PrologueError::NotAdd { word: 2 }));
    // An immediate that is shifted by twelve bits is not an offset into a page.
    let shifted = 0x9140_0000;
    assert_eq!(
        arm(0, &words(&[adrp, shifted, ret, 0])),
        Err(PrologueError::NotAdd { word: shifted })
    );
    assert_eq!(arm(0, &words(&[adrp, add, 3, 0])), Err(PrologueError::NotRet { word: 3 }));
    // All pages of immediate bits set: one page back.
    assert_eq!(arm(0x5123, &words(&[0xf0ff_ffe0, add, ret, 0])), Ok(0x4000));
    // Displacements are signed, and addresses wrap.
    let back = [0x48, 0x8d, 0x05, 0xf8, 0xff, 0xff, 0xff, 0xc3];
    assert_eq!(x86(0x1000, &back), Ok(0xfff));
    assert_eq!(x86(0, &back), Ok(u64::MAX));
}

#[derive(Default)]
struct Memory {
    bytes: std::collections::BTreeMap<u64, u8>,
}

impl Memory {
    fn put(&mut self, addr: u64, b: &[u8]) {
        for (i, x) in b.iter().enumerate() {
            self.bytes.insert(addr + i as u64, *x);
        }
    }

    fn put_u64(&mut self, addr: u64, v: u64) {
        self.put(addr, &v.to_le_bytes());
    }

    fn put_u32(&mut self, addr: u64, v: u32) {
        self.put(addr, &v.to_le_bytes());
    }

    fn put_string(&mut self, addr: u64, s: &str) {
        self.put_u64(addr + 16, s.len() as u64);
        self.put(addr + 24, s.as_bytes());
    }

    fn reply(&self, addr: u64, len: usize) -> Option<Vec<u8>> {
        (0..len as u64).map(|i| self.bytes.get(&(addr + i)).copied()).collect()
    }
}

fn symbols(php_version: Option<u64>, zts: Option<Zts>) -> Symbols {
    Symbols {
        executor_globals: if zts.is_some() { 0 } else { 0xe000 },
        php_version,
        zts,
    }
}

fn attach(
    mem: &Memory,
    symbols: Symbols,
    literal: Option<&str>,
    tls_base: Option<u64>,
    opts: &AttachOptions,
) -> Result<Target, AttachError> {
    let mut rem = Remote::new(42);
    loop {
        match Target::attach_resolved(
            42,
            Arch::X86_64,
            "/usr/bin/php",
            symbols,
            literal.map(str::to_string),
            &rem,
            tls_base,
            opts,
            &LayoutOverrides::none(),
        ) {
            Ok(t) => return Ok(t),
            Err(e) => match e.pending_read() {
                Some((addr, len)) => rem.supply(addr, len, mem.reply(addr, len)),
                None => return Err(e),
            },
        }
    }
}

fn with_accessor() -> Memory {
    let mut mem = Memory::default();
    // lea rax, [rip + 0x100 - 7]; ret
    mem.put(0x7000, &[0x48, 0x8d, 0x05, 0xf9, 0, 0, 0, 0xc3]);
    mem.put(0x7008, &[0x90; 16]);
    mem.put(0x7100, b"8.3.31\0");
    mem.put(0x7107, &[0; 32]);
    mem
}

#[test]
fn the_version_is_the_given_one_or_the_accessors_or_the_literal() {
    let mem = with_accessor();
    let none = AttachOptions::default();
    let given = AttachOptions { php_version_string: Some("8.4"), ..AttachOptions::default() };
    let t = attach(&mem, symbols(Some(0x7000), None), Some("8.1.2"), None, &given).unwrap();
    assert_eq!((t.php_version.as_str(), t.layout.label), ("8.4", "8.4"));
    let t = attach(&mem, symbols(Some(0x7000), None), Some("8.1.2"), None, &none).unwrap();
    assert_eq!((t.php_version.as_str(), t.layout.label), ("8.3.31", "8.3"));
    assert_eq!((t.pid, t.exe.as_str()), (42, "/usr/bin/php"));
    assert_eq!(t.symbols.executor_globals, 0xe000);
    let t = attach(&mem, symbols(None, None), Some("8.1.2"), None, &none).unwrap();
    assert_eq!((t.php_version.as_str(), t.layout.label), ("8.1.2", "8.1"));
    let e = attach(&mem, symbols(None, None), None, None, &none).err().unwrap();
    assert!(matches!(e, AttachError::NoVersion));
}

#[test]
fn attaching_fails_where_the_version_does() {
    let mem = with_accessor();
    let none = AttachOptions::default();
    let e = attach(&mem, symbols(None, None), Some("7.4.33"), None, &none).err().unwrap();
    assert!(matches!(e, AttachError::UnsupportedVersion(v) if v == "7.4.33"));
    let e = attach(&mem, symbols(Some(0x7001), None), None, None, &none).err().unwrap();
    assert!(matches!(e, AttachError::Accessor(PrologueError::NotLeaRet)));
    let e = attach(&mem, symbols(Some(0x100), None), None, None, &none).err().unwrap();
    assert!(matches!(e, AttachError::Read(ReadError::Failed { addr: 0x100, len: 20 })));
    assert_eq!(e.pending_read(), None);
}

#[test]
fn zts_targets_are_located_through_their_thread() {
    let mut mem = with_accessor();
    mem.put(0x8000, &[0x48, 0xc7, 0xc0, 0x10, 0, 0, 0, 0xc3]);
    mem.put(0x8008, &[0; 16]);
    mem.put_u64(0x9010, 0xa000);
    mem.put_u64(0x8100, 0x20);
    mem.put_u64(0xa020, 0xbeef0);
    let zts = Some(Zts { tcb_offset_fn: 0x8000, eg_offset_var: 0x8100 });
    let none = AttachOptions::default();
    let e = attach(&mem, symbols(Some(0x7000), zts), None, None, &none).err().unwrap();
    assert!(matches!(e, AttachError::Zts(ZtsError::NeedTlsBase)));
    let t = attach(&mem, symbols(Some(0x7000), zts), None, Some(0x9000), &none).unwrap();
    assert_eq!(t.symbols.executor_globals, 0xbeef0);
    // An address that was given by hand is kept.
    let by_hand = Symbols { executor_globals: 0x1234, ..symbols(Some(0x7000), zts) };
    let t = attach(&mem, by_hand, None, None, &none).unwrap();
    assert_eq!(t.symbols.executor_globals, 0x1234);
}

#[test]
fn attaching_to_a_file_that_is_not_elf() {
    let binary = Binary { path: "/bin/sh".to_string(), load_base: 0x1000 };
    let e = Target::attach(
        1,
        Some(Arch::X86_64),
        &binary,
        b"#!/bin/sh",
        &Remote::new(1),
        None,
        &AttachOptions::default(),
        &LayoutOverrides::none(),
    )
    .err()
    .unwrap();
    match e {
        AttachError::Symbols(e) => {
            assert_eq!(e.fault, SymbolFault::NotElf);
            assert_eq!(e.label, "/bin/sh");
        }
        _ => panic!("the file is at fault"),
    }
}

/// A stack of `n` frames whose innermost is at 0x10000, and `$_SERVER`.
fn running(n: u64) -> (Memory, Target) {
    let mut mem = Memory::default();
    let eg = 0xe000;
    mem.put_u64(eg + 488, if n == 0 { 0 } else { 0x10000 });
    for i in 0..n {
        let ex = 0x10000 + i * 0x100;
        let func = 0x20000 + i * 0x200;
        mem.put(ex, &[0; 64]);
        mem.put_u64(ex + 24, func);
        mem.put_u64(ex + 48, if i + 1 == n { 0 } else { ex + 0x100 });
        mem.put(func, &[0; 192]);
        mem.put(func, &[1]);
        mem.put_u64(func + 8, 0x30000 + i * 0x100);
        mem.put_string(0x30000 + i * 0x100, &format!("f{i}"));
    }
    let table = eg + 304;
    mem.put_u32(table + 24, 2);
    mem.put_u64(table + 16, 0x40000);
    mem.put_u64(0x40000 + 24, 0);
    mem.put_u64(0x40020, 0x41000);
    mem.put_u32(0x40028, 7);
    mem.put_u64(0x40038, 0x42000);
    mem.put_string(0x42000, "_SERVER");
    mem.put_u32(0x41018, 1);
    mem.put_u64(0x41010, 0x43000);
    mem.put_u64(0x43000, 0x44000);
    mem.put_u32(0x43008, 6);
    mem.put_u64(0x43018, 0x45000);
    mem.put_string(0x44000, "/index.php");
    mem.put_string(0x45000, "REQUEST_URI");
    let given = AttachOptions { php_version_string: Some("8.3.1"), ..AttachOptions::default() };
    let t = attach(&mem, symbols(None, None), None, None, &given).unwrap();
    assert_eq!(t.layout.eg_symbol_table, layout_8_3().eg_symbol_table);
    (mem, t)
}

fn capture(mem: &Memory, t: &mut Target, depth: usize) -> Result<Vec<String>, ReadError> {
    loop {
        match t.capture_stack(depth) {
            Err(ReadError::Pending { addr, len }) => {
                t.remote.supply(addr, len, mem.reply(addr, len))
            }
            Err(e) => return Err(e),
            Ok(frames) => return Ok(frames.iter().map(|f| f.function.to_string()).collect()),
        }
    }
}

#[test]
fn stacks_are_captured_innermost_first() {
    let (mem, mut t) = running(3);
    assert_eq!(capture(&mem, &mut t, 256).unwrap(), ["f0", "f1", "f2"]);
    t.remote.forget();
    assert_eq!(capture(&mem, &mut t, 2).unwrap(), ["f0", "f1"]);
    t.remote.forget();
    assert!(capture(&mem, &mut t, 0).unwrap().is_empty());
    let (mem, mut t) = running(0);
    assert!(capture(&mem, &mut t, 256).unwrap().is_empty());
}

#[test]
fn a_frame_that_cannot_be_read_ends_the_stack() {
    let (mut mem, mut t) = running(3);
    mem.bytes.remove(&0x10200);
    assert_eq!(capture(&mem, &mut t, 256).unwrap(), ["f0", "f1"]);
    t.remote.forget();
    mem.bytes.remove(&(0xe000 + 488));
    assert!(capture(&mem, &mut t, 256).is_err());
}

#[test]
fn a_stack_that_loops_is_cut_at_the_depth() {
    let (mut mem, mut t) = running(2);
    mem.put_u64(0x10100 + 48, 0x10000);
    let frames = capture(&mem, &mut t, 7).unwrap();
    assert_eq!(frames.len(), 7);
    assert_eq!(frames[6], "f0");
}

fn request(mem: &Memory, t: &mut Target, key: &str) -> Option<String> {
    loop {
        match t.request_var(key) {
            Err(ReadError::Pending { addr, len }) => {
                t.remote.supply(addr, len, mem.reply(addr, len))
            }
            r => return r.unwrap(),
        }
    }
}

#[test]
fn request_variables_are_found_in_server() {
    let (mut mem, mut t) = running(1);
    assert_eq!(request(&mem, &mut t, "REQUEST_URI").as_deref(), Some("/index.php"));
    assert_eq!(request(&mem, &mut t, "REQUEST_METHOD"), None);
    // Through a reference.
    t.remote.forget();
    mem.put_u32(0x40028, 10);
    mem.put_u64(0x40020, 0x46000);
    mem.put_u64(0x46010, 0x41000);
    assert_eq!(request(&mem, &mut t, "REQUEST_URI").as_deref(), Some("/index.php"));
    // Neither an array nor a reference.
    t.remote.forget();
    mem.put_u32(0x40028, 4);
    assert_eq!(request(&mem, &mut t, "REQUEST_URI"), None);
    // What leads there cannot be read.
    t.remote.forget();
    mem.bytes.remove(&0x40028);
    assert_eq!(request(&mem, &mut t, "REQUEST_URI"), None);
}

#[test]
fn samples_hold_the_request_if_it_is_wanted() {
    let (mem, mut t) = running(2);
    let take = |t: &mut Target, info| {
        let mut walk = Walk::new(16);
        loop {
            match take_sample(t, &mut walk, info, 16) {
                Err(ReadError::Pending { addr, len }) => {
                    t.remote.supply(addr, len, mem.reply(addr, len))
                }
                r => {
                    assert!(walk.frames.is_empty() && walk.ex.is_none() && walk.left == 16);
                    return r.unwrap().unwrap();
                }
            }
        }
    };
    let s = take(&mut t, true);
    assert_eq!(s.frames.len(), 2);
    assert_eq!(s.meta.request_uri.as_deref(), Some("/index.php"));
    assert_eq!(s.meta.request_method, None);
    let s = take(&mut t, false);
    assert_eq!(s.meta.request_uri, None);
}

#[test]
fn an_answer_stays_when_more_replies_come() {
    let (mem, mut t) = running(3);
    let first = capture(&mem, &mut t, 256).unwrap();
    t.remote.supply(0x999_0000, 8, Some(vec![0; 8]));
    assert_eq!(capture(&mem, &mut t, 256).unwrap(), first);
}

#[test]
fn a_walk_goes_on_where_it_stopped() {
    let (mem, mut t) = running(3);
    let mut walk = Walk::new(256);
    let mut asked = Vec::new();
    while let Err(ReadError::Pending { addr, len }) = t.walk_on(&mut walk) {
        asked.push((addr, len));
        t.remote.supply(addr, len, mem.reply(addr, len));
    }
    assert_eq!(walk.ex, Some(0));
    let names: Vec<String> = walk.frames.iter().map(|f| f.function.to_string()).collect();
    assert_eq!(names, ["f0", "f1", "f2"]);
    // No read was asked for twice: one for the globals, two for each frame, and
    // two for each string.
    let mut once = asked.clone();
    once.sort();
    once.dedup();
    assert_eq!(once.len(), asked.len());
    assert_eq!(asked.len(), 1 + 3 * 4);
    // The strings are remembered: a second walk makes two reads a frame.
    t.remote.forget();
    let mut walk = Walk::new(256);
    let mut reads = 0;
    while let Err(ReadError::Pending { addr, len }) = t.walk_on(&mut walk) {
        reads += 1;
        t.remote.supply(addr, len, mem.reply(addr, len));
    }
    assert_eq!(reads, 1 + 3 * 2);
}

#[test]
fn a_failed_attach_is_tried_again_with_what_it_lacks() {
    let pending = ReadError::Pending { addr: 0x10, len: 8 };
    let read = AttachNext::Read { addr: 0x10, len: 8 };
    assert_eq!(attach_next(&AttachError::Read(pending), true), read);
    assert_eq!(attach_next(&AttachError::Zts(ZtsError::Read(pending)), false), read);
    let base = AttachError::Zts(ZtsError::NeedTlsBase);
    assert_eq!(attach_next(&base, false), AttachNext::TlsBase);
    assert_eq!(attach_next(&base, true), AttachNext::Stop);
    let failed = ReadError::Failed { addr: 0x10, len: 8 };
    assert_eq!(attach_next(&AttachError::Read(failed), false), AttachNext::Stop);
    assert_eq!(attach_next(&AttachError::Zts(ZtsError::NullCache), false), AttachNext::Stop);
    assert_eq!(attach_next(&AttachError::NoVersion, false), AttachNext::Stop);
}
