//! What the small accessor functions of a binary return, from their instructions.

use crate::arch;
use crate::arch::Arch;
use crate::laws::memory;
use crate::laws::memory::{gives, number, number_at, value};
use crate::prologue;
use crate::prologue::PrologueError;
use crate::remote;
use crate::remote::Memory;
use crate::target;
use crate::text;
use crate::tls;
use crate::tls::{TcbError, ZtsError};
use vstd::prelude::*;

verus! {

// Landing pads

/// The landing pads are `endbr64` and the four forms of `bti`.
pub proof fn lemma_landing_pads(buf: Seq<u8>)
    ensures
        arch::endbr_len(buf) == if buf.len() >= 4 && buf.take(4) == seq![
            0xf3u8,
            0x0fu8,
            0x1eu8,
            0xfau8,
        ] {
            4int
        } else {
            0
        },
        buf.len() >= 4 ==> arch::bti_len(buf) == if number_at(buf, 0, 4) == 0xd503_241f
            || number_at(buf, 0, 4) == 0xd503_245f || number_at(buf, 0, 4) == 0xd503_249f
            || number_at(buf, 0, 4) == 0xd503_24df || number_at(buf, 0, 4) == 0xd503_243f
            || number_at(buf, 0, 4) == 0xd503_247f || number_at(buf, 0, 4) == 0xd503_24bf
            || number_at(buf, 0, 4) == 0xd503_24ff {
            4int
        } else {
            0
        },
{
    if buf.len() >= 4 {
        memory::lemma_fields(buf, 0);
        if arch::endbr_len(buf) == 4 {
            assert(buf.take(4) =~= seq![0xf3u8, 0x0fu8, 0x1eu8, 0xfau8]);
        }
        if buf.take(4) == seq![0xf3u8, 0x0fu8, 0x1eu8, 0xfau8] {
            assert(buf.take(4)[0] == buf[0]);
            assert(buf.take(4)[1] == buf[1]);
            assert(buf.take(4)[2] == buf[2]);
            assert(buf.take(4)[3] == buf[3]);
        }
    }
}

// `php_version`

/// A number modulo 2^64.
pub open spec fn modulo(x: int) -> int {
    x % 0x1_0000_0000_0000_0000
}

/// A 32-bit number taken as signed.
pub open spec fn signed(n: int) -> int {
    if n < 0x8000_0000 {
        n
    } else {
        n - 0x1_0000_0000
    }
}

/// On x86_64 the accessor returns the address that its displacement leads to
/// from the end of the instruction that has it, with a landing pad before it or
/// not.
pub proof fn lemma_x86_64_version(fn_addr: u64, pad: Seq<u8>, disp: Seq<u8>, rest: Seq<u8>)
    requires
        pad.len() == 0 || pad == seq![0xf3u8, 0x0fu8, 0x1eu8, 0xfau8],
        disp.len() == 4,
    ensures
        prologue::accessor_target(
            Arch::X86_64,
            fn_addr,
            pad + seq![0x48u8, 0x8du8, 0x05u8] + disp + seq![0xc3u8] + rest,
        ) == Ok::<u64, PrologueError>(
            modulo(fn_addr + pad.len() + 7 + signed(number(disp))) as u64,
        ),
{
    let buf = pad + seq![0x48u8, 0x8du8, 0x05u8] + disp + seq![0xc3u8] + rest;
    let n = pad.len() as int;
    lemma_landing_pads(buf);
    if n == 4 {
        assert(buf.take(4) =~= pad);
    } else {
        assert(buf[0] == 0x48);
        assert(buf.take(4)[0] == 0x48);
    }
    let lea = buf.skip(n);
    memory::lemma_fields(lea, 3);
    assert(lea.subrange(3, 7) =~= disp);
    assert(lea[0] == 0x48 && lea[1] == 0x8d && lea[2] == 0x05 && lea[7] == 0xc3);
}

/// On aarch64 the accessor returns an offset of twelve bits into the page that
/// lies so many pages after its own, with a landing pad before it or not. Pages
/// are counted in 21 bits, signed.
#[verifier::spinoff_prover]
#[verifier::rlimit(40)]
pub proof fn lemma_aarch64_version(
    fn_addr: u64,
    pad: Seq<u8>,
    adrp: Seq<u8>,
    add: Seq<u8>,
    ret: Seq<u8>,
    rest: Seq<u8>,
    pages: int,
    offset: int,
    register: int,
    registers: int,
)
    requires
        pad.len() == 0 || (pad.len() == 4 && number(pad) == 0xd503_245f),
        adrp.len() == 4,
        add.len() == 4,
        ret.len() == 4,
        pad.len() + rest.len() >= 4,
        -0x10_0000 <= pages < 0x10_0000,
        0 <= offset < 0x1000,
        0 <= register < 0x20,
        0 <= registers < 0x400,
        number(adrp) == 0x9000_0000 + (pages % 0x20_0000) % 4 * 0x2000_0000 + (pages % 0x20_0000)
            / 4 * 0x20 + register,
        number(add) == 0x9100_0000 + offset * 0x400 + registers,
        number(ret) == 0xd65f_03c0,
    ensures
        prologue::accessor_target(Arch::Aarch64, fn_addr, pad + adrp + add + ret + rest) == Ok::<
            u64,
            PrologueError,
        >(
            modulo(
                modulo(fn_addr + pad.len()) / 0x1000 * 0x1000 + pages * 0x1000 + offset,
            ) as u64,
        ),
{
    let buf = pad + adrp + add + ret + rest;
    let n = pad.len() as int;
    lemma_landing_pads(buf);
    if n == 4 {
        assert(buf.subrange(0, 4) =~= pad);
    } else {
        assert(buf.subrange(0, 4) =~= adrp);
    }
    memory::lemma_fields(buf, n);
    memory::lemma_fields(buf, n + 4);
    memory::lemma_fields(buf, n + 8);
    assert(buf.subrange(n, n + 4) =~= adrp);
    assert(buf.subrange(n + 4, n + 4 + 4) =~= add);
    assert(buf.subrange(n + 8, n + 8 + 4) =~= ret);
    lemma_adrp(arch::word_at(buf, n), pages, register);
    lemma_add(arch::word_at(buf, n + 4), offset, registers);
}

proof fn lemma_adrp(w: u32, pages: int, register: int)
    requires
        -0x10_0000 <= pages < 0x10_0000,
        0 <= register < 0x20,
        w == 0x9000_0000 + (pages % 0x20_0000) % 4 * 0x2000_0000 + (pages % 0x20_0000) / 4 * 0x20
            + register,
    ensures
        prologue::is_adrp(w),
        prologue::adrp_pages(w) == pages,
{
    let imm = pages % 0x20_0000;
    assert((w as int / 0x20) % 0x8_0000 == imm / 4);
    assert((w as int / 0x2000_0000) % 4 == imm % 4);
}

proof fn lemma_add(w: u32, offset: int, registers: int)
    requires
        0 <= offset < 0x1000,
        0 <= registers < 0x400,
        w == 0x9100_0000 + offset * 0x400 + registers,
    ensures
        prologue::is_add(w),
        (w as int / 0x400) % 0x1000 == offset,
{
}

/// On aarch64 anything but these three instructions is refused.
pub proof fn lemma_aarch64_refuses(fn_addr: u64, buf: Seq<u8>, n: int)
    requires
        buf.len() >= 16,
        n == arch::bti_len(buf),
    ensures
        prologue::accessor_target(Arch::Aarch64, fn_addr, buf) is Ok ==> number_at(buf, n + 8, 4)
            == 0xd65f_03c0 && 0x9100_0000 <= number_at(buf, n + 4, 4) < 0x9140_0000 && 0x9000_0000
            <= number_at(buf, n, 4),
{
    memory::lemma_fields(buf, n);
    memory::lemma_fields(buf, n + 4);
    memory::lemma_fields(buf, n + 8);
}

/// On x86_64 anything but the two instructions is refused.
pub proof fn lemma_x86_64_refuses(fn_addr: u64, buf: Seq<u8>, n: int)
    requires
        n == arch::endbr_len(buf),
    ensures
        prologue::accessor_target(Arch::X86_64, fn_addr, buf) is Ok ==> buf.len() >= n + 8 && buf[n]
            == 0x48 && buf[n + 1] == 0x8d && buf[n + 2] == 0x05 && buf[n + 7] == 0xc3,
{
}

/// The bytes of a string end before its first zero byte.
pub proof fn lemma_before_nul(s: Seq<u8>, rest: Seq<u8>)
    requires
        !s.contains(0),
    ensures
        remote::before_nul(s + seq![0u8] + rest) == s,
        remote::before_nul(s) == s,
    decreases s.len(),
{
    let all = s + seq![0u8] + rest;
    if s.len() == 0 {
        assert(all[0] == 0);
        assert(remote::before_nul(all) =~= s);
        assert(remote::before_nul(s) =~= s);
    } else {
        let less = s.drop_first();
        assert(s.contains(s[0]));
        assert(!less.contains(0)) by {
            if less.contains(0) {
                let i = choose|i: int| 0 <= i < less.len() && less[i] == 0;
                assert(s[i + 1] == 0);
            }
        }
        lemma_before_nul(less, rest);
        assert(all.drop_first() =~= less + seq![0u8] + rest);
        assert(all[0] == s[0]);
        assert(seq![s[0]] + less =~= s);
    }
}

/// The version that a target's accessor leads to is the text at the address that
/// it returns, up to the zero byte.
pub proof fn lemma_version_read(
    mem: Memory,
    machine: Arch,
    fn_addr: u64,
    buf: Seq<u8>,
    at: u64,
    s: Seq<u8>,
    rest: Seq<u8>,
)
    requires
        gives(mem, fn_addr, 20, buf),
        prologue::accessor_target(machine, fn_addr, buf) == Ok::<u64, PrologueError>(at),
        at != 0,
        !s.contains(0),
        gives(mem, at, 32, s + seq![0u8] + rest),
    ensures
        target::php_version_at(mem, machine, fn_addr) == Ok::<Seq<char>, target::AttachFault>(
            text::utf8_lossy(s),
        ),
{
    memory::lemma_reads(mem, fn_addr, 20);
    memory::lemma_reads(mem, at, 32);
    lemma_before_nul(s, rest);
}

// The slot of a thread

/// On x86_64 the accessor returns its immediate, signed, with a landing pad
/// before it or not.
pub proof fn lemma_x86_64_slot(pad: Seq<u8>, imm: Seq<u8>, rest: Seq<u8>)
    requires
        pad.len() == 0 || pad == seq![0xf3u8, 0x0fu8, 0x1eu8, 0xfau8],
        imm.len() == 4,
    ensures
        tls::tcb_offset(
            Arch::X86_64,
            pad + seq![0x48u8, 0xc7u8, 0xc0u8] + imm + seq![0xc3u8] + rest,
        ) == Ok::<i64, TcbError>(signed(number(imm)) as i64),
{
    let buf = pad + seq![0x48u8, 0xc7u8, 0xc0u8] + imm + seq![0xc3u8] + rest;
    let n = pad.len() as int;
    lemma_landing_pads(buf);
    if n == 4 {
        assert(buf.take(4) =~= pad);
    } else {
        assert(buf.take(4)[0] == 0x48);
    }
    let mov = buf.skip(n);
    memory::lemma_fields(mov, 3);
    assert(mov.subrange(3, 7) =~= imm);
    assert(mov[0] == 0x48 && mov[1] == 0xc7 && mov[2] == 0xc0 && mov[7] == 0xc3);
}

/// The place value of a quarter of a 64-bit register.
pub open spec fn quarter(i: int) -> int {
    if i == 0 {
        1
    } else if i == 1 {
        0x1_0000
    } else if i == 2 {
        0x1_0000_0000
    } else {
        0x1_0000_0000_0000
    }
}

/// A 64-bit number taken as signed.
pub open spec fn signed_64(n: int) -> int {
    if n < 0x8000_0000_0000_0000 {
        n
    } else {
        n - 0x1_0000_0000_0000_0000
    }
}

proof fn lemma_mov(w: u32, base: int, imm: int, i: int)
    requires
        base == 0xd280_0000 || base == 0xf280_0000,
        0 <= imm < 0x1_0000,
        0 <= i < 4,
        w == base + i * 0x20_0000 + imm * 0x20,
    ensures
        tls::is_movz(w) == (base == 0xd280_0000),
        tls::is_movk(w) == (base == 0xf280_0000),
        tls::mov_register(w) == 0,
        tls::mov_immediate(w) == imm,
        tls::mov_unit(w) == quarter(i),
{
}

proof fn lemma_registers(w: u32, k: u32, imm: int, i: int, more: int, j: int)
    requires
        0 <= imm < 0x1_0000,
        0 <= more < 0x1_0000,
        0 <= i < 4,
        0 <= j < 4,
        i != j,
        w == 0xd280_0000 + i * 0x20_0000 + imm * 0x20,
        k == 0xf280_0000 + j * 0x20_0000 + more * 0x20,
    ensures
        tls::after_movz(w) == imm * quarter(i),
        tls::after_movk(tls::after_movz(w), k) == imm * quarter(i) + more * quarter(j),
        tls::signed64(tls::after_movz(w)) == signed_64(imm * quarter(i)),
        tls::signed64(tls::after_movk(tls::after_movz(w), k)) == signed_64(
            imm * quarter(i) + more * quarter(j),
        ),
{
    lemma_mov(w, 0xd280_0000, imm, i);
    lemma_mov(k, 0xf280_0000, more, j);
    lemma_quarters(imm, i, more, j);
}

proof fn lemma_slot_movz(buf: Seq<u8>, n: int, imm: int, i: int)
    requires
        buf.len() >= 12,
        n == arch::bti_len(buf),
        0 <= imm < 0x1_0000,
        0 <= i < 4,
        arch::word_at(buf, n) == 0xd280_0000 + i * 0x20_0000 + imm * 0x20,
    ensures
        tls::tcb_offset(Arch::Aarch64, buf) == tls::movk_at(
            buf,
            n + 4,
            tls::after_movz(arch::word_at(buf, n)),
        ),
{
    lemma_mov(arch::word_at(buf, n), 0xd280_0000, imm, i);
}

/// On aarch64 an accessor of one `movz` returns its immediate in its quarter of
/// the register.
pub proof fn lemma_aarch64_slot(
    pad: Seq<u8>,
    movz: Seq<u8>,
    ret: Seq<u8>,
    rest: Seq<u8>,
    imm: int,
    i: int,
)
    requires
        pad.len() == 0 || (pad.len() == 4 && number(pad) == 0xd503_245f),
        movz.len() == 4,
        ret.len() == 4,
        pad.len() + rest.len() >= 4,
        0 <= imm < 0x1_0000,
        0 <= i < 4,
        number(movz) == 0xd280_0000 + i * 0x20_0000 + imm * 0x20,
        number(ret) == 0xd65f_03c0,
    ensures
        tls::tcb_offset(Arch::Aarch64, pad + movz + ret + rest) == Ok::<i64, TcbError>(
            signed_64(imm * quarter(i)) as i64,
        ),
{
    let n = pad.len() as int;
    let buf = pad + movz + ret + rest;
    lemma_landing_pads(buf);
    if n == 4 {
        assert(buf.subrange(0, 4) =~= pad);
    } else {
        assert(buf.subrange(0, 4) =~= movz);
    }
    memory::lemma_fields(buf, n);
    memory::lemma_fields(buf, n + 4);
    assert(buf.subrange(n, n + 4) =~= movz);
    assert(buf.subrange(n + 4, n + 4 + 4) =~= ret);
    lemma_slot_movz(buf, n, imm, i);
    let j: int = if i == 0 {
        1
    } else {
        0
    };
    let k: u32 = (0xf280_0000 + j * 0x20_0000) as u32;
    lemma_registers(arch::word_at(buf, n), k, imm, i, 0, j);
}

/// With a `movk` after the `movz`, its immediate stands in its quarter too.
#[verifier::spinoff_prover]
#[verifier::rlimit(40)]
pub proof fn lemma_aarch64_slot_of_two(
    pad: Seq<u8>,
    movz: Seq<u8>,
    movk: Seq<u8>,
    ret: Seq<u8>,
    rest: Seq<u8>,
    imm: int,
    i: int,
    more: int,
    j: int,
)
    requires
        pad.len() == 0 || (pad.len() == 4 && number(pad) == 0xd503_245f),
        movz.len() == 4,
        movk.len() == 4,
        ret.len() == 4,
        0 <= imm < 0x1_0000,
        0 <= more < 0x1_0000,
        0 <= i < 4,
        0 <= j < 4,
        i != j,
        number(movz) == 0xd280_0000 + i * 0x20_0000 + imm * 0x20,
        number(movk) == 0xf280_0000 + j * 0x20_0000 + more * 0x20,
        number(ret) == 0xd65f_03c0,
    ensures
        tls::tcb_offset(Arch::Aarch64, pad + movz + movk + ret + rest) == Ok::<i64, TcbError>(
            signed_64(imm * quarter(i) + more * quarter(j)) as i64,
        ),
{
    let n = pad.len() as int;
    let buf = pad + movz + movk + ret + rest;
    lemma_landing_pads(buf);
    if n == 4 {
        assert(buf.subrange(0, 4) =~= pad);
    } else {
        assert(buf.subrange(0, 4) =~= movz);
    }
    memory::lemma_fields(buf, n);
    memory::lemma_fields(buf, n + 4);
    memory::lemma_fields(buf, n + 8);
    assert(buf.subrange(n, n + 4) =~= movz);
    assert(buf.subrange(n + 4, n + 4 + 4) =~= movk);
    assert(buf.subrange(n + 8, n + 8 + 4) =~= ret);
    lemma_slot_movz(buf, n, imm, i);
    lemma_mov(arch::word_at(buf, n + 4), 0xf280_0000, more, j);
    lemma_registers(arch::word_at(buf, n), arch::word_at(buf, n + 4), imm, i, more, j);
}

/// On aarch64 an accessor starts with a `movz` of the register that is returned,
/// and returns after it or after one more instruction.
pub proof fn lemma_aarch64_slot_refuses(buf: Seq<u8>, n: int)
    requires
        n == arch::bti_len(buf),
    ensures
        tls::tcb_offset(Arch::Aarch64, buf) is Ok ==> {
            &&& buf.len() >= 12
            &&& 0xd280_0000 <= number_at(buf, n, 4) < 0xd300_0000
            &&& number_at(buf, n, 4) % 0x20 == 0
            &&& number_at(buf, n + 4, 4) == 0xd65f_03c0 || (0xf280_0000 <= number_at(buf, n + 4, 4)
                < 0xf300_0000 && number_at(buf, n + 4, 4) % 0x20 == 0 && number_at(buf, n + 8, 4)
                == 0xd65f_03c0)
        },
{
    if buf.len() >= 12 {
        memory::lemma_fields(buf, n);
        memory::lemma_fields(buf, n + 4);
        if n + 12 <= buf.len() {
            memory::lemma_fields(buf, n + 8);
        }
    }
}

/// The executor globals of a thread are where its cache says, at the offset that
/// the offset variable holds: the cache is found in the slot, which lies at the
/// accessor's offset from the thread pointer.
#[verifier::spinoff_prover]
#[verifier::rlimit(40)]
pub proof fn lemma_thread_globals(
    mem: Memory,
    machine: Arch,
    base: u64,
    accessor: u64,
    eg_offset_var: u64,
    buf: Seq<u8>,
    slot_offset: i64,
    cache: int,
    eg_offset: int,
    globals: int,
)
    requires
        gives(mem, accessor, 24, buf),
        tls::tcb_offset(machine, buf) == Ok::<i64, TcbError>(slot_offset),
        value(mem, modulo(base + slot_offset) as u64, 8) == Some(cache),
        value(mem, eg_offset_var, 8) == Some(eg_offset),
        value(mem, modulo(cache + eg_offset) as u64, 8) == Some(globals),
    ensures
        cache != 0 ==> tls::zts_executor_globals(
            mem,
            machine,
            Some(base),
            accessor,
            eg_offset_var,
        ) == Ok::<u64, ZtsError>(globals as u64),
        cache == 0 ==> tls::zts_executor_globals(
            mem,
            machine,
            Some(base),
            accessor,
            eg_offset_var,
        ) == Err::<u64, ZtsError>(ZtsError::NullCache),
        tls::zts_executor_globals(mem, machine, None, accessor, eg_offset_var) == Err::<
            u64,
            ZtsError,
        >(ZtsError::NeedTlsBase),
{
    memory::lemma_reads(mem, accessor, 24);
    memory::lemma_reads_number(mem, modulo(base + slot_offset) as u64);
    memory::lemma_reads_number(mem, eg_offset_var);
    memory::lemma_reads_number(mem, modulo(cache + eg_offset) as u64);
    lemma_sum(cache, eg_offset);
}

proof fn lemma_sum(a: int, b: int)
    requires
        0 <= a <= u64::MAX,
        0 <= b <= u64::MAX,
    ensures
        (a as u64).wrapping_add(b as u64) == modulo(a + b) as u64,
{
}

// Tasks

/// The task that is read is the first whose number is not that of the process.
pub proof fn lemma_other_task(names: Seq<Seq<char>>, pid: int, i: int, tid: int)
    requires
        0 <= i < names.len(),
        text::signed_value(names[i]) == Some(tid),
        tid != pid,
        forall|j: int|
            0 <= j < i ==> text::signed_value(#[trigger] names[j]) is None || text::signed_value(
                names[j],
            ) == Some(pid),
    ensures
        tls::chosen_task(names, pid) == Some(tid),
{
    lemma_first_other(names, pid, i, tid);
}

proof fn lemma_first_other(names: Seq<Seq<char>>, pid: int, i: int, tid: int)
    requires
        0 <= i < names.len(),
        text::signed_value(names[i]) == Some(tid),
        tid != pid,
        forall|j: int|
            0 <= j < i ==> text::signed_value(#[trigger] names[j]) is None || text::signed_value(
                names[j],
            ) == Some(pid),
    ensures
        tls::first_other(tls::task_numbers(names), pid) == Some(tid),
    decreases names.len(),
{
    let rest = names.drop_first();
    let later = tls::task_numbers(rest);
    if i > 0 {
        let first = names[0];
        assert forall|j: int| 0 <= j < i - 1 implies text::signed_value(
            #[trigger] rest[j],
        ) is None || text::signed_value(rest[j]) == Some(pid) by {
            assert(rest[j] == names[j + 1]);
        }
        lemma_first_other(rest, pid, i - 1, tid);
        if let Some(t) = text::signed_value(first) {
            assert((seq![t] + later).drop_first() =~= later);
        }
    }
}

/// The leader is read where there is no other task, and nothing where there is
/// none at all.
pub proof fn lemma_only_task(names: Seq<Seq<char>>, pid: int)
    requires
        forall|j: int|
            0 <= j < names.len() ==> text::signed_value(#[trigger] names[j]) is None
                || text::signed_value(names[j]) == Some(pid),
    ensures
        tls::chosen_task(names, pid) == if exists|j: int|
            0 <= j < names.len() && text::signed_value(#[trigger] names[j]) == Some(pid) {
            Some(pid)
        } else {
            None
        },
    decreases names.len(),
{
    let tids = tls::task_numbers(names);
    if names.len() > 0 {
        let rest = names.drop_first();
        let first = names[0];
        assert forall|j: int| 0 <= j < rest.len() implies text::signed_value(
            #[trigger] rest[j],
        ) is None || text::signed_value(rest[j]) == Some(pid) by {
            assert(rest[j] == names[j + 1]);
        }
        lemma_only_task(rest, pid);
        let later = tls::task_numbers(rest);
        if let Some(t) = text::signed_value(first) {
            assert((seq![t] + later).drop_first() =~= later);
        }
        if exists|j: int| 0 <= j < rest.len() && text::signed_value(#[trigger] rest[j]) == Some(
            pid,
        ) {
            let j = choose|j: int|
                0 <= j < rest.len() && text::signed_value(#[trigger] rest[j]) == Some(pid);
            assert(text::signed_value(names[j + 1]) == Some(pid));
        } else if exists|j: int|
            0 <= j < names.len() && text::signed_value(#[trigger] names[j]) == Some(pid) {
            let j = choose|j: int|
                0 <= j < names.len() && text::signed_value(#[trigger] names[j]) == Some(pid);
            if j > 0 {
                assert(rest[j - 1] == names[j]);
            }
        }
    }
}

proof fn lemma_multiple(imm: int, b: int, m: int)
    requires
        0 <= imm,
        b > 0,
        m > 0,
    ensures
        (imm * (b * (m * 0x1_0000)) / b) % 0x1_0000 == 0,
{
    let x = (imm * m) * 0x1_0000;
    assert(imm * (b * (m * 0x1_0000)) == b * x) by (nonlinear_arith)
        requires
            x == (imm * m) * 0x1_0000,
    ;
    vstd::arithmetic::div_mod::lemma_div_multiples_vanish(x, b);
    vstd::arithmetic::div_mod::lemma_mod_multiples_basic(imm * m, 0x1_0000);
}

/// A value in one quarter of a register leaves the other quarters zero.
proof fn lemma_quarters(imm: int, i: int, more: int, j: int)
    requires
        0 <= imm < 0x1_0000,
        0 <= more < 0x1_0000,
        0 <= i < 4,
        0 <= j < 4,
        i != j,
    ensures
        0 <= imm * quarter(i) < 0x1_0000_0000_0000_0000,
        0 <= imm * quarter(i) + more * quarter(j) < 0x1_0000_0000_0000_0000,
        (imm * quarter(i) / quarter(j)) % 0x1_0000 == 0,
{
    let a = quarter(i);
    let b = quarter(j);
    assert(0 <= imm * a <= 0xffff * a) by (nonlinear_arith)
        requires
            0 <= imm <= 0xffff,
            a > 0,
    ;
    assert(0 <= more * b <= 0xffff * b) by (nonlinear_arith)
        requires
            0 <= more <= 0xffff,
            b > 0,
    ;
    if i < j {
        assert(imm * a < b);
        vstd::arithmetic::div_mod::lemma_basic_div(imm * a, b);
    } else {
        let m: int = if i == j + 1 {
            1
        } else if i == j + 2 {
            0x1_0000
        } else {
            0x1_0000_0000
        };
        assert(a == b * (m * 0x1_0000)) by (nonlinear_arith)
            requires
                (m == 1 && a == 0x1_0000 * b && b >= 1) || (m == 0x1_0000 && a == 0x1_0000_0000 * b)
                    || (m == 0x1_0000_0000 && a == 0x1_0000_0000_0000 * b),
        ;
        lemma_multiple(imm, b, m);
    }
}

} // verus!
