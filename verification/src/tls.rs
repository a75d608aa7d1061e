//! The per-thread executor globals of a thread-safe (ZTS) build.
//!
//! ZTS PHP keeps a pointer to a per-thread cache in a thread-local slot. The
//! slot lies at a fixed offset from the thread pointer, and that offset is what
//! the small accessor `tsrm_get_ls_cache_tcb_offset` returns:
//!
//! On x86_64:
//!   `[endbr64]`, an optional landing pad
//!   `mov $imm32, %rax`, sign-extended
//!   `ret`
//!
//! On aarch64:
//!   `[bti c]`, an optional landing pad
//!   `movz x0, #imm16, lsl #(0|16|32|48)`
//!   `[movk x0, #imm16, lsl #(0|16|32|48)]`, optional
//!   `ret`
//!
//! From the slot: the cache, and at `executor_globals_offset` in it the
//! pointer to the thread's executor globals.

use crate::arch;
use crate::arch::Arch;
use crate::remote;
use crate::remote::{Memory, ReadError, Remote};
use crate::text;
use vstd::prelude::*;

verus! {

/// Why the offset accessor was not recognised.
#[derive(Debug, Clone, Copy, PartialEq, Eq, Structural)]
pub enum TcbError {
    /// There are fewer bytes than the accessor takes.
    Short { len: usize },
    /// The bytes are not the x86_64 accessor.
    NotMovRet,
    /// `ret` stands before any `movz`.
    RetBeforeMovz { word: u32 },
    /// The register that is loaded is not the one that is returned.
    NotX0 { word: u32 },
    /// `movk` stands before any `movz`.
    MovkBeforeMovz,
    /// A word that does not belong where it stands.
    Unexpected { word: u32, at: usize },
    /// The bytes end before `ret`.
    NoRet,
}

/// The offset that the x86_64 accessor returns.
pub open spec fn x86_64_tcb_offset(buf: Seq<u8>) -> Result<i64, TcbError> {
    let mov = buf.skip(arch::endbr_len(buf));
    if mov.len() < 8 {
        Err(TcbError::Short { len: buf.len() as usize })
    } else if mov[0] == 0x48 && mov[1] == 0xc7 && mov[2] == 0xc0 && mov[7] == 0xc3 {
        Ok(arch::signed32(arch::word_at(mov, 3)) as i64)
    } else {
        Err(TcbError::NotMovRet)
    }
}

/// Whether a word is `movz` of a 64-bit register.
pub open spec fn is_movz(w: u32) -> bool {
    w / 0x80_0000 == 0x1a5
}

/// Whether a word is `movk` of a 64-bit register.
pub open spec fn is_movk(w: u32) -> bool {
    w / 0x80_0000 == 0x1e5
}

/// The number of the register that `movz` and `movk` load.
pub open spec fn mov_register(w: u32) -> int {
    w as int % 0x20
}

/// The 16-bit immediate of `movz` and `movk`.
pub open spec fn mov_immediate(w: u32) -> int {
    (w as int / 0x20) % 0x1_0000
}

/// The place value of the quarter of the register that `movz` and `movk`
/// write.
pub open spec fn mov_unit(w: u32) -> int {
    let hw = (w as int / 0x20_0000) % 4;
    if hw == 0 {
        1
    } else if hw == 1 {
        0x1_0000
    } else if hw == 2 {
        0x1_0000_0000
    } else {
        0x1_0000_0000_0000
    }
}

/// The register after `movz`: the immediate in its quarter, zero elsewhere.
pub open spec fn after_movz(w: u32) -> u64 {
    (mov_immediate(w) * mov_unit(w)) as u64
}

/// The register after `movk`: the immediate in its quarter, the rest kept.
pub open spec fn after_movk(reg: u64, w: u32) -> u64 {
    (reg + (mov_immediate(w) - (reg as int / mov_unit(w)) % 0x1_0000) * mov_unit(w)) as u64
}

/// A 64-bit word as a signed number.
pub open spec fn signed64(w: u64) -> i64 {
    if w < 0x8000_0000_0000_0000 {
        w as i64
    } else {
        (w - 0x1_0000_0000_0000_0000) as i64
    }
}

/// What is returned where `ret` belongs at `off`, with `reg` in the register.
pub open spec fn ret_at(buf: Seq<u8>, off: int, reg: u64) -> Result<i64, TcbError> {
    let w = arch::word_at(buf, off);
    if off + 4 > buf.len() {
        Err(TcbError::NoRet)
    } else if w == arch::RET {
        Ok(signed64(reg))
    } else {
        Err(TcbError::Unexpected { word: w, at: off as usize })
    }
}

/// What is returned where `[movk]` and `ret` belong at `off`, with `reg` in the
/// register.
pub open spec fn movk_at(buf: Seq<u8>, off: int, reg: u64) -> Result<i64, TcbError> {
    let w = arch::word_at(buf, off);
    if off + 4 > buf.len() || !is_movk(w) {
        ret_at(buf, off, reg)
    } else if mov_register(w) != 0 {
        Err(TcbError::NotX0 { word: w })
    } else {
        ret_at(buf, off + 4, after_movk(reg, w))
    }
}

/// What is returned where `movz`, `[movk]` and `ret` belong at `off`.
pub open spec fn movz_at(buf: Seq<u8>, off: int) -> Result<i64, TcbError> {
    let w = arch::word_at(buf, off);
    if off + 4 > buf.len() {
        Err(TcbError::NoRet)
    } else if w == arch::RET {
        Err(TcbError::RetBeforeMovz { word: w })
    } else if !is_movz(w) && !is_movk(w) {
        Err(TcbError::Unexpected { word: w, at: off as usize })
    } else if mov_register(w) != 0 {
        Err(TcbError::NotX0 { word: w })
    } else if is_movk(w) {
        Err(TcbError::MovkBeforeMovz)
    } else {
        movk_at(buf, off + 4, after_movz(w))
    }
}

/// The offset that the aarch64 accessor returns.
pub open spec fn aarch64_tcb_offset(buf: Seq<u8>) -> Result<i64, TcbError> {
    if buf.len() < 12 {
        Err(TcbError::Short { len: buf.len() as usize })
    } else {
        movz_at(buf, arch::bti_len(buf))
    }
}

/// The offset that the accessor returns.
pub open spec fn tcb_offset(machine: Arch, buf: Seq<u8>) -> Result<i64, TcbError> {
    match machine {
        Arch::X86_64 => x86_64_tcb_offset(buf),
        Arch::Aarch64 => aarch64_tcb_offset(buf),
    }
}

fn decode_x86_64(buf: &[u8]) -> (r: Result<i64, TcbError>)
    ensures
        r == x86_64_tcb_offset(buf@),
{
    let off: usize = arch::skip_endbr(buf);
    let ghost mov = buf@.skip(off as int);
    if buf.len() - off < 8 {
        return Err(TcbError::Short { len: buf.len() });
    }
    if buf[off] == 0x48 && buf[off + 1] == 0xc7 && buf[off + 2] == 0xc0 && buf[off + 7] == 0xc3 {
        let word: u32 = arch::read_word(buf, off + 3);
        assert(mov.skip(3) == buf@.skip(off + 3));
        Ok(arch::to_signed32(word))
    } else {
        Err(TcbError::NotMovRet)
    }
}

fn to_signed64(w: u64) -> (r: i64)
    ensures
        r == signed64(w),
{
    if w < 0x8000_0000_0000_0000 {
        w as i64
    } else {
        (w - 0x8000_0000_0000_0000) as i64 + i64::MIN
    }
}

fn unit_of(w: u32) -> (r: u64)
    ensures
        r == mov_unit(w),
{
    let hw: u32 = (w / 0x20_0000) % 4;
    if hw == 0 {
        1
    } else if hw == 1 {
        0x1_0000
    } else if hw == 2 {
        0x1_0000_0000
    } else {
        0x1_0000_0000_0000
    }
}

fn movz(w: u32) -> (r: u64)
    ensures
        r == after_movz(w),
{
    let imm: u64 = ((w / 0x20) % 0x1_0000) as u64;
    let unit: u64 = unit_of(w);
    assert(imm * unit <= 0xffff * 0x1_0000_0000_0000) by (nonlinear_arith)
        requires
            imm <= 0xffff,
            unit <= 0x1_0000_0000_0000,
    ;
    imm * unit
}

fn movk(reg: u64, w: u32) -> (r: u64)
    ensures
        r == after_movk(reg, w),
{
    let imm: u64 = ((w / 0x20) % 0x1_0000) as u64;
    let unit: u64 = unit_of(w);
    let high: u64 = (reg / unit) / 0x1_0000;
    let quarter: u64 = (reg / unit) % 0x1_0000;
    let low: u64 = reg % unit;
    assert(reg == (high * 0x1_0000 + quarter) * unit + low && quarter * unit <= reg
        && low < unit) by (nonlinear_arith)
        requires
            unit > 0,
            high == (reg / unit) / 0x1_0000,
            quarter == (reg / unit) % 0x1_0000,
            low == reg % unit,
    ;
    let cleared: u64 = reg - quarter * unit;
    assert(cleared + imm * unit <= u64::MAX && imm * unit <= u64::MAX && cleared + imm * unit == reg
        + (imm - quarter) * unit) by {
        let span: int = 0x1_0000 * unit;
        assert(cleared == high * span + low) by (nonlinear_arith)
            requires
                reg == (high * 0x1_0000 + quarter) * unit + low,
                cleared == reg - quarter * unit,
                span == 0x1_0000 * unit,
        ;
        assert(imm * unit + low < span) by (nonlinear_arith)
            requires
                imm <= 0xffff,
                low < unit,
                span == 0x1_0000 * unit,
        ;
        assert((imm - quarter) * unit == imm * unit - quarter * unit) by (nonlinear_arith);
        let whole: int = 0x1_0000_0000_0000_0000;
        let spans: int = if unit == 1 {
            0x1_0000_0000_0000
        } else if unit == 0x1_0000 {
            0x1_0000_0000
        } else if unit == 0x1_0000_0000 {
            0x1_0000
        } else {
            1
        };
        assert(span * spans == whole);
        assert(high < spans) by (nonlinear_arith)
            requires
                high * span + low < whole,
                span * spans == whole,
                low >= 0,
                span > 0,
        ;
        assert(high * span + span <= whole) by (nonlinear_arith)
            requires
                high < spans,
                span * spans == whole,
                span > 0,
        ;
        assert(imm * unit >= 0) by (nonlinear_arith);
        assert(high * span >= 0) by (nonlinear_arith)
            requires
                span > 0,
        ;
    }
    cleared + imm * unit
}

fn decode_ret(buf: &[u8], off: usize, reg: u64) -> (r: Result<i64, TcbError>)
    requires
        off <= buf@.len(),
    ensures
        r == ret_at(buf@, off as int, reg),
{
    if buf.len() - off < 4 {
        return Err(TcbError::NoRet);
    }
    let w: u32 = arch::read_word(buf, off);
    if w == arch::RET {
        Ok(to_signed64(reg))
    } else {
        Err(TcbError::Unexpected { word: w, at: off })
    }
}

fn decode_movk(buf: &[u8], off: usize, reg: u64) -> (r: Result<i64, TcbError>)
    requires
        off <= buf@.len(),
    ensures
        r == movk_at(buf@, off as int, reg),
{
    let n: usize = buf.len();
    if n - off < 4 {
        return decode_ret(buf, off, reg);
    }
    let w: u32 = arch::read_word(buf, off);
    if w / 0x80_0000 != 0x1e5 {
        return decode_ret(buf, off, reg);
    }
    if w % 0x20 != 0 {
        return Err(TcbError::NotX0 { word: w });
    }
    decode_ret(buf, off + 4, movk(reg, w))
}

fn decode_aarch64(buf: &[u8]) -> (r: Result<i64, TcbError>)
    ensures
        r == aarch64_tcb_offset(buf@),
{
    let n: usize = buf.len();
    if n < 12 {
        return Err(TcbError::Short { len: n });
    }
    let off: usize = arch::skip_bti(buf);
    let w: u32 = arch::read_word(buf, off);
    if w == arch::RET {
        return Err(TcbError::RetBeforeMovz { word: w });
    }
    let is_movz: bool = w / 0x80_0000 == 0x1a5;
    let is_movk: bool = w / 0x80_0000 == 0x1e5;
    if !is_movz && !is_movk {
        return Err(TcbError::Unexpected { word: w, at: off });
    }
    if w % 0x20 != 0 {
        return Err(TcbError::NotX0 { word: w });
    }
    if is_movk {
        return Err(TcbError::MovkBeforeMovz);
    }
    decode_movk(buf, off + 4, movz(w))
}

/// Decodes the accessor `tsrm_get_ls_cache_tcb_offset`: the offset of the
/// cache slot from the thread pointer.
pub fn decode_tcb_offset_bytes(machine: Arch, buf: &[u8]) -> (r: Result<i64, TcbError>)
    ensures
        r == tcb_offset(machine, buf@),
{
    match machine {
        Arch::X86_64 => decode_x86_64(buf),
        Arch::Aarch64 => decode_aarch64(buf),
    }
}

/// How many bytes of the accessor are read.
pub const ACCESSOR_LEN: usize = 24;

/// Why the executor globals of a thread were not found.
#[derive(Debug, Clone, Copy, PartialEq, Eq, Structural)]
pub enum ZtsError {
    /// A read has no reply yet, or it failed.
    Read(ReadError),
    /// The offset accessor was not recognised.
    Accessor(TcbError),
    /// The thread pointer of a task has to be read first.
    NeedTlsBase,
    /// The slot is empty: the target has not finished initialising.
    NullCache,
}

/// The outcome of decoding the accessor at an address.
pub open spec fn tcb_offset_at(mem: Memory, machine: Arch, fn_addr: u64) -> Result<i64, ZtsError> {
    match remote::fetch(mem, fn_addr, ACCESSOR_LEN) {
        Err(e) => Err(ZtsError::Read(e)),
        Ok(buf) => match tcb_offset(machine, buf) {
            Err(e) => Err(ZtsError::Accessor(e)),
            Ok(off) => Ok(off),
        },
    }
}

/// Reads the accessor `tsrm_get_ls_cache_tcb_offset` and decodes it.
pub fn decode_tcb_offset(rem: &Remote, machine: Arch, fn_addr: u64) -> (r: Result<i64, ZtsError>)
    ensures
        r == tcb_offset_at(rem@, machine, fn_addr),
{
    let buf = match rem.read_vec(fn_addr, ACCESSOR_LEN) {
        Ok(b) => b,
        Err(e) => return Err(ZtsError::Read(e)),
    };
    match decode_tcb_offset_bytes(machine, buf.as_slice()) {
        Ok(off) => Ok(off),
        Err(e) => Err(ZtsError::Accessor(e)),
    }
}

/// The task numbers among the names of a task directory.
pub open spec fn task_numbers(names: Seq<Seq<char>>) -> Seq<int>
    decreases names.len(),
{
    if names.len() == 0 {
        Seq::empty()
    } else {
        match text::signed_value(names[0]) {
            Some(tid) => seq![tid] + task_numbers(names.drop_first()),
            None => task_numbers(names.drop_first()),
        }
    }
}

/// The first number of a list that differs from `pid`.
pub open spec fn first_other(tids: Seq<int>, pid: int) -> Option<int>
    decreases tids.len(),
{
    if tids.len() == 0 {
        None
    } else if tids[0] != pid {
        Some(tids[0])
    } else {
        first_other(tids.drop_first(), pid)
    }
}

/// The task that is read: the first that is not the leader, or else the first.
pub open spec fn chosen_task(names: Seq<Seq<char>>, pid: int) -> Option<int> {
    let tids = task_numbers(names);
    match first_other(tids, pid) {
        Some(tid) => Some(tid),
        None => if tids.len() > 0 {
            Some(tids[0])
        } else {
            None
        },
    }
}

/// Picks a task of a process among the names of its task directory. Any will
/// do; one that is not the leader is preferred, as it handles requests.
pub fn pick_task(pid: i32, names: &[String]) -> (r: Option<i32>)
    ensures
        match r {
            Some(tid) => chosen_task(text::strings(names@), pid as int) == Some(tid as int),
            None => chosen_task(text::strings(names@), pid as int) is None,
        },
{
    let n: usize = names.len();
    let mut first: Option<i32> = None;
    let ghost all = text::strings(names@);
    let ghost mut before: Seq<int> = Seq::empty();
    let mut i: usize = 0;
    proof {
        assert(all.skip(0) == all);
        assert(before + task_numbers(all) == task_numbers(all));
    }
    while i < n
        invariant
            i <= n,
            n == names@.len(),
            all == text::strings(names@),
            before + task_numbers(all.skip(i as int)) == task_numbers(all),
            forall|k: int| 0 <= k < before.len() ==> before[k] == pid,
            match first {
                Some(tid) => before.len() > 0 && before[0] == tid,
                None => before.len() == 0,
            },
        decreases n - i,
    {
        let name = text::chars_of(names[i].as_str());
        let ghost rest = all.skip(i as int);
        proof {
            assert(rest[0] == name@);
            assert(rest.drop_first() == all.skip(i + 1));
        }
        if let Some(tid) = text::parse_i32(name.as_slice()) {
            if first.is_none() {
                first = Some(tid);
            }
            if tid != pid {
                proof {
                    lemma_first_other(
                        before,
                        seq![tid as int] + task_numbers(all.skip(i + 1)),
                        pid as int,
                    );
                }
                return Some(tid);
            }
            proof {
                assert(before + (seq![tid as int] + task_numbers(all.skip(i + 1))) =~= before.push(
                    tid as int,
                ) + task_numbers(all.skip(i + 1)));
                before = before.push(tid as int);
            }
        }
        i = i + 1;
    }
    proof {
        assert(all.skip(n as int).len() == 0);
        assert(task_numbers(all) == before + Seq::<int>::empty());
        assert(before + Seq::<int>::empty() =~= before);
        lemma_first_other(before, Seq::empty(), pid as int);
    }
    first
}

/// The first number that differs from `pid` is not among those that equal it.
proof fn lemma_first_other(before: Seq<int>, rest: Seq<int>, pid: int)
    requires
        forall|k: int| 0 <= k < before.len() ==> before[k] == pid,
    ensures
        first_other(before + rest, pid) == first_other(rest, pid),
    decreases before.len(),
{
    if before.len() == 0 {
        assert(before + rest =~= rest);
    } else {
        lemma_first_other(before.drop_first(), rest, pid);
        assert((before + rest).drop_first() =~= before.drop_first() + rest);
    }
}

/// The address of the executor globals of the thread with the given thread
/// pointer:
///   1. the accessor gives the offset of the slot,
///   2. the slot gives the cache,
///   3. the offset variable says where in the cache the pointer lies,
///   4. and there it is read.
pub open spec fn zts_executor_globals(
    mem: Memory,
    machine: Arch,
    tls_base: Option<u64>,
    tcb_offset_fn: u64,
    eg_offset_var: u64,
) -> Result<u64, ZtsError> {
    match tcb_offset_at(mem, machine, tcb_offset_fn) {
        Err(e) => Err(e),
        Ok(off) => match tls_base {
            None => Err(ZtsError::NeedTlsBase),
            Some(base) => match remote::fetch_u64(mem, arch::wrap64(base + off)) {
                Err(e) => Err(ZtsError::Read(e)),
                Ok(cache) => if cache == 0 {
                    Err(ZtsError::NullCache)
                } else {
                    match remote::fetch_u64(mem, eg_offset_var) {
                        Err(e) => Err(ZtsError::Read(e)),
                        Ok(eg_offset) => match remote::fetch_u64(
                            mem,
                            cache.wrapping_add(eg_offset),
                        ) {
                            Err(e) => Err(ZtsError::Read(e)),
                            Ok(eg) => Ok(eg),
                        },
                    }
                },
            },
        },
    }
}

/// Resolves the per-thread `executor_globals` of a ZTS target. The accessor is
/// decoded before the thread pointer is asked for.
pub fn resolve_zts_executor_globals(
    rem: &Remote,
    machine: Arch,
    tls_base: Option<u64>,
    tcb_offset_fn: u64,
    eg_offset_var: u64,
) -> (r: Result<u64, ZtsError>)
    ensures
        r == zts_executor_globals(rem@, machine, tls_base, tcb_offset_fn, eg_offset_var),
{
    let off: i64 = match decode_tcb_offset(rem, machine, tcb_offset_fn) {
        Ok(off) => off,
        Err(e) => return Err(e),
    };
    let base: u64 = match tls_base {
        Some(base) => base,
        None => return Err(ZtsError::NeedTlsBase),
    };
    let cache: u64 = match rem.read_u64(arch::displace(base, off)) {
        Ok(cache) => cache,
        Err(e) => return Err(ZtsError::Read(e)),
    };
    if cache == 0 {
        return Err(ZtsError::NullCache);
    }
    let eg_offset: u64 = match rem.read_u64(eg_offset_var) {
        Ok(off) => off,
        Err(e) => return Err(ZtsError::Read(e)),
    };
    match rem.read_u64(cache.wrapping_add(eg_offset)) {
        Ok(eg) => Ok(eg),
        Err(e) => Err(ZtsError::Read(e)),
    }
}

/// A landing pad before the accessor does not change the offset that it returns.
pub proof fn lemma_landing_pad(machine: Arch, pad: Seq<u8>, buf: Seq<u8>)
    requires
        machine == Arch::X86_64 ==> pad.len() == 4 && arch::endbr_len(pad) == 4 && arch::endbr_len(
            buf,
        ) == 0,
        machine == Arch::Aarch64 ==> pad.len() == 4 && arch::bti_len(pad) == 4 && arch::bti_len(buf)
            == 0,
        tcb_offset(machine, buf) is Ok,
    ensures
        tcb_offset(machine, pad + buf) == tcb_offset(machine, buf),
{
    let whole = pad + buf;
    match machine {
        Arch::X86_64 => {
            assert(whole.skip(4) =~= buf);
            assert(buf.skip(0) =~= buf);
        },
        Arch::Aarch64 => {
            assert(whole.skip(0) =~= whole);
            assert(pad.skip(0) =~= pad);
            assert(arch::word_at(whole, 0) == arch::word_at(pad, 0));
            assert(whole.skip(4) =~= buf.skip(0));
            assert(whole.skip(8) =~= buf.skip(4));
            assert(whole.skip(12) =~= buf.skip(8));
        },
    }
}

// Waiting for a task

/// What is seen of a task that was told to stop.
#[derive(Debug, Clone, Copy, PartialEq, Eq, Structural)]
pub enum WaitEvent {
    /// It has stopped.
    Stopped,
    /// It has not changed its state yet.
    StillAlive,
    /// It has changed its state in another way.
    Other,
    /// Its state cannot be seen.
    Failed,
}

/// What is done next about a task that was told to stop.
#[derive(Debug, Clone, Copy, PartialEq, Eq, Structural)]
pub enum WaitNext {
    /// It is read.
    Go,
    /// It is looked at again in a moment.
    Sleep,
    /// It is let go unread.
    GiveUp,
}

/// How long a task is waited for.
pub const STOP_TIMEOUT_NANOS: u64 = 2_000_000_000;

/// What is done about a task after it has been waited for so long: only a task
/// that is still on its way is waited for, and not for ever.
pub fn wait_step(seen: WaitEvent, waited_nanos: u64) -> (r: WaitNext)
    ensures
        r == (match seen {
            WaitEvent::Stopped => WaitNext::Go,
            WaitEvent::StillAlive => if waited_nanos >= STOP_TIMEOUT_NANOS {
                WaitNext::GiveUp
            } else {
                WaitNext::Sleep
            },
            _ => WaitNext::GiveUp,
        }),
{
    match seen {
        WaitEvent::Stopped => WaitNext::Go,
        WaitEvent::StillAlive => if waited_nanos >= STOP_TIMEOUT_NANOS {
            WaitNext::GiveUp
        } else {
            WaitNext::Sleep
        },
        _ => WaitNext::GiveUp,
    }
}

} // verus!
