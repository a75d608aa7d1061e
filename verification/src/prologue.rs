//! Decoding of the `php_version` accessor.
//!
//! `php_version` is a small function that returns a pointer to a string in the
//! read-only data. Its instructions give that pointer.
//!
//! On x86_64:
//!   `[endbr64]`, an optional landing pad
//!   `lea rax, [rip + disp32]`
//!   `ret`
//!
//! On aarch64:
//!   `[bti c]`, an optional landing pad
//!   `adrp x0, <page>`
//!   `add x0, x0, #imm12`
//!   `ret`

use crate::arch;
use crate::arch::Arch;
use vstd::prelude::*;

verus! {

/// Why an accessor was not recognised.
#[derive(Debug, Clone, Copy, PartialEq, Eq, Structural)]
pub enum PrologueError {
    /// There are fewer bytes than the accessor takes.
    Short { len: usize },
    /// The bytes are not the x86_64 accessor.
    NotLeaRet,
    /// Where `adrp` belongs stands this word.
    NotAdrp { word: u32 },
    /// Where `add` belongs stands this word.
    NotAdd { word: u32 },
    /// Where `ret` belongs stands this word.
    NotRet { word: u32 },
}

/// The address that the x86_64 accessor returns: its displacement counts from
/// the end of the `lea`.
pub open spec fn x86_64_target(fn_addr: u64, buf: Seq<u8>) -> Result<u64, PrologueError> {
    let off = arch::endbr_len(buf);
    let lea = buf.skip(off);
    if lea.len() >= 8 && lea[0] == 0x48 && lea[1] == 0x8d && lea[2] == 0x05 && lea[7] == 0xc3 {
        Ok(arch::wrap64(fn_addr + off + 7 + arch::signed32(arch::word_at(lea, 3))))
    } else {
        Err(PrologueError::NotLeaRet)
    }
}

/// Whether a word is `adrp`.
pub open spec fn is_adrp(w: u32) -> bool {
    w / 0x8000_0000 == 1 && (w / 0x100_0000) % 0x20 == 0x10
}

/// How many pages `adrp` goes forward: 21 bits, signed, the two lowest of them
/// in bits 29 and 30 and the others in bits 5 to 23.
pub open spec fn adrp_pages(w: u32) -> int {
    let imm = ((w / 0x20) % 0x8_0000) * 4 + (w / 0x2000_0000) % 4;
    if imm < 0x10_0000 {
        imm as int
    } else {
        imm - 0x20_0000
    }
}

/// Whether a word is `add` of an immediate that is not shifted.
pub open spec fn is_add(w: u32) -> bool {
    w / 0x40_0000 == 0x244
}

/// The address that the aarch64 accessor returns: an offset into a page that
/// is counted from the page of the `adrp`.
pub open spec fn aarch64_target(fn_addr: u64, buf: Seq<u8>) -> Result<u64, PrologueError> {
    let off = arch::bti_len(buf);
    let adrp = arch::word_at(buf, off);
    let add = arch::word_at(buf, off + 4);
    let ret = arch::word_at(buf, off + 8);
    if buf.len() < 16 {
        Err(PrologueError::Short { len: buf.len() as usize })
    } else if !is_adrp(adrp) {
        Err(PrologueError::NotAdrp { word: adrp })
    } else if !is_add(add) {
        Err(PrologueError::NotAdd { word: add })
    } else if ret != arch::RET {
        Err(PrologueError::NotRet { word: ret })
    } else {
        let pc = arch::wrap64(fn_addr + off);
        Ok(
            arch::wrap64(
                (pc / 0x1000) * 0x1000 + adrp_pages(adrp) * 0x1000 + (add / 0x400) % 0x1000,
            ),
        )
    }
}

/// The address that the accessor returns.
pub open spec fn accessor_target(machine: Arch, fn_addr: u64, buf: Seq<u8>) -> Result<
    u64,
    PrologueError,
> {
    match machine {
        Arch::X86_64 => x86_64_target(fn_addr, buf),
        Arch::Aarch64 => aarch64_target(fn_addr, buf),
    }
}

fn decode_x86_64(fn_addr: u64, buf: &[u8]) -> (r: Result<u64, PrologueError>)
    ensures
        r == x86_64_target(fn_addr, buf@),
{
    let off: usize = arch::skip_endbr(buf);
    let ghost lea = buf@.skip(off as int);
    if buf.len() - off < 8 {
        return Err(PrologueError::NotLeaRet);
    }
    if buf[off] == 0x48 && buf[off + 1] == 0x8d && buf[off + 2] == 0x05 && buf[off + 7] == 0xc3 {
        let word: u32 = arch::read_word(buf, off + 3);
        assert(lea.skip(3) == buf@.skip(off + 3));
        let disp: i64 = arch::to_signed32(word);
        Ok(arch::displace(fn_addr, disp + 7 + off as i64))
    } else {
        Err(PrologueError::NotLeaRet)
    }
}

fn decode_aarch64(fn_addr: u64, buf: &[u8]) -> (r: Result<u64, PrologueError>)
    ensures
        r == aarch64_target(fn_addr, buf@),
{
    if buf.len() < 16 {
        return Err(PrologueError::Short { len: buf.len() });
    }
    let off: usize = arch::skip_bti(buf);
    let adrp: u32 = arch::read_word(buf, off);
    let add: u32 = arch::read_word(buf, off + 4);
    let ret: u32 = arch::read_word(buf, off + 8);
    if !(adrp / 0x8000_0000 == 1 && (adrp / 0x100_0000) % 0x20 == 0x10) {
        return Err(PrologueError::NotAdrp { word: adrp });
    }
    if add / 0x40_0000 != 0x244 {
        return Err(PrologueError::NotAdd { word: add });
    }
    if ret != arch::RET {
        return Err(PrologueError::NotRet { word: ret });
    }
    let pc: u64 = arch::displace(fn_addr, off as i64);
    let imm: u32 = ((adrp / 0x20) % 0x8_0000) * 4 + (adrp / 0x2000_0000) % 4;
    let pages: i64 = if imm < 0x10_0000 {
        imm as i64
    } else {
        imm as i64 - 0x20_0000
    };
    let in_page: i64 = ((add / 0x400) % 0x1000) as i64;
    Ok(arch::displace((pc / 0x1000) * 0x1000, pages * 0x1000 + in_page))
}

/// Decodes the accessor that stands at `fn_addr` and returns the address that
/// it returns.
pub fn decode_php_version_prologue(machine: Arch, fn_addr: u64, buf: &[u8]) -> (r: Result<
    u64,
    PrologueError,
>)
    ensures
        r == accessor_target(machine, fn_addr, buf@),
{
    match machine {
        Arch::X86_64 => decode_x86_64(fn_addr, buf),
        Arch::Aarch64 => decode_aarch64(fn_addr, buf),
    }
}

proof fn lemma_endbr(fn_addr: u64, pad: Seq<u8>, buf: Seq<u8>)
    requires
        pad.len() == 4,
        arch::endbr_len(pad) == 4,
        arch::endbr_len(buf) == 0,
    ensures
        x86_64_target(fn_addr, pad + buf) == x86_64_target(arch::wrap64(fn_addr + 4), buf),
{
    let whole = pad + buf;
    assert(whole.skip(4) =~= buf);
    assert(buf.skip(0) =~= buf);
    assert(arch::endbr_len(whole) == 4);
    let d = 7 + arch::signed32(arch::word_at(buf, 3));
    arch::lemma_wrap_add(fn_addr + 4, d);
}

proof fn lemma_bti(fn_addr: u64, pad: Seq<u8>, buf: Seq<u8>)
    requires
        pad.len() == 4,
        arch::bti_len(pad) == 4,
        buf.len() >= 16,
        arch::bti_len(buf) == 0,
    ensures
        aarch64_target(fn_addr, pad + buf) == aarch64_target(arch::wrap64(fn_addr + 4), buf),
{
    let whole = pad + buf;
    assert(whole.skip(0) =~= whole);
    assert(pad.skip(0) =~= pad);
    assert(arch::word_at(whole, 0) == arch::word_at(pad, 0));
    assert(arch::bti_len(whole) == 4);
    assert(whole.skip(4) =~= buf.skip(0));
    assert(whole.skip(8) =~= buf.skip(4));
    assert(whole.skip(12) =~= buf.skip(8));
    arch::lemma_wrap_add(fn_addr + 4, 0);
}

/// A landing pad before the accessor moves what it returns by the length of the
/// landing pad, as it moves the instructions.
pub proof fn lemma_landing_pad(machine: Arch, fn_addr: u64, pad: Seq<u8>, buf: Seq<u8>)
    requires
        machine == Arch::X86_64 ==> pad.len() == 4 && arch::endbr_len(pad) == 4 && arch::endbr_len(
            buf,
        ) == 0,
        machine == Arch::Aarch64 ==> pad.len() == 4 && arch::bti_len(pad) == 4 && buf.len() >= 16
            && arch::bti_len(buf) == 0,
    ensures
        accessor_target(machine, fn_addr, pad + buf) == accessor_target(
            machine,
            arch::wrap64(fn_addr + 4),
            buf,
        ),
{
    match machine {
        Arch::X86_64 => lemma_endbr(fn_addr, pad, buf),
        Arch::Aarch64 => lemma_bti(fn_addr, pad, buf),
    }
}

} // verus!
