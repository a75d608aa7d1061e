//! Machine architectures and the instruction words that accessors are made of.

use crate::remote;
use vstd::prelude::*;
use vstd::slice::slice_subrange;

verus! {

/// The architectures whose accessors can be decoded.
#[derive(Debug, Clone, Copy, PartialEq, Eq, Structural)]
pub enum Arch {
    X86_64,
    Aarch64,
}

impl Arch {
    /// The ELF machine number of the architecture.
    pub open spec fn machine_number(self) -> u16 {
        match self {
            Arch::X86_64 => 62,
            Arch::Aarch64 => 183,
        }
    }

    pub fn machine(self) -> (r: u16)
        ensures
            r == self.machine_number(),
    {
        match self {
            Arch::X86_64 => 62,
            Arch::Aarch64 => 183,
        }
    }
}

/// A value modulo 2^64.
pub open spec fn wrap64(x: int) -> u64 {
    (x % 0x1_0000_0000_0000_0000) as u64
}

/// Sums modulo 2^64 can be taken step by step.
pub proof fn lemma_wrap_add(x: int, y: int)
    ensures
        wrap64(wrap64(x) + y) == wrap64(x + y),
{
    let m: int = 0x1_0000_0000_0000_0000;
    vstd::arithmetic::div_mod::lemma_add_mod_noop(x, y, m);
    vstd::arithmetic::div_mod::lemma_add_mod_noop(x % m, y, m);
    vstd::arithmetic::div_mod::lemma_mod_twice(x, m);
}

/// A 32-bit word as a signed number.
pub open spec fn signed32(w: u32) -> int {
    if w < 0x8000_0000 {
        w as int
    } else {
        w - 0x1_0000_0000
    }
}

pub fn to_signed32(w: u32) -> (r: i64)
    ensures
        r == signed32(w),
{
    if w < 0x8000_0000 {
        w as i64
    } else {
        w as i64 - 0x1_0000_0000
    }
}

/// Adds a signed offset to an address, modulo 2^64.
pub fn displace(addr: u64, by: i64) -> (r: u64)
    ensures
        r == wrap64(addr + by),
{
    addr.wrapping_add_signed(by)
}

/// The instruction word at an offset.
pub open spec fn word_at(buf: Seq<u8>, off: int) -> u32 {
    remote::le32(buf.skip(off))
}

pub fn read_word(buf: &[u8], off: usize) -> (r: u32)
    requires
        off + 4 <= buf@.len(),
    ensures
        r == word_at(buf@, off as int),
{
    let tail = slice_subrange(buf, off, buf.len());
    assert(tail@ == buf@.skip(off as int));
    remote::u32_from_le(tail)
}

/// How long the x86_64 landing pad (`endbr64`) at the start of a function is.
pub open spec fn endbr_len(buf: Seq<u8>) -> int {
    if buf.len() >= 4 && buf[0] == 0xf3 && buf[1] == 0x0f && buf[2] == 0x1e && buf[3] == 0xfa {
        4
    } else {
        0
    }
}

pub fn skip_endbr(buf: &[u8]) -> (r: usize)
    ensures
        r == endbr_len(buf@),
{
    if buf.len() >= 4 && buf[0] == 0xf3 && buf[1] == 0x0f && buf[2] == 0x1e && buf[3] == 0xfa {
        4
    } else {
        0
    }
}

/// Whether a word is one of the aarch64 landing pads (`bti`, with any target):
/// `0xd503241f` in every bit but the three that select the target.
pub open spec fn is_bti(w: u32) -> bool {
    w / 0x100 == 0xd50324 && w % 0x20 == 0x1f
}

/// How long the aarch64 landing pad at the start of a function is.
pub open spec fn bti_len(buf: Seq<u8>) -> int {
    if is_bti(word_at(buf, 0)) {
        4
    } else {
        0
    }
}

pub fn skip_bti(buf: &[u8]) -> (r: usize)
    requires
        buf@.len() >= 4,
    ensures
        r == bti_len(buf@),
{
    let first: u32 = read_word(buf, 0);
    if first / 0x100 == 0xd50324 && first % 0x20 == 0x1f {
        4
    } else {
        0
    }
}

/// The aarch64 `ret` instruction.
pub const RET: u32 = 0xd65f_03c0;

} // verus!
