//! Numbers and strings as they lie in another process's memory.

use crate::arch;
use crate::remote;
use crate::remote::{Memory, ReadError};
use crate::text;
use crate::zend;
use crate::zend::Cache;
use vstd::prelude::*;

verus! {

// Bytes

/// The number that bytes write, the least significant first.
pub open spec fn number(b: Seq<u8>) -> int
    decreases b.len(),
{
    if b.len() == 0 {
        0
    } else {
        b[0] + 256 * number(b.drop_first())
    }
}

/// The number that `n` bytes of a buffer write from an offset on.
pub open spec fn number_at(b: Seq<u8>, off: int, n: int) -> int {
    number(b.subrange(off, off + n))
}

proof fn lemma_four(b: Seq<u8>)
    requires
        b.len() == 4,
    ensures
        number(b) == b[0] + 0x100 * b[1] + 0x1_0000 * b[2] + 0x100_0000 * b[3],
{
    reveal_with_fuel(number, 5);
    let r1 = b.drop_first();
    let r2 = r1.drop_first();
    let r3 = r2.drop_first();
    assert(r1[0] == b[1]);
    assert(r2[0] == b[2]);
    assert(r3[0] == b[3]);
    assert(r3.drop_first().len() == 0);
}

proof fn lemma_number_split(b: Seq<u8>)
    requires
        b.len() == 8,
    ensures
        number(b) == number(b.take(4)) + 0x1_0000_0000 * number(b.skip(4)),
{
    lemma_four(b.take(4));
    let r1 = b.drop_first();
    let r2 = r1.drop_first();
    let r3 = r2.drop_first();
    let r4 = r3.drop_first();
    assert(r4 =~= b.skip(4));
    assert(number(b) == b[0] + 256 * number(r1));
    assert(number(r1) == b[1] + 256 * number(r2));
    assert(number(r2) == b[2] + 256 * number(r3));
    assert(number(r3) == b[3] + 256 * number(r4));
}

/// A 32-bit field of a buffer is the number that its four bytes write, and a
/// 64-bit field that of its eight.
pub proof fn lemma_fields(b: Seq<u8>, off: int)
    requires
        0 <= off,
    ensures
        off + 4 <= b.len() ==> zend::field32(b, off) == number_at(b, off, 4),
        off + 4 <= b.len() ==> arch::word_at(b, off) == number_at(b, off, 4),
        off + 8 <= b.len() ==> zend::field64(b, off) == number_at(b, off, 8),
{
    if off + 4 <= b.len() {
        let four = b.subrange(off, off + 4);
        lemma_four(four);
        assert(b.skip(off)[0] == four[0]);
        assert(b.skip(off)[1] == four[1]);
        assert(b.skip(off)[2] == four[2]);
        assert(b.skip(off)[3] == four[3]);
    }
    if off + 8 <= b.len() {
        let all = b.subrange(off, off + 8);
        let high = all.skip(4);
        lemma_number_split(all);
        lemma_four(high);
        assert(all.take(4) =~= b.subrange(off, off + 4));
        let rest = b.skip(off).skip(4);
        assert(rest[0] == high[0]);
        assert(rest[1] == high[1]);
        assert(rest[2] == high[2]);
        assert(rest[3] == high[3]);
    }
}

// Replies

/// Whether the reply to a read is the given bytes, as many as were asked for.
pub open spec fn gives(mem: Memory, addr: u64, len: int, bytes: Seq<u8>) -> bool {
    &&& 0 < len <= usize::MAX
    &&& bytes.len() == len
    &&& mem.dom().contains((addr, len as usize))
    &&& mem[(addr, len as usize)] == Some(bytes)
}

/// Whether a read was made and failed.
pub open spec fn fails(mem: Memory, addr: u64, len: int) -> bool {
    &&& 0 < len <= usize::MAX
    &&& mem.dom().contains((addr, len as usize))
    &&& mem[(addr, len as usize)] is None
}

/// The number that lies at an address in `n` bytes, if it was read.
pub open spec fn value(mem: Memory, addr: u64, n: usize) -> Option<int> {
    if mem.dom().contains((addr, n)) {
        match mem[(addr, n)] {
            Some(b) => if b.len() == n {
                Some(number(b))
            } else {
                None
            },
            None => None,
        }
    } else {
        None
    }
}

/// Reading gives the reply, and tells a read that failed from one that was not
/// made.
pub proof fn lemma_reads(mem: Memory, addr: u64, len: usize)
    requires
        len != 0,
    ensures
        forall|b: Seq<u8>| #[trigger]
            gives(mem, addr, len as int, b) ==> remote::fetch(mem, addr, len) == Ok::<
                Seq<u8>,
                ReadError,
            >(b),
        fails(mem, addr, len as int) ==> remote::fetch(mem, addr, len) == Err::<
            Seq<u8>,
            ReadError,
        >(ReadError::Failed { addr, len }),
        !mem.dom().contains((addr, len)) ==> remote::fetch(mem, addr, len) == Err::<
            Seq<u8>,
            ReadError,
        >(ReadError::Pending { addr, len }),
{
}

/// Reading a number gives the one that lies there.
pub proof fn lemma_reads_number(mem: Memory, addr: u64)
    ensures
        value(mem, addr, 4) matches Some(v) ==> remote::fetch_u32(mem, addr) == Ok::<
            u32,
            ReadError,
        >(v as u32) && 0 <= v <= u32::MAX,
        value(mem, addr, 8) matches Some(v) ==> remote::fetch_u64(mem, addr) == Ok::<
            u64,
            ReadError,
        >(v as u64) && 0 <= v <= u64::MAX,
        fails(mem, addr, 4) ==> remote::fetch_u32(mem, addr) == Err::<u32, ReadError>(
            ReadError::Failed { addr, len: 4 },
        ),
        fails(mem, addr, 8) ==> remote::fetch_u64(mem, addr) == Err::<u64, ReadError>(
            ReadError::Failed { addr, len: 8 },
        ),
{
    lemma_reads(mem, addr, 4);
    lemma_reads(mem, addr, 8);
    if let Some(v) = value(mem, addr, 4) {
        let b = mem[(addr, 4usize)]->0;
        assert(gives(mem, addr, 4, b));
        lemma_fields(b, 0);
        lemma_four(b);
        assert(b.skip(0) =~= b);
        assert(b.subrange(0, 4) =~= b);
    }
    if let Some(v) = value(mem, addr, 8) {
        let b = mem[(addr, 8usize)]->0;
        assert(gives(mem, addr, 8, b));
        lemma_fields(b, 0);
        lemma_number_split(b);
        lemma_four(b.take(4));
        lemma_four(b.skip(4));
        assert(b.skip(0) =~= b);
        assert(b.subrange(0, 8) =~= b);
    }
}

// Strings

/// Whether a string of `n` bytes lies at an address: its length at offset 16,
/// and its first bytes, 4096 at most, at offset 24.
pub open spec fn stored(mem: Memory, addr: u64, n: int, b: Seq<u8>) -> bool {
    &&& value(mem, addr.wrapping_add(16), 8) == Some(n)
    &&& n > 0
    &&& gives(
        mem,
        addr.wrapping_add(24),
        if n < 4096 {
            n
        } else {
            4096
        },
        b,
    )
}

/// Whether a string that says `s` lies at an address.
pub open spec fn holds_string(mem: Memory, addr: u64, s: Seq<char>) -> bool {
    ||| value(mem, addr.wrapping_add(16), 8) == Some(0int) && s == Seq::<char>::empty()
    ||| exists|n: int, b: Seq<u8>| #[trigger] stored(mem, addr, n, b) && s == text::utf8_lossy(b)
}

/// Reading a string gives what the one that lies there says.
pub proof fn lemma_reads_string(mem: Memory, addr: u64, s: Seq<char>)
    requires
        holds_string(mem, addr, s),
    ensures
        zend::zend_string_at(mem, addr) == Ok::<Seq<char>, ReadError>(s),
{
    lemma_reads_number(mem, addr.wrapping_add(16));
    if !(value(mem, addr.wrapping_add(16), 8) == Some(0int)) {
        let (n, b) = choose|n: int, b: Seq<u8>| #[trigger]
            stored(mem, addr, n, b) && s == text::utf8_lossy(b);
        lemma_reads(mem, addr.wrapping_add(24), b.len() as usize);
    }
}

/// Whether the string at an address cannot be read: its length, or its text.
pub open spec fn unreadable_string(mem: Memory, addr: u64) -> bool {
    ||| fails(mem, addr.wrapping_add(16), 8)
    ||| value(mem, addr.wrapping_add(16), 8) matches Some(n) && 0 < n && fails(
        mem,
        addr.wrapping_add(24),
        if n < 4096 {
            n
        } else {
            4096
        },
    )
}

/// A string whose length or text cannot be read is not read.
pub proof fn lemma_unreadable_string(mem: Memory, addr: u64)
    requires
        unreadable_string(mem, addr),
    ensures
        zend::zend_string_at(mem, addr) matches Err(ReadError::Failed { .. }),
{
    lemma_reads_number(mem, addr.wrapping_add(16));
    if let Some(n) = value(mem, addr.wrapping_add(16), 8) {
        lemma_reads(
            mem,
            addr.wrapping_add(24),
            if n < 4096 {
                n as usize
            } else {
                4096
            },
        );
    }
}

/// Whether every reply has as many bytes as were asked for.
pub open spec fn whole(mem: Memory) -> bool {
    forall|addr: u64, len: usize| #[trigger]
        mem.dom().contains((addr, len)) ==> (mem[(addr, len)] matches Some(b) ==> b.len() == len)
}

/// A number that is read lies there.
pub proof fn lemma_read_lies_there(mem: Memory, addr: u64)
    requires
        whole(mem),
    ensures
        remote::fetch_u32(mem, addr) matches Ok(v) ==> value(mem, addr, 4) == Some(v as int),
        remote::fetch_u64(mem, addr) matches Ok(v) ==> value(mem, addr, 8) == Some(v as int),
        remote::fetch_u32(mem, addr) matches Err(ReadError::Failed { .. }) ==> fails(mem, addr, 4),
        remote::fetch_u64(mem, addr) matches Err(ReadError::Failed { .. }) ==> fails(mem, addr, 8),
{
    lemma_reads_number(mem, addr);
    assert(mem.dom().contains((addr, 4usize)) ==> (mem[(addr, 4usize)] matches Some(b) ==> b.len()
        == 4));
    assert(mem.dom().contains((addr, 8usize)) ==> (mem[(addr, 8usize)] matches Some(b) ==> b.len()
        == 8));
}

/// A string that is read lies there.
pub proof fn lemma_string_lies_there(mem: Memory, addr: u64, s: Seq<char>)
    requires
        whole(mem),
        zend::zend_string_at(mem, addr) == Ok::<Seq<char>, ReadError>(s),
    ensures
        holds_string(mem, addr, s),
{
    lemma_read_lies_there(mem, addr.wrapping_add(16));
    let n = value(mem, addr.wrapping_add(16), 8)->0;
    if n != 0 {
        let len = if n < 4096 {
            n as usize
        } else {
            4096
        };
        let at = addr.wrapping_add(24);
        assert(mem.dom().contains((at, len)));
        let b = mem[(at, len)]->0;
        assert(stored(mem, addr, n, b));
    }
}

/// A string at the null address is empty; any other is what stands before the
/// first zero byte of what is read there.
pub proof fn lemma_reads_cstring(mem: Memory, addr: u64, max: usize, b: Seq<u8>)
    ensures
        remote::fetch_cstring(mem, 0, max) == Ok::<Seq<char>, ReadError>(Seq::empty()),
        addr != 0 && gives(mem, addr, max as int, b) ==> remote::fetch_cstring(mem, addr, max)
            == Ok::<Seq<char>, ReadError>(text::utf8_lossy(remote::before_nul(b))),
{
    if max != 0 {
        lemma_reads(mem, addr, max);
    }
}

/// Whether what is remembered of strings is what lies in memory.
pub open spec fn remembers(cache: Cache, mem: Memory) -> bool {
    forall|a: u64, s: Seq<char>| #[trigger]
        holds_string(mem, a, s) && cache.dom().contains(a) ==> cache[a] == s
}

/// Whether all that is remembered of strings lies in memory.
pub open spec fn remembers_only(cache: Cache, mem: Memory) -> bool {
    forall|a: u64| #[trigger] cache.dom().contains(a) ==> holds_string(mem, a, cache[a])
}

/// A string that may be remembered lies in memory, and so does what is remembered
/// then.
pub proof fn lemma_remembered_lies_there(cache: Cache, mem: Memory, addr: u64)
    requires
        whole(mem),
        remembers_only(cache, mem),
    ensures
        remembers_only(zend::cached_string(cache, mem, addr).1, mem),
        zend::cached_string(cache, mem, addr).0 matches Ok(s) ==> holds_string(mem, addr, s),
{
    if !cache.dom().contains(addr) {
        if let Ok(s) = zend::zend_string_at(mem, addr) {
            lemma_string_lies_there(mem, addr, s);
        }
    }
}

/// Nothing wrong is remembered at first.
pub proof fn lemma_remembers_nothing(mem: Memory)
    ensures
        remembers(Cache::empty(), mem),
        remembers_only(Cache::empty(), mem),
{
}

/// A string that may be remembered is what the one in memory says, and it is
/// remembered rightly.
pub proof fn lemma_remembered_string(cache: Cache, mem: Memory, addr: u64)
    requires
        remembers(cache, mem),
    ensures
        remembers(zend::cached_string(cache, mem, addr).1, mem),
        forall|s: Seq<char>| #[trigger]
            holds_string(mem, addr, s) ==> zend::cached_string(cache, mem, addr).0 == Ok::<
                Seq<char>,
                ReadError,
            >(s),
{
    let after = zend::cached_string(cache, mem, addr).1;
    assert forall|a: u64, s: Seq<char>| #[trigger]
        holds_string(mem, a, s) && after.dom().contains(a) implies after[a] == s by {
        lemma_reads_string(mem, a, s);
    }
    assert forall|s: Seq<char>| #[trigger] holds_string(mem, addr, s) implies zend::cached_string(
        cache,
        mem,
        addr,
    ).0 == Ok::<Seq<char>, ReadError>(s) by {
        lemma_reads_string(mem, addr, s);
    }
}

/// A string that was read once is remembered while there is room: it is given
/// again whatever lies in memory by then.
pub proof fn lemma_read_once(cache: Cache, mem: Memory, later: Memory, addr: u64, s: Seq<char>)
    requires
        zend::cached_string(cache, mem, addr).0 == Ok::<Seq<char>, ReadError>(s),
        cache.dom().contains(addr) || cache.len() < 8192,
    ensures
        zend::cached_string(zend::cached_string(cache, mem, addr).1, later, addr).0 == Ok::<
            Seq<char>,
            ReadError,
        >(s),
{
}

} // verus!
