//! What is known of another process's memory.
//!
//! A [`Remote`] holds the replies to the reads made so far. A computation that
//! needs a read which has no reply yet stops with [`ReadError::Pending`] and
//! says which one; it is run again once the reply has been supplied. So every
//! computation in this crate is a function of the replies, each read is made
//! once, and nothing here touches the process itself.

use crate::text;
use std::collections::HashMap;
use vstd::prelude::*;
use vstd::slice::slice_subrange;

verus! {

broadcast use vstd::std_specs::hash::group_hash_axioms;

/// The replies to reads, by address and length: the bytes, or `None` where the
/// read failed.
pub type Memory = Map<(u64, usize), Option<Seq<u8>>>;

/// Why a read gave no bytes.
#[derive(Debug, Clone, Copy, PartialEq, Eq, Structural)]
pub enum ReadError {
    /// There is no reply to this read yet.
    Pending { addr: u64, len: usize },
    /// The read was made, and it failed or came back short.
    Failed { addr: u64, len: usize },
}

/// The outcome of reading `len` bytes at `addr`. Reading nothing succeeds
/// without a reply.
pub open spec fn fetch(mem: Memory, addr: u64, len: usize) -> Result<Seq<u8>, ReadError> {
    if len == 0 {
        Ok(Seq::empty())
    } else if !mem.dom().contains((addr, len)) {
        Err(ReadError::Pending { addr, len })
    } else {
        match mem[(addr, len)] {
            Some(bytes) => Ok(bytes),
            None => Err(ReadError::Failed { addr, len }),
        }
    }
}

/// The value of four bytes, the least significant first.
pub open spec fn le32(b: Seq<u8>) -> u32 {
    (b[0] + 0x100 * b[1] + 0x1_0000 * b[2] + 0x100_0000 * b[3]) as u32
}

/// The value of eight bytes, the least significant first.
pub open spec fn le64(b: Seq<u8>) -> u64 {
    (le32(b) + 0x1_0000_0000 * le32(b.skip(4))) as u64
}

/// The outcome of reading a 32-bit value.
pub open spec fn fetch_u32(mem: Memory, addr: u64) -> Result<u32, ReadError> {
    match fetch(mem, addr, 4) {
        Ok(b) => Ok(le32(b)),
        Err(e) => Err(e),
    }
}

/// The outcome of reading a 64-bit value.
pub open spec fn fetch_u64(mem: Memory, addr: u64) -> Result<u64, ReadError> {
    match fetch(mem, addr, 8) {
        Ok(b) => Ok(le64(b)),
        Err(e) => Err(e),
    }
}

/// The bytes of `s` before its first zero byte.
pub open spec fn before_nul(s: Seq<u8>) -> Seq<u8>
    decreases s.len(),
{
    if s.len() == 0 || s[0] == 0 {
        Seq::empty()
    } else {
        seq![s[0]] + before_nul(s.drop_first())
    }
}

/// The outcome of reading a NUL-terminated string of up to `max` bytes.
pub open spec fn fetch_cstring(mem: Memory, addr: u64, max: usize) -> Result<
    Seq<char>,
    ReadError,
> {
    if addr == 0 {
        Ok(Seq::empty())
    } else {
        match fetch(mem, addr, max) {
            Ok(b) => Ok(text::utf8_lossy(before_nul(b))),
            Err(e) => Err(e),
        }
    }
}

/// Whether `more` answers every read that `mem` answers, and the same way.
pub open spec fn extends(more: Memory, mem: Memory) -> bool {
    mem.submap_of(more)
}

/// A read that has been answered keeps its answer when more replies come, and
/// a pending one names a read that has no reply.
pub proof fn lemma_fetch_stable(mem: Memory, more: Memory, addr: u64, len: usize)
    requires
        extends(more, mem),
    ensures
        fetch(mem, addr, len) matches Err(ReadError::Pending { addr: a, len: l }) ==> a == addr
            && l == len && !mem.dom().contains((addr, len)),
        !(fetch(mem, addr, len) matches Err(ReadError::Pending { .. })) ==> fetch(more, addr, len)
            == fetch(mem, addr, len),
{
}

/// Reading gives back what was supplied, and supplying the reply to one read
/// leaves all others as they are.
pub proof fn lemma_supplied(
    mem: Memory,
    addr: u64,
    len: usize,
    bytes: Option<Seq<u8>>,
    other_addr: u64,
    other_len: usize,
)
    requires
        len != 0,
    ensures
        fetch(mem.insert((addr, len), bytes), addr, len) == (match bytes {
            Some(b) => Ok::<Seq<u8>, ReadError>(b),
            None => Err(ReadError::Failed { addr, len }),
        }),
        (other_addr, other_len) != (addr, len) ==> fetch(
            mem.insert((addr, len), bytes),
            other_addr,
            other_len,
        ) == fetch(mem, other_addr, other_len),
        !mem.dom().contains((addr, len)) ==> extends(mem.insert((addr, len), bytes), mem),
{
}

struct Reply {
    len: usize,
    bytes: Option<Vec<u8>>,
}

/// The last reply of the given length in a list.
spec fn lookup(list: Seq<Reply>, len: usize) -> Option<Option<Seq<u8>>>
    decreases list.len(),
{
    if list.len() == 0 {
        None
    } else if list.last().len == len {
        match list.last().bytes {
            Some(b) => Some(Some(b@)),
            None => Some(None),
        }
    } else {
        lookup(list.drop_last(), len)
    }
}

/// The replies to reads of one process's memory.
pub struct Remote {
    pid: i32,
    replies: HashMap<u64, Vec<Reply>>,
}

impl View for Remote {
    type V = Memory;

    closed spec fn view(&self) -> Memory {
        Map::new(
            |k: (u64, usize)|
                self.replies@.dom().contains(k.0) && lookup(self.replies@[k.0]@, k.1) is Some,
            |k: (u64, usize)| lookup(self.replies@[k.0]@, k.1)->0,
        )
    }
}

impl Remote {
    /// The process that the replies are from.
    pub closed spec fn process(&self) -> i32 {
        self.pid
    }

    #[verifier::type_invariant]
    spec fn well_formed(self) -> bool {
        forall|a: u64, i: int|
            self.replies@.dom().contains(a) && 0 <= i < self.replies@[a]@.len() ==> (
            #[trigger] self.replies@[a]@[i].bytes matches Some(b) ==> b@.len()
                == self.replies@[a]@[i].len)
    }

    /// No reply is known of a process at first.
    pub fn new(pid: i32) -> (r: Self)
        ensures
            r@ == Memory::empty(),
            r.process() == pid,
    {
        let r = Self { pid, replies: HashMap::new() };
        assert(r@ =~= Memory::empty());
        r
    }

    pub fn pid(&self) -> (r: i32)
        ensures
            r == self.process(),
    {
        self.pid
    }

    /// Takes the reply to a read. Bytes of another length than was asked for
    /// are a failed read. A later reply to the same read replaces an earlier.
    pub fn supply(&mut self, addr: u64, len: usize, bytes: Option<Vec<u8>>)
        ensures
            final(self)@ == old(self)@.insert(
                (addr, len),
                match bytes {
                    Some(b) => if b@.len() == len {
                        Some(b@)
                    } else {
                        None
                    },
                    None => None,
                },
            ),
            final(self).process() == old(self).process(),
    {
        proof {
            use_type_invariant(&*self);
        }
        let kept: Option<Vec<u8>> = match bytes {
            Some(b) => if b.len() == len {
                Some(b)
            } else {
                None
            },
            None => None,
        };
        let mut replies: HashMap<u64, Vec<Reply>> = HashMap::new();
        std::mem::swap(&mut replies, &mut self.replies);
        let mut list: Vec<Reply> = match replies.remove(&addr) {
            Some(list) => list,
            None => Vec::new(),
        };
        let ghost before = list@;
        let ghost reply = Reply { len, bytes: kept };
        list.push(Reply { len, bytes: kept });
        assert(list@.drop_last() == before);
        replies.insert(addr, list);
        proof {
            assert forall|a: u64, i: int|
                replies@.dom().contains(a) && 0 <= i < replies@[a]@.len() implies (
            #[trigger] replies@[a]@[i].bytes matches Some(b) ==> b@.len()
                == replies@[a]@[i].len) by {
                if a == addr {
                    if i < before.len() {
                        assert(replies@[a]@[i] == old(self).replies@[a]@[i]);
                    }
                } else {
                    assert(replies@[a] == old(self).replies@[a]);
                }
            }
        }
        self.replies = replies;
        assert(self@ =~= old(self)@.insert(
            (addr, len),
            match kept {
                Some(b) => Some(b@),
                None => None,
            },
        )) by {
            assert forall|k: (u64, usize)| #[trigger]
                self@.dom().contains(k) == (k == (addr, len) || old(self)@.dom().contains(k)) by {
                if k.0 == addr && k.1 != len {
                    assert(lookup(list@, k.1) == lookup(before, k.1));
                }
            }
        }
    }

    /// Drops every reply, so that the memory is read anew.
    pub fn forget(&mut self)
        ensures
            final(self)@ == Memory::empty(),
            final(self).process() == old(self).process(),
    {
        let replies: HashMap<u64, Vec<Reply>> = HashMap::new();
        self.replies = replies;
        assert(self@ =~= Memory::empty());
    }

    /// Finds the reply to a read of at least one byte.
    fn reply(&self, addr: u64, len: usize) -> (r: Result<&Vec<u8>, ReadError>)
        requires
            len != 0,
        ensures
            match r {
                Ok(b) => fetch(self@, addr, len) == Ok::<Seq<u8>, ReadError>(b@) && b@.len() == len,
                Err(e) => fetch(self@, addr, len) == Err::<Seq<u8>, ReadError>(e),
            },
    {
        proof {
            use_type_invariant(self);
        }
        match self.replies.get(&addr) {
            None => Err(ReadError::Pending { addr, len }),
            Some(list) => {
                let mut i: usize = list.len();
                assert(list@.take(i as int) == list@);
                while i > 0
                    invariant
                        i <= list@.len(),
                        lookup(list@, len) == lookup(list@.take(i as int), len),
                        self.replies@.dom().contains(addr),
                        *list == self.replies@[addr],
                        len != 0,
                        self.well_formed(),
                    decreases i,
                {
                    assert(list@.take(i as int).drop_last() == list@.take(i - 1));
                    if list[i - 1].len == len {
                        assert(self@.dom().contains((addr, len)));
                        assert(self.replies@[addr]@[i - 1].bytes == list@[i - 1].bytes);
                        return match &list[i - 1].bytes {
                            Some(b) => Ok(b),
                            None => Err(ReadError::Failed { addr, len }),
                        };
                    }
                    i = i - 1;
                }
                assert(!self@.dom().contains((addr, len)));
                Err(ReadError::Pending { addr, len })
            },
        }
    }

    /// Reads into a buffer, as many bytes as it holds.
    pub fn read(&self, addr: u64, buf: &mut [u8]) -> (r: Result<(), ReadError>)
        ensures
            match r {
                Ok(_) => fetch(self@, addr, old(buf)@.len() as usize) == Ok::<Seq<u8>, ReadError>(
                    final(buf)@,
                ),
                Err(e) => fetch(self@, addr, old(buf)@.len() as usize) == Err::<Seq<u8>, ReadError>(
                    e,
                ) && final(buf)@ == old(buf)@,
            },
            final(buf)@.len() == old(buf)@.len(),
    {
        let len: usize = buf.len();
        if len == 0 {
            assert(buf@ == Seq::<u8>::empty());
            return Ok(());
        }
        let bytes = match self.reply(addr, len) {
            Ok(b) => b,
            Err(e) => return Err(e),
        };
        for i in 0..len
            invariant
                bytes@.len() == len,
                buf@.len() == len,
                forall|j: int| 0 <= j < i ==> buf@[j] == bytes@[j],
        {
            buf[i] = bytes[i];
        }
        assert(buf@ == bytes@);
        Ok(())
    }

    /// Reads raw bytes of known length.
    pub fn read_vec(&self, addr: u64, len: usize) -> (r: Result<Vec<u8>, ReadError>)
        ensures
            match r {
                Ok(b) => fetch(self@, addr, len) == Ok::<Seq<u8>, ReadError>(b@) && b@.len() == len,
                Err(e) => fetch(self@, addr, len) == Err::<Seq<u8>, ReadError>(e),
            },
    {
        if len == 0 {
            let none: Vec<u8> = Vec::new();
            assert(none@ == Seq::<u8>::empty());
            return Ok(none);
        }
        match self.reply(addr, len) {
            Ok(b) => {
                let out = b.clone();
                assert(out@ == b@);
                Ok(out)
            },
            Err(e) => Err(e),
        }
    }

    /// Reads a buffer of fixed size.
    pub fn read_array<const N: usize>(&self, addr: u64) -> (r: Result<[u8; N], ReadError>)
        ensures
            match r {
                Ok(b) => fetch(self@, addr, N) == Ok::<Seq<u8>, ReadError>(b@),
                Err(e) => fetch(self@, addr, N) == Err::<Seq<u8>, ReadError>(e),
            },
    {
        let mut buf: [u8; N] = [0u8; N];
        match self.read(addr, &mut buf) {
            Ok(_) => Ok(buf),
            Err(e) => Err(e),
        }
    }

    /// Reads a 32-bit value.
    pub fn read_u32(&self, addr: u64) -> (r: Result<u32, ReadError>)
        ensures
            r == fetch_u32(self@, addr),
    {
        match self.reply(addr, 4) {
            Ok(b) => Ok(u32_from_le(b.as_slice())),
            Err(e) => Err(e),
        }
    }

    /// Reads a 64-bit value.
    pub fn read_u64(&self, addr: u64) -> (r: Result<u64, ReadError>)
        ensures
            r == fetch_u64(self@, addr),
    {
        match self.reply(addr, 8) {
            Ok(b) => Ok(u64_from_le(b.as_slice())),
            Err(e) => Err(e),
        }
    }

    /// Reads a NUL-terminated string of up to `max` bytes.
    pub fn read_cstring(&self, addr: u64, max: usize) -> (r: Result<String, ReadError>)
        ensures
            match r {
                Ok(s) => fetch_cstring(self@, addr, max) == Ok::<Seq<char>, ReadError>(s@),
                Err(e) => fetch_cstring(self@, addr, max) == Err::<Seq<char>, ReadError>(e),
            },
    {
        if addr == 0 {
            let none = String::new();
            assert(none@ == Seq::<char>::empty());
            return Ok(none);
        }
        let buf = match self.read_vec(addr, max) {
            Ok(b) => b,
            Err(e) => return Err(e),
        };
        let mut end: usize = 0;
        assert(buf@.skip(0) == buf@);
        assert(buf@.take(0) + before_nul(buf@) == before_nul(buf@));
        while end < buf.len() && buf[end] != 0
            invariant
                end <= buf@.len(),
                before_nul(buf@) == buf@.take(end as int) + before_nul(buf@.skip(end as int)),
            decreases buf@.len() - end,
        {
            assert(buf@.skip(end as int).drop_first() == buf@.skip(end + 1));
            assert(buf@.take(end + 1) == buf@.take(end as int) + seq![buf@[end as int]]);
            end = end + 1;
        }
        let head = slice_subrange(buf.as_slice(), 0, end);
        assert(head@ == before_nul(buf@));
        Ok(text::decode_lossy(head))
    }
}

/// The value of the first four bytes of a slice, the least significant first.
pub fn u32_from_le(b: &[u8]) -> (r: u32)
    requires
        b@.len() >= 4,
    ensures
        r == le32(b@),
{
    b[0] as u32 + 0x100 * (b[1] as u32) + 0x1_0000 * (b[2] as u32) + 0x100_0000 * (b[3] as u32)
}

/// The value of the first eight bytes of a slice, the least significant first.
pub fn u64_from_le(b: &[u8]) -> (r: u64)
    requires
        b@.len() >= 8,
    ensures
        r == le64(b@),
{
    let low: u32 = u32_from_le(b);
    let high: u32 = u32_from_le(slice_subrange(b, 4, b.len()));
    assert(b@.skip(4) == b@.subrange(4, b@.len() as int));
    low as u64 + 0x1_0000_0000 * (high as u64)
}

} // verus!
