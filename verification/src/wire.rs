//! The Protocol Buffers wire format, as far as profiles need it.
//!
//! The `prost` crate does the writing.

use vstd::prelude::*;
use vstd::utf8;

verus! {

/// A number in base 128, the lowest digit first, each but the last with the
/// high bit set.
pub open spec fn varint(v: nat) -> Seq<u8>
    decreases v,
{
    if v < 0x80 {
        seq![v as u8]
    } else {
        seq![(0x80 + v % 0x80) as u8] + varint(v / 0x80)
    }
}

/// The wire type of a number.
pub const VARINT: u32 = 0;

/// The wire type of bytes that follow their length.
pub const LENGTH_DELIMITED: u32 = 2;

/// The key of a field: its tag and its wire type.
pub open spec fn key(tag: nat, wire_type: nat) -> Seq<u8> {
    varint(tag * 8 + wire_type)
}

/// A signed number as it goes on the wire: modulo 2^64.
pub open spec fn unsigned(v: i64) -> nat {
    if v < 0 {
        (v + 0x1_0000_0000_0000_0000) as nat
    } else {
        v as nat
    }
}

/// A field that holds a number.
pub open spec fn number_field(tag: nat, v: nat) -> Seq<u8> {
    key(tag, VARINT as nat) + varint(v)
}

/// A field that holds bytes.
pub open spec fn bytes_field(tag: nat, bytes: Seq<u8>) -> Seq<u8> {
    key(tag, LENGTH_DELIMITED as nat) + varint(bytes.len()) + bytes
}

/// Numbers one after the other.
pub open spec fn varints(vs: Seq<nat>) -> Seq<u8>
    decreases vs.len(),
{
    if vs.len() == 0 {
        Seq::empty()
    } else {
        varints(vs.drop_last()) + varint(vs.last())
    }
}

/// A field that holds a list of numbers. An empty list leaves no trace.
pub open spec fn packed_field(tag: nat, vs: Seq<nat>) -> Seq<u8> {
    if vs.len() == 0 {
        Seq::empty()
    } else {
        bytes_field(tag, varints(vs))
    }
}

/// The tags that a field can have.
pub open spec fn valid_tag(tag: u32) -> bool {
    1 <= tag < 0x2000_0000
}

/// `prost::encoding::uint64::encode` appends a field that holds the number.
#[verifier::external_body]
pub(crate) fn put_uint64(tag: u32, value: u64, buf: &mut Vec<u8>)
    requires
        valid_tag(tag),
    ensures
        final(buf)@ == old(buf)@ + number_field(tag as nat, value as nat),
{
    prost::encoding::uint64::encode(tag, &value, buf)
}

/// `prost::encoding::int64::encode` appends a field that holds the number.
#[verifier::external_body]
pub(crate) fn put_int64(tag: u32, value: i64, buf: &mut Vec<u8>)
    requires
        valid_tag(tag),
    ensures
        final(buf)@ == old(buf)@ + number_field(tag as nat, unsigned(value)),
{
    prost::encoding::int64::encode(tag, &value, buf)
}

/// `prost::encoding::uint64::encode_packed` appends a field that holds the
/// numbers, or nothing if there are none.
#[verifier::external_body]
pub(crate) fn put_packed_uint64(tag: u32, values: &[u64], buf: &mut Vec<u8>)
    requires
        valid_tag(tag),
    ensures
        final(buf)@ == old(buf)@ + packed_field(
            tag as nat,
            Seq::new(values@.len(), |i: int| values@[i] as nat),
        ),
{
    prost::encoding::uint64::encode_packed(tag, values, buf)
}

/// `prost::encoding::int64::encode_packed` appends a field that holds the
/// numbers, or nothing if there are none.
#[verifier::external_body]
pub(crate) fn put_packed_int64(tag: u32, values: &[i64], buf: &mut Vec<u8>)
    requires
        valid_tag(tag),
    ensures
        final(buf)@ == old(buf)@ + packed_field(
            tag as nat,
            Seq::new(values@.len(), |i: int| unsigned(values@[i])),
        ),
{
    prost::encoding::int64::encode_packed(tag, values, buf)
}

/// `prost::encoding::string::encode` appends a field that holds the UTF-8 bytes
/// of the string.
#[verifier::external_body]
pub(crate) fn put_string(tag: u32, value: &String, buf: &mut Vec<u8>)
    requires
        valid_tag(tag),
    ensures
        final(buf)@ == old(buf)@ + bytes_field(tag as nat, utf8::encode_utf8(value@)),
{
    prost::encoding::string::encode(tag, value, buf)
}

/// `prost::encoding::bytes::encode` appends a field that holds the bytes.
#[verifier::external_body]
pub(crate) fn put_bytes(tag: u32, value: &Vec<u8>, buf: &mut Vec<u8>)
    requires
        valid_tag(tag),
    ensures
        final(buf)@ == old(buf)@ + bytes_field(tag as nat, value@),
{
    prost::encoding::bytes::encode(tag, value, buf)
}

// Reading back

/// Reads a number off the start of a message.
pub open spec fn read_varint(s: Seq<u8>) -> Option<(nat, Seq<u8>)>
    decreases s.len(),
{
    if s.len() == 0 {
        None
    } else if s[0] < 0x80 {
        Some((s[0] as nat, s.skip(1)))
    } else {
        match read_varint(s.skip(1)) {
            Some((v, rest)) => Some(((s[0] - 0x80 + 0x80 * v) as nat, rest)),
            None => None,
        }
    }
}

/// A field of a message.
pub ghost enum Field {
    Number(nat, nat),
    Bytes(nat, Seq<u8>),
}

/// Reads a field off the start of a message.
pub open spec fn read_field(s: Seq<u8>) -> Option<(Field, Seq<u8>)> {
    match read_varint(s) {
        None => None,
        Some((key, rest)) => match read_varint(rest) {
            None => None,
            Some((v, rest)) => if key % 8 == VARINT as nat {
                Some((Field::Number(key / 8, v), rest))
            } else if key % 8 == LENGTH_DELIMITED as nat && v <= rest.len() {
                Some((Field::Bytes(key / 8, rest.take(v as int)), rest.skip(v as int)))
            } else {
                None
            },
        },
    }
}

/// The bytes of a field.
pub open spec fn field_bytes(f: Field) -> Seq<u8> {
    match f {
        Field::Number(tag, v) => number_field(tag, v),
        Field::Bytes(tag, b) => bytes_field(tag, b),
    }
}

/// The bytes of fields, one after the other.
pub open spec fn fields_bytes(fs: Seq<Field>) -> Seq<u8>
    decreases fs.len(),
{
    if fs.len() == 0 {
        Seq::empty()
    } else {
        fields_bytes(fs.drop_last()) + field_bytes(fs.last())
    }
}

/// Reads `n` fields off the start of a message.
pub open spec fn read_fields(s: Seq<u8>, n: nat) -> Option<(Seq<Field>, Seq<u8>)>
    decreases n,
{
    if n == 0 {
        Some((Seq::empty(), s))
    } else {
        match read_field(s) {
            None => None,
            Some((f, rest)) => match read_fields(rest, (n - 1) as nat) {
                None => None,
                Some((fs, rest)) => Some((seq![f] + fs, rest)),
            },
        }
    }
}

/// Reads numbers off the start of a message until it ends.
pub open spec fn read_varints(s: Seq<u8>, n: nat) -> Option<Seq<nat>>
    decreases n,
{
    if n == 0 {
        if s.len() == 0 {
            Some(Seq::empty())
        } else {
            None
        }
    } else {
        match read_varint(s) {
            None => None,
            Some((v, rest)) => match read_varints(rest, (n - 1) as nat) {
                None => None,
                Some(vs) => Some(seq![v] + vs),
            },
        }
    }
}

/// A number is read back, whatever follows it.
pub proof fn lemma_varint_reads_back(v: nat, rest: Seq<u8>)
    ensures
        read_varint(varint(v) + rest) == Some((v, rest)),
    decreases v,
{
    let s = varint(v) + rest;
    if v < 0x80 {
        assert(s.skip(1) =~= rest);
    } else {
        lemma_varint_reads_back(v / 0x80, rest);
        assert(s[0] == (0x80 + v % 0x80) as u8);
        assert(s.skip(1) =~= varint(v / 0x80) + rest);
    }
}

/// A field is read back, whatever follows it.
pub proof fn lemma_field_reads_back(f: Field, rest: Seq<u8>)
    ensures
        read_field(field_bytes(f) + rest) == Some((f, rest)),
{
    match f {
        Field::Number(tag, v) => {
            let after = varint(v) + rest;
            assert(field_bytes(f) + rest =~= varint(tag * 8 + VARINT as nat) + after);
            lemma_varint_reads_back(tag * 8 + VARINT as nat, after);
            lemma_varint_reads_back(v, rest);
        },
        Field::Bytes(tag, b) => {
            let tail = b + rest;
            let after = varint(b.len()) + tail;
            assert(field_bytes(f) + rest =~= varint(tag * 8 + LENGTH_DELIMITED as nat) + after);
            lemma_varint_reads_back(tag * 8 + LENGTH_DELIMITED as nat, after);
            lemma_varint_reads_back(b.len(), tail);
            assert(tail.take(b.len() as int) =~= b);
            assert(tail.skip(b.len() as int) =~= rest);
        },
    }
}

proof fn lemma_fields_bytes_first(fs: Seq<Field>)
    requires
        fs.len() > 0,
    ensures
        fields_bytes(fs) == field_bytes(fs[0]) + fields_bytes(fs.drop_first()),
    decreases fs.len(),
{
    let rest = fs.drop_first();
    if fs.len() == 1 {
        assert(fs.drop_last() =~= Seq::<Field>::empty());
        assert(rest =~= Seq::<Field>::empty());
        assert(fields_bytes(fs) =~= field_bytes(fs[0]) + fields_bytes(rest));
    } else {
        lemma_fields_bytes_first(fs.drop_last());
        assert(fs.drop_last().drop_first() =~= rest.drop_last());
        assert(fields_bytes(fs) =~= field_bytes(fs[0]) + fields_bytes(rest));
    }
}

/// The fields of a message are read back.
pub proof fn lemma_fields_read_back(fs: Seq<Field>, rest: Seq<u8>)
    ensures
        read_fields(fields_bytes(fs) + rest, fs.len()) == Some((fs, rest)),
    decreases fs.len(),
{
    if fs.len() == 0 {
        assert(fields_bytes(fs) + rest =~= rest);
        assert(fs =~= Seq::<Field>::empty());
    } else {
        lemma_fields_bytes_first(fs);
        let tail = fs.drop_first();
        let after = fields_bytes(tail) + rest;
        assert(fields_bytes(fs) + rest =~= field_bytes(fs[0]) + after);
        lemma_field_reads_back(fs[0], after);
        lemma_fields_read_back(tail, rest);
        assert(seq![fs[0]] + tail =~= fs);
    }
}

/// Fields one after the other are those of both lists in a row.
pub proof fn lemma_fields_append(a: Seq<Field>, b: Seq<Field>)
    ensures
        fields_bytes(a + b) == fields_bytes(a) + fields_bytes(b),
    decreases b.len(),
{
    if b.len() == 0 {
        assert(a + b =~= a);
        assert(fields_bytes(a) + fields_bytes(b) =~= fields_bytes(a));
    } else {
        lemma_fields_append(a, b.drop_last());
        assert((a + b).drop_last() =~= a + b.drop_last());
        assert(fields_bytes(a + b) =~= fields_bytes(a) + fields_bytes(b));
    }
}

proof fn lemma_varints_first(vs: Seq<nat>)
    requires
        vs.len() > 0,
    ensures
        varints(vs) == varint(vs[0]) + varints(vs.drop_first()),
    decreases vs.len(),
{
    let rest = vs.drop_first();
    if vs.len() == 1 {
        assert(vs.drop_last() =~= Seq::<nat>::empty());
        assert(rest =~= Seq::<nat>::empty());
        assert(varints(vs) =~= varint(vs[0]) + varints(rest));
    } else {
        lemma_varints_first(vs.drop_last());
        assert(vs.drop_last().drop_first() =~= rest.drop_last());
        assert(varints(vs) =~= varint(vs[0]) + varints(rest));
    }
}

/// The numbers of a packed list are read back.
pub proof fn lemma_varints_read_back(vs: Seq<nat>)
    ensures
        read_varints(varints(vs), vs.len()) == Some(vs),
    decreases vs.len(),
{
    if vs.len() == 0 {
        assert(vs =~= Seq::<nat>::empty());
    } else {
        lemma_varints_first(vs);
        lemma_varint_reads_back(vs[0], varints(vs.drop_first()));
        lemma_varints_read_back(vs.drop_first());
        assert(seq![vs[0]] + vs.drop_first() =~= vs);
    }
}

} // verus!
