//! What is read of an ELF file, as plain values.
//!
//! The `object` crate does the reading. Its results are functions of the bytes
//! of the file, and the names below stand for them.

use object::read::elf::{ElfFile64, FileHeader};
use object::{Object, ObjectSection, ObjectSymbol};
use vstd::prelude::*;

verus! {

/// The error of the `object` crate's readers.
#[verifier::external_type_specification]
#[verifier::external_body]
pub struct ExObjectError(object::read::Error);

/// Whether `ElfFile64::<LittleEndian>::parse` accepts a file.
pub uninterp spec fn elf_parses(bytes: Seq<u8>) -> bool;

/// The names and addresses that `symbols()` gives of a file, in its order. A
/// symbol whose name cannot be read, or is not UTF-8, has none.
pub uninterp spec fn elf_symbols(bytes: Seq<u8>) -> Seq<(Option<Seq<char>>, u64)>;

/// The names and addresses that `dynamic_symbols()` gives of a file, in its
/// order. A symbol whose name cannot be read, or is not UTF-8, has none.
pub uninterp spec fn elf_dynamic_symbols(bytes: Seq<u8>) -> Seq<(Option<Seq<char>>, u64)>;

/// The names and contents that `sections()` gives of a file, in its order. A
/// name or contents that cannot be read are absent.
pub uninterp spec fn elf_sections(bytes: Seq<u8>) -> Seq<(Option<Seq<char>>, Option<Seq<u8>>)>;

/// The type and the machine that a file's header states.
#[derive(Debug, Clone, Copy, PartialEq, Eq, Structural)]
pub struct Header {
    pub e_type: u16,
    pub e_machine: u16,
}

/// A symbol: its name, if it has one that can be read, and its address.
#[derive(Debug, Clone)]
pub struct Symbol {
    pub name: Option<String>,
    pub address: u64,
}

impl View for Symbol {
    type V = (Option<Seq<char>>, u64);

    open spec fn view(&self) -> (Option<Seq<char>>, u64) {
        (
            match self.name {
                Some(n) => Some(n@),
                None => None,
            },
            self.address,
        )
    }
}

/// What a list of symbols says.
pub open spec fn symbols_view(list: Seq<Symbol>) -> Seq<(Option<Seq<char>>, u64)> {
    Seq::new(list.len(), |i: int| list[i]@)
}

/// A section: its name and its contents, as far as they can be read.
pub struct Section<'a> {
    pub name: Option<String>,
    pub data: Option<&'a [u8]>,
}

impl<'a> View for Section<'a> {
    type V = (Option<Seq<char>>, Option<Seq<u8>>);

    open spec fn view(&self) -> (Option<Seq<char>>, Option<Seq<u8>>) {
        (
            match self.name {
                Some(n) => Some(n@),
                None => None,
            },
            match self.data {
                Some(d) => Some(d@),
                None => None,
            },
        )
    }
}

/// What a list of sections says.
pub open spec fn sections_view<'a>(list: Seq<Section<'a>>) -> Seq<
    (Option<Seq<char>>, Option<Seq<u8>>),
> {
    Seq::new(list.len(), |i: int| list[i]@)
}

/// The 16-bit field at an offset of a file, least significant byte first.
pub open spec fn field16(bytes: Seq<u8>, off: int) -> u16 {
    (bytes[off] + 0x100 * bytes[off + 1]) as u16
}

/// `ElfFile64::<LittleEndian>::parse`, then `e_type` and `e_machine` of the
/// header. A file that is accepted starts with a header of 64 bytes; the type
/// stands at offset 16 and the machine at offset 18. Which files are accepted
/// is left to the name.
#[verifier::external_body]
pub(crate) fn read_header(bytes: &[u8]) -> (r: Result<Header, object::read::Error>)
    ensures
        match r {
            Ok(h) => elf_parses(bytes@) && bytes@.len() >= 64 && h.e_type == field16(bytes@, 16)
                && h.e_machine == field16(bytes@, 18),
            Err(_) => !elf_parses(bytes@),
        },
{
    let file = ElfFile64::<object::endian::LittleEndian>::parse(bytes)?;
    let endian = file.endian();
    let header = file.elf_header();
    Ok(Header { e_type: header.e_type(endian), e_machine: header.e_machine(endian) })
}

/// `ElfFile64::<LittleEndian>::parse`, then the `name` and `address` of each of
/// its `symbols`.
#[verifier::external_body]
pub(crate) fn read_symbols(bytes: &[u8]) -> (r: Result<Vec<Symbol>, object::read::Error>)
    ensures
        match r {
            Ok(list) => elf_parses(bytes@) && symbols_view(list@) == elf_symbols(bytes@),
            Err(_) => !elf_parses(bytes@),
        },
{
    let file = ElfFile64::<object::endian::LittleEndian>::parse(bytes)?;
    Ok(
        file.symbols().map(
            |s| Symbol { name: s.name().ok().map(str::to_string), address: s.address() },
        ).collect(),
    )
}

/// `ElfFile64::<LittleEndian>::parse`, then the `name` and `address` of each of
/// its `dynamic_symbols`.
#[verifier::external_body]
pub(crate) fn read_dynamic_symbols(bytes: &[u8]) -> (r: Result<Vec<Symbol>, object::read::Error>)
    ensures
        match r {
            Ok(list) => elf_parses(bytes@) && symbols_view(list@) == elf_dynamic_symbols(bytes@),
            Err(_) => !elf_parses(bytes@),
        },
{
    let file = ElfFile64::<object::endian::LittleEndian>::parse(bytes)?;
    Ok(
        file.dynamic_symbols().map(
            |s| Symbol { name: s.name().ok().map(str::to_string), address: s.address() },
        ).collect(),
    )
}

/// `ElfFile64::<LittleEndian>::parse`, then the `name` and `data` of each of its
/// `sections`.
#[verifier::external_body]
pub(crate) fn read_sections<'a>(bytes: &'a [u8]) -> (r: Result<
    Vec<Section<'a>>,
    object::read::Error,
>)
    ensures
        match r {
            Ok(list) => elf_parses(bytes@) && sections_view(list@) == elf_sections(bytes@),
            Err(_) => !elf_parses(bytes@),
        },
{
    let file = ElfFile64::<object::endian::LittleEndian>::parse(bytes)?;
    Ok(
        file.sections().map(
            |s| Section { name: s.name().ok().map(str::to_string), data: s.data().ok() },
        ).collect(),
    )
}

} // verus!
