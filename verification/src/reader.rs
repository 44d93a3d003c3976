//! Reading the values the patcher needs out of ELF bytes, with the `elf` crate.

use vstd::prelude::*;
use vstd::utf8::{encode_utf8, valid_utf8};

use elf::endian::AnyEndian;
use elf::parse::ParseError;
use elf::segment::SegmentTable;
use elf::string_table::StringTable;
use elf::symbol::SymbolTable;
use elf::{CommonElfData, ElfBytes};

use crate::image::{ElfImage, Segment, SymbolEntry};

verus! {

/// The `elf` crate's handle on a parsed file header (`elf::ElfBytes`).
#[verifier::external_body]
struct ParsedHeader<'a> {
    elf: ElfBytes<'a, AnyEndian>,
}

/// The common sections that `ElfBytes::find_common_data` located (`elf::CommonElfData`).
#[verifier::external_body]
struct ParsedSections<'a> {
    common: CommonElfData<'a, AnyEndian>,
}

/// A parsed ELF file header, with the bytes it was read from.
pub struct ElfFile<'a> {
    parsed: ParsedHeader<'a>,
    data: &'a [u8],
}

/// The common sections of an ELF file, with the bytes of the file.
pub struct CommonSections<'a> {
    parsed: ParsedSections<'a>,
    data: &'a [u8],
}

/// A lazily parsed symbol table (`elf::symbol::SymbolTable`).
#[verifier::external_body]
pub struct SymbolTableReader<'a> {
    table: SymbolTable<'a, AnyEndian>,
}

/// A lazily parsed program header table (`elf::segment::SegmentTable`).
#[verifier::external_body]
pub struct SegmentTableReader<'a> {
    table: SegmentTable<'a, AnyEndian>,
}

#[verifier::external_type_specification]
#[verifier::external_body]
pub struct ExStringTable<'data>(StringTable<'data>);

#[verifier::external_type_specification]
#[verifier::external_body]
pub struct ExParseError(ParseError);

/// The fields of a `.symtab` entry that the patcher reads; `st_symtype` is
/// the low nibble of `st_info`.
#[derive(Clone, Copy, Debug, PartialEq, Eq)]
pub struct RawSymbol {
    pub st_name: u32,
    pub st_symtype: u8,
    pub st_shndx: u16,
    pub st_value: u64,
    pub st_size: u64,
}

/// Whether `ElfBytes::minimal_parse` accepts `data`: its file header parses
/// and its section and program header tables lie within it.
pub uninterp spec fn elf_header_parses(data: Seq<u8>) -> bool;

/// The entries of the program header table that `ElfBytes::segments` gives
/// for the file `data`, in table order; `None` where the file has none.
pub uninterp spec fn elf_program_headers(data: Seq<u8>) -> Option<Seq<Segment>>;

/// What `ElfBytes::find_common_data` finds in the file `data`: `None` where
/// it fails, else the `.symtab` entries in table order with the bytes of
/// their string table, where the file has a symbol table.
pub uninterp spec fn elf_symtab_sections(data: Seq<u8>) -> Option<Option<(Seq<RawSymbol>, Seq<u8>)>>;

/// The entries of a symbol table, in table order.
pub uninterp spec fn symbol_table_entries(t: SymbolTableReader<'_>) -> Seq<RawSymbol>;

/// The entries of a program header table, in table order.
pub uninterp spec fn segment_table_entries(t: SegmentTableReader<'_>) -> Seq<Segment>;

/// The bytes of a string table section.
pub uninterp spec fn string_table_bytes(t: StringTable<'_>) -> Seq<u8>;

/// `data` starts with an ELF identification that the `elf` crate reads
/// (magic number, class 32 or 64 bit, byte order little or big endian,
/// version 1) and is long enough for the file header of its class.
pub open spec fn has_elf_header(data: Seq<u8>) -> bool {
    &&& data.len() >= 16
    &&& data[0] == 0x7f && data[1] == 0x45 && data[2] == 0x4c && data[3] == 0x46
    &&& data[4] == 1 || data[4] == 2
    &&& data[5] == 1 || data[5] == 2
    &&& data[6] == 1
    &&& data.len() >= (if data[4] == 1 { 52int } else { 64int })
}

/// The `e_type` field of the file header of `data`: the two bytes at offset
/// 16, in the byte order that `data[5]` names (1 little endian, 2 big endian).
pub open spec fn header_e_type(data: Seq<u8>) -> u16 {
    if data[5] == 1 {
        (data[16] + 256 * data[17]) as u16
    } else {
        (256 * data[16] + data[17]) as u16
    }
}

/// `data[offset..end)` holds no NUL byte and `data[end]` is one.
pub open spec fn nul_terminated_at(data: Seq<u8>, offset: int, end: int) -> bool {
    &&& 0 <= offset <= end < data.len()
    &&& data[end] == 0
    &&& forall|k: int| offset <= k < end ==> data[k] != 0
}

/// Parses the ELF file header of `input` and locates its section and program
/// header tables (`ElfBytes::minimal_parse`). Whether it succeeds is a
/// function of the bytes; it fails on bytes that do not start with a
/// complete ELF file header.
#[verifier::external_body]
fn parse_elf<'a>(input: &'a [u8]) -> (r: Result<ElfFile<'a>, ParseError>)
    ensures
        r is Ok <==> elf_header_parses(input@),
        r is Ok ==> has_elf_header(input@),
        r matches Ok(f) ==> f.data@ == input@,
{
    match ElfBytes::<AnyEndian>::minimal_parse(input) {
        Ok(elf) => Ok(ElfFile { parsed: ParsedHeader { elf }, data: input }),
        Err(e) => Err(e),
    }
}

/// The `e_type` field of the file header (`FileHeader::e_type`).
#[verifier::external_body]
fn file_type(file: &ElfFile<'_>) -> (t: u16)
    requires
        has_elf_header(file.data@),
    ensures
        t == header_e_type(file.data@),
{
    file.parsed.elf.ehdr.e_type
}

/// The program header table of the file, if it has one (`ElfBytes::segments`).
#[verifier::external_body]
fn program_headers<'a>(file: &ElfFile<'a>) -> (r: Option<SegmentTableReader<'a>>)
    ensures
        r is Some <==> elf_program_headers(file.data@) is Some,
        r matches Some(t) ==> segment_table_entries(t) == elf_program_headers(file.data@)->0,
{
    match file.parsed.elf.segments() {
        Some(table) => Some(SegmentTableReader { table }),
        None => None,
    }
}

/// Looks up the symbol table, the dynamic symbol table and related sections
/// (`ElfBytes::find_common_data`).
#[verifier::external_body]
fn common_data<'a>(file: &ElfFile<'a>) -> (r: Result<CommonSections<'a>, ParseError>)
    ensures
        r is Ok <==> elf_symtab_sections(file.data@) is Some,
        r matches Ok(c) ==> c.data@ == file.data@,
{
    match file.parsed.elf.find_common_data() {
        Ok(common) => Ok(CommonSections { parsed: ParsedSections { common }, data: file.data }),
        Err(e) => Err(e),
    }
}

/// The string table of `.symtab` and `.symtab` itself as `find_common_data`
/// found them (its `symtab_strs` and `symtab` fields, which it sets together).
#[verifier::external_body]
fn symtab_parts<'a>(sections: CommonSections<'a>) -> (r: (Option<StringTable<'a>>, Option<SymbolTableReader<'a>>))
    requires
        elf_symtab_sections(sections.data@) is Some,
    ensures
        r.0 is Some <==> elf_symtab_sections(sections.data@)->0 is Some,
        r.1 is Some <==> elf_symtab_sections(sections.data@)->0 is Some,
        r.0 matches Some(s) ==> string_table_bytes(s) == (elf_symtab_sections(sections.data@)->0->0).1,
        r.1 matches Some(t) ==> symbol_table_entries(t) == (elf_symtab_sections(sections.data@)->0->0).0,
{
    let common = sections.parsed.common;
    let symtab = match common.symtab {
        Some(table) => Some(SymbolTableReader { table }),
        None => None,
    };
    (common.symtab_strs, symtab)
}

/// The number of entries of a symbol table (`ParsingTable::len`).
#[verifier::external_body]
fn symbol_count(t: &SymbolTableReader<'_>) -> (n: usize)
    ensures
        n == symbol_table_entries(*t).len(),
{
    t.table.len()
}

/// Parses entry `i` of a symbol table (`ParsingTable::get`): it succeeds
/// exactly for the indices below the table's length, and gives that entry.
#[verifier::external_body]
fn symbol_at(t: &SymbolTableReader<'_>, i: usize) -> (r: Result<RawSymbol, ParseError>)
    ensures
        r is Ok <==> i < symbol_table_entries(*t).len(),
        r matches Ok(s) ==> s == symbol_table_entries(*t)[i as int],
{
    t.table.get(i).map(|s| RawSymbol {
        st_name: s.st_name,
        st_symtype: s.st_symtype(),
        st_shndx: s.st_shndx,
        st_value: s.st_value,
        st_size: s.st_size,
    })
}

/// The number of entries of a program header table (`ParsingTable::len`).
#[verifier::external_body]
fn segment_count(t: &SegmentTableReader<'_>) -> (n: usize)
    ensures
        n == segment_table_entries(*t).len(),
{
    t.table.len()
}

/// Parses entry `i` of a program header table (`ParsingTable::get`): it
/// succeeds exactly for the indices below the table's length, and gives that entry.
#[verifier::external_body]
fn segment_at(t: &SegmentTableReader<'_>, i: usize) -> (r: Result<Segment, ParseError>)
    ensures
        r is Ok <==> i < segment_table_entries(*t).len(),
        r matches Ok(s) ==> s == segment_table_entries(*t)[i as int],
{
    t.table.get(i).map(|p| Segment {
        p_type: p.p_type,
        p_offset: p.p_offset,
        p_vaddr: p.p_vaddr,
        p_filesz: p.p_filesz,
        p_memsz: p.p_memsz,
    })
}

/// The string of `data` at `offset` can be read: a NUL ends it and its bytes are valid UTF-8.
pub open spec fn readable_string_at(data: Seq<u8>, offset: int) -> bool {
    exists|end: int| nul_terminated_at(data, offset, end) && valid_utf8(data.subrange(offset, end))
}

/// `bytes` are those of the string of `data` at `offset`, up to its NUL.
pub open spec fn string_bytes_at(data: Seq<u8>, offset: int, bytes: Seq<u8>) -> bool {
    exists|end: int| nul_terminated_at(data, offset, end) && bytes == data.subrange(offset, end)
}

/// The string at `offset` of a string table (`StringTable::get`): the bytes
/// from `offset` up to the next NUL, when there is one and they are valid
/// UTF-8, as an owned string.
#[verifier::external_body]
fn string_at(t: &StringTable<'_>, offset: usize) -> (r: Result<String, ParseError>)
    ensures
        r is Ok == readable_string_at(string_table_bytes(*t), offset as int),
        r matches Ok(s) ==> string_bytes_at(string_table_bytes(*t), offset as int, encode_utf8(s@)),
{
    t.get(offset).map(|s| s.to_owned())
}

/// Why an ELF image could not be read.
#[derive(Clone, Copy, Debug, PartialEq, Eq)]
pub enum ElfError {
    /// The file header or the header tables could not be parsed.
    Parse,
    /// The section headers could not be walked to find the common sections.
    CommonData,
    /// The image has no `.symtab` section, and so no string table for it.
    NoSymtabStrs,
}

/// `entry` is `raw` with the name found at `raw.st_name` in the string table
/// `strtab`, or no name where none can be read there.
pub open spec fn entry_of(entry: SymbolEntry, raw: RawSymbol, strtab: Seq<u8>) -> bool {
    &&& entry.st_symtype == raw.st_symtype
    &&& entry.st_shndx == raw.st_shndx
    &&& entry.st_value == raw.st_value
    &&& entry.st_size == raw.st_size
    &&& match entry.name {
        Some(name) => string_bytes_at(strtab, raw.st_name as int, encode_utf8(name@)),
        None => !readable_string_at(strtab, raw.st_name as int),
    }
}

/// All entries of a program header table, in table order.
fn read_segments(t: &SegmentTableReader<'_>) -> (r: Vec<Segment>)
    ensures
        r@ == segment_table_entries(*t),
{
    let n = segment_count(t);
    let mut r: Vec<Segment> = Vec::new();
    let mut i: usize = 0;
    while i < n
        invariant
            n == segment_table_entries(*t).len(),
            i <= n,
            r@ == segment_table_entries(*t).subrange(0, i as int),
        decreases n - i,
    {
        match segment_at(t, i) {
            Ok(seg) => {
                r.push(seg);
            },
            Err(_) => {
                assert(false);
            },
        }
        i = i + 1;
        proof {
            assert(r@ =~= segment_table_entries(*t).subrange(0, i as int));
        }
    }
    proof {
        assert(segment_table_entries(*t).subrange(0, n as int) =~= segment_table_entries(*t));
    }
    r
}

/// All entries of a symbol table in table order, each with its name looked up in `strs`.
fn read_symbols(t: &SymbolTableReader<'_>, strs: &StringTable<'_>) -> (r: Vec<SymbolEntry>)
    ensures
        r@.len() == symbol_table_entries(*t).len(),
        forall|k: int|
            0 <= k < r@.len() ==> entry_of(#[trigger] r@[k], symbol_table_entries(*t)[k], string_table_bytes(*strs)),
{
    let n = symbol_count(t);
    let mut r: Vec<SymbolEntry> = Vec::new();
    let mut i: usize = 0;
    while i < n
        invariant
            n == symbol_table_entries(*t).len(),
            i <= n,
            r@.len() == i,
            forall|k: int|
                0 <= k < i ==> entry_of(#[trigger] r@[k], symbol_table_entries(*t)[k], string_table_bytes(*strs)),
        decreases n - i,
    {
        match symbol_at(t, i) {
            Ok(raw) => {
                let name = match string_at(strs, raw.st_name as usize) {
                    Ok(name) => Some(name),
                    Err(_) => None,
                };
                let entry = SymbolEntry {
                    name,
                    st_symtype: raw.st_symtype,
                    st_shndx: raw.st_shndx,
                    st_value: raw.st_value,
                    st_size: raw.st_size,
                };
                assert(entry_of(entry, symbol_table_entries(*t)[i as int], string_table_bytes(*strs)));
                r.push(entry);
            },
            Err(_) => {
                assert(false);
            },
        }
        i = i + 1;
    }
    r
}

/// The file `data` can be read as an image: its header parses and the
/// common sections are found, among them a `.symtab`.
pub open spec fn elf_readable(data: Seq<u8>) -> bool {
    elf_header_parses(data) && elf_symtab_sections(data) matches Some(Some(_))
}

/// Why the file `data` cannot be read as an image, where it cannot.
pub open spec fn read_error(data: Seq<u8>) -> ElfError {
    if !elf_header_parses(data) {
        ElfError::Parse
    } else if elf_symtab_sections(data) is None {
        ElfError::CommonData
    } else {
        ElfError::NoSymtabStrs
    }
}

/// `img` holds what the patcher reads of the file `data`: the `e_type` of its
/// header, its program headers where it has a table of them, and its
/// `.symtab` entries in table order, each with its name where the string
/// table yields one.
pub open spec fn image_of(img: ElfImage, data: Seq<u8>) -> bool {
    &&& elf_header_parses(data)
    &&& elf_symtab_sections(data) matches Some(Some((entries, strs))) && {
        &&& img.symbols@.len() == entries.len()
        &&& forall|k: int| 0 <= k < entries.len() ==> entry_of(#[trigger] img.symbols@[k], entries[k], strs)
    }
    &&& img.e_type == header_e_type(data)
    &&& match elf_program_headers(data) {
        None => img.segments is None,
        Some(segs) => img.segments matches Some(v) && v@ == segs,
    }
}

/// Reads the values the patcher needs from the ELF image `input`: its type,
/// its program headers and its `.symtab` entries with their names. A missing
/// `.symtab` is reported as a missing string table, since the two are found together.
pub fn read_image(input: &[u8]) -> (r: Result<ElfImage, ElfError>)
    ensures
        r is Ok <==> elf_readable(input@),
        r matches Ok(img) ==> image_of(img, input@),
        r matches Err(e) ==> e == read_error(input@),
        !has_elf_header(input@) ==> r == Err::<ElfImage, ElfError>(ElfError::Parse),
{
    let file = match parse_elf(input) {
        Ok(file) => file,
        Err(_) => {
            return Err(ElfError::Parse);
        },
    };
    let e_type = file_type(&file);
    let headers = program_headers(&file);
    let ghost header_table = headers;
    let segments = match headers {
        Some(table) => Some(read_segments(&table)),
        None => None,
    };
    let sections = match common_data(&file) {
        Ok(sections) => sections,
        Err(_) => {
            return Err(ElfError::CommonData);
        },
    };
    let (strs, symtab) = symtab_parts(sections);
    let (strs, symtab) = match (strs, symtab) {
        (Some(strs), Some(symtab)) => (strs, symtab),
        _ => {
            return Err(ElfError::NoSymtabStrs);
        },
    };
    let symbols = read_symbols(&symtab, &strs);
    let img = ElfImage { e_type, segments, symbols };
    proof {
        if let Some(table) = header_table {
            assert(img.segments->0@ == segment_table_entries(table));
        }
    }
    Ok(img)
}

} // verus!
