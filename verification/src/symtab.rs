//! Walking the symbol tables of an ELF object.
//!
//! [`SymtabIterator`] scans a section list in order, decodes every entry of
//! every symbol-table section under the active class and byte order, and
//! resolves each entry's name through the string-table section its table
//! links to. Every way a malformed file can corrupt this walk is reported as
//! an [`ElfParserError`] value for that pull alone; the walk itself goes on
//! when the caller keeps pulling.

use vstd::prelude::*;
use vstd::slice::slice_subrange;
use crate::err::ElfParserError;
use crate::ident::{ElfClass, ElfEndian};
use crate::section::ElfSection;
use crate::string_table::{read_str_from_offset, str_from_offset};
use crate::symbol::{Symbol, SymbolModel};
use crate::unpack::{field_bytes, field_value, push_uint, read_uint, lemma_field_bytes_len,
    lemma_field_bytes_value, pow256, DecodeError};

verus! {

/// Section type of a symbol table, as the ELF ABI numbers it.
pub const SHT_SYMTAB: u32 = 2;

/// Section type of a string table, as the ELF ABI numbers it.
pub const SHT_STRTAB: u32 = 3;

/// One symbol-table entry of a 32-bit ELF object: 16 bytes, no padding.
#[derive(Clone, Copy, PartialEq, Eq, Structural, Debug)]
pub struct Elf32SymtabEntry {
    pub name: u32,
    pub value: u32,
    pub size: u32,
    pub info: u8,
    pub other: u8,
    pub shndx: u16,
}

/// One symbol-table entry of a 64-bit ELF object: 24 bytes, no padding.
/// `info`, `other` and `shndx` stand before the two 8-byte fields.
#[derive(Clone, Copy, PartialEq, Eq, Structural, Debug)]
pub struct Elf64SymtabEntry {
    pub name: u32,
    pub info: u8,
    pub other: u8,
    pub shndx: u16,
    pub value: u64,
    pub size: u64,
}

impl Elf32SymtabEntry {
    pub const SIZE: usize = 16;

    /// The entry held in the first [`Elf32SymtabEntry::SIZE`] bytes of `data`.
    pub open spec fn spec_unpack(data: Seq<u8>, le: bool) -> Elf32SymtabEntry {
        Elf32SymtabEntry {
            name: field_value(data.subrange(0, 4), le) as u32,
            value: field_value(data.subrange(4, 8), le) as u32,
            size: field_value(data.subrange(8, 12), le) as u32,
            info: field_value(data.subrange(12, 13), le) as u8,
            other: field_value(data.subrange(13, 14), le) as u8,
            shndx: field_value(data.subrange(14, 16), le) as u16,
        }
    }

    /// The encoding of `e` under the chosen byte order: each field in
    /// declared order, in its declared width.
    pub open spec fn spec_pack(e: Elf32SymtabEntry, le: bool) -> Seq<u8> {
        field_bytes(e.name as int, 4, le) + field_bytes(e.value as int, 4, le) + field_bytes(
            e.size as int,
            4,
            le,
        ) + field_bytes(e.info as int, 1, le) + field_bytes(e.other as int, 1, le) + field_bytes(
            e.shndx as int,
            2,
            le,
        )
    }

    /// Decode one entry, returning it together with the unused remainder of
    /// `data`; fail exactly when `data` is too short.
    pub fn unpack<'a>(data: &'a [u8], le: bool) -> (r: Result<(Elf32SymtabEntry, &'a [u8]), DecodeError>)
        ensures
            data@.len() >= Elf32SymtabEntry::SIZE ==> (r matches Ok(p) && p.0
                == Elf32SymtabEntry::spec_unpack(data@, le) && p.1@ == data@.subrange(
                Elf32SymtabEntry::SIZE as int,
                data@.len() as int,
            )),
            data@.len() < Elf32SymtabEntry::SIZE ==> r is Err,
    {
        if data.len() < Elf32SymtabEntry::SIZE {
            return Err(DecodeError::TooShort);
        }
        let name = read_uint(data, 0, 4, le) as u32;
        let value = read_uint(data, 4, 4, le) as u32;
        let size = read_uint(data, 8, 4, le) as u32;
        let info = read_uint(data, 12, 1, le) as u8;
        let other = read_uint(data, 13, 1, le) as u8;
        let shndx = read_uint(data, 14, 2, le) as u16;
        let rest = slice_subrange(data, Elf32SymtabEntry::SIZE, data.len());
        Ok((Elf32SymtabEntry { name, value, size, info, other, shndx }, rest))
    }

    /// Decode one little-endian entry.
    pub fn unpack_le<'a>(data: &'a [u8]) -> (r: Result<(Elf32SymtabEntry, &'a [u8]), DecodeError>)
        ensures
            data@.len() >= Elf32SymtabEntry::SIZE ==> (r matches Ok(p) && p.0
                == Elf32SymtabEntry::spec_unpack(data@, true) && p.1@ == data@.subrange(
                Elf32SymtabEntry::SIZE as int,
                data@.len() as int,
            )),
            data@.len() < Elf32SymtabEntry::SIZE ==> r is Err,
    {
        Elf32SymtabEntry::unpack(data, true)
    }

    /// Decode one big-endian entry.
    pub fn unpack_be<'a>(data: &'a [u8]) -> (r: Result<(Elf32SymtabEntry, &'a [u8]), DecodeError>)
        ensures
            data@.len() >= Elf32SymtabEntry::SIZE ==> (r matches Ok(p) && p.0
                == Elf32SymtabEntry::spec_unpack(data@, false) && p.1@ == data@.subrange(
                Elf32SymtabEntry::SIZE as int,
                data@.len() as int,
            )),
            data@.len() < Elf32SymtabEntry::SIZE ==> r is Err,
    {
        Elf32SymtabEntry::unpack(data, false)
    }

    /// Encode this entry under the chosen byte order.
    pub fn pack(&self, le: bool) -> (r: Vec<u8>)
        ensures
            r@ == Elf32SymtabEntry::spec_pack(*self, le),
    {
        let mut out: Vec<u8> = Vec::new();
        push_uint(&mut out, self.name as u64, 4, le);
        push_uint(&mut out, self.value as u64, 4, le);
        push_uint(&mut out, self.size as u64, 4, le);
        push_uint(&mut out, self.info as u64, 1, le);
        push_uint(&mut out, self.other as u64, 1, le);
        push_uint(&mut out, self.shndx as u64, 2, le);
        proof {
            assert(out@ =~= Elf32SymtabEntry::spec_pack(*self, le));
        }
        out
    }
}

/// Round trip for the 32-bit layout: decoding an encoded entry under the
/// same byte order reproduces every field exactly.
pub proof fn lemma_pack_unpack_32(e: Elf32SymtabEntry, le: bool)
    ensures
        Elf32SymtabEntry::spec_pack(e, le).len() == Elf32SymtabEntry::SIZE,
        Elf32SymtabEntry::spec_unpack(Elf32SymtabEntry::spec_pack(e, le), le) == e,
{
    let s = Elf32SymtabEntry::spec_pack(e, le);
    assert(pow256(1) == 256 && pow256(2) == 0x10000 && pow256(4) == 0x100000000) by {
        reveal_with_fuel(pow256, 5);
    }
    lemma_field_bytes_len(e.name as int, 4, le);
    lemma_field_bytes_len(e.value as int, 4, le);
    lemma_field_bytes_len(e.size as int, 4, le);
    lemma_field_bytes_len(e.info as int, 1, le);
    lemma_field_bytes_len(e.other as int, 1, le);
    lemma_field_bytes_len(e.shndx as int, 2, le);
    assert(s.subrange(0, 4) =~= field_bytes(e.name as int, 4, le));
    assert(s.subrange(4, 8) =~= field_bytes(e.value as int, 4, le));
    assert(s.subrange(8, 12) =~= field_bytes(e.size as int, 4, le));
    assert(s.subrange(12, 13) =~= field_bytes(e.info as int, 1, le));
    assert(s.subrange(13, 14) =~= field_bytes(e.other as int, 1, le));
    assert(s.subrange(14, 16) =~= field_bytes(e.shndx as int, 2, le));
    lemma_field_bytes_value(e.name as int, 4, le);
    lemma_field_bytes_value(e.value as int, 4, le);
    lemma_field_bytes_value(e.size as int, 4, le);
    lemma_field_bytes_value(e.info as int, 1, le);
    lemma_field_bytes_value(e.other as int, 1, le);
    lemma_field_bytes_value(e.shndx as int, 2, le);
}

impl Elf64SymtabEntry {
    pub const SIZE: usize = 24;

    /// The entry held in the first [`Elf64SymtabEntry::SIZE`] bytes of `data`.
    pub open spec fn spec_unpack(data: Seq<u8>, le: bool) -> Elf64SymtabEntry {
        Elf64SymtabEntry {
            name: field_value(data.subrange(0, 4), le) as u32,
            info: field_value(data.subrange(4, 5), le) as u8,
            other: field_value(data.subrange(5, 6), le) as u8,
            shndx: field_value(data.subrange(6, 8), le) as u16,
            value: field_value(data.subrange(8, 16), le) as u64,
            size: field_value(data.subrange(16, 24), le) as u64,
        }
    }

    /// The encoding of `e` under the chosen byte order: each field in
    /// declared order, in its declared width.
    pub open spec fn spec_pack(e: Elf64SymtabEntry, le: bool) -> Seq<u8> {
        field_bytes(e.name as int, 4, le) + field_bytes(e.info as int, 1, le) + field_bytes(
            e.other as int,
            1,
            le,
        ) + field_bytes(e.shndx as int, 2, le) + field_bytes(e.value as int, 8, le) + field_bytes(
            e.size as int,
            8,
            le,
        )
    }

    /// Decode one entry, returning it together with the unused remainder of
    /// `data`; fail exactly when `data` is too short.
    pub fn unpack<'a>(data: &'a [u8], le: bool) -> (r: Result<(Elf64SymtabEntry, &'a [u8]), DecodeError>)
        ensures
            data@.len() >= Elf64SymtabEntry::SIZE ==> (r matches Ok(p) && p.0
                == Elf64SymtabEntry::spec_unpack(data@, le) && p.1@ == data@.subrange(
                Elf64SymtabEntry::SIZE as int,
                data@.len() as int,
            )),
            data@.len() < Elf64SymtabEntry::SIZE ==> r is Err,
    {
        if data.len() < Elf64SymtabEntry::SIZE {
            return Err(DecodeError::TooShort);
        }
        let name = read_uint(data, 0, 4, le) as u32;
        let info = read_uint(data, 4, 1, le) as u8;
        let other = read_uint(data, 5, 1, le) as u8;
        let shndx = read_uint(data, 6, 2, le) as u16;
        let value = read_uint(data, 8, 8, le);
        let size = read_uint(data, 16, 8, le);
        let rest = slice_subrange(data, Elf64SymtabEntry::SIZE, data.len());
        Ok((Elf64SymtabEntry { name, info, other, shndx, value, size }, rest))
    }

    /// Decode one little-endian entry.
    pub fn unpack_le<'a>(data: &'a [u8]) -> (r: Result<(Elf64SymtabEntry, &'a [u8]), DecodeError>)
        ensures
            data@.len() >= Elf64SymtabEntry::SIZE ==> (r matches Ok(p) && p.0
                == Elf64SymtabEntry::spec_unpack(data@, true) && p.1@ == data@.subrange(
                Elf64SymtabEntry::SIZE as int,
                data@.len() as int,
            )),
            data@.len() < Elf64SymtabEntry::SIZE ==> r is Err,
    {
        Elf64SymtabEntry::unpack(data, true)
    }

    /// Decode one big-endian entry.
    pub fn unpack_be<'a>(data: &'a [u8]) -> (r: Result<(Elf64SymtabEntry, &'a [u8]), DecodeError>)
        ensures
            data@.len() >= Elf64SymtabEntry::SIZE ==> (r matches Ok(p) && p.0
                == Elf64SymtabEntry::spec_unpack(data@, false) && p.1@ == data@.subrange(
                Elf64SymtabEntry::SIZE as int,
                data@.len() as int,
            )),
            data@.len() < Elf64SymtabEntry::SIZE ==> r is Err,
    {
        Elf64SymtabEntry::unpack(data, false)
    }

    /// Encode this entry under the chosen byte order.
    pub fn pack(&self, le: bool) -> (r: Vec<u8>)
        ensures
            r@ == Elf64SymtabEntry::spec_pack(*self, le),
    {
        let mut out: Vec<u8> = Vec::new();
        push_uint(&mut out, self.name as u64, 4, le);
        push_uint(&mut out, self.info as u64, 1, le);
        push_uint(&mut out, self.other as u64, 1, le);
        push_uint(&mut out, self.shndx as u64, 2, le);
        push_uint(&mut out, self.value, 8, le);
        push_uint(&mut out, self.size, 8, le);
        proof {
            assert(out@ =~= Elf64SymtabEntry::spec_pack(*self, le));
        }
        out
    }
}

/// Round trip for the 64-bit layout: decoding an encoded entry under the
/// same byte order reproduces every field exactly.
pub proof fn lemma_pack_unpack_64(e: Elf64SymtabEntry, le: bool)
    ensures
        Elf64SymtabEntry::spec_pack(e, le).len() == Elf64SymtabEntry::SIZE,
        Elf64SymtabEntry::spec_unpack(Elf64SymtabEntry::spec_pack(e, le), le) == e,
{
    let s = Elf64SymtabEntry::spec_pack(e, le);
    assert(pow256(1) == 256 && pow256(2) == 0x10000 && pow256(4) == 0x100000000 && pow256(8)
        == 0x10000000000000000) by {
        reveal_with_fuel(pow256, 9);
    }
    lemma_field_bytes_len(e.name as int, 4, le);
    lemma_field_bytes_len(e.info as int, 1, le);
    lemma_field_bytes_len(e.other as int, 1, le);
    lemma_field_bytes_len(e.shndx as int, 2, le);
    lemma_field_bytes_len(e.value as int, 8, le);
    lemma_field_bytes_len(e.size as int, 8, le);
    assert(s.subrange(0, 4) =~= field_bytes(e.name as int, 4, le));
    assert(s.subrange(4, 5) =~= field_bytes(e.info as int, 1, le));
    assert(s.subrange(5, 6) =~= field_bytes(e.other as int, 1, le));
    assert(s.subrange(6, 8) =~= field_bytes(e.shndx as int, 2, le));
    assert(s.subrange(8, 16) =~= field_bytes(e.value as int, 8, le));
    assert(s.subrange(16, 24) =~= field_bytes(e.size as int, 8, le));
    lemma_field_bytes_value(e.name as int, 4, le);
    lemma_field_bytes_value(e.info as int, 1, le);
    lemma_field_bytes_value(e.other as int, 1, le);
    lemma_field_bytes_value(e.shndx as int, 2, le);
    lemma_field_bytes_value(e.value as int, 8, le);
    lemma_field_bytes_value(e.size as int, 8, le);
}

/// Size in bytes of one symbol-table entry under the given class.
pub open spec fn class_size(class: ElfClass) -> int {
    match class {
        ElfClass::Elf32 => 16,
        ElfClass::Elf64 => 24,
    }
}

/// How many whole entries a section's content holds under its declared
/// entry size; bytes left over by a non-exact division are ignored.
pub open spec fn sec_entry_count(sec: ElfSection) -> int
    recommends
        sec.entsize > 0,
{
    sec.content@.len() as int / sec.entsize as int
}

/// The position the section scan stops at, starting from the cursor
/// `(secidx, symidx)`: the first symbol-table section at or after `secidx`
/// that either declares entry size zero (reported, not iterated) or still
/// has an entry left. The entry index resets to zero at every section
/// boundary. Past the last section the scan stops where it is.
pub open spec fn scan(sections: Seq<ElfSection>, secidx: int, symidx: int) -> (int, int)
    decreases sections.len() - secidx,
{
    if secidx >= sections.len() {
        (secidx, symidx)
    } else if sections[secidx].typ == SHT_SYMTAB && (sections[secidx].entsize == 0 || symidx
        < sec_entry_count(sections[secidx])) {
        (secidx, symidx)
    } else {
        scan(sections, secidx + 1, 0)
    }
}

/// What one pull of the iterator does: the produced item (`None` when every
/// section is exhausted) and the cursor left for the next pull.
#[verifier::ext_equal]
pub struct NextOutcome {
    pub result: Option<Result<SymbolModel, ElfParserError>>,
    pub secidx: int,
    pub symidx: int,
}

/// The symbol produced from the entry at the start of `data`, with its name
/// resolved through the linked string table's content and `value`/`size`
/// widened to 64 bits.
pub open spec fn entry_model(class: ElfClass, le: bool, data: Seq<u8>, strtab: Seq<u8>) -> SymbolModel {
    match class {
        ElfClass::Elf32 => {
            let e = Elf32SymtabEntry::spec_unpack(data, le);
            SymbolModel {
                name: str_from_offset(strtab, e.name as int),
                value: e.value as u64,
                size: e.size as u64,
                info: e.info,
                other: e.other,
                shndx: e.shndx,
            }
        },
        ElfClass::Elf64 => {
            let e = Elf64SymtabEntry::spec_unpack(data, le);
            SymbolModel {
                name: str_from_offset(strtab, e.name as int),
                value: e.value,
                size: e.size,
                info: e.info,
                other: e.other,
                shndx: e.shndx,
            }
        },
    }
}

/// One pull of the iterator, in full: scan for the next entry, then report
/// in this order a zero entry size (cursor unchanged), a truncated entry, a
/// link outside the section list, a link to a non-string-table section, or
/// the decoded symbol (cursor advanced past the entry).
pub open spec fn spec_next(
    sections: Seq<ElfSection>,
    class: ElfClass,
    le: bool,
    secidx: int,
    symidx: int,
) -> NextOutcome {
    let (j, i) = scan(sections, secidx, symidx);
    if j >= sections.len() {
        NextOutcome { result: None, secidx: j, symidx: i }
    } else {
        let sec = sections[j];
        if sec.entsize == 0 {
            NextOutcome {
                result: Some(Err(ElfParserError::InvalidEntrySize)),
                secidx: secidx,
                symidx: symidx,
            }
        } else {
            let data = sec.content@.subrange(sec.entsize as int * i, sec.content@.len() as int);
            if data.len() < class_size(class) {
                NextOutcome { result: Some(Err(ElfParserError::MalformedEntry)), secidx: j, symidx: i }
            } else if sec.link >= sections.len() {
                NextOutcome { result: Some(Err(ElfParserError::InvalidLinkIndex)), secidx: j, symidx: i }
            } else if sections[sec.link as int].typ != SHT_STRTAB {
                NextOutcome {
                    result: Some(Err(ElfParserError::LinkNotStringTable)),
                    secidx: j,
                    symidx: i,
                }
            } else {
                NextOutcome {
                    result: Some(
                        Ok(entry_model(class, le, data, sections[sec.link as int].content@)),
                    ),
                    secidx: j,
                    symidx: i + 1,
                }
            }
        }
    }
}

/// A lazy walk over every symbol-table entry of a section list. The cursor
/// only moves forward; a fresh walk needs a fresh iterator.
pub struct SymtabIterator<'a> {
    class: ElfClass,
    le: bool,
    sections: &'a Vec<ElfSection<'a>>,
    curr_secidx: usize,
    curr_symidx: usize,
}

impl<'a> SymtabIterator<'a> {
    /// The section list this iterator walks.
    pub closed spec fn spec_sections(self) -> Seq<ElfSection<'a>> {
        self.sections@
    }

    /// The active class.
    pub closed spec fn spec_class(self) -> ElfClass {
        self.class
    }

    /// Whether multi-byte fields are decoded little-endian.
    pub closed spec fn spec_le(self) -> bool {
        self.le
    }

    /// The section index of the cursor.
    pub closed spec fn spec_secidx(self) -> int {
        self.curr_secidx as int
    }

    /// The entry index of the cursor, within the section it points into.
    pub closed spec fn spec_symidx(self) -> int {
        self.curr_symidx as int
    }

    /// A fresh iterator over `sections`, with the cursor at the first entry
    /// of the first section.
    pub fn new(class: ElfClass, endian: ElfEndian, sections: &'a Vec<ElfSection<'a>>) -> (r: Self)
        ensures
            r.spec_sections() == sections@,
            r.spec_class() == class,
            r.spec_le() == (endian == ElfEndian::ElfLE),
            r.spec_secidx() == 0,
            r.spec_symidx() == 0,
    {
        Self { class, le: endian == ElfEndian::ElfLE, sections, curr_secidx: 0, curr_symidx: 0 }
    }

    /// Produce the next symbol or error, exactly as [`spec_next`] says, and
    /// leave the cursor where it says. `None` means no symbol-table entry is
    /// left in any section; an error reports this pull alone, and pulling
    /// again is allowed. A failed pull leaves the cursor on the failing
    /// entry (for a zero entry size, exactly where it was), so pulling again
    /// reports the same finding again; only a yielded symbol advances it.
    pub fn next(&mut self) -> (r: Option<Result<Symbol<'a>, ElfParserError>>)
        ensures
            final(self).spec_sections() == old(self).spec_sections(),
            final(self).spec_class() == old(self).spec_class(),
            final(self).spec_le() == old(self).spec_le(),
            ({
                let o = spec_next(
                    old(self).spec_sections(),
                    old(self).spec_class(),
                    old(self).spec_le(),
                    old(self).spec_secidx(),
                    old(self).spec_symidx(),
                );
                &&& final(self).spec_secidx() == o.secidx
                &&& final(self).spec_symidx() == o.symidx
                &&& match r {
                    None => o.result is None,
                    Some(Ok(sym)) => o.result == Some(
                        Ok::<SymbolModel, ElfParserError>(sym@),
                    ),
                    Some(Err(e)) => o.result == Some(Err::<SymbolModel, ElfParserError>(e)),
                }
            }),
    {
        let ghost osecs = self.sections@;
        let ghost osec0 = self.curr_secidx as int;
        let ghost osym0 = self.curr_symidx as int;
        let sections = self.sections;
        let mut secidx = self.curr_secidx;
        let mut symidx = self.curr_symidx;
        let seccnt = sections.len();

        let mut zero_entsize = false;

        loop
            invariant_except_break
                !zero_entsize,
            invariant
                osecs == sections@,
                seccnt == osecs.len(),
                scan(osecs, osec0, osym0) == scan(osecs, secidx as int, symidx as int),
            ensures
                scan(osecs, osec0, osym0) == (secidx as int, symidx as int),
                zero_entsize ==> secidx < seccnt && osecs[secidx as int].typ == SHT_SYMTAB
                    && osecs[secidx as int].entsize == 0,
                !zero_entsize && secidx < seccnt ==> {
                    &&& osecs[secidx as int].typ == SHT_SYMTAB
                    &&& osecs[secidx as int].entsize != 0
                    &&& (symidx as int) < sec_entry_count(osecs[secidx as int])
                },
            decreases seccnt - secidx,
        {
            if secidx >= seccnt {
                break ;
            }
            let sec = &sections[secidx];
            if sec.typ == SHT_SYMTAB {
                if sec.entsize == 0 {
                    zero_entsize = true;
                    break ;
                }
                let cnt = sec.content.len() as u64 / sec.entsize;
                if (symidx as u64) < cnt {
                    break ;
                }
            }
            secidx = secidx + 1;
            symidx = 0;
        }

        if zero_entsize {
            return Some(Err(ElfParserError::InvalidEntrySize));
        }

        self.curr_secidx = secidx;
        self.curr_symidx = symidx;

        if secidx >= seccnt {
            return None;
        }

        let sec = &sections[secidx];
        let entsize = sec.entsize;
        let clen = sec.content.len();
        proof {
            let e = entsize as int;
            let l = clen as int;
            let i = symidx as int;
            assert(i + 1 <= l / e);
            assert(e * (i + 1) <= e * (l / e)) by (nonlinear_arith)
                requires
                    e > 0,
                    i + 1 <= l / e,
            ;
            vstd::arithmetic::div_mod::lemma_fundamental_div_mod(l, e);
            assert(e * (l / e) <= l) by (nonlinear_arith)
                requires
                    e > 0,
                    l >= 0,
            ;
            assert(e * (i + 1) == e * i + e) by (nonlinear_arith);
            assert(e * i + e <= l);
        }
        let off64: u64 = entsize * (symidx as u64);
        let off: usize = off64 as usize;
        let data = slice_subrange(sec.content, off, clen);

        let (nameoff, value, size, info, other, shndx) = match self.class {
            ElfClass::Elf32 => match Elf32SymtabEntry::unpack(data, self.le) {
                Ok((ent, _)) => (
                    ent.name as usize,
                    ent.value as u64,
                    ent.size as u64,
                    ent.info,
                    ent.other,
                    ent.shndx,
                ),
                Err(_) => {
                    return Some(Err(ElfParserError::MalformedEntry));
                },
            },
            ElfClass::Elf64 => match Elf64SymtabEntry::unpack(data, self.le) {
                Ok((ent, _)) => (
                    ent.name as usize,
                    ent.value,
                    ent.size,
                    ent.info,
                    ent.other,
                    ent.shndx,
                ),
                Err(_) => {
                    return Some(Err(ElfParserError::MalformedEntry));
                },
            },
        };

        if sec.link as usize >= seccnt {
            return Some(Err(ElfParserError::InvalidLinkIndex));
        }

        let strtab_sec = &sections[sec.link as usize];
        if strtab_sec.typ != SHT_STRTAB {
            return Some(Err(ElfParserError::LinkNotStringTable));
        }

        let name = read_str_from_offset(strtab_sec.content, nameoff);

        self.curr_symidx = symidx + 1;

        Some(Ok(Symbol { name, value, size, info, other, shndx }))
    }
}

/// Every symbol-table section of the list is well formed for the given
/// class: its entry size is at least the class's record size, and its link
/// names an existing string-table section.
pub open spec fn wf_symtab_sections(sections: Seq<ElfSection>, class: ElfClass) -> bool {
    forall|k: int|
        0 <= k < sections.len() && (#[trigger] sections[k]).typ == SHT_SYMTAB ==> {
            &&& sections[k].entsize >= class_size(class)
            &&& sections[k].link < sections.len()
            &&& sections[sections[k].link as int].typ == SHT_STRTAB
        }
}

/// How many whole symbol-table entries stand at or after the cursor
/// `(secidx, symidx)`: what is left of the current section, plus every
/// entry of every later symbol-table section.
pub open spec fn entries_after(sections: Seq<ElfSection>, secidx: int, symidx: int) -> int
    decreases sections.len() - secidx,
{
    if secidx < 0 || secidx >= sections.len() {
        0
    } else {
        let here = if sections[secidx].typ == SHT_SYMTAB && sections[secidx].entsize > 0 && symidx
            <= sec_entry_count(sections[secidx]) {
            sec_entry_count(sections[secidx]) - symidx
        } else {
            0
        };
        here + entries_after(sections, secidx + 1, 0)
    }
}

proof fn lemma_entry_fits(sec: ElfSection, i: int)
    requires
        sec.entsize > 0,
        0 <= i < sec_entry_count(sec),
    ensures
        0 <= sec.entsize as int * i,
        sec.entsize as int * i + sec.entsize as int <= sec.content@.len(),
{
    let e = sec.entsize as int;
    let l = sec.content@.len() as int;
    assert(e * (i + 1) <= e * (l / e)) by (nonlinear_arith)
        requires
            e > 0,
            i + 1 <= l / e,
    ;
    vstd::arithmetic::div_mod::lemma_fundamental_div_mod(l, e);
    assert(e * (l / e) <= l) by (nonlinear_arith)
        requires
            e > 0,
            l >= 0,
    ;
    assert(e * (i + 1) == e * i + e) by (nonlinear_arith);
    assert(e * i >= 0) by (nonlinear_arith)
        requires
            e > 0,
            i >= 0,
    ;
}

/// Where the scan stops: no earlier than the cursor, with the entry index
/// kept in place only when the cursor's own section is the stop, and — for
/// a stop inside the list — on a symbol-table section that triggers either
/// the zero-entry-size report or an entry decode.
pub proof fn lemma_scan_stop(sections: Seq<ElfSection>, secidx: int, symidx: int)
    requires
        0 <= secidx,
        0 <= symidx,
    ensures
        ({
            let (j, i) = scan(sections, secidx, symidx);
            &&& secidx <= j
            &&& 0 <= i
            &&& (j == secidx ==> i == symidx)
            &&& (j > secidx ==> i == 0)
            &&& (j < sections.len() ==> sections[j].typ == SHT_SYMTAB && (sections[j].entsize == 0
                || i < sec_entry_count(sections[j])))
        }),
    decreases sections.len() - secidx,
{
    if secidx >= sections.len() {
    } else {
        let sec = sections[secidx];
        if !(sec.typ == SHT_SYMTAB && (sec.entsize == 0 || symidx < sec_entry_count(sec))) {
            lemma_scan_stop(sections, secidx + 1, 0);
        }
    }
}

proof fn lemma_entries_after_nonneg(sections: Seq<ElfSection>, secidx: int, symidx: int)
    requires
        0 <= symidx,
    ensures
        entries_after(sections, secidx, symidx) >= 0,
    decreases sections.len() - secidx,
{
    if 0 <= secidx && secidx < sections.len() {
        lemma_entries_after_nonneg(sections, secidx + 1, 0);
    }
}

/// Pulled under well-formed symbol tables, the walk is exhaustive and in
/// order: while whole entries remain at or after the cursor, the pull
/// yields the entry at the scan position — the next one in list order,
/// non-symbol-table sections skipped, the entry index resetting to zero at
/// every section boundary — decoded field by field from its raw bytes with
/// its name resolved through the linked string table, and one fewer entry
/// remains afterwards. A section whose byte count is an exact multiple of
/// its entry size thus contributes exactly that quotient of symbols, in
/// increasing entry order. With no entry remaining the pull yields `None`,
/// and only then.
pub proof fn lemma_next_in_order(
    sections: Seq<ElfSection>,
    class: ElfClass,
    le: bool,
    secidx: int,
    symidx: int,
)
    requires
        wf_symtab_sections(sections, class),
        0 <= secidx,
        0 <= symidx,
    ensures
        ({
            let o = spec_next(sections, class, le, secidx, symidx);
            let (j, i) = scan(sections, secidx, symidx);
            let remaining = entries_after(sections, secidx, symidx);
            &&& (remaining == 0 <==> o.result is None)
            &&& (remaining > 0 ==> {
                &&& secidx <= j < sections.len()
                &&& (j == secidx ==> i == symidx)
                &&& (j > secidx ==> i == 0)
                &&& sections[j].typ == SHT_SYMTAB
                &&& 0 <= i < sec_entry_count(sections[j])
                &&& o.result == Some(
                    Ok::<SymbolModel, ElfParserError>(
                        entry_model(
                            class,
                            le,
                            sections[j].content@.subrange(
                                sections[j].entsize as int * i,
                                sections[j].content@.len() as int,
                            ),
                            sections[sections[j].link as int].content@,
                        ),
                    ),
                )
                &&& o.secidx == j && o.symidx == i + 1
                &&& entries_after(sections, o.secidx, o.symidx) == remaining - 1
            })
        }),
    decreases sections.len() - secidx,
{
    if secidx >= sections.len() {
    } else {
        let sec = sections[secidx];
        let stop = sec.typ == SHT_SYMTAB && (sec.entsize == 0 || symidx < sec_entry_count(sec));
        if stop {
            assert(sec.entsize >= class_size(class));
            assert(symidx < sec_entry_count(sec));
            lemma_entry_fits(sec, symidx);
            lemma_entries_after_nonneg(sections, secidx + 1, 0);
            let cnt = sec_entry_count(sec);
            assert(entries_after(sections, secidx, symidx) == cnt - symidx + entries_after(
                sections,
                secidx + 1,
                0,
            ));
            assert(entries_after(sections, secidx, symidx + 1) == cnt - (symidx + 1)
                + entries_after(sections, secidx + 1, 0));
        } else {
            lemma_next_in_order(sections, class, le, secidx + 1, 0);
            lemma_scan_stop(sections, secidx + 1, 0);
            assert(scan(sections, secidx, symidx) == scan(sections, secidx + 1, 0));
            assert(entries_after(sections, secidx, symidx) == entries_after(
                sections,
                secidx + 1,
                0,
            ));
            let o1 = spec_next(sections, class, le, secidx, symidx);
            let o2 = spec_next(sections, class, le, secidx + 1, 0);
            let (j, i) = scan(sections, secidx + 1, 0);
            if j < sections.len() {
                assert(sections[j].typ == SHT_SYMTAB);
                assert(sections[j].entsize >= class_size(class));
                assert(sections[j].entsize != 0);
            }
            assert(o1 =~= o2);
        }
    }
}

/// A symbol-table section that declares entry size zero is reported as
/// `InvalidEntrySize` by the very pull whose scan reaches it, before any
/// entry bytes are read or counted, and the cursor stays where it was:
/// pulling again reports it again.
pub proof fn lemma_zero_entry_size_reported(
    sections: Seq<ElfSection>,
    class: ElfClass,
    le: bool,
    secidx: int,
    symidx: int,
)
    requires
        ({
            let (j, i) = scan(sections, secidx, symidx);
            j < sections.len() && sections[j].entsize == 0
        }),
    ensures
        spec_next(sections, class, le, secidx, symidx) == (NextOutcome {
            result: Some(Err(ElfParserError::InvalidEntrySize)),
            secidx: secidx,
            symidx: symidx,
        }),
{
    assert(spec_next(sections, class, le, secidx, symidx) =~= NextOutcome {
        result: Some(Err(ElfParserError::InvalidEntrySize)),
        secidx: secidx,
        symidx: symidx,
    });
}

/// An entry whose byte range falls short of the active class's record size
/// is reported as `MalformedEntry`: no record is ever decoded from short
/// bytes, and the link fields are not even consulted.
pub proof fn lemma_short_entry_reported(
    sections: Seq<ElfSection>,
    class: ElfClass,
    le: bool,
    secidx: int,
    symidx: int,
)
    requires
        0 <= secidx,
        0 <= symidx,
        ({
            let (j, i) = scan(sections, secidx, symidx);
            &&& j < sections.len()
            &&& sections[j].entsize > 0
            &&& sections[j].content@.len() - sections[j].entsize as int * i < class_size(class)
        }),
    ensures
        ({
            let (j, i) = scan(sections, secidx, symidx);
            spec_next(sections, class, le, secidx, symidx) == (NextOutcome {
                result: Some(Err(ElfParserError::MalformedEntry)),
                secidx: j,
                symidx: i,
            })
        }),
{
    lemma_scan_stop(sections, secidx, symidx);
    let (j, i) = scan(sections, secidx, symidx);
    lemma_entry_fits(sections[j], i);
    assert(spec_next(sections, class, le, secidx, symidx) =~= NextOutcome {
        result: Some(Err(ElfParserError::MalformedEntry)),
        secidx: j,
        symidx: i,
    });
}

/// After a successful decode — and only then — the entry's section links
/// are checked, in this order: a link past the end of the section list is
/// reported as `InvalidLinkIndex`; a link to a section that is not a string
/// table as `LinkNotStringTable`. A failed pull leaves the cursor on the
/// failing entry.
pub proof fn lemma_bad_link_reported(
    sections: Seq<ElfSection>,
    class: ElfClass,
    le: bool,
    secidx: int,
    symidx: int,
)
    requires
        0 <= secidx,
        0 <= symidx,
        ({
            let (j, i) = scan(sections, secidx, symidx);
            &&& j < sections.len()
            &&& sections[j].entsize > 0
            &&& sections[j].content@.len() - sections[j].entsize as int * i >= class_size(class)
        }),
    ensures
        ({
            let (j, i) = scan(sections, secidx, symidx);
            &&& sections[j].link >= sections.len() ==> spec_next(sections, class, le, secidx, symidx)
                == (NextOutcome {
                    result: Some(Err(ElfParserError::InvalidLinkIndex)),
                    secidx: j,
                    symidx: i,
                })
            &&& sections[j].link < sections.len() && sections[sections[j].link as int].typ
                != SHT_STRTAB ==> spec_next(sections, class, le, secidx, symidx) == (NextOutcome {
                result: Some(Err(ElfParserError::LinkNotStringTable)),
                secidx: j,
                symidx: i,
            })
        }),
{
    lemma_scan_stop(sections, secidx, symidx);
    let (j, i) = scan(sections, secidx, symidx);
    lemma_entry_fits(sections[j], i);
    let o = spec_next(sections, class, le, secidx, symidx);
    if sections[j].link >= sections.len() {
        assert(o =~= NextOutcome {
            result: Some(Err(ElfParserError::InvalidLinkIndex)),
            secidx: j,
            symidx: i,
        });
    } else if sections[sections[j].link as int].typ != SHT_STRTAB {
        assert(o =~= NextOutcome {
            result: Some(Err(ElfParserError::LinkNotStringTable)),
            secidx: j,
            symidx: i,
        });
    }
}

} // verus!
