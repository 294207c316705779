use elf_symtab::err::ElfParserError;
use elf_symtab::ident::{ElfClass, ElfEndian};
use elf_symtab::section::ElfSection;
use elf_symtab::symbol::Symbol;
use elf_symtab::symtab::{Elf32SymtabEntry, SymtabIterator, SHT_STRTAB, SHT_SYMTAB};

const ENTRY_32BE: [u8; 16] = [
    0, 0, 0, 1, // name
    0x11, 0x22, 0x33, 0x44, // value
    0, 0, 0, 0, // size
    0, // info
    0, // other
    0, 0, // shndx
];

fn symtab_pair(entsize: u64, link: u32, strtab_typ: u32) -> Vec<ElfSection<'static>> {
    vec![
        ElfSection {
            name: "",
            typ: SHT_SYMTAB,
            flags: 0,
            addr: 0,
            link,
            info: 0,
            addralign: 0,
            entsize,
            content: &ENTRY_32BE,
        },
        ElfSection {
            name: "",
            typ: strtab_typ,
            flags: 0,
            addr: 0,
            link: 0,
            info: 0,
            addralign: 0,
            entsize: 0,
            content: &[0, b't', b'e', b's', b't', 0],
        },
    ]
}

#[test]
fn one_entry_32be_resolves() {
    let sections = symtab_pair(Elf32SymtabEntry::SIZE as u64, 1, SHT_STRTAB);
    let mut iter = SymtabIterator::new(ElfClass::Elf32, ElfEndian::ElfBE, &sections);
    assert_eq!(
        iter.next().unwrap().unwrap(),
        Symbol { name: "test", value: 0x11223344u64, size: 0, info: 0, other: 0, shndx: 0 }
    );
    assert!(iter.next().is_none());
}

#[test]
fn entry_size_zero_reports_invalid_entry_size() {
    let sections = symtab_pair(0, 1, SHT_STRTAB);
    let mut iter = SymtabIterator::new(ElfClass::Elf32, ElfEndian::ElfBE, &sections);
    assert_eq!(iter.next().unwrap(), Err(ElfParserError::InvalidEntrySize));
}

#[test]
fn entry_size_zero_reported_again_on_next_pull() {
    let sections = symtab_pair(0, 1, SHT_STRTAB);
    let mut iter = SymtabIterator::new(ElfClass::Elf32, ElfEndian::ElfBE, &sections);
    assert_eq!(iter.next().unwrap(), Err(ElfParserError::InvalidEntrySize));
    assert_eq!(iter.next().unwrap(), Err(ElfParserError::InvalidEntrySize));
}

#[test]
fn entry_size_one_short_reports_malformed_entry() {
    // One claimed entry of 15 bytes: the 32-bit layout needs 16.
    let sections = vec![
        ElfSection {
            name: "",
            typ: SHT_SYMTAB,
            flags: 0,
            addr: 0,
            link: 1,
            info: 0,
            addralign: 0,
            entsize: Elf32SymtabEntry::SIZE as u64 - 1,
            content: &ENTRY_32BE[..15],
        },
        ElfSection {
            name: "",
            typ: SHT_STRTAB,
            flags: 0,
            addr: 0,
            link: 0,
            info: 0,
            addralign: 0,
            entsize: 0,
            content: &[0, b't', b'e', b's', b't', 0],
        },
    ];
    let mut iter = SymtabIterator::new(ElfClass::Elf32, ElfEndian::ElfBE, &sections);
    assert_eq!(iter.next().unwrap(), Err(ElfParserError::MalformedEntry));
}

#[test]
fn link_past_end_reports_invalid_link_index() {
    let sections = symtab_pair(Elf32SymtabEntry::SIZE as u64, 2, SHT_STRTAB);
    let mut iter = SymtabIterator::new(ElfClass::Elf32, ElfEndian::ElfBE, &sections);
    assert_eq!(iter.next().unwrap(), Err(ElfParserError::InvalidLinkIndex));
}

#[test]
fn link_to_symtab_reports_link_not_string_table() {
    let sections = symtab_pair(Elf32SymtabEntry::SIZE as u64, 1, SHT_SYMTAB);
    let mut iter = SymtabIterator::new(ElfClass::Elf32, ElfEndian::ElfBE, &sections);
    assert_eq!(iter.next().unwrap(), Err(ElfParserError::LinkNotStringTable));
}

#[test]
fn exact_multiple_yields_every_entry_in_order() {
    // Two little-endian 32-bit entries back to back: exactly two symbols, in
    // entry order, decoded field by field.
    let content: [u8; 32] = [
        1, 0, 0, 0, // name -> "test"
        0x44, 0x33, 0x22, 0x11, // value
        2, 0, 0, 0, // size
        7, // info
        1, // other
        5, 0, // shndx
        0, 0, 0, 0, // name -> ""
        0x78, 0x56, 0x34, 0x12, // value
        0, 0, 0, 0, // size
        0, // info
        0, // other
        0, 0, // shndx
    ];
    let sections = vec![
        ElfSection {
            name: "",
            typ: SHT_SYMTAB,
            flags: 0,
            addr: 0,
            link: 1,
            info: 0,
            addralign: 0,
            entsize: 16,
            content: &content,
        },
        ElfSection {
            name: "",
            typ: SHT_STRTAB,
            flags: 0,
            addr: 0,
            link: 0,
            info: 0,
            addralign: 0,
            entsize: 0,
            content: &[0, b't', b'e', b's', b't', 0],
        },
    ];
    let mut iter = SymtabIterator::new(ElfClass::Elf32, ElfEndian::ElfLE, &sections);
    assert_eq!(
        iter.next().unwrap().unwrap(),
        Symbol { name: "test", value: 0x11223344, size: 2, info: 7, other: 1, shndx: 5 }
    );
    assert_eq!(
        iter.next().unwrap().unwrap(),
        Symbol { name: "", value: 0x12345678, size: 0, info: 0, other: 0, shndx: 0 }
    );
    assert!(iter.next().is_none());
}

#[test]
fn leftover_bytes_are_ignored() {
    // 20 bytes at entry size 16: one whole entry, four ignored bytes.
    let content: [u8; 20] = [
        0, 0, 0, 1, 0x11, 0x22, 0x33, 0x44, 0, 0, 0, 0, 0, 0, 0, 0, // entry
        9, 9, 9, 9, // leftovers
    ];
    let sections = vec![
        ElfSection {
            name: "",
            typ: SHT_SYMTAB,
            flags: 0,
            addr: 0,
            link: 1,
            info: 0,
            addralign: 0,
            entsize: 16,
            content: &content,
        },
        ElfSection {
            name: "",
            typ: SHT_STRTAB,
            flags: 0,
            addr: 0,
            link: 0,
            info: 0,
            addralign: 0,
            entsize: 0,
            content: &[0, b't', b'e', b's', b't', 0],
        },
    ];
    let mut iter = SymtabIterator::new(ElfClass::Elf32, ElfEndian::ElfBE, &sections);
    assert!(iter.next().unwrap().is_ok());
    assert!(iter.next().is_none());
}

#[test]
fn multiple_symtab_sections_visited_in_list_order() {
    // A symbol table, a skipped non-symtab section, then a second symbol
    // table: both are walked, in list order, the entry index starting over
    // in the second.
    let first: [u8; 16] = [
        0, 0, 0, 1, 0x11, 0x22, 0x33, 0x44, 0, 0, 0, 0, 0, 0, 0, 0,
    ];
    let second: [u8; 16] = [
        0, 0, 0, 3, 0x55, 0x66, 0x77, 0x88, 0, 0, 0, 0, 0, 0, 0, 0,
    ];
    let sections = vec![
        ElfSection {
            name: "",
            typ: SHT_SYMTAB,
            flags: 0,
            addr: 0,
            link: 3,
            info: 0,
            addralign: 0,
            entsize: 16,
            content: &first,
        },
        ElfSection {
            name: "",
            typ: 1, // neither symbol table nor string table: skipped
            flags: 0,
            addr: 0,
            link: 0,
            info: 0,
            addralign: 0,
            entsize: 0,
            content: &[1, 2, 3],
        },
        ElfSection {
            name: "",
            typ: SHT_SYMTAB,
            flags: 0,
            addr: 0,
            link: 3,
            info: 0,
            addralign: 0,
            entsize: 16,
            content: &second,
        },
        ElfSection {
            name: "",
            typ: SHT_STRTAB,
            flags: 0,
            addr: 0,
            link: 0,
            info: 0,
            addralign: 0,
            entsize: 0,
            content: &[0, b'a', 0, b'b', 0],
        },
    ];
    let mut iter = SymtabIterator::new(ElfClass::Elf32, ElfEndian::ElfBE, &sections);
    assert_eq!(
        iter.next().unwrap().unwrap(),
        Symbol { name: "a", value: 0x11223344, size: 0, info: 0, other: 0, shndx: 0 }
    );
    assert_eq!(
        iter.next().unwrap().unwrap(),
        Symbol { name: "b", value: 0x55667788, size: 0, info: 0, other: 0, shndx: 0 }
    );
    assert!(iter.next().is_none());
}

#[test]
fn empty_section_list_yields_nothing() {
    let sections: Vec<ElfSection> = Vec::new();
    let mut iter = SymtabIterator::new(ElfClass::Elf64, ElfEndian::ElfLE, &sections);
    assert!(iter.next().is_none());
    assert!(iter.next().is_none());
}
