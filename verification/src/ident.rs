use vstd::prelude::*;

verus! {

/// Address width of an ELF object; selects which symbol-entry layout and
/// field widths apply. Fixed for a whole parsing session.
#[derive(Clone, Copy, PartialEq, Eq, Structural, Debug)]
pub enum ElfClass {
    Elf32,
    Elf64,
}

/// Byte order used to decode every multi-byte field of an ELF object.
/// Fixed for a whole parsing session.
#[derive(Clone, Copy, PartialEq, Eq, Structural, Debug)]
pub enum ElfEndian {
    ElfLE,
    ElfBE,
}

} // verus!
