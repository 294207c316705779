use vstd::prelude::*;

verus! {

/// One section of an ELF object, as handed over by the section-header
/// enumeration that runs before symbol-table parsing. All fields are read
/// only here; `content` borrows the raw section bytes for the whole parsing
/// session. `entsize` comes straight from the file and is never trusted:
/// it may be zero or smaller than a real record.
#[derive(Clone, Copy, Debug)]
pub struct ElfSection<'a> {
    pub name: &'a str,
    pub typ: u32,
    pub flags: u64,
    pub addr: u64,
    pub link: u32,
    pub info: u32,
    pub addralign: u64,
    pub entsize: u64,
    pub content: &'a [u8],
}

} // verus!
