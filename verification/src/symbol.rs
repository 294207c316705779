use vstd::prelude::*;

verus! {

/// One resolved symbol. `value` and `size` are widened to 64 bits whatever
/// the ELF class, so callers see a uniform representation. `name` borrows
/// from the linked string-table section's content and lives no longer than
/// the section list the iterator was built over.
#[derive(Clone, Copy, PartialEq, Eq, Debug)]
pub struct Symbol<'a> {
    pub name: &'a str,
    pub value: u64,
    pub size: u64,
    pub info: u8,
    pub other: u8,
    pub shndx: u16,
}

/// The mathematical content of a [`Symbol`]: the same fields with the name
/// as its character sequence. Contracts speak of this form.
#[verifier::ext_equal]
pub struct SymbolModel {
    pub name: Seq<char>,
    pub value: u64,
    pub size: u64,
    pub info: u8,
    pub other: u8,
    pub shndx: u16,
}

impl<'a> View for Symbol<'a> {
    type V = SymbolModel;

    open spec fn view(&self) -> SymbolModel {
        SymbolModel {
            name: self.name@,
            value: self.value,
            size: self.size,
            info: self.info,
            other: self.other,
            shndx: self.shndx,
        }
    }
}

} // verus!
