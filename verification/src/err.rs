use vstd::prelude::*;

verus! {

/// Every way a malformed symbol table is reported. Each failure is returned
/// as a value; nothing in this crate panics on malformed input.
#[derive(Clone, Copy, PartialEq, Eq, Structural, Debug)]
pub enum ElfParserError {
    /// A symbol-table section declares an entry size of zero, which would
    /// leave its entry count undefined.
    InvalidEntrySize,
    /// The byte range for the current entry is shorter than the record size
    /// of the active class (truncated or corrupt file).
    MalformedEntry,
    /// A symbol-table section's link does not index an existing section.
    InvalidLinkIndex,
    /// A symbol-table section's link points at a section that is not a
    /// string table.
    LinkNotStringTable,
}

impl ElfParserError {
    /// The descriptive message carried by this error kind.
    pub open spec fn spec_message(self) -> Seq<char> {
        match self {
            ElfParserError::InvalidEntrySize => "symbol-table section entry size is 0"@,
            ElfParserError::MalformedEntry => "failed to decode symbol-table entry"@,
            ElfParserError::InvalidLinkIndex => "symbol table links to an invalid section index"@,
            ElfParserError::LinkNotStringTable => "symbol table links to a section that is not a string table"@,
        }
    }

    /// A short description of the failure, for reporting to callers.
    pub fn message(&self) -> (r: &'static str)
        ensures
            r@ == self.spec_message(),
    {
        match self {
            ElfParserError::InvalidEntrySize => "symbol-table section entry size is 0",
            ElfParserError::MalformedEntry => "failed to decode symbol-table entry",
            ElfParserError::InvalidLinkIndex => "symbol table links to an invalid section index",
            ElfParserError::LinkNotStringTable => "symbol table links to a section that is not a string table",
        }
    }
}

} // verus!
