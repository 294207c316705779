//! Reader for ELF symbol tables, built on a verified fixed-layout record
//! decoder, together with a nearest-symbol lookup over an externally
//! supplied address table.

pub mod err;
pub mod ident;
pub mod kallsyms;
pub mod section;
pub mod string_table;
pub mod symbol;
pub mod symtab;
pub mod unpack;
