use elf_symtab::symtab::{Elf32SymtabEntry, Elf64SymtabEntry};
use elf_symtab::unpack::{DecodeError, Foo};

#[test]
fn foo_size() {
    assert_eq!(Foo::SIZE, 7);
}

#[test]
fn foo_le() {
    let data: Vec<u8> = (0..10).collect();
    assert_eq!(
        Foo::unpack_le(&data),
        Ok((Foo { foo: 0x00, bar: 0x0201, baz: 0x06050403 }, &[7u8, 8u8, 9u8] as &[u8]))
    );
}

#[test]
fn test_be() {
    let data: Vec<u8> = (0..10).collect();
    assert_eq!(
        Foo::unpack_be(&data),
        Ok((Foo { foo: 0x00, bar: 0x0102, baz: 0x03040506 }, &[7u8, 8u8, 9u8] as &[u8]))
    );
}

#[test]
fn foo_too_short_fails() {
    let data: Vec<u8> = (0..6).collect();
    assert_eq!(Foo::unpack_le(&data), Err(DecodeError::TooShort));
    assert_eq!(Foo::unpack_be(&data), Err(DecodeError::TooShort));
}

#[test]
fn entry_sizes() {
    assert_eq!(Elf32SymtabEntry::SIZE, 16);
    assert_eq!(Elf64SymtabEntry::SIZE, 24);
}

#[test]
fn elf32_known_bytes_be() {
    let data: [u8; 16] = [
        0, 0, 0, 1, // name
        0x11, 0x22, 0x33, 0x44, // value
        0, 0, 0, 5, // size
        7, // info
        2, // other
        0, 3, // shndx
    ];
    let (e, rest) = Elf32SymtabEntry::unpack_be(&data).unwrap();
    assert_eq!(
        e,
        Elf32SymtabEntry { name: 1, value: 0x11223344, size: 5, info: 7, other: 2, shndx: 3 }
    );
    assert!(rest.is_empty());
}

#[test]
fn elf64_known_bytes_le() {
    let data: [u8; 24] = [
        1, 0, 0, 0, // name
        9, // info
        8, // other
        7, 0, // shndx
        0xff, 0xee, 0xdd, 0xcc, 0xbb, 0xaa, 0x99, 0x88, // value
        2, 0, 0, 0, 0, 0, 0, 0, // size
    ];
    let (e, rest) = Elf64SymtabEntry::unpack_le(&data).unwrap();
    assert_eq!(
        e,
        Elf64SymtabEntry {
            name: 1,
            info: 9,
            other: 8,
            shndx: 7,
            value: 0x8899aabb_ccddeeff,
            size: 2,
        }
    );
    assert!(rest.is_empty());
}

#[test]
fn roundtrip_elf32_both_orders() {
    let e = Elf32SymtabEntry {
        name: 0xdeadbeef,
        value: 0x01020304,
        size: 0xfffffffe,
        info: 0x12,
        other: 0xef,
        shndx: 0xa55a,
    };
    for le in [true, false] {
        let bytes = e.pack(le);
        assert_eq!(bytes.len(), Elf32SymtabEntry::SIZE);
        let (back, rest) = Elf32SymtabEntry::unpack(&bytes, le).unwrap();
        assert_eq!(back, e);
        assert!(rest.is_empty());
    }
}

#[test]
fn roundtrip_elf64_both_orders() {
    let e = Elf64SymtabEntry {
        name: 0xcafef00d,
        info: 0x7f,
        other: 0x80,
        shndx: 0x0102,
        value: 0x1122334455667788,
        size: 0xfedcba9876543210,
    };
    for le in [true, false] {
        let bytes = e.pack(le);
        assert_eq!(bytes.len(), Elf64SymtabEntry::SIZE);
        let (back, rest) = Elf64SymtabEntry::unpack(&bytes, le).unwrap();
        assert_eq!(back, e);
        assert!(rest.is_empty());
    }
}

#[test]
fn pack_is_endian_sensitive() {
    let e = Elf32SymtabEntry { name: 1, value: 2, size: 3, info: 4, other: 5, shndx: 6 };
    let le = e.pack(true);
    let be = e.pack(false);
    assert_eq!(le[0..4], [1, 0, 0, 0]);
    assert_eq!(be[0..4], [0, 0, 0, 1]);
    assert_ne!(le, be);
}
