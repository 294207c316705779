use elf_symtab::string_table::read_str_from_offset;

#[test]
fn name_at_offset() {
    let content = [0, b't', b'e', b's', b't', 0, b'x', 0];
    assert_eq!(read_str_from_offset(&content, 1), "test");
    assert_eq!(read_str_from_offset(&content, 6), "x");
}

#[test]
fn offset_on_nul_is_empty() {
    let content = [0, b'a', 0];
    assert_eq!(read_str_from_offset(&content, 0), "");
    assert_eq!(read_str_from_offset(&content, 2), "");
}

#[test]
fn offset_inside_name_takes_suffix() {
    let content = [b'a', b'b', b'c', 0];
    assert_eq!(read_str_from_offset(&content, 1), "bc");
}

#[test]
fn missing_nul_runs_to_end() {
    let content = [b'a', b'b'];
    assert_eq!(read_str_from_offset(&content, 0), "ab");
}

#[test]
fn offset_at_or_past_end_is_empty() {
    let content = [b'a', 0];
    assert_eq!(read_str_from_offset(&content, 2), "");
    assert_eq!(read_str_from_offset(&content, 100), "");
}

#[test]
fn invalid_utf8_is_empty() {
    let content = [b'a', 0xff, 0xfe, 0];
    assert_eq!(read_str_from_offset(&content, 0), "");
}

#[test]
fn multibyte_utf8_name() {
    let mut content: Vec<u8> = Vec::new();
    content.push(0);
    content.extend_from_slice("h\u{e9}llo".as_bytes());
    content.push(0);
    assert_eq!(read_str_from_offset(&content, 1), "h\u{e9}llo");
}
