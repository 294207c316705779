use elf_symtab::kallsyms::{safe_search, KAllSyms};

fn table(addrs: Vec<usize>, names: Vec<&str>) -> KAllSyms {
    KAllSyms::new(addrs, names.into_iter().map(String::from).collect()).unwrap()
}

#[test]
fn new_rejects_mismatched_lengths() {
    assert!(KAllSyms::new(vec![1, 2], vec![String::from("a")]).is_none());
}

#[test]
fn new_rejects_decreasing_addresses() {
    assert!(
        KAllSyms::new(vec![2, 1], vec![String::from("a"), String::from("b")]).is_none()
    );
}

#[test]
fn empty_table_finds_nothing() {
    let t = table(vec![], vec![]);
    assert_eq!(safe_search(&t, 0x1000), None);
}

#[test]
fn address_below_first_symbol_finds_nothing() {
    let t = table(vec![0x1000, 0x2000], vec!["first", "second"]);
    assert_eq!(safe_search(&t, 0xfff), None);
}

#[test]
fn exact_address_has_offset_zero() {
    let t = table(vec![0x1000, 0x2000], vec!["first", "second"]);
    assert_eq!(safe_search(&t, 0x1000), Some(("first", 0)));
    assert_eq!(safe_search(&t, 0x2000), Some(("second", 0)));
}

#[test]
fn address_between_symbols_maps_to_the_one_below() {
    let t = table(vec![0x1000, 0x2000, 0x3000], vec!["a", "b", "c"]);
    assert_eq!(safe_search(&t, 0x2fff), Some(("b", 0xfff)));
}

#[test]
fn address_past_last_symbol_maps_to_last() {
    let t = table(vec![0x1000, 0x2000], vec!["a", "b"]);
    assert_eq!(safe_search(&t, 0x9999), Some(("b", 0x7999)));
}

#[test]
fn equal_addresses_resolve_to_the_later_entry() {
    let t = table(vec![0x10, 0x10, 0x20], vec!["a", "b", "c"]);
    assert_eq!(safe_search(&t, 0x15), Some(("b", 5)));
}
