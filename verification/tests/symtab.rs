use static_linker::symtab::SymbolTable;

#[test]
fn a_new_table_holds_nothing() {
    let table = SymbolTable::new();
    assert_eq!(table.get(&String::from("main")), None);
    assert_eq!(table.get(&String::new()), None);
}

#[test]
fn an_inserted_name_is_found() {
    let table = SymbolTable::new()
        .insert(String::from("main"), 12)
        .insert(String::from("foo"), 40);
    assert_eq!(table.get(&String::from("main")), Some(12));
    assert_eq!(table.get(&String::from("foo")), Some(40));
    assert_eq!(table.get(&String::from("bar")), None);
    assert_eq!(table.get(&String::from("mai")), None);
}

#[test]
fn a_second_insert_replaces_the_address() {
    let table = SymbolTable::new()
        .insert(String::from("a"), 1)
        .insert(String::from("b"), 2)
        .insert(String::from("a"), 3);
    assert_eq!(table.get(&String::from("a")), Some(3));
    assert_eq!(table.get(&String::from("b")), Some(2));
}

#[test]
fn addresses_wider_than_a_machine_word_are_kept() {
    let big = (1u128 << 64) + 5;
    let table = SymbolTable::new().insert(String::from("far"), big);
    assert_eq!(table.get(&String::from("far")), Some(big));
}
