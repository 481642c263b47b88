use nim_spice::sym_table::{Symbol, SymTable, SymbolType};

fn sym(name: &str, kind: SymbolType, index: usize) -> Symbol {
    Symbol { name: name.to_string(), symbol_type: kind, index }
}

#[test]
fn insert_refuses_duplicates_in_one_frame() {
    let mut t = SymTable::new();
    assert_eq!(t.depth(), 1);
    assert!(t.insert(sym("a", SymbolType::Node, 0)));
    assert!(!t.insert(sym("a", SymbolType::Node, 5)));
    // a name is declared once per frame, whatever its kind
    assert!(!t.insert(sym("a", SymbolType::Component, 1)));
    assert!(t.declares(&"a".to_string()));
    assert_eq!(t.resolve(&"a".to_string(), SymbolType::Node), Some(0));
    assert_eq!(t.resolve(&"a".to_string(), SymbolType::Component), None);
    assert_eq!(t.resolve(&"b".to_string(), SymbolType::Node), None);
}

#[test]
fn local_frames_shadow_and_close() {
    let mut t = SymTable::new();
    assert!(t.insert(sym("1", SymbolType::Node, 0)));
    assert!(t.insert(sym("g", SymbolType::Node, 9)));
    t.open_scope();
    assert_eq!(t.depth(), 2);
    // a name of the global frame may be declared again in a body
    assert!(t.insert(sym("1", SymbolType::Node, 1)));
    assert_eq!(t.resolve(&"1".to_string(), SymbolType::Node), Some(1));
    assert_eq!(t.resolve(&"g".to_string(), SymbolType::Node), Some(9));
    assert_eq!(t.lookup_at(0, &"1".to_string(), SymbolType::Node), Some(0));
    assert!(t.close_scope());
    t.open_scope();
    // and again in a sibling body
    assert!(t.insert(sym("1", SymbolType::Node, 2)));
    assert_eq!(t.resolve(&"1".to_string(), SymbolType::Node), Some(2));
    assert!(t.close_scope());
    assert!(!t.close_scope());
    assert_eq!(t.depth(), 1);
    assert_eq!(t.resolve(&"1".to_string(), SymbolType::Node), Some(0));
}
