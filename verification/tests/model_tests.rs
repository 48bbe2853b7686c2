use ast_indexer::model::{make_canonical_id, IndexLevel, Node, SymbolKind};

#[test]
fn canonical_id_has_prefix_path_and_name() {
    assert_eq!(make_canonical_id(SymbolKind::Function, "src/a.py", "foo"), "func:src/a.py::foo");
    assert_eq!(make_canonical_id(SymbolKind::Class, "src/a.py", "Foo"), "class:src/a.py::Foo");
    assert_eq!(make_canonical_id(SymbolKind::Function, "", ""), "func:::");
}

#[test]
fn canonical_id_tells_kind_path_and_name_apart() {
    let triples = [
        (SymbolKind::Function, "a.py", "f"),
        (SymbolKind::Class, "a.py", "f"),
        (SymbolKind::Function, "b.py", "f"),
        (SymbolKind::Function, "a.py", "g"),
        (SymbolKind::Function, "a.py::f", "g"),
        (SymbolKind::Class, "x/func", "f"),
    ];
    for (i, a) in triples.iter().enumerate() {
        for (j, b) in triples.iter().enumerate() {
            let same = make_canonical_id(a.0, a.1, a.2) == make_canonical_id(b.0, b.1, b.2);
            assert_eq!(same, i == j, "{:?} and {:?}", a, b);
        }
    }
}

#[test]
fn canonical_id_is_stable() {
    assert_eq!(
        make_canonical_id(SymbolKind::Function, "a.py", "f"),
        make_canonical_id(SymbolKind::Function, "a.py", "f")
    );
}

#[test]
fn names_with_colons_can_share_an_identifier() {
    assert_eq!(
        make_canonical_id(SymbolKind::Function, "a", "b::c"),
        make_canonical_id(SymbolKind::Function, "a::b", "c")
    );
}

#[test]
fn kind_names() {
    assert_eq!(SymbolKind::Function.name(), "function");
    assert_eq!(SymbolKind::Class.name(), "class");
    assert_eq!(SymbolKind::Function.prefix(), "func");
    assert_eq!(SymbolKind::Class.prefix(), "class");
    assert_eq!(SymbolKind::from_name("class"), SymbolKind::Class);
    assert_eq!(SymbolKind::from_name("function"), SymbolKind::Function);
    assert_eq!(SymbolKind::from_name("method"), SymbolKind::Function);
}

#[test]
fn level_names() {
    assert_eq!(IndexLevel::Symbol.name(), "symbol");
    assert_eq!(IndexLevel::Meta.name(), "meta");
    assert_eq!(IndexLevel::from_name("meta"), IndexLevel::Meta);
    assert_eq!(IndexLevel::from_name("symbol"), IndexLevel::Symbol);
    assert_eq!(IndexLevel::from_name(""), IndexLevel::Symbol);
}

#[test]
fn node_copies_are_equal() {
    let n = Node {
        id: "func:a.py::f".to_string(),
        node_type: SymbolKind::Function,
        name: "f".to_string(),
        qualified_name: "C::f".to_string(),
        file_path: "a.py".to_string(),
        line_start: 3,
        line_end: 9,
        signature: Some("def f():".to_string()),
    };
    assert_eq!(n.duplicate(), n);
}

#[test]
fn colon_in_a_name_can_make_two_symbols_share_an_identifier() {
    let a = make_canonical_id(SymbolKind::Function, "a:", "b");
    let b = make_canonical_id(SymbolKind::Function, "a", ":b");
    assert_eq!(a, "func:a:::b");
    assert_eq!(a, b);
    assert_ne!(
        make_canonical_id(SymbolKind::Function, "a", "b"),
        make_canonical_id(SymbolKind::Class, "a", "b")
    );
}
