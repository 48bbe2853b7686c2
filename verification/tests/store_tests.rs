use ast_indexer::link::{resolve_name, symbol_exists};
use ast_indexer::text::contains_string;
use ast_indexer::model::{
    IndexLevel, ParseResult, ParseStatus, PendingCall, PendingSymbol, SymbolKind,
};
use ast_indexer::store::{find_owner, rows_of, scope_path_ends_with, CallRow, Store, SymbolRow};

fn symbol(temp_id: usize, parent: Option<usize>, name: &str, scope: &str, kind: SymbolKind, line: usize) -> PendingSymbol {
    PendingSymbol {
        temp_id,
        parent_temp_id: parent,
        name: name.to_string(),
        qualified_name: scope.to_string(),
        scope_path: scope.to_string(),
        kind,
        line_start: line,
        line_end: line + 1,
        text: name.to_string(),
        signature: match kind {
            SymbolKind::Function => Some(format!("def {}():", name)),
            SymbolKind::Class => None,
        },
    }
}

fn call(caller: usize, callee: &str, line: usize) -> PendingCall {
    PendingCall { caller_temp_id: caller, callee_name: callee.to_string(), line }
}

fn parsed(path: &str, hash: &str, symbols: Vec<PendingSymbol>, calls: Vec<PendingCall>) -> ParseResult {
    ParseResult {
        status: ParseStatus::Parsed,
        file_path: path.to_string(),
        file_hash: hash.to_string(),
        file_size: 10,
        file_mtime: 20,
        language: "py".to_string(),
        index_level: IndexLevel::Symbol,
        line_count: 3,
        symbols,
        calls,
    }
}

fn meta(path: &str) -> ParseResult {
    ParseResult {
        status: ParseStatus::MetaOnly,
        file_path: path.to_string(),
        file_hash: "meta:10:20".to_string(),
        file_size: 10,
        file_mtime: 20,
        language: "meta".to_string(),
        index_level: IndexLevel::Meta,
        line_count: 0,
        symbols: vec![],
        calls: vec![],
    }
}

fn skipped(path: &str) -> ParseResult {
    ParseResult {
        status: ParseStatus::Skipped,
        file_path: path.to_string(),
        file_hash: "h".to_string(),
        file_size: 10,
        file_mtime: 20,
        language: "skip".to_string(),
        index_level: IndexLevel::Symbol,
        line_count: 0,
        symbols: vec![],
        calls: vec![],
    }
}

fn two_files() -> Store {
    let mut store = Store::new();
    let a = parsed(
        "src/a.py",
        "ha",
        vec![symbol(1, None, "foo", "foo", SymbolKind::Function, 1)],
        vec![call(1, "bar", 1)],
    );
    let b = parsed(
        "src/b.py",
        "hb",
        vec![symbol(1, None, "bar", "bar", SymbolKind::Function, 1)],
        vec![],
    );
    assert!(a.is_well_formed() && b.is_well_formed());
    store.persist(&a, 100);
    store.persist(&b, 100);
    store
}

#[test]
fn new_store_is_empty_and_well_formed() {
    let store = Store::new();
    assert!(store.files.is_empty());
    assert!(store.symbols.is_empty());
    assert!(store.is_well_formed());
}

#[test]
fn persist_inserts_file_symbols_and_calls() {
    let store = two_files();
    assert!(store.is_well_formed());
    assert_eq!(store.files.len(), 2);
    assert_eq!(store.files[0].file_path, "src/a.py");
    assert_eq!(store.files[0].file_hash, "ha");
    assert_eq!(store.files[0].file_size, 10);
    assert_eq!(store.files[0].file_mtime, 20);
    assert_eq!(store.files[0].language, "py");
    assert_eq!(store.files[0].line_count, 3);
    assert_eq!(store.files[0].index_level, IndexLevel::Symbol);
    assert_eq!(store.files[0].indexed_at, 100);
    assert_eq!(store.files[0].updated_at, 100);
    assert_eq!(store.symbols.len(), 2);
    assert_eq!(store.symbols[0].canonical_id, "func:src/a.py::foo");
    assert_eq!(store.symbols[1].canonical_id, "func:src/b.py::bar");
    assert_eq!(store.symbols[0].file_path, "src/a.py");
    assert_eq!(store.symbols[0].signature, Some("def foo():".to_string()));
    assert_eq!(
        store.symbols[0].calls,
        vec![CallRow { callee_name: "bar".to_string(), call_line: 1, callee_id: None }]
    );
    assert!(store.symbols[1].calls.is_empty());
}

#[test]
fn canonical_id_prefix_follows_the_kind() {
    let mut store = Store::new();
    let r = parsed(
        "m/x.py",
        "h",
        vec![
            symbol(1, None, "Thing", "Thing", SymbolKind::Class, 1),
            symbol(2, Some(1), "run", "Thing::run", SymbolKind::Function, 2),
        ],
        vec![],
    );
    store.persist(&r, 1);
    assert_eq!(store.symbols[0].canonical_id, "class:m/x.py::Thing");
    assert_eq!(store.symbols[1].canonical_id, "func:m/x.py::run");
    assert_eq!(store.symbols[0].parent_id, None);
    assert_eq!(store.symbols[1].parent_id, Some("class:m/x.py::Thing".to_string()));
}

#[test]
fn skipped_result_changes_nothing() {
    let mut store = two_files();
    let before = store.clone();
    store.persist(&skipped("src/a.py"), 999);
    assert_eq!(store, before);
    store.persist(&skipped("src/unknown.py"), 999);
    assert_eq!(store, before);
}

#[test]
fn persist_replaces_the_symbols_of_a_file() {
    let mut store = two_files();
    let again = parsed(
        "src/a.py",
        "ha2",
        vec![
            symbol(1, None, "foo", "foo", SymbolKind::Function, 1),
            symbol(2, None, "baz", "baz", SymbolKind::Function, 4),
        ],
        vec![call(2, "foo", 5)],
    );
    store.persist(&again, 200);
    assert!(store.is_well_formed());
    assert_eq!(store.files.len(), 2);
    assert_eq!(store.files[0].file_path, "src/a.py");
    assert_eq!(store.files[0].file_hash, "ha2");
    assert_eq!(store.files[0].updated_at, 200);
    assert_eq!(store.files[1].updated_at, 100);
    let ids: Vec<&str> = store.symbols.iter().map(|s| s.canonical_id.as_str()).collect();
    assert_eq!(ids, vec!["func:src/b.py::bar", "func:src/a.py::foo", "func:src/a.py::baz"]);
    assert!(store.symbols[1].calls.is_empty());
    assert_eq!(store.symbols[2].calls.len(), 1);
    assert_eq!(store.symbols[2].calls[0].callee_name, "foo");
}

#[test]
fn meta_result_keeps_the_file_row_only() {
    let mut store = two_files();
    store.persist(&meta("src/a.py"), 300);
    assert!(store.is_well_formed());
    assert_eq!(store.files.len(), 2);
    assert_eq!(store.files[0].index_level, IndexLevel::Meta);
    assert_eq!(store.files[0].file_hash, "meta:10:20");
    assert_eq!(store.files[0].indexed_at, 0);
    assert_eq!(store.files[0].updated_at, 300);
    assert_eq!(store.symbols.len(), 1);
    assert_eq!(store.symbols[0].canonical_id, "func:src/b.py::bar");
}

#[test]
fn calls_go_to_the_last_symbol_with_the_temporary_id() {
    let symbols = vec![
        symbol(1, None, "first", "first", SymbolKind::Function, 1),
        symbol(1, None, "second", "second", SymbolKind::Function, 3),
        symbol(2, None, "third", "third", SymbolKind::Function, 5),
    ];
    assert_eq!(find_owner(&symbols, 1), Some(1));
    assert_eq!(find_owner(&symbols, 2), Some(2));
    assert_eq!(find_owner(&symbols, 3), None);
    let r = parsed("a.py", "h", symbols, vec![call(1, "x", 1), call(3, "y", 2), call(2, "z", 3), call(1, "w", 4)]);
    let rows = rows_of(&r);
    assert!(rows[0].calls.is_empty());
    let names: Vec<&str> = rows[1].calls.iter().map(|c| c.callee_name.as_str()).collect();
    assert_eq!(names, vec!["x", "w"]);
    assert_eq!(rows[2].calls.len(), 1);
    assert_eq!(rows[2].calls[0].callee_name, "z");
    assert_eq!(rows[2].calls[0].call_line, 3);
}

#[test]
fn linking_resolves_by_name() {
    let mut store = two_files();
    store.link();
    assert!(store.is_well_formed());
    assert_eq!(store.symbols[0].calls[0].callee_id, Some("func:src/b.py::bar".to_string()));
}

#[test]
fn linking_prefers_the_same_file() {
    let mut store = Store::new();
    store.persist(
        &parsed("x.py", "h", vec![symbol(1, None, "helper", "helper", SymbolKind::Function, 1)], vec![]),
        1,
    );
    store.persist(
        &parsed(
            "y.py",
            "h",
            vec![
                symbol(1, None, "main", "main", SymbolKind::Function, 1),
                symbol(2, None, "helper", "helper", SymbolKind::Function, 5),
            ],
            vec![call(1, "helper", 2)],
        ),
        1,
    );
    store.persist(
        &parsed("z.py", "h", vec![symbol(1, None, "other", "other", SymbolKind::Function, 1)], vec![call(1, "helper", 2)]),
        1,
    );
    store.link();
    assert_eq!(store.symbols[1].calls[0].callee_id, Some("func:y.py::helper".to_string()));
    assert_eq!(store.symbols[3].calls[0].callee_id, Some("func:x.py::helper".to_string()));
    assert_eq!(resolve_name(&store.symbols, "y.py", "helper"), Some("func:y.py::helper".to_string()));
    assert_eq!(resolve_name(&store.symbols, "z.py", "helper"), Some("func:x.py::helper".to_string()));
    assert_eq!(resolve_name(&store.symbols, "z.py", "nothing"), None);
}

#[test]
fn linking_leaves_unknown_names_unresolved() {
    let mut store = Store::new();
    store.persist(
        &parsed("a.py", "h", vec![symbol(1, None, "foo", "foo", SymbolKind::Function, 1)], vec![call(1, "print", 1)]),
        1,
    );
    store.link();
    assert_eq!(store.symbols[0].calls[0].callee_id, None);
}

#[test]
fn linking_keeps_resolved_edges() {
    let mut store = two_files();
    store.link();
    store.persist(
        &parsed("src/c.py", "hc", vec![symbol(1, None, "bar", "bar", SymbolKind::Function, 1)], vec![call(1, "bar", 2)]),
        1,
    );
    store.link();
    assert_eq!(store.symbols[0].calls[0].callee_id, Some("func:src/b.py::bar".to_string()));
    assert_eq!(store.symbols[2].calls[0].callee_id, Some("func:src/c.py::bar".to_string()));
}

#[test]
fn linking_twice_is_linking_once() {
    let mut store = two_files();
    store.link();
    let once = store.clone();
    store.link();
    assert_eq!(store, once);
}

#[test]
fn orphan_cleanup_removes_files_that_are_gone() {
    let mut store = two_files();
    store.link();
    let present = vec!["src/a.py".to_string()];
    store.remove_orphans(&present);
    assert!(store.is_well_formed());
    assert_eq!(store.files.len(), 1);
    assert_eq!(store.files[0].file_path, "src/a.py");
    assert_eq!(store.symbols.len(), 1);
    assert_eq!(store.symbols[0].canonical_id, "func:src/a.py::foo");
    assert_eq!(store.symbols[0].calls.len(), 1);
    assert_eq!(store.symbols[0].calls[0].callee_name, "bar");
    assert_eq!(store.symbols[0].calls[0].callee_id, None);
}

#[test]
fn orphan_cleanup_keeps_what_contains_string() {
    let mut store = two_files();
    store.link();
    let before = store.clone();
    store.remove_orphans(&vec!["src/b.py".to_string(), "src/a.py".to_string(), "x".to_string()]);
    assert_eq!(store, before);
    store.remove_orphans(&vec![]);
    assert!(store.files.is_empty());
    assert!(store.symbols.is_empty());
}

#[test]
fn presence_and_existence_lookups() {
    let store = two_files();
    assert!(contains_string(&vec!["a".to_string(), "b".to_string()], "b"));
    assert!(!contains_string(&vec!["a".to_string()], "b"));
    assert!(symbol_exists(&store.symbols, "func:src/a.py::foo"));
    assert!(!symbol_exists(&store.symbols, "class:src/a.py::foo"));
    assert_eq!(store.find_file("src/b.py"), Some(1));
    assert_eq!(store.find_file("src/c.py"), None);
    assert!(store.has_symbol_level_file("src/a.py"));
    assert!(!store.has_symbol_level_file("src/c.py"));
}

#[test]
fn ill_formed_states_are_recognised() {
    let mut twice = two_files();
    let copy = twice.files[0].clone();
    twice.files.push(copy);
    assert!(!twice.is_well_formed());

    let mut orphan = two_files();
    orphan.files.remove(0);
    assert!(!orphan.is_well_formed());

    let mut wrong_id = two_files();
    wrong_id.symbols[0].canonical_id = "func:src/b.py::foo".to_string();
    assert!(!wrong_id.is_well_formed());

    let mut bad_lines = two_files();
    bad_lines.symbols[0].line_start = 9;
    bad_lines.symbols[0].line_end = 3;
    assert!(!bad_lines.is_well_formed());

    let mut zero_line = two_files();
    zero_line.symbols[0].line_start = 0;
    assert!(!zero_line.is_well_formed());

    let mut bad_scope = two_files();
    bad_scope.symbols[0].scope_path = "A::other".to_string();
    assert!(!bad_scope.is_well_formed());

    let mut meta_owner = two_files();
    meta_owner.files[0].index_level = IndexLevel::Meta;
    assert!(!meta_owner.is_well_formed());
}

#[test]
fn scope_path_must_end_with_the_name() {
    assert!(scope_path_ends_with("run", "run"));
    assert!(scope_path_ends_with("A::run", "run"));
    assert!(scope_path_ends_with("m::A::run", "run"));
    assert!(!scope_path_ends_with("A::rerun", "run"));
    assert!(!scope_path_ends_with("A:run", "run"));
    assert!(!scope_path_ends_with("run::A", "run"));
    assert!(!scope_path_ends_with("", "run"));
}

#[test]
fn ill_formed_results_are_recognised() {
    let mut r = parsed("a.py", "h", vec![symbol(1, None, "foo", "foo", SymbolKind::Function, 1)], vec![]);
    assert!(r.is_well_formed());
    r.symbols[0].line_end = 0;
    assert!(!r.is_well_formed());
    let mut m = meta("a.py");
    assert!(m.is_well_formed());
    m.index_level = IndexLevel::Symbol;
    assert!(!m.is_well_formed());
    let mut s = skipped("a.py");
    assert!(s.is_well_formed());
    s.calls.push(call(1, "x", 1));
    assert!(!s.is_well_formed());
    let mut p = parsed("a.py", "h", vec![], vec![]);
    assert!(p.is_well_formed());
    p.index_level = IndexLevel::Meta;
    assert!(!p.is_well_formed());
}

#[test]
fn symbol_rows_check_their_own_invariants() {
    let row = SymbolRow {
        file_path: "a.py".to_string(),
        name: "f".to_string(),
        qualified_name: "C::f".to_string(),
        canonical_id: "func:a.py::f".to_string(),
        scope_path: "C::f".to_string(),
        kind: SymbolKind::Function,
        line_start: 2,
        line_end: 2,
        signature: None,
        parent_id: None,
        calls: vec![],
    };
    assert!(row.is_well_formed());
    let mut class_id = row.clone();
    class_id.canonical_id = "class:a.py::f".to_string();
    assert!(!class_id.is_well_formed());
}

#[test]
fn qualified_name_must_be_the_scope_path() {
    let mut pending = symbol(1, None, "f", "C::f", SymbolKind::Function, 1);
    assert!(pending.is_well_formed());
    pending.qualified_name = "f".to_string();
    assert!(!pending.is_well_formed());
    let mut result = parsed("a.py", "h", vec![symbol(1, None, "f", "C::f", SymbolKind::Function, 1)], vec![]);
    assert!(result.is_well_formed());
    result.symbols[0].qualified_name = "D::f".to_string();
    assert!(!result.is_well_formed());
    let mut store = Store::new();
    store.persist(&parsed("a.py", "h", vec![symbol(1, None, "f", "C::f", SymbolKind::Function, 1)], vec![]), 1);
    assert_eq!(store.symbols[0].qualified_name, store.symbols[0].scope_path);
    assert!(store.is_well_formed());
    store.symbols[0].qualified_name = "f".to_string();
    assert!(!store.symbols[0].is_well_formed());
    assert!(!store.is_well_formed());
}
