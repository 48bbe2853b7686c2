use ast_indexer::model::{
    IndexLevel, ParseResult, ParseStatus, PendingCall, PendingSymbol, SymbolKind,
};
use ast_indexer::snapshot::{
    run_diff, run_snapshot, strings_only_in, DiffDetail, Snapshot, SnapshotEntry, SnapshotSymbol,
};
use ast_indexer::store::Store;

fn function(temp_id: usize, name: &str) -> PendingSymbol {
    PendingSymbol {
        temp_id,
        parent_temp_id: None,
        name: name.to_string(),
        qualified_name: name.to_string(),
        scope_path: name.to_string(),
        kind: SymbolKind::Function,
        line_start: temp_id,
        line_end: temp_id,
        text: name.to_string(),
        signature: Some("sig".to_string()),
    }
}

fn file(path: &str, names: &[&str], calls: &[(usize, &str)]) -> ParseResult {
    ParseResult {
        status: ParseStatus::Parsed,
        file_path: path.to_string(),
        file_hash: "h".to_string(),
        file_size: 1,
        file_mtime: 1,
        language: "py".to_string(),
        index_level: IndexLevel::Symbol,
        line_count: 1,
        symbols: names.iter().enumerate().map(|(i, n)| function(i + 1, n)).collect(),
        calls: calls
            .iter()
            .map(|(t, c)| PendingCall { caller_temp_id: *t, callee_name: c.to_string(), line: 1 })
            .collect(),
    }
}

fn entry(id: &str, name: &str, path: &str, kind: SymbolKind, calls: &[&str]) -> SnapshotEntry {
    SnapshotEntry {
        id: id.to_string(),
        symbol: SnapshotSymbol {
            name: name.to_string(),
            qualified_name: name.to_string(),
            file_path: path.to_string(),
            symbol_type: kind,
            line_start: 1,
            signature: None,
            calls: calls.iter().map(|c| c.to_string()).collect(),
        },
    }
}

fn sample_store() -> Store {
    let mut store = Store::new();
    store.persist(&file("src/a.py", &["foo", "other"], &[(1, "bar"), (1, "print"), (2, "bar")]), 1);
    store.persist(&file("src/b.py", &["bar"], &[]), 1);
    store.link();
    store
}

#[test]
fn snapshot_is_keyed_by_canonical_id() {
    let snap = run_snapshot(&sample_store(), 1234);
    assert_eq!(snap.timestamp, 1234);
    let ids: Vec<&str> = snap.symbols.iter().map(|e| e.id.as_str()).collect();
    assert_eq!(ids, vec!["func:src/a.py::foo", "func:src/a.py::other", "func:src/b.py::bar"]);
    let foo = &snap.symbols[0].symbol;
    assert_eq!(foo.name, "foo");
    assert_eq!(foo.qualified_name, "foo");
    assert_eq!(foo.file_path, "src/a.py");
    assert_eq!(foo.symbol_type, SymbolKind::Function);
    assert_eq!(foo.line_start, 1);
    assert_eq!(foo.signature, None);
    assert_eq!(foo.calls, vec!["bar", "print"]);
    assert_eq!(snap.symbols[1].symbol.calls, vec!["bar"]);
    assert!(snap.symbols[2].symbol.calls.is_empty());
}

#[test]
fn snapshot_of_an_empty_state_is_empty() {
    let snap = run_snapshot(&Store::new(), 5);
    assert!(snap.symbols.is_empty());
    assert_eq!(snap.timestamp, 5);
}

#[test]
fn rows_with_one_identifier_share_an_entry() {
    let mut store = Store::new();
    let mut r = file("a.py", &["init", "run", "init"], &[(1, "x"), (3, "y"), (2, "z")]);
    r.symbols[2].line_start = 30;
    r.symbols[2].line_end = 31;
    store.persist(&r, 1);
    let snap = run_snapshot(&store, 0);
    let ids: Vec<&str> = snap.symbols.iter().map(|e| e.id.as_str()).collect();
    assert_eq!(ids, vec!["func:a.py::init", "func:a.py::run"]);
    assert_eq!(snap.symbols[0].symbol.calls, vec!["x", "y"]);
    assert_eq!(snap.symbols[0].symbol.line_start, 30);
    assert_eq!(snap.symbols[1].symbol.calls, vec!["z"]);
}

#[test]
fn snapshot_does_not_differ_from_itself() {
    let snap = run_snapshot(&sample_store(), 1);
    let diff = run_diff(&snap, &snap);
    assert!(diff.added.is_empty());
    assert!(diff.removed.is_empty());
    assert!(diff.modified.is_empty());
    assert!(diff.details.is_empty());
    let later = run_snapshot(&sample_store(), 2);
    let diff2 = run_diff(&snap, &later);
    assert!(diff2.added.is_empty() && diff2.removed.is_empty() && diff2.modified.is_empty());
}

#[test]
fn diff_lists_added_and_removed() {
    let base = Snapshot {
        timestamp: 1,
        symbols: vec![
            entry("func:a.py::f", "f", "a.py", SymbolKind::Function, &[]),
            entry("func:a.py::g", "g", "a.py", SymbolKind::Function, &[]),
            entry("func:a.py::h", "h", "a.py", SymbolKind::Function, &[]),
        ],
    };
    let target = Snapshot {
        timestamp: 2,
        symbols: vec![
            entry("func:a.py::new2", "new2", "a.py", SymbolKind::Function, &[]),
            entry("func:a.py::g", "g", "a.py", SymbolKind::Function, &[]),
            entry("func:a.py::new1", "new1", "a.py", SymbolKind::Function, &[]),
        ],
    };
    let diff = run_diff(&base, &target);
    assert_eq!(diff.removed, vec!["func:a.py::f", "func:a.py::h"]);
    assert_eq!(diff.added, vec!["func:a.py::new2", "func:a.py::new1"]);
    assert!(diff.modified.is_empty());
}

#[test]
fn moving_a_symbol_is_removal_and_addition() {
    let base = Snapshot { timestamp: 1, symbols: vec![entry("func:a.py::f", "f", "a.py", SymbolKind::Function, &[])] };
    let target = Snapshot { timestamp: 2, symbols: vec![entry("func:b.py::f", "f", "b.py", SymbolKind::Function, &[])] };
    let diff = run_diff(&base, &target);
    assert_eq!(diff.removed, vec!["func:a.py::f"]);
    assert_eq!(diff.added, vec!["func:b.py::f"]);
    assert!(diff.modified.is_empty());
}

#[test]
fn diff_reports_changed_calls_as_sets() {
    let base = Snapshot {
        timestamp: 1,
        symbols: vec![entry("func:a.py::f", "f", "a.py", SymbolKind::Function, &["x", "y", "x"])],
    };
    let target = Snapshot {
        timestamp: 2,
        symbols: vec![entry("func:a.py::f", "f", "a.py", SymbolKind::Function, &["y", "z", "z", "w"])],
    };
    let diff = run_diff(&base, &target);
    assert_eq!(diff.modified, vec!["func:a.py::f"]);
    assert_eq!(diff.details.len(), 1);
    let d = &diff.details[0];
    assert_eq!(d.id, "func:a.py::f");
    assert_eq!(d.added_calls, vec!["z", "w"]);
    assert_eq!(d.removed_calls, vec!["x"]);
    assert_eq!(d.moved, None);
    assert_eq!(d.type_changed, None);
    assert_eq!(d.diff_msg(), "Added calls: [\"z\", \"w\"]; Removed calls: [\"x\"]");
}

#[test]
fn same_calls_in_another_order_are_no_change() {
    let base = Snapshot {
        timestamp: 1,
        symbols: vec![entry("func:a.py::f", "f", "a.py", SymbolKind::Function, &["x", "y", "x"])],
    };
    let target = Snapshot {
        timestamp: 2,
        symbols: vec![entry("func:a.py::f", "f", "a.py", SymbolKind::Function, &["y", "x"])],
    };
    let diff = run_diff(&base, &target);
    assert!(diff.modified.is_empty());
}

#[test]
fn diff_reports_kind_and_file_changes() {
    let base = Snapshot {
        timestamp: 1,
        symbols: vec![entry("k", "f", "a.py", SymbolKind::Function, &[])],
    };
    let target = Snapshot {
        timestamp: 2,
        symbols: vec![entry("k", "f", "b.py", SymbolKind::Class, &[])],
    };
    let diff = run_diff(&base, &target);
    assert_eq!(diff.modified, vec!["k"]);
    let d = &diff.details[0];
    assert_eq!(d.moved, Some(("a.py".to_string(), "b.py".to_string())));
    assert_eq!(d.type_changed, Some((SymbolKind::Function, SymbolKind::Class)));
    assert_eq!(d.diff_msg(), "Moved from a.py to b.py; Type changed: function -> class");
}

#[test]
fn other_attributes_do_not_count_as_modification() {
    let base = Snapshot {
        timestamp: 1,
        symbols: vec![entry("k", "f", "a.py", SymbolKind::Function, &[])],
    };
    let mut changed = entry("k", "f", "a.py", SymbolKind::Function, &[]);
    changed.symbol.line_start = 99;
    changed.symbol.qualified_name = "C::f".to_string();
    let target = Snapshot { timestamp: 2, symbols: vec![changed] };
    assert!(run_diff(&base, &target).modified.is_empty());
}

#[test]
fn message_quotes_call_names_as_debug_does() {
    let d = DiffDetail {
        id: "k".to_string(),
        moved: None,
        type_changed: None,
        added_calls: vec![],
        removed_calls: vec!["bar".to_string(), "say \"hi\"".to_string()],
    };
    assert_eq!(d.diff_msg(), "Removed calls: [\"bar\", \"say \\\"hi\\\"\"]");
    let empty = DiffDetail { id: "k".to_string(), moved: None, type_changed: None, added_calls: vec![], removed_calls: vec![] };
    assert_eq!(empty.diff_msg(), "");
}

#[test]
fn difference_of_lists_as_sets() {
    let s = |v: &[&str]| -> Vec<String> { v.iter().map(|x| x.to_string()).collect() };
    assert_eq!(strings_only_in(&s(&["a", "b", "a", "c"]), &s(&["b"])), vec!["a", "c"]);
    assert!(strings_only_in(&s(&["a", "a"]), &s(&["a"])).is_empty());
    assert!(strings_only_in(&s(&[]), &s(&["a"])).is_empty());
    assert_eq!(strings_only_in(&s(&["a"]), &s(&[])), vec!["a"]);
}

#[test]
fn removed_call_shows_in_the_diff_of_two_states() {
    let before = run_snapshot(&sample_store(), 1);
    let mut store = sample_store();
    store.persist(&file("src/a.py", &["foo", "other"], &[(1, "print"), (2, "bar")]), 2);
    store.link();
    let after = run_snapshot(&store, 2);
    let diff = run_diff(&before, &after);
    assert!(diff.added.is_empty());
    assert!(diff.removed.is_empty());
    assert_eq!(diff.modified, vec!["func:src/a.py::foo"]);
    assert!(diff.details[0].diff_msg().contains("Removed calls: [\"bar\"]"));
}
