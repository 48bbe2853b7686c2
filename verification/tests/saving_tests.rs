use ast_indexer::model::{
    IndexLevel, ParseResult, ParseStatus, PendingCall, PendingSymbol, SymbolKind,
};
use ast_indexer::saving::{
    all_paths, calls_difference, change_of, rows_difference, same_file_row, same_option,
    save_plan, symbols_of, Difference,
};
use ast_indexer::store::{CallRow, Store};

fn function(temp_id: usize, name: &str) -> PendingSymbol {
    PendingSymbol {
        temp_id,
        parent_temp_id: None,
        name: name.to_string(),
        qualified_name: name.to_string(),
        scope_path: name.to_string(),
        kind: SymbolKind::Function,
        line_start: temp_id,
        line_end: temp_id,
        text: name.to_string(),
        signature: None,
    }
}

fn file(path: &str, names: &[&str], calls: &[(usize, &str)]) -> ParseResult {
    ParseResult {
        status: ParseStatus::Parsed,
        file_path: path.to_string(),
        file_hash: "h".to_string(),
        file_size: 1,
        file_mtime: 1,
        language: "py".to_string(),
        index_level: IndexLevel::Symbol,
        line_count: 1,
        symbols: names.iter().enumerate().map(|(i, n)| function(i + 1, n)).collect(),
        calls: calls
            .iter()
            .map(|(caller, callee)| PendingCall {
                caller_temp_id: *caller,
                callee_name: callee.to_string(),
                line: 1,
            })
            .collect(),
    }
}

fn meta(path: &str) -> ParseResult {
    ParseResult {
        status: ParseStatus::MetaOnly,
        file_path: path.to_string(),
        file_hash: "meta:1:1".to_string(),
        file_size: 1,
        file_mtime: 1,
        language: "meta".to_string(),
        index_level: IndexLevel::Meta,
        line_count: 0,
        symbols: Vec::new(),
        calls: Vec::new(),
    }
}

fn sample() -> Store {
    let mut store = Store::new();
    store.persist(&file("a.py", &["foo"], &[(1, "bar")]), 1);
    store.persist(&file("b.py", &["bar"], &[]), 1);
    store.persist(&meta("c.py"), 1);
    store.persist(&file("d.py", &["baz", "qux"], &[(2, "bar")]), 1);
    store
}

fn call(name: &str, line: usize, id: Option<&str>) -> CallRow {
    CallRow { callee_name: name.to_string(), call_line: line, callee_id: id.map(str::to_string) }
}

#[test]
fn nothing_is_to_be_written_where_nothing_changed() {
    let store = sample();
    let plan = save_plan(&store, &store.clone());
    assert!(plan.write.is_empty() && plan.relink.is_empty() && plan.delete.is_empty());
    let empty = save_plan(&Store::new(), &Store::new());
    assert!(empty.write.is_empty() && empty.relink.is_empty() && empty.delete.is_empty());
}

#[test]
fn first_save_writes_every_file_in_the_order_of_the_symbols() {
    let after = sample();
    let plan = save_plan(&Store::new(), &after);
    assert_eq!(plan.write, vec!["a.py", "b.py", "d.py", "c.py"]);
    assert!(plan.relink.is_empty());
    assert!(plan.delete.is_empty());
}

#[test]
fn changed_files_are_written_and_linked_files_are_relinked() {
    let before = sample();
    let mut after = before.clone();
    after.persist(&file("b.py", &["bar", "more"], &[]), 2);
    after.persist(&file("e.py", &["last"], &[]), 2);
    after.link();
    let plan = save_plan(&before, &after);
    assert_eq!(plan.write, vec!["b.py", "e.py"]);
    assert_eq!(plan.relink, vec!["a.py", "d.py"]);
    assert!(plan.delete.is_empty());
    assert_eq!(change_of(&before, &after, "a.py"), Difference::Links);
    assert_eq!(change_of(&before, &after, "b.py"), Difference::Rows);
    assert_eq!(change_of(&before, &after, "c.py"), Difference::Same);
    assert_eq!(change_of(&before, &after, "e.py"), Difference::Rows);
    assert_eq!(change_of(&before, &after, "nowhere.py"), Difference::Same);
}

#[test]
fn files_that_are_gone_are_deleted() {
    let before = sample();
    let mut after = before.clone();
    after.remove_orphans(&vec!["a.py".to_string(), "d.py".to_string()]);
    let plan = save_plan(&before, &after);
    assert!(plan.write.is_empty());
    assert!(plan.relink.is_empty());
    assert_eq!(plan.delete, vec!["b.py", "c.py"]);
    let all_gone = save_plan(&before, &Store::new());
    assert_eq!(all_gone.delete, vec!["a.py", "b.py", "c.py", "d.py"]);
    assert!(all_gone.write.is_empty());
}

#[test]
fn file_row_alone_makes_a_file_to_write() {
    let before = sample();
    let mut after = before.clone();
    after.files[2].updated_at = 77;
    let plan = save_plan(&before, &after);
    assert_eq!(plan.write, vec!["c.py"]);
    let mut upgraded = before.clone();
    upgraded.persist(&file("c.py", &[], &[]), 5);
    assert_eq!(save_plan(&before, &upgraded).write, vec!["c.py"]);
}

#[test]
fn paths_stand_in_the_order_of_the_symbols_and_then_of_the_files() {
    let mut store = sample();
    assert_eq!(all_paths(&store), vec!["a.py", "b.py", "d.py", "c.py"]);
    store.persist(&file("a.py", &["foo"], &[]), 2);
    assert_eq!(all_paths(&store), vec!["b.py", "d.py", "a.py", "c.py"]);
    assert!(all_paths(&Store::new()).is_empty());
}

#[test]
fn rows_differ_in_links_or_in_more() {
    let store = sample();
    let a = symbols_of(&store.symbols, "d.py");
    assert_eq!(a.len(), 2);
    assert_eq!(a[1].name, "qux");
    assert!(symbols_of(&store.symbols, "c.py").is_empty());
    assert_eq!(rows_difference(&a, &a.clone()), Difference::Same);
    let mut linked = a.clone();
    linked[1].calls[0].callee_id = Some("func:b.py::bar".to_string());
    assert_eq!(rows_difference(&a, &linked), Difference::Links);
    let mut moved = linked.clone();
    moved[0].line_end = 9;
    assert_eq!(rows_difference(&a, &moved), Difference::Rows);
    let mut renamed = a.clone();
    renamed[1].calls[0].callee_name = "other".to_string();
    assert_eq!(rows_difference(&a, &renamed), Difference::Rows);
    let mut signed = a.clone();
    signed[0].signature = Some("def baz():".to_string());
    assert_eq!(rows_difference(&a, &signed), Difference::Rows);
    let mut shorter = a.clone();
    shorter.pop();
    assert_eq!(rows_difference(&a, &shorter), Difference::Rows);
    assert_eq!(rows_difference(&Vec::new(), &Vec::new()), Difference::Same);
}

#[test]
fn calls_differ_in_links_or_in_more() {
    let a = vec![call("f", 1, None), call("g", 2, Some("func:x::g"))];
    assert_eq!(calls_difference(&a, &a.clone()), Difference::Same);
    let b = vec![call("f", 1, Some("func:x::f")), call("g", 2, Some("func:x::g"))];
    assert_eq!(calls_difference(&a, &b), Difference::Links);
    let c = vec![call("f", 3, Some("func:x::f")), call("g", 2, Some("func:x::g"))];
    assert_eq!(calls_difference(&a, &c), Difference::Rows);
    let d = vec![call("f", 1, None), call("h", 2, Some("func:x::g"))];
    assert_eq!(calls_difference(&a, &d), Difference::Rows);
    assert_eq!(calls_difference(&a, &a[..1].to_vec()), Difference::Rows);
}

#[test]
fn file_rows_and_optional_texts_are_compared_field_by_field() {
    let store = sample();
    let row = store.files[0].clone();
    assert!(same_file_row(&row, &row.clone()));
    let mut other = row.clone();
    other.file_hash = "i".to_string();
    assert!(!same_file_row(&row, &other));
    let mut level = row.clone();
    level.index_level = IndexLevel::Meta;
    assert!(!same_file_row(&row, &level));
    let mut time = row.clone();
    time.indexed_at += 1;
    assert!(!same_file_row(&row, &time));
    assert!(same_option(&None, &None));
    assert!(same_option(&Some("a".to_string()), &Some("a".to_string())));
    assert!(!same_option(&Some("a".to_string()), &Some("b".to_string())));
    assert!(!same_option(&Some("a".to_string()), &None));
}
