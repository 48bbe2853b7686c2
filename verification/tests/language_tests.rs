use ast_indexer::extract::extract;
use ast_indexer::model::{PendingCall, PendingSymbol, SymbolKind};
use ast_indexer::parser::{compile_parsers, find_parser, parse_source};

fn extracted(extension: &str, text: &str) -> (Vec<PendingSymbol>, Vec<PendingCall>) {
    let parsers = compile_parsers().unwrap();
    let parser = find_parser(&parsers, extension).unwrap();
    let src = parse_source(parser, text).unwrap();
    assert_eq!(src.text, text);
    extract(&src.tree, &src.text, &src.matches)
}

fn names(symbols: &[PendingSymbol]) -> Vec<(String, SymbolKind, String)> {
    symbols.iter().map(|s| (s.name.clone(), s.kind, s.scope_path.clone())).collect()
}

fn callees(calls: &[PendingCall], symbols: &[PendingSymbol]) -> Vec<(String, String)> {
    calls
        .iter()
        .map(|c| (symbols[c.caller_temp_id - 1].name.clone(), c.callee_name.clone()))
        .collect()
}

fn t(name: &str, kind: SymbolKind, scope: &str) -> (String, SymbolKind, String) {
    (name.to_string(), kind, scope.to_string())
}

fn c(caller: &str, callee: &str) -> (String, String) {
    (caller.to_string(), callee.to_string())
}

#[test]
fn python_nested_definitions() {
    let (symbols, calls) = extracted(
        "py",
        "class Shop:\n    def open(self):\n        def greet():\n            hello()\n        greet()\n",
    );
    assert_eq!(
        names(&symbols),
        vec![
            t("Shop", SymbolKind::Class, "Shop"),
            t("open", SymbolKind::Function, "Shop::open"),
            t("greet", SymbolKind::Function, "Shop::open::greet"),
        ]
    );
    assert_eq!(symbols[1].parent_temp_id, Some(1));
    assert_eq!(symbols[2].parent_temp_id, Some(2));
    assert_eq!(callees(&calls, &symbols), vec![c("greet", "hello"), c("open", "greet")]);
    assert_eq!((symbols[0].line_start, symbols[0].line_end), (1, 5));
    assert_eq!((symbols[2].line_start, symbols[2].line_end), (3, 4));
    assert_eq!(calls[0].line, 4);
    assert_eq!(calls[1].line, 5);
}

#[test]
fn javascript_functions_classes_and_member_calls() {
    let (symbols, calls) =
        extracted("js", "function greet() { hello(); console.log(1); }\nclass Box {}\n");
    assert_eq!(
        names(&symbols),
        vec![t("greet", SymbolKind::Function, "greet"), t("Box", SymbolKind::Class, "Box")]
    );
    assert_eq!(callees(&calls, &symbols), vec![c("greet", "hello"), c("greet", "log")]);
    assert_eq!(symbols[0].signature.as_deref(), Some("function greet() { hello(); console.log(1); }"));
}

#[test]
fn typescript_methods_belong_to_their_class() {
    let (symbols, calls) =
        extracted("ts", "function f(): void { g(); }\nclass K {\n  m(): void { this.n(); }\n}\n");
    assert_eq!(
        names(&symbols),
        vec![
            t("f", SymbolKind::Function, "f"),
            t("K", SymbolKind::Class, "K"),
            t("m", SymbolKind::Function, "K::m"),
        ]
    );
    assert_eq!(callees(&calls, &symbols), vec![c("f", "g"), c("m", "n")]);
    assert_eq!(symbols[2].parent_temp_id, Some(2));
}

#[test]
fn tsx_components() {
    let (symbols, calls) =
        extracted("tsx", "function App() { return <div>{render()}</div>; }\n");
    assert_eq!(names(&symbols), vec![t("App", SymbolKind::Function, "App")]);
    assert_eq!(callees(&calls, &symbols), vec![c("App", "render")]);
}

#[test]
fn java_methods_and_interfaces() {
    let (symbols, calls) = extracted(
        "java",
        "class A {\n  void run() { helper(); }\n  void helper() {}\n}\ninterface I { void go(); }\n",
    );
    assert_eq!(
        names(&symbols),
        vec![
            t("A", SymbolKind::Class, "A"),
            t("run", SymbolKind::Function, "A::run"),
            t("helper", SymbolKind::Function, "A::helper"),
            t("I", SymbolKind::Class, "I"),
            t("go", SymbolKind::Function, "I::go"),
        ]
    );
    assert_eq!(callees(&calls, &symbols), vec![c("run", "helper")]);
}

#[test]
fn c_functions_and_structs() {
    let (symbols, calls) = extracted(
        "c",
        "struct P { int x; };\nint add(int a, int b) { return a + b; }\nint main() { return add(1, 2); }\n",
    );
    assert_eq!(
        names(&symbols),
        vec![
            t("P", SymbolKind::Class, "P"),
            t("add", SymbolKind::Function, "add"),
            t("main", SymbolKind::Function, "main"),
        ]
    );
    assert_eq!(callees(&calls, &symbols), vec![c("main", "add")]);
    assert_eq!(symbols[1].signature.as_deref(), Some("int add(int a, int b) { return a + b; }"));
}

#[test]
fn cpp_classes_and_member_calls() {
    let (symbols, calls) =
        extracted("cpp", "class W { };\nvoid run() { go(); w.spin(); }\n");
    assert_eq!(
        names(&symbols),
        vec![t("W", SymbolKind::Class, "W"), t("run", SymbolKind::Function, "run")]
    );
    assert_eq!(callees(&calls, &symbols), vec![c("run", "go"), c("run", "spin")]);
}

#[test]
fn go_methods_and_types() {
    let (symbols, calls) = extracted(
        "go",
        "package main\n\ntype T struct{}\n\nfunc (t T) Run() {\n\tt.stop()\n}\n\nfunc (t T) stop() {}\n",
    );
    assert_eq!(
        names(&symbols),
        vec![
            t("T", SymbolKind::Class, "T"),
            t("Run", SymbolKind::Function, "Run"),
            t("stop", SymbolKind::Function, "stop"),
        ]
    );
    assert_eq!(callees(&calls, &symbols), vec![c("Run", "stop")]);
}

#[test]
fn rust_scoped_and_method_calls() {
    let (symbols, calls) = extracted(
        "rs",
        "mod m {\n    pub fn a() { super::b(); x.c(); d(); }\n}\nfn b() {}\n",
    );
    assert_eq!(
        names(&symbols),
        vec![t("a", SymbolKind::Function, "m::a"), t("b", SymbolKind::Function, "b")]
    );
    assert_eq!(callees(&calls, &symbols), vec![c("a", "b"), c("a", "c"), c("a", "d")]);
}

#[test]
fn broken_source_still_yields_a_sound_tree() {
    let parsers = compile_parsers().unwrap();
    let parser = find_parser(&parsers, "py").unwrap();
    let src = parse_source(parser, "def broken(:\n  ((((\n").unwrap();
    assert!(src.tree.check(src.text.chars().count()));
    let (symbols, _calls) = extract(&src.tree, &src.text, &src.matches);
    for s in &symbols {
        assert!(s.is_well_formed());
    }
}

#[test]
fn empty_source_has_no_symbols() {
    let (symbols, calls) = extracted("py", "");
    assert!(symbols.is_empty());
    assert!(calls.is_empty());
}
