use ast_indexer::detector::{Strategy, Tuning};
use ast_indexer::digest::content_hash;
use ast_indexer::indexer::{
    budget_used, index_sources, observe, process_file, run_indexer, IndexOptions, IndexResult,
    RawFile, Source, SourceFile,
};
use ast_indexer::model::{IndexLevel, ParseStatus, SymbolKind};
use ast_indexer::parser::{char_offsets, compile_parsers, find_parser, parse_source};
use ast_indexer::query::{exact_match, progressive_search_multi};
use ast_indexer::registry::{language_for_extension, SourceLanguage};
use ast_indexer::snapshot::run_snapshot;
use ast_indexer::store::Store;
use ast_indexer::syntax::check_matches;

fn parse(extension: &str, text: &str) -> Source {
    let parsers = compile_parsers().unwrap();
    let parser = find_parser(&parsers, extension).unwrap();
    parse_source(parser, text).unwrap()
}

fn parsed(path: &str, text: &str, mtime: i64) -> SourceFile {
    let extension = path.rsplit('.').next().unwrap().to_lowercase();
    SourceFile {
        path: path.to_string(),
        size: text.len() as u64,
        mtime,
        content: Some(parse(&extension, text)),
    }
}

fn observed(path: &str, text: &str, mtime: i64) -> RawFile {
    RawFile { path: path.to_string(), size: text.len() as u64, mtime, text: Some(text.to_string()) }
}

fn index(store: &mut Store, files: &Vec<RawFile>, options: &IndexOptions, now: u64) -> IndexResult {
    let parsers = compile_parsers().unwrap();
    let present: Vec<String> = files.iter().map(|f| f.path.clone()).collect();
    run_indexer(store, files, &present, &parsers, options, now)
}

fn options() -> IndexOptions {
    IndexOptions {
        force_full: false,
        tuning: Tuning::from_settings(None, None),
        allowed_extensions: Vec::new(),
    }
}

fn two_files() -> Vec<RawFile> {
    vec![
        observed("src/a.py", "def foo(): bar()\n", 100),
        observed("src/b.py", "def bar(): pass\n", 100),
    ]
}

#[test]
fn every_registered_query_compiles_for_its_grammar() {
    let parsers = compile_parsers().unwrap();
    assert_eq!(parsers.len(), 14);
    let extensions: Vec<&str> = parsers.iter().map(|p| p.extension).collect();
    assert_eq!(
        extensions,
        vec!["py", "js", "mjs", "cjs", "ts", "tsx", "go", "rs", "java", "c", "h", "cpp", "cc", "hpp"]
    );
    for p in &parsers {
        assert_eq!(language_for_extension(p.extension), Some(p.language));
    }
    assert_eq!(find_parser(&parsers, "tsx").unwrap().language, SourceLanguage::Tsx);
    assert!(find_parser(&parsers, "rb").is_none());
    assert!(find_parser(&parsers, "PY").is_none());
}

#[test]
fn parsed_trees_are_sound() {
    let src = parse("py", "class A:\n    def run(self):\n        helper()\n");
    assert!(src.tree.check(src.text.chars().count()));
    assert!(check_matches(&src.matches, src.tree.nodes.len()));
    let wide = parse("py", "# é ü\ndef f(): g()\n");
    assert!(wide.tree.check(wide.text.chars().count()));
}

#[test]
fn index_of_two_python_files() {
    let mut store = Store::new();
    let files = two_files();
    let summary = index(&mut store, &files, &options(), 1000);
    assert_eq!(summary.total_files, 2);
    assert_eq!(summary.parsed_files, 2);
    assert_eq!(summary.meta_files, 0);
    assert_eq!(summary.skipped_files, 0);
    assert_eq!(summary.strategy, Strategy::FullOrIncremental);
    assert!(store.is_well_formed());
    assert_eq!(store.files.len(), 2);
    let ids: Vec<&str> = store.symbols.iter().map(|s| s.canonical_id.as_str()).collect();
    assert_eq!(ids, vec!["func:src/a.py::foo", "func:src/b.py::bar"]);
    let calls: Vec<_> = store.symbols.iter().flat_map(|s| s.calls.iter()).collect();
    assert_eq!(calls.len(), 1);
    assert_eq!(calls[0].callee_name, "bar");
    assert_eq!(calls[0].callee_id, Some("func:src/b.py::bar".to_string()));
    assert_eq!(store.files[0].file_hash, content_hash("def foo(): bar()\n"));
    assert_eq!(store.files[0].language, "py");
    assert_eq!(store.files[0].line_count, 1);
    assert_eq!(store.files[0].file_size, 17);
    assert_eq!(store.files[0].indexed_at, 1000);
    assert_eq!(store.symbols[0].signature, Some("def foo(): bar()".to_string()));
    assert_eq!((store.symbols[0].line_start, store.symbols[0].line_end), (1, 1));
}

#[test]
fn empty_project_indexes_to_nothing() {
    let mut store = Store::new();
    let summary = index(&mut store, &Vec::new(), &options(), 1);
    assert_eq!(summary.total_files, 0);
    assert_eq!(summary.parsed_files, 0);
    assert_eq!(summary.meta_files, 0);
    assert_eq!(summary.skipped_files, 0);
    assert_eq!(summary.strategy, Strategy::FullOrIncremental);
    assert!(store.files.is_empty());
    assert!(store.symbols.is_empty());
    assert!(exact_match(&store, "foo").is_none());
    assert!(!progressive_search_multi(&store, "foo").found);
}

#[test]
fn second_run_without_changes_skips_everything() {
    let mut store = Store::new();
    let files = two_files();
    index(&mut store, &files, &options(), 1000);
    let after_first = store.clone();
    let summary = index(&mut store, &files, &options(), 2000);
    assert_eq!(summary.skipped_files, 2);
    assert_eq!(summary.parsed_files, 0);
    assert_eq!(summary.meta_files, 0);
    assert_eq!(store, after_first);
}

#[test]
fn unchanged_content_with_a_new_mtime_is_skipped_by_hash() {
    let mut store = Store::new();
    let files = two_files();
    index(&mut store, &files, &options(), 1000);
    let after_first = store.clone();
    let touched = vec![
        observed("src/a.py", "def foo(): bar()\n", 555),
        observed("src/b.py", "def bar(): pass\n", 100),
    ];
    let summary = index(&mut store, &touched, &options(), 2000);
    assert_eq!(summary.skipped_files, 2);
    assert_eq!(summary.parsed_files, 0);
    assert_eq!(store, after_first);
}

#[test]
fn changed_content_with_the_same_size_and_mtime_is_missed() {
    let mut store = Store::new();
    let files = two_files();
    index(&mut store, &files, &options(), 1000);
    let edited = vec![
        observed("src/a.py", "def fox(): bar()\n", 100),
        observed("src/b.py", "def bar(): pass\n", 100),
    ];
    let summary = index(&mut store, &edited, &options(), 2000);
    assert_eq!(summary.skipped_files, 2);
    assert_eq!(summary.parsed_files, 0);
    assert_eq!(store.symbols[0].name, "foo");
}

#[test]
fn changed_file_is_parsed_again() {
    let mut store = Store::new();
    let files = two_files();
    index(&mut store, &files, &options(), 1000);
    let edited = vec![
        observed("src/a.py", "def foo(): pass\n", 200),
        observed("src/b.py", "def bar(): pass\n", 100),
    ];
    let summary = index(&mut store, &edited, &options(), 2000);
    assert_eq!(summary.parsed_files, 1);
    assert_eq!(summary.skipped_files, 1);
    let foo = store.symbols.iter().find(|s| s.name == "foo").unwrap();
    assert!(foo.calls.is_empty());
    assert_eq!(store.files[0].updated_at, 2000);
    assert_eq!(store.files[1].updated_at, 1000);
}

#[test]
fn deleted_file_is_cleaned_up() {
    let mut store = Store::new();
    let files = two_files();
    index(&mut store, &files, &options(), 1000);
    let left = vec![observed("src/a.py", "def foo(): bar()\n", 100)];
    let summary = index(&mut store, &left, &options(), 2000);
    assert_eq!(summary.total_files, 1);
    assert_eq!(summary.skipped_files, 1);
    assert_eq!(store.files.len(), 1);
    assert_eq!(store.files[0].file_path, "src/a.py");
    assert!(exact_match(&store, "bar").is_none());
    assert_eq!(store.symbols.len(), 1);
    assert_eq!(store.symbols[0].calls[0].callee_name, "bar");
    assert_eq!(store.symbols[0].calls[0].callee_id, None);
}

fn five_files() -> Vec<RawFile> {
    (0..5).map(|i| observed(&format!("f{}.py", i), &format!("def f{}(): pass\n", i), 10)).collect()
}

#[test]
fn bootstrap_parses_up_to_the_budget_and_records_the_rest() {
    let mut store = Store::new();
    let files = five_files();
    let opts = IndexOptions {
        force_full: false,
        tuning: Tuning::from_settings(Some(4), Some(2)),
        allowed_extensions: Vec::new(),
    };
    let summary = index(&mut store, &files, &opts, 1000);
    assert_eq!(summary.strategy, Strategy::Bootstrap);
    assert_eq!(summary.parsed_files, 2);
    assert_eq!(summary.meta_files, 3);
    assert_eq!(summary.skipped_files, 0);
    let levels: Vec<IndexLevel> = store.files.iter().map(|f| f.index_level).collect();
    assert_eq!(
        levels,
        vec![IndexLevel::Symbol, IndexLevel::Symbol, IndexLevel::Meta, IndexLevel::Meta, IndexLevel::Meta]
    );
    assert_eq!(store.symbols.len(), 2);
    assert_eq!(store.files[2].file_hash, format!("meta:{}:10", files[2].size));
    assert_eq!(store.files[2].language, "meta");
    assert_eq!(store.files[2].indexed_at, 0);
    assert_eq!(store.files[2].updated_at, 1000);

    let unlimited = IndexOptions {
        force_full: false,
        tuning: Tuning::from_settings(Some(4), Some(usize::MAX)),
        allowed_extensions: Vec::new(),
    };
    let second = index(&mut store, &files, &unlimited, 2000);
    assert_eq!(second.strategy, Strategy::Bootstrap);
    assert_eq!(second.skipped_files, 2);
    assert_eq!(second.parsed_files, 3);
    assert_eq!(second.meta_files, 0);
    assert!(store.files.iter().all(|f| f.index_level == IndexLevel::Symbol));
    assert_eq!(store.symbols.len(), 5);
    assert!(store.is_well_formed());
}

#[test]
fn forced_full_run_ignores_the_budget() {
    let mut store = Store::new();
    let files = five_files();
    let opts = IndexOptions {
        force_full: true,
        tuning: Tuning::from_settings(Some(4), Some(2)),
        allowed_extensions: Vec::new(),
    };
    let summary = index(&mut store, &files, &opts, 1000);
    assert_eq!(summary.strategy, Strategy::ForceFull);
    assert_eq!(summary.parsed_files, 5);
    assert_eq!(summary.meta_files, 0);
}

#[test]
fn small_projects_are_not_bootstrapped() {
    let mut store = Store::new();
    let files = five_files();
    let opts = IndexOptions {
        force_full: false,
        tuning: Tuning::from_settings(Some(5), Some(2)),
        allowed_extensions: Vec::new(),
    };
    let summary = index(&mut store, &files, &opts, 1000);
    assert_eq!(summary.strategy, Strategy::FullOrIncremental);
    assert_eq!(summary.parsed_files, 5);
}

#[test]
fn unsupported_unwanted_and_unreadable_files_are_dropped() {
    let mut store = Store::new();
    let files = vec![
        RawFile { path: "notes.txt".to_string(), size: 1, mtime: 1, text: Some("def x(): pass".to_string()) },
        RawFile { path: "broken.py".to_string(), size: 1, mtime: 1, text: None },
        observed("keep.py", "def keep(): pass\n", 1),
        observed("skip.rs", "fn skip() {}\n", 1),
    ];
    let opts = IndexOptions {
        force_full: false,
        tuning: Tuning::from_settings(None, None),
        allowed_extensions: vec!["py".to_string()],
    };
    let summary = index(&mut store, &files, &opts, 1);
    assert_eq!(summary.total_files, 4);
    assert_eq!(summary.parsed_files, 1);
    assert_eq!(summary.skipped_files, 0);
    assert_eq!(summary.meta_files, 0);
    assert_eq!(store.files.len(), 1);
    assert_eq!(store.files[0].file_path, "keep.py");
}

#[test]
fn source_with_an_unsound_tree_is_dropped() {
    let mut file = parsed("a.py", "def foo(): pass\n", 1);
    if let Some(src) = file.content.as_mut() {
        src.tree.nodes[1].parent = Some(7);
    }
    let r = process_file(None, &file, &Vec::new(), Strategy::FullOrIncremental, 5000, 0);
    assert!(r.is_none());
}

#[test]
fn process_file_results() {
    let file = parsed("pkg/Mod.PY", "class A:\n    def run(self):\n        helper()\n", 7);
    let r = process_file(None, &file, &Vec::new(), Strategy::FullOrIncremental, 5000, 0).unwrap();
    assert_eq!(r.status, ParseStatus::Parsed);
    assert_eq!(r.language, "py");
    assert_eq!(r.index_level, IndexLevel::Symbol);
    assert_eq!(r.line_count, 3);
    assert_eq!(r.file_hash, content_hash("class A:\n    def run(self):\n        helper()\n"));
    assert_eq!(r.symbols.len(), 2);
    assert_eq!(r.symbols[0].name, "A");
    assert_eq!(r.symbols[0].kind, SymbolKind::Class);
    assert_eq!(r.symbols[0].signature, None);
    assert_eq!((r.symbols[0].line_start, r.symbols[0].line_end), (1, 3));
    assert_eq!(r.symbols[1].name, "run");
    assert_eq!(r.symbols[1].scope_path, "A::run");
    assert_eq!(r.symbols[1].parent_temp_id, Some(1));
    assert_eq!(r.symbols[1].signature, Some("def run(self):".to_string()));
    assert_eq!((r.symbols[1].line_start, r.symbols[1].line_end), (2, 3));
    assert_eq!(r.calls.len(), 1);
    assert_eq!(r.calls[0].callee_name, "helper");
    assert_eq!(r.calls[0].caller_temp_id, 2);
    assert_eq!(r.calls[0].line, 3);
    assert!(r.is_well_formed());

    let meta = process_file(None, &file, &Vec::new(), Strategy::Bootstrap, 0, 0).unwrap();
    assert_eq!(meta.status, ParseStatus::MetaOnly);
    assert_eq!(meta.file_hash, format!("meta:{}:7", file.size));
    assert!(meta.symbols.is_empty());
}

#[test]
fn method_calls_are_extracted() {
    let file = parsed("m.py", "def f(x):\n    x.save()\n    g()\n", 1);
    let r = process_file(None, &file, &Vec::new(), Strategy::FullOrIncremental, 5000, 0).unwrap();
    let names: Vec<&str> = r.calls.iter().map(|c| c.callee_name.as_str()).collect();
    assert_eq!(names, vec!["save", "g"]);
    assert_eq!(r.calls[0].line, 2);
    assert_eq!(r.calls[1].line, 3);
}

#[test]
fn rust_and_go_sources_are_extracted() {
    let rs = parsed("lib.rs", "struct S;\nimpl S {\n    fn go(&self) { helper(); }\n}\nfn helper() {}\n", 1);
    let r = process_file(None, &rs, &Vec::new(), Strategy::FullOrIncremental, 5000, 0).unwrap();
    let names: Vec<(&str, SymbolKind)> = r.symbols.iter().map(|s| (s.name.as_str(), s.kind)).collect();
    assert_eq!(
        names,
        vec![
            ("S", SymbolKind::Class),
            ("S", SymbolKind::Class),
            ("go", SymbolKind::Function),
            ("helper", SymbolKind::Function),
        ]
    );
    let go_fn = &r.symbols[2];
    assert_eq!(go_fn.scope_path, "S::go");
    assert_eq!(r.calls.len(), 1);
    assert_eq!(r.calls[0].callee_name, "helper");
    assert_eq!(r.calls[0].caller_temp_id, 3);

    let go = parsed("main.go", "package main\n\nfunc main() {\n\trun()\n}\n\nfunc run() {}\n", 1);
    let g = process_file(None, &go, &Vec::new(), Strategy::FullOrIncremental, 5000, 0).unwrap();
    let gnames: Vec<&str> = g.symbols.iter().map(|s| s.name.as_str()).collect();
    assert_eq!(gnames, vec!["main", "run"]);
    assert_eq!(g.calls[0].callee_name, "run");
    assert_eq!(g.symbols[0].line_start, 3);
    assert_eq!(g.symbols[0].line_end, 5);
}

#[test]
fn byte_offsets_become_character_offsets() {
    assert_eq!(char_offsets("abc"), Some(vec![0, 1, 2, 3]));
    assert_eq!(char_offsets(""), Some(vec![0]));
    assert_eq!(char_offsets("aé€b"), Some(vec![0, 1, 2, 2, 3, 3, 3, 4]));
}

#[test]
fn spans_are_in_characters() {
    let text = "# é ü\ndef f(): g()\n";
    let src = parse("py", text);
    let chars: Vec<char> = text.chars().collect();
    let def = src.tree.nodes.iter().find(|n| n.kind == "function_definition").unwrap();
    let span: String = chars[def.start..def.end].iter().collect();
    assert_eq!(span, "def f(): g()");
    assert_eq!(def.start_row, 1);
    let root = &src.tree.nodes[0];
    assert_eq!(root.parent, None);
    assert_eq!((root.start, root.end), (0, chars.len()));
    for (i, n) in src.tree.nodes.iter().enumerate() {
        if let Some(p) = n.parent {
            assert!(p < i);
            assert!(src.tree.nodes[p].children.contains(&i));
        }
    }
}

#[test]
fn run_over_parsed_files_is_the_run_over_the_files_on_disk() {
    let mut lazy = Store::new();
    index(&mut lazy, &two_files(), &options(), 1000);
    let mut exact = Store::new();
    let files = vec![
        parsed("src/a.py", "def foo(): bar()\n", 100),
        parsed("src/b.py", "def bar(): pass\n", 100),
    ];
    let present: Vec<String> = files.iter().map(|f| f.path.clone()).collect();
    let summary = index_sources(&mut exact, &files, &present, &options(), 1000);
    assert_eq!(summary.parsed_files, 2);
    assert_eq!(lazy, exact);
}

#[test]
fn files_are_parsed_only_where_their_symbols_are_asked_for() {
    let parsers = compile_parsers().unwrap();
    let mut store = Store::new();
    index(&mut store, &two_files(), &options(), 1000);
    let none: Vec<String> = Vec::new();
    let raw = observed("src/a.py", "def foo(): bar()\n", 100);
    let same = observe(Some(&store.files[0]), &raw, &parsers, &none, Strategy::FullOrIncremental, 5000, 0);
    assert!(same.content.is_none());
    let touched = observed("src/a.py", "def foo(): bar()\n", 101);
    let by_hash = observe(Some(&store.files[0]), &touched, &parsers, &none, Strategy::FullOrIncremental, 5000, 0);
    let content = by_hash.content.unwrap();
    assert_eq!(content.text, "def foo(): bar()\n");
    assert!(content.tree.nodes.is_empty());
    let edited = observed("src/a.py", "def foo(): pass\n", 101);
    let fresh = observe(Some(&store.files[0]), &edited, &parsers, &none, Strategy::FullOrIncremental, 5000, 0);
    assert!(!fresh.content.unwrap().tree.nodes.is_empty());
    let past_budget = observe(None, &edited, &parsers, &none, Strategy::Bootstrap, 2, 2);
    assert!(past_budget.content.is_none());
    let unwanted = observe(None, &edited, &parsers, &vec!["rs".to_string()], Strategy::FullOrIncremental, 5000, 0);
    assert!(unwanted.content.is_none());
    assert_eq!((fresh_path(&edited), edited.size, edited.mtime), ("src/a.py".to_string(), 16, 101));
}

fn fresh_path(raw: &RawFile) -> String {
    let parsers = compile_parsers().unwrap();
    observe(None, raw, &parsers, &Vec::new(), Strategy::FullOrIncremental, 5000, 0).path
}

#[test]
fn call_unresolved_by_cleanup_is_resolved_anew_before_the_run_ends() {
    let mut store = Store::new();
    let three = vec![
        observed("a.py", "def foo(): bar()\n", 1),
        observed("b.py", "def bar(): pass\n", 1),
        observed("c.py", "def bar(): pass\n", 1),
    ];
    index(&mut store, &three, &options(), 1);
    assert_eq!(store.symbols[0].calls[0].callee_id.as_deref(), Some("func:b.py::bar"));
    let two = vec![three[0].clone(), three[2].clone()];
    let summary = index(&mut store, &two, &options(), 2);
    assert_eq!(summary.skipped_files, 2);
    assert_eq!(store.symbols[0].calls[0].callee_id.as_deref(), Some("func:c.py::bar"));
    let settled = store.clone();
    let summary = index(&mut store, &two, &options(), 3);
    assert_eq!(summary.skipped_files, 2);
    assert_eq!(store, settled);
    let one = vec![three[0].clone()];
    index(&mut store, &one, &options(), 4);
    assert_eq!(store.symbols[0].calls[0].callee_id, None);
    assert_eq!(store.files.len(), 1);
}

#[test]
fn observed_content_is_what_the_parser_makes_of_the_text() {
    let parsers = compile_parsers().unwrap();
    let none: Vec<String> = Vec::new();
    let text = "def foo(): bar()\n\nclass K:\n    def m(self): foo()\n";
    let raw = observed("pkg/mod.py", text, 7);
    let seen = observe(None, &raw, &parsers, &none, Strategy::FullOrIncremental, 5000, 0);
    let expected = parse_source(find_parser(&parsers, "py").unwrap(), text).unwrap();
    assert_eq!(seen.content, Some(expected));
    let upper = observed("pkg/MOD.PY", text, 7);
    let seen = observe(None, &upper, &parsers, &none, Strategy::FullOrIncremental, 5000, 0);
    assert_eq!(seen.content.unwrap().tree.nodes[0].kind, "module");
    let go = observed("main.go", "package main\n\nfunc main() {}\n", 7);
    let seen = observe(None, &go, &parsers, &none, Strategy::Bootstrap, 1, 0);
    let expected = parse_source(find_parser(&parsers, "go").unwrap(), "package main\n\nfunc main() {}\n");
    assert!(expected.is_some());
    assert_eq!(seen.content, expected);
}

#[test]
fn unchanged_file_among_changed_ones_is_skipped() {
    let mut store = Store::new();
    let files = vec![
        observed("a.py", "def a(): pass\n", 1),
        observed("b.py", "def b(): pass\n", 1),
        observed("c.py", "def c(): pass\n", 1),
    ];
    index(&mut store, &files, &options(), 1000);
    let edited = vec![
        observed("a.py", "def a2(): pass\n", 2),
        observed("b.py", "def x(): pass\n", 1),
        observed("c.py", "def c2(): pass\n", 2),
    ];
    let summary = index(&mut store, &edited, &options(), 2000);
    assert_eq!((summary.parsed_files, summary.skipped_files, summary.meta_files), (2, 1, 0));
    let names: Vec<&str> = store.symbols.iter().map(|s| s.name.as_str()).collect();
    assert_eq!(names, vec!["b", "a2", "c2"]);
    let row = &store.files[store.find_file("b.py").unwrap()];
    assert_eq!(row.updated_at, 1000);
    assert_eq!(row.file_hash, content_hash("def b(): pass\n"));
}

#[test]
fn state_and_snapshot_are_the_same_after_a_run_without_changes() {
    let mut store = Store::new();
    let three = vec![
        observed("a.py", "def foo(): bar()\n", 1),
        observed("b.py", "def bar(): pass\n", 1),
        observed("c.py", "def bar(): pass\n", 1),
    ];
    index(&mut store, &three, &options(), 1);
    let two = vec![three[0].clone(), three[2].clone()];
    index(&mut store, &two, &options(), 2);
    let before = store.clone();
    let summary = index(&mut store, &two, &options(), 3);
    assert_eq!(summary.skipped_files, 2);
    assert_eq!(store, before);
    assert_eq!(run_snapshot(&store, 9).symbols, run_snapshot(&before, 9).symbols);
}

#[test]
fn budget_used_before_each_file() {
    let mut store = Store::new();
    let first = vec![observed("a.py", "def a(): pass\n", 1), observed("b.py", "def b(): pass\n", 1)];
    index(&mut store, &first, &options(), 1);
    let files = vec![
        observed("new1.py", "x", 1),
        observed("a.py", "def a(): pass\n", 1),
        observed("notes.txt", "x", 1),
        observed("b.py", "def b(): pass\n", 2),
        observed("new2.py", "x", 1),
        observed("new3.rs", "x", 1),
    ];
    let none: Vec<String> = Vec::new();
    assert_eq!(budget_used(&store, &files, &none, Strategy::Bootstrap), vec![0, 1, 1, 1, 2, 3]);
    assert_eq!(budget_used(&store, &files, &none, Strategy::FullOrIncremental), vec![0; 6]);
    assert_eq!(budget_used(&store, &files, &none, Strategy::ForceFull), vec![0; 6]);
    let python = vec!["py".to_string()];
    assert_eq!(budget_used(&store, &files, &python, Strategy::Bootstrap), vec![0, 1, 1, 1, 2, 3]);
    let rust = vec!["rs".to_string()];
    assert_eq!(budget_used(&store, &files, &rust, Strategy::Bootstrap), vec![0, 0, 0, 0, 0, 0]);
    assert!(budget_used(&store, &Vec::new(), &none, Strategy::Bootstrap).is_empty());
}

#[test]
fn files_seen_one_by_one_give_the_run_over_the_files_on_disk() {
    let parsers = compile_parsers().unwrap();
    let files = five_files();
    let opts = IndexOptions {
        force_full: false,
        tuning: Tuning::from_settings(Some(4), Some(2)),
        allowed_extensions: Vec::new(),
    };
    let mut whole = Store::new();
    let expected = index(&mut whole, &files, &opts, 1000);
    let mut store = Store::new();
    let used = budget_used(&store, &files, &opts.allowed_extensions, Strategy::Bootstrap);
    assert_eq!(used, vec![0, 1, 2, 3, 4]);
    let sources: Vec<SourceFile> = files
        .iter()
        .zip(used)
        .map(|(raw, seen)| observe(None, raw, &parsers, &opts.allowed_extensions, Strategy::Bootstrap, 2, seen))
        .collect();
    assert!(sources[1].content.is_some() && sources[2].content.is_none());
    let present: Vec<String> = files.iter().map(|f| f.path.clone()).collect();
    let summary = index_sources(&mut store, &sources, &present, &opts, 1000);
    assert_eq!(summary, expected);
    assert_eq!(store, whole);
}
