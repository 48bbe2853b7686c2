use ast_indexer::parser::{
    assemble_parsers, build_tree, char_offsets, compile_parsers, find_parser, finish_source,
    parse_source, resolve_capture, Attempt, NodeFacts, RawCapture, Step,
};
use ast_indexer::registry::{capture_query, SourceLanguage};
use ast_indexer::syntax::{Capture, CaptureKind};

fn facts(kind: &str, start_byte: usize, end_byte: usize, row: usize) -> NodeFacts {
    NodeFacts { kind: kind.to_string(), start_byte, end_byte, start_row: row, end_row: row }
}

fn step(kind: &str, start_byte: usize, end_byte: usize, down: bool, ups: usize) -> Step {
    Step { facts: facts(kind, start_byte, end_byte, 0), down, ups }
}

fn family() -> Vec<Step> {
    vec![
        step("module", 0, 5, false, 0),
        step("a", 0, 3, true, 0),
        step("b", 1, 3, true, 0),
        step("c", 3, 4, false, 1),
        step("d", 4, 5, false, 0),
    ]
}

#[test]
fn tree_is_built_in_the_order_of_the_walk() {
    let offsets = char_offsets("aé b").unwrap();
    assert_eq!(offsets, vec![0, 1, 2, 2, 3, 4]);
    let nodes = build_tree(&family(), &offsets).unwrap();
    let kinds: Vec<&str> = nodes.iter().map(|n| n.kind.as_str()).collect();
    assert_eq!(kinds, vec!["module", "a", "b", "c", "d"]);
    let parents: Vec<Option<usize>> = nodes.iter().map(|n| n.parent).collect();
    assert_eq!(parents, vec![None, Some(0), Some(1), Some(0), Some(0)]);
    assert_eq!(nodes[0].children, vec![1, 3, 4]);
    assert_eq!(nodes[1].children, vec![2]);
    assert!(nodes[2].children.is_empty());
    let spans: Vec<(usize, usize)> = nodes.iter().map(|n| (n.start, n.end)).collect();
    assert_eq!(spans, vec![(0, 4), (0, 2), (1, 2), (2, 3), (3, 4)]);
}

#[test]
fn rows_are_kept_as_they_were_read() {
    let steps = vec![Step { facts: facts("module", 0, 1, 7), down: false, ups: 0 }];
    let nodes = build_tree(&steps, &vec![0, 1]).unwrap();
    assert_eq!((nodes[0].start_row, nodes[0].end_row), (7, 7));
}

#[test]
fn siblings_of_the_root_have_no_parent() {
    let steps = vec![step("x", 0, 1, false, 0), step("y", 1, 2, false, 0)];
    let nodes = build_tree(&steps, &vec![0, 1, 2]).unwrap();
    assert_eq!(nodes[1].parent, None);
    assert!(nodes[0].children.is_empty());
}

#[test]
fn empty_walk_gives_an_empty_tree() {
    let nodes = build_tree(&Vec::new(), &vec![0]).unwrap();
    assert!(nodes.is_empty());
}

#[test]
fn walk_that_cannot_have_gone_so_gives_no_tree() {
    let offsets = vec![0, 1, 2, 3, 4, 5];
    assert!(build_tree(&vec![step("x", 0, 1, true, 0)], &offsets).is_none());
    assert!(build_tree(&vec![step("x", 0, 1, false, 1)], &offsets).is_none());
    let mut up_too_far = family();
    up_too_far[3].ups = 3;
    assert!(build_tree(&up_too_far, &offsets).is_none());
    let mut just_far_enough = family();
    just_far_enough[3].ups = 2;
    let nodes = build_tree(&just_far_enough, &offsets).unwrap();
    assert_eq!(nodes[3].parent, None);
}

#[test]
fn span_outside_of_the_table_gives_no_tree() {
    assert!(build_tree(&family(), &vec![0, 1, 2, 3, 4]).is_none());
    assert!(build_tree(&vec![step("x", 6, 7, false, 0)], &vec![0, 1]).is_none());
    assert!(build_tree(&family(), &vec![0, 1, 2, 3, 4, 5]).is_some());
}

fn raw(name: &str, kind: &str, start_byte: usize, end_byte: usize) -> RawCapture {
    RawCapture { name: name.to_string(), kind: kind.to_string(), start_byte, end_byte }
}

#[test]
fn capture_names_the_last_node_of_its_kind_and_span() {
    let steps = vec![
        step("x", 0, 1, false, 0),
        step("y", 0, 1, true, 0),
        step("x", 0, 1, true, 0),
        step("x", 0, 2, false, 2),
    ];
    assert_eq!(resolve_capture(&steps, &raw("name", "x", 0, 1)), Some(2));
    assert_eq!(resolve_capture(&steps, &raw("name", "y", 0, 1)), Some(1));
    assert_eq!(resolve_capture(&steps, &raw("name", "x", 0, 2)), Some(3));
    assert_eq!(resolve_capture(&steps, &raw("name", "y", 0, 2)), None);
    assert_eq!(resolve_capture(&steps, &raw("name", "x", 1, 1)), None);
    assert_eq!(resolve_capture(&Vec::new(), &raw("name", "x", 0, 1)), None);
}

#[test]
fn source_is_finished_from_nodes_and_raw_matches() {
    let text = "abcd ";
    let offsets = char_offsets(text).unwrap();
    let steps = family();
    let nodes = build_tree(&steps, &offsets).unwrap();
    let found = vec![
        vec![raw("def.func", "a", 0, 3), raw("name", "b", 1, 3)],
        vec![],
        vec![raw("callee", "d", 4, 5), raw("ref.call", "c", 3, 4), raw("something", "module", 0, 5)],
    ];
    let src = finish_source(text, &steps, nodes.clone(), &found).unwrap();
    assert_eq!(src.text, text);
    assert_eq!(src.tree.nodes, nodes);
    assert_eq!(src.matches.len(), 3);
    assert_eq!(
        src.matches[0].captures,
        vec![
            Capture { kind: CaptureKind::DefFunc, node: 1 },
            Capture { kind: CaptureKind::Name, node: 2 },
        ]
    );
    assert!(src.matches[1].captures.is_empty());
    assert_eq!(
        src.matches[2].captures,
        vec![
            Capture { kind: CaptureKind::Callee, node: 4 },
            Capture { kind: CaptureKind::RefCall, node: 3 },
            Capture { kind: CaptureKind::Other, node: 0 },
        ]
    );
}

#[test]
fn capture_of_an_unknown_node_gives_no_source() {
    let text = "abcd ";
    let steps = family();
    let nodes = build_tree(&steps, &char_offsets(text).unwrap()).unwrap();
    let found = vec![vec![raw("name", "a", 0, 3)], vec![raw("name", "a", 0, 4)]];
    assert!(finish_source(text, &steps, nodes, &found).is_none());
}

#[test]
fn nodes_that_are_not_those_of_the_walk_give_no_source() {
    let text = "abcd ";
    let steps = family();
    let mut nodes = build_tree(&steps, &char_offsets(text).unwrap()).unwrap();
    let found = vec![vec![raw("name", "d", 4, 5)]];
    assert!(finish_source(text, &steps, nodes.clone(), &found).is_some());
    nodes.pop();
    nodes[0].children.pop();
    assert!(finish_source(text, &steps, nodes, &found).is_none());
}

#[test]
fn tree_that_does_not_fit_the_text_gives_no_source() {
    let steps = family();
    let nodes = build_tree(&steps, &vec![0, 1, 2, 3, 4, 5]).unwrap();
    assert!(finish_source("abcd", &steps, nodes.clone(), &Vec::new()).is_none());
    assert!(finish_source("abcde", &steps, nodes, &Vec::new()).is_some());
}

fn attempt(extension: &'static str, language: SourceLanguage, query: &str) -> Attempt {
    let grammar = match language {
        SourceLanguage::Go => tree_sitter_go::language(),
        _ => tree_sitter_python::language(),
    };
    Attempt { extension, language, grammar, query: tree_sitter::Query::new(grammar, query).ok() }
}

#[test]
fn parsers_are_assembled_where_every_query_compiled() {
    let attempts = vec![
        attempt("py", SourceLanguage::Python, capture_query(SourceLanguage::Python)),
        attempt("go", SourceLanguage::Go, capture_query(SourceLanguage::Go)),
    ];
    let parsers = assemble_parsers(attempts).unwrap();
    assert_eq!(parsers.len(), 2);
    assert_eq!((parsers[0].extension, parsers[0].language), ("py", SourceLanguage::Python));
    assert_eq!((parsers[1].extension, parsers[1].language), ("go", SourceLanguage::Go));
    assert_eq!(parsers[0].grammar, tree_sitter_python::language());
    assert_eq!(parsers[1].grammar, tree_sitter_go::language());
    assert_eq!(parsers[1].query.capture_names().len(), 5);
    let src = parse_source(&parsers[1], "package main\n\nfunc main() {}\n").unwrap();
    assert!(src.tree.nodes.iter().any(|n| n.kind == "function_declaration"));
    assert!(assemble_parsers(Vec::new()).unwrap().is_empty());
}

#[test]
fn no_parsers_where_a_query_did_not_compile() {
    let attempts = vec![
        attempt("py", SourceLanguage::Python, capture_query(SourceLanguage::Python)),
        attempt("go", SourceLanguage::Go, "(no_such_node) @name"),
    ];
    assert!(attempts[1].query.is_none());
    assert!(assemble_parsers(attempts).is_none());
}

#[test]
fn each_parser_has_the_grammar_of_its_language() {
    let parsers = compile_parsers().unwrap();
    let grammar = |extension: &str| {
        parsers.iter().find(|p| p.extension == extension).unwrap().grammar
    };
    assert_eq!(grammar("py"), tree_sitter_python::language());
    assert_eq!(grammar("js"), tree_sitter_javascript::language());
    assert_eq!(grammar("mjs"), tree_sitter_javascript::language());
    assert_eq!(grammar("cjs"), tree_sitter_javascript::language());
    assert_eq!(grammar("ts"), tree_sitter_typescript::language_typescript());
    assert_eq!(grammar("tsx"), tree_sitter_typescript::language_tsx());
    assert_eq!(grammar("go"), tree_sitter_go::language());
    assert_eq!(grammar("rs"), tree_sitter_rust::language());
    assert_eq!(grammar("java"), tree_sitter_java::language());
    assert_eq!(grammar("c"), tree_sitter_c::language());
    assert_eq!(grammar("h"), tree_sitter_c::language());
    assert_eq!(grammar("cpp"), tree_sitter_cpp::language());
    assert_eq!(grammar("cc"), tree_sitter_cpp::language());
    assert_eq!(grammar("hpp"), tree_sitter_cpp::language());
}

#[test]
fn parsed_tree_is_the_tree_of_a_walk_from_the_root() {
    let parsers = compile_parsers().unwrap();
    let text = "def f():\n    g()\n";
    let src = parse_source(&parsers[0], text).unwrap();
    let nodes = &src.tree.nodes;
    assert_eq!(nodes[0].kind, "module");
    assert_eq!(nodes[0].parent, None);
    assert_eq!(nodes[1].kind, "function_definition");
    assert_eq!(nodes[1].parent, Some(0));
    for (i, n) in nodes.iter().enumerate() {
        for (k, c) in n.children.iter().enumerate() {
            assert_eq!(nodes[*c].parent, Some(i));
            if k > 0 {
                assert!(n.children[k - 1] < *c);
            }
        }
        if let Some(p) = n.parent {
            assert!(p < i);
            assert!(nodes[p].start <= n.start && n.end <= nodes[p].end);
        }
    }
    assert_eq!(src.matches.len(), 2);
}

#[test]
fn first_parser_of_an_extension_is_found() {
    let parsers = compile_parsers().unwrap();
    assert_eq!(parsers.len(), 14);
    let found = find_parser(&parsers, "rs").unwrap();
    assert_eq!((found.extension, found.language), ("rs", SourceLanguage::Rust));
    assert!(find_parser(&parsers, "RS").is_none());
    assert!(find_parser(&parsers, "txt").is_none());
    assert!(find_parser(&Vec::new(), "rs").is_none());
}

#[test]
fn captures_name_the_nodes_that_the_query_captured() {
    let parsers = compile_parsers().unwrap();
    let text = "def f():\n    g()\n\nclass K:\n    pass\n";
    let src = parse_source(find_parser(&parsers, "py").unwrap(), text).unwrap();
    let chars: Vec<char> = text.chars().collect();
    let seen: Vec<Vec<(CaptureKind, String, String)>> = src
        .matches
        .iter()
        .map(|m| {
            m.captures
                .iter()
                .map(|c| {
                    let n = &src.tree.nodes[c.node];
                    (c.kind, n.kind.clone(), chars[n.start..n.end].iter().collect())
                })
                .collect()
        })
        .collect();
    let def = |kind: CaptureKind, node: &str, text: &str| (kind, node.to_string(), text.to_string());
    assert_eq!(
        seen,
        vec![
            vec![
                def(CaptureKind::DefFunc, "function_definition", "def f():\n    g()"),
                def(CaptureKind::Name, "identifier", "f"),
            ],
            vec![def(CaptureKind::RefCall, "call", "g()"), def(CaptureKind::Callee, "identifier", "g")],
            vec![
                def(CaptureKind::DefClass, "class_definition", "class K:\n    pass"),
                def(CaptureKind::Name, "identifier", "K"),
            ],
        ]
    );
}

#[test]
fn spans_are_in_characters_where_the_text_is_not_ascii() {
    let parsers = compile_parsers().unwrap();
    let text = "# é\ndef f():\n    pass\n";
    let src = parse_source(find_parser(&parsers, "py").unwrap(), text).unwrap();
    let chars: Vec<char> = text.chars().collect();
    let name = src.matches[0].captures.iter().find(|c| c.kind == CaptureKind::Name).unwrap();
    let node = &src.tree.nodes[name.node];
    assert_eq!((node.start, node.end), (8, 9));
    assert_eq!(chars[node.start..node.end].iter().collect::<String>(), "f");
    assert_eq!((node.start_row, node.end_row), (1, 1));
}

#[test]
fn empty_text_parses_to_a_root_alone() {
    let parsers = compile_parsers().unwrap();
    let src = parse_source(find_parser(&parsers, "py").unwrap(), "").unwrap();
    assert_eq!(src.tree.nodes.len(), 1);
    assert_eq!(src.tree.nodes[0].kind, "module");
    assert!(src.matches.is_empty());
}
