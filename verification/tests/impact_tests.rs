use ast_indexer::graph::{CallGraph, Direction, Edge};
use ast_indexer::text::contains_string;
use ast_indexer::impact::{
    assess, complexity_level, complexity_score, infos_for, parse_direction, resolve_target,
    risk_level, run_analyze, AnalyzeError, ComplexityLevel, Draw, Reach, RiskLevel,
};
use ast_indexer::model::{
    IndexLevel, ParseResult, ParseStatus, PendingCall, PendingSymbol, SymbolKind,
};
use ast_indexer::query::{get_node_by_id, CallType};
use ast_indexer::store::Store;

fn function(temp_id: usize, name: &str) -> PendingSymbol {
    PendingSymbol {
        temp_id,
        parent_temp_id: None,
        name: name.to_string(),
        qualified_name: name.to_string(),
        scope_path: name.to_string(),
        kind: SymbolKind::Function,
        line_start: temp_id,
        line_end: temp_id,
        text: name.to_string(),
        signature: None,
    }
}

fn file(path: &str, names: &[&str], calls: &[(usize, &str)]) -> ParseResult {
    ParseResult {
        status: ParseStatus::Parsed,
        file_path: path.to_string(),
        file_hash: "h".to_string(),
        file_size: 1,
        file_mtime: 1,
        language: "py".to_string(),
        index_level: IndexLevel::Symbol,
        line_count: 1,
        symbols: names.iter().enumerate().map(|(i, n)| function(i + 1, n)).collect(),
        calls: calls
            .iter()
            .map(|(t, c)| PendingCall { caller_temp_id: *t, callee_name: c.to_string(), line: 1 })
            .collect(),
    }
}

fn edge(caller: &str, callee: &str) -> Edge {
    Edge { caller: caller.to_string(), callee: callee.to_string() }
}

fn sorted(mut v: Vec<String>) -> Vec<String> {
    v.sort();
    v
}

fn chain_graph() -> CallGraph {
    CallGraph {
        edges: vec![
            edge("a", "b"),
            edge("b", "c"),
            edge("c", "d"),
            edge("d", "e"),
            edge("a", "c"),
            edge("a", "b"),
            edge("x", "a"),
        ],
    }
}

#[test]
fn neighbours_follow_the_direction() {
    let g = chain_graph();
    assert_eq!(g.neighbours(Direction::Forward, "a"), vec!["b", "c", "b"]);
    assert_eq!(g.neighbours(Direction::Backward, "c"), vec!["b", "a"]);
    assert_eq!(g.neighbours(Direction::Backward, "a"), vec!["x"]);
    assert!(g.neighbours(Direction::Forward, "e").is_empty());
    assert!(g.neighbours(Direction::Forward, "nowhere").is_empty());
}

#[test]
fn reachability_stops_at_depth_three() {
    let g = chain_graph();
    let r = g.reachable(Direction::Forward, "a");
    assert_eq!(r.direct, vec!["b", "c"]);
    assert_eq!(r.indirect, vec!["d", "e"]);
    let from_x = g.reachable(Direction::Forward, "x");
    assert_eq!(from_x.direct, vec!["a"]);
    assert_eq!(sorted(from_x.indirect.clone()), vec!["b", "c", "d"]);
    assert!(!from_x.indirect.contains(&"e".to_string()));
}

#[test]
fn reachability_backward() {
    let g = chain_graph();
    let r = g.reachable(Direction::Backward, "d");
    assert_eq!(r.direct, vec!["c"]);
    assert_eq!(sorted(r.indirect), vec!["a", "b", "x"]);
    let none = g.reachable(Direction::Backward, "x");
    assert!(none.direct.is_empty() && none.indirect.is_empty());
}

#[test]
fn reachability_counts_the_shortest_way() {
    let g = CallGraph {
        edges: vec![edge("a", "b"), edge("b", "c"), edge("c", "d"), edge("d", "e"), edge("a", "d")],
    };
    let r = g.reachable(Direction::Forward, "a");
    assert_eq!(r.direct, vec!["b", "d"]);
    assert_eq!(sorted(r.indirect), vec!["c", "e"]);
}

#[test]
fn circular_graph_lists_the_other_node_once() {
    let g = CallGraph { edges: vec![edge("A", "B"), edge("B", "A")] };
    let r = g.reachable(Direction::Backward, "A");
    assert_eq!(r.direct, vec!["B"]);
    assert!(r.indirect.is_empty());
    let f = g.reachable(Direction::Forward, "A");
    assert_eq!(f.direct, vec!["B"]);
    assert!(f.indirect.is_empty());
}

#[test]
fn self_call_is_not_its_own_caller() {
    let g = CallGraph { edges: vec![edge("A", "A"), edge("B", "A")] };
    let r = g.reachable(Direction::Backward, "A");
    assert_eq!(r.direct, vec!["B"]);
    assert!(r.indirect.is_empty());
}

#[test]
fn expand_adds_only_unvisited_neighbours() {
    let g = chain_graph();
    let mut visited = vec!["a".to_string(), "c".to_string()];
    let next = g.expand(Direction::Forward, &vec!["a".to_string()], &mut visited);
    assert_eq!(next, vec!["b"]);
    assert_eq!(visited, vec!["a", "c", "b"]);
    assert!(contains_string(&visited, "b"));
    assert!(!contains_string(&visited, "d"));
}

#[test]
fn random_walk_on_a_cycle_terminates() {
    let g = CallGraph { edges: vec![edge("A", "B"), edge("B", "A")] };
    let visited = g.random_walk("A");
    assert_eq!(visited[0], "A");
    assert!(visited.len() >= 1 && visited.len() <= 2);
    for v in &visited {
        assert!(v == "A" || v == "B");
    }
}

#[test]
fn random_walk_without_edges_stays_at_the_start() {
    let g = CallGraph { edges: vec![] };
    assert_eq!(g.random_walk("solo"), vec!["solo"]);
    let away = CallGraph { edges: vec![edge("x", "y")] };
    assert_eq!(away.random_walk("y"), vec!["y"]);
}

#[test]
fn random_walk_visits_within_nine_steps_and_lists_once() {
    let mut edges = Vec::new();
    for i in 0..20 {
        edges.push(edge(&format!("n{}", i), &format!("n{}", i + 1)));
    }
    let g = CallGraph { edges };
    let visited = g.random_walk("n0");
    assert!(visited.len() <= 10);
    for (k, v) in visited.iter().enumerate() {
        assert_eq!(v, &format!("n{}", k));
    }
    assert!(visited.len() >= 2, "a thousand walks all stopped at once");
}

fn go(pick: usize) -> Draw {
    Draw { go_on: true, pick }
}

fn stop() -> Draw {
    Draw { go_on: false, pick: 0 }
}

#[test]
fn walk_goes_to_the_neighbour_that_the_pick_names() {
    let g = chain_graph();
    let next = g.neighbours(Direction::Forward, "a");
    assert_eq!(g.walk_by("a", &vec![go(0)]), vec![next[0].clone()]);
    assert_eq!(g.walk_by("a", &vec![go(1)]), vec![next[1].clone()]);
    assert_eq!(g.walk_by("a", &vec![go(next.len())]), vec![next[0].clone()]);
    assert_eq!(g.walk_by("a", &vec![go(next.len() + 1)]), vec![next[1].clone()]);
    assert_eq!(g.walk_by("x", &vec![go(7), go(0), go(0), go(0)]), vec!["a", "b", "c", "d"]);
}

#[test]
fn walk_ends_with_its_draws_at_a_stop_and_at_a_dead_end() {
    let g = chain_graph();
    assert!(g.walk_by("a", &Vec::new()).is_empty());
    assert!(g.walk_by("a", &vec![stop(), go(0)]).is_empty());
    assert_eq!(g.walk_by("b", &vec![go(0), stop(), go(0)]), vec!["c"]);
    assert_eq!(g.walk_by("c", &vec![go(0); 9]), vec!["d", "e"]);
    assert!(g.walk_by("e", &vec![go(0); 9]).is_empty());
    assert!(g.walk_by("nowhere", &vec![go(0); 9]).is_empty());
}

#[test]
fn walk_goes_on_to_nine_nodes_at_most() {
    let g = CallGraph { edges: vec![edge("A", "B"), edge("B", "A")] };
    let round = g.walk_by("A", &vec![go(0); 20]);
    assert_eq!(round, vec!["B", "A", "B", "A", "B", "A", "B", "A", "B"]);
    let mut edges = Vec::new();
    for i in 0..20 {
        edges.push(edge(&format!("n{}", i), &format!("n{}", i + 1)));
    }
    let line = CallGraph { edges };
    let far = line.walk_by("n0", &vec![go(3); 12]);
    assert_eq!(far.len(), 9);
    assert_eq!(far.last().unwrap(), "n9");
}

#[test]
fn visited_nodes_are_listed_where_they_are_first_visited() {
    let g = chain_graph();
    let walks = vec![
        vec![stop()],
        vec![go(1), go(0), stop()],
        vec![go(0), go(0), go(0), go(0), go(0)],
        vec![],
    ];
    assert_eq!(g.visit_by("a", &walks), vec!["a", "c", "d", "b", "e"]);
    assert_eq!(g.visit_by("a", &Vec::new()), vec!["a"]);
    assert_eq!(g.visit_by("a", &vec![vec![stop()]; 1000]), vec!["a"]);
    assert_eq!(g.visit_by("e", &vec![vec![go(5); 9]; 3]), vec!["e"]);
    let cycle = CallGraph { edges: vec![edge("A", "B"), edge("B", "A")] };
    assert_eq!(cycle.visit_by("A", &vec![vec![go(0); 9]; 2]), vec!["A", "B"]);
}

#[test]
fn complexity_score_in_half_points() {
    assert_eq!(complexity_score(0, 0, 0), 0);
    assert_eq!(complexity_score(1, 0, 1), 3);
    assert_eq!(complexity_score(2, 1, 1), 8);
    assert_eq!(complexity_score(10, 3, 4), 30);
    assert_eq!(complexity_score(100, 20, 20), 200);
    assert_eq!(complexity_score(200, 0, 0), 200);
    assert_eq!(complexity_score(199, 0, 0), 199);
    assert_eq!(complexity_score(usize::MAX, usize::MAX, usize::MAX), 200);
    assert_eq!(complexity_score(0, 50, 0), 200);
    assert_eq!(complexity_score(0, 0, 99), 198);
}

#[test]
fn complexity_levels() {
    assert_eq!(complexity_level(0), ComplexityLevel::Simple);
    assert_eq!(complexity_level(39), ComplexityLevel::Simple);
    assert_eq!(complexity_level(40), ComplexityLevel::Medium);
    assert_eq!(complexity_level(99), ComplexityLevel::Medium);
    assert_eq!(complexity_level(100), ComplexityLevel::High);
    assert_eq!(complexity_level(159), ComplexityLevel::High);
    assert_eq!(complexity_level(160), ComplexityLevel::Extreme);
    assert_eq!(complexity_level(200), ComplexityLevel::Extreme);
    assert_eq!(ComplexityLevel::Simple.name(), "Simple");
    assert_eq!(ComplexityLevel::Medium.name(), "Medium");
    assert_eq!(ComplexityLevel::High.name(), "High");
    assert_eq!(ComplexityLevel::Extreme.name(), "Extreme");
}

#[test]
fn risk_levels() {
    assert_eq!(risk_level(0), RiskLevel::Low);
    assert_eq!(risk_level(3), RiskLevel::Low);
    assert_eq!(risk_level(4), RiskLevel::Medium);
    assert_eq!(risk_level(10), RiskLevel::Medium);
    assert_eq!(risk_level(11), RiskLevel::High);
    assert_eq!(RiskLevel::Low.name(), "low");
    assert_eq!(RiskLevel::Medium.name(), "medium");
    assert_eq!(RiskLevel::High.name(), "high");
}

#[test]
fn direction_names() {
    assert_eq!(parse_direction("forward"), Direction::Forward);
    assert_eq!(parse_direction("FORWARD"), Direction::Forward);
    assert_eq!(parse_direction("Forward"), Direction::Forward);
    assert_eq!(parse_direction("backward"), Direction::Backward);
    assert_eq!(parse_direction("both"), Direction::Backward);
    assert_eq!(parse_direction(""), Direction::Backward);
}

fn circular_store() -> Store {
    let mut store = Store::new();
    store.persist(&file("a.py", &["A"], &[(1, "B")]), 1);
    store.persist(&file("b.py", &["B"], &[(1, "A")]), 1);
    store.link();
    store
}

#[test]
fn graph_is_built_from_resolved_edges() {
    let g = CallGraph::build(&circular_store());
    assert_eq!(g.edges, vec![edge("func:a.py::A", "func:b.py::B"), edge("func:b.py::B", "func:a.py::A")]);
}

#[test]
fn unresolved_edges_go_to_every_symbol_of_the_name() {
    let mut store = Store::new();
    store.persist(&file("a.py", &["main"], &[(1, "helper"), (1, "missing")]), 1);
    store.persist(&file("b.py", &["helper"], &[]), 1);
    store.persist(&file("c.py", &["helper"], &[]), 1);
    let g = CallGraph::build(&store);
    assert_eq!(
        g.edges,
        vec![edge("func:a.py::main", "func:b.py::helper"), edge("func:a.py::main", "func:c.py::helper")]
    );
    store.link();
    let linked = CallGraph::build(&store);
    assert_eq!(linked.edges, vec![edge("func:a.py::main", "func:b.py::helper")]);
}

#[test]
fn analysis_of_a_circular_graph() {
    let store = circular_store();
    let a = run_analyze(&store, "A", Direction::Backward).unwrap();
    assert_eq!(a.node_id, "func:a.py::A");
    assert_eq!(a.direct_callers.len(), 1);
    assert_eq!(a.direct_callers[0].node.name, "B");
    assert_eq!(a.direct_callers[0].call_type, CallType::Direct);
    assert!(a.indirect_callers.is_empty());
    assert_eq!(a.affected_nodes, 1);
    assert_eq!(a.risk_level, RiskLevel::Low);
    assert!(a.coverage >= 1 && a.coverage <= 2);
    assert_eq!(a.complexity_score as usize, a.coverage + 4 + 2);
    assert!(a.complexity_score <= 200);
    assert_eq!(a.complexity_level, ComplexityLevel::Simple);
}

#[test]
fn analysis_forward_and_backward_differ() {
    let mut store = Store::new();
    store.persist(&file("m.py", &["top", "mid", "low", "leaf"], &[(1, "mid"), (2, "low"), (3, "leaf")]), 1);
    store.link();
    let back = run_analyze(&store, "leaf", Direction::Backward).unwrap();
    let names = |v: &Vec<ast_indexer::query::CallerInfo>| -> Vec<String> {
        v.iter().map(|c| c.node.name.clone()).collect()
    };
    assert_eq!(names(&back.direct_callers), vec!["low"]);
    assert_eq!(names(&back.indirect_callers), vec!["mid", "top"]);
    assert!(back.indirect_callers.iter().all(|c| c.call_type == CallType::Indirect));
    assert_eq!(back.affected_nodes, 3);
    assert_eq!(back.coverage, 1);
    assert_eq!(back.complexity_score, 1 + 2);
    let fwd = run_analyze(&store, "leaf", Direction::Forward).unwrap();
    assert!(fwd.direct_callers.is_empty());
    assert!(fwd.indirect_callers.is_empty());
    let top = run_analyze(&store, "top", Direction::Forward).unwrap();
    assert_eq!(names(&top.direct_callers), vec!["mid"]);
    assert_eq!(names(&top.indirect_callers), vec!["low", "leaf"]);
}

#[test]
fn analysis_target_is_exact_first_then_fuzzy() {
    let mut store = Store::new();
    store.persist(&file("m.py", &["run_all", "run"], &[]), 1);
    assert_eq!(resolve_target(&store, "run").unwrap().name, "run");
    assert_eq!(resolve_target(&store, "un_a").unwrap().name, "run_all");
    assert!(resolve_target(&store, "walk").is_none());
}

#[test]
fn analysis_of_an_unknown_symbol_fails() {
    let store = circular_store();
    assert_eq!(run_analyze(&store, "nothing", Direction::Backward), Err(AnalyzeError::SymbolNotFound));
    assert_eq!(run_analyze(&Store::new(), "A", Direction::Backward), Err(AnalyzeError::SymbolNotFound));
}

#[test]
fn analysis_fails_on_a_node_without_a_row() {
    let mut store = circular_store();
    store.symbols[0].calls[0].callee_id = Some("func:gone.py::B".to_string());
    assert_eq!(run_analyze(&store, "A", Direction::Forward), Err(AnalyzeError::NodeNotFound));
    assert!(run_analyze(&store, "A", Direction::Backward).is_ok());
}

#[test]
fn assessment_for_a_given_coverage() {
    let store = circular_store();
    let graph = CallGraph::build(&store);
    let target = get_node_by_id(&store, "func:a.py::A").unwrap();
    let reach = graph.reachable(Direction::Backward, "func:a.py::A");
    let a = assess(&store, &graph, &target, &reach, 30).unwrap();
    assert_eq!(a.coverage, 30);
    assert_eq!(a.complexity_score, 36);
    assert_eq!(a.complexity_level, ComplexityLevel::Simple);
    let b = assess(&store, &graph, &target, &reach, 40).unwrap();
    assert_eq!(b.complexity_score, 46);
    assert_eq!(b.complexity_level, ComplexityLevel::Medium);
    let missing = Reach { direct: vec!["func:zz.py::q".to_string()], indirect: vec![] };
    assert_eq!(assess(&store, &graph, &target, &missing, 1), Err(AnalyzeError::NodeNotFound));
}

#[test]
fn infos_are_the_nodes_of_the_identifiers() {
    let store = circular_store();
    let ids = vec!["func:b.py::B".to_string(), "func:a.py::A".to_string()];
    let infos = infos_for(&store, &ids, CallType::Indirect).unwrap();
    assert_eq!(infos.len(), 2);
    assert_eq!(infos[0].node.name, "B");
    assert_eq!(infos[1].node.file_path, "a.py");
    assert!(infos_for(&store, &vec!["nope".to_string()], CallType::Direct).is_none());
    assert_eq!(infos_for(&store, &vec![], CallType::Direct), Some(vec![]));
}
