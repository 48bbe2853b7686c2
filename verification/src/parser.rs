//! Parsing with tree-sitter: the grammars and compiled capture queries of
//! the registry, and the conversion of a parsed file into the plain syntax
//! tree and matches that extraction works on.

use vstd::prelude::*;
use vstd::string::*;
use vstd::utf8::encode_utf8;
use crate::indexer::Source;
use crate::indexer::SourceView;
use crate::registry::{
    get_parser_setup, language_of, query_of, supported_extensions, SourceLanguage,
};
use crate::syntax::{
    capture_kind, capture_kind_of, tree_wf, Capture, QueryMatch, SyntaxNode, SyntaxNodeView,
    SyntaxTree,
};
use crate::text::{same_text, to_chars};

verus! {

/// `tree_sitter::Language`: a grammar. Nothing is known of its inside.
#[verifier::external_type_specification]
#[verifier::external_body]
pub struct ExGrammar(tree_sitter::Language);

/// `tree_sitter::Query`: a compiled query. Nothing is known of its inside.
#[verifier::external_type_specification]
#[verifier::external_body]
pub struct ExQuery(tree_sitter::Query);

/// `tree_sitter::Tree`: a syntax tree. Nothing is known of its inside.
#[verifier::external_type_specification]
#[verifier::external_body]
pub struct ExTree(tree_sitter::Tree);

/// `tree_sitter::TreeCursor`: a place in a syntax tree. Nothing is known of
/// its inside.
#[verifier::external_type_specification]
#[verifier::external_body]
pub struct ExTreeCursor<'a>(tree_sitter::TreeCursor<'a>);

/// `tree_sitter_python::language`: the Python grammar.
#[verifier::external_body]
fn python_grammar() -> tree_sitter::Language {
    tree_sitter_python::language()
}

/// `tree_sitter_javascript::language`: the JavaScript grammar.
#[verifier::external_body]
fn javascript_grammar() -> tree_sitter::Language {
    tree_sitter_javascript::language()
}

/// `tree_sitter_typescript::language_typescript`: the TypeScript grammar.
#[verifier::external_body]
fn typescript_grammar() -> tree_sitter::Language {
    tree_sitter_typescript::language_typescript()
}

/// `tree_sitter_typescript::language_tsx`: the TSX grammar.
#[verifier::external_body]
fn tsx_grammar() -> tree_sitter::Language {
    tree_sitter_typescript::language_tsx()
}

/// `tree_sitter_go::language`: the Go grammar.
#[verifier::external_body]
fn go_grammar() -> tree_sitter::Language {
    tree_sitter_go::language()
}

/// `tree_sitter_rust::language`: the Rust grammar.
#[verifier::external_body]
fn rust_grammar() -> tree_sitter::Language {
    tree_sitter_rust::language()
}

/// `tree_sitter_java::language`: the Java grammar.
#[verifier::external_body]
fn java_grammar() -> tree_sitter::Language {
    tree_sitter_java::language()
}

/// `tree_sitter_c::language`: the C grammar.
#[verifier::external_body]
fn c_grammar() -> tree_sitter::Language {
    tree_sitter_c::language()
}

/// `tree_sitter_cpp::language`: the C++ grammar.
#[verifier::external_body]
fn cpp_grammar() -> tree_sitter::Language {
    tree_sitter_cpp::language()
}


/// What `Query::new` gives for a grammar and a query text: the compiled
/// query, or nothing where the grammar refuses the text.
pub uninterp spec fn compiled(grammar: tree_sitter::Language, source: Seq<char>) -> Option<
    tree_sitter::Query,
>;

/// `Query::new` of tree-sitter: the compiled query, or nothing where the
/// grammar refuses the query text. Only the capture queries of the registry
/// are handed to it: in each of them every name is followed by a bracket, a
/// space or a line feed, so that no refused name runs to the end of the text,
/// where the making of the error would fail.
#[verifier::external_body]
fn compile_query(grammar: &tree_sitter::Language, source: &str) -> (r: Option<tree_sitter::Query>)
    requires
        exists|language: SourceLanguage| source@ == query_of(language),
    ensures
        r == compiled(*grammar, source@),
{
    tree_sitter::Query::new(*grammar, source).ok()
}

/// What `Parser::parse` gives for a grammar and a text: the syntax tree, or
/// nothing where the parser gives none.
pub uninterp spec fn tree_of(grammar: tree_sitter::Language, text: Seq<char>) -> Option<
    tree_sitter::Tree,
>;

/// `Parser::parse` of tree-sitter, on a new parser that is set to the
/// grammar: the syntax tree of the text, or nothing where the parser gives
/// none.
#[verifier::external_body]
fn parse_text(grammar: &tree_sitter::Language, text: &str) -> (r: Option<tree_sitter::Tree>)
    ensures
        r == tree_of(*grammar, text@),
{
    let mut parser = tree_sitter::Parser::new();
    parser.set_language(*grammar).ok()?;
    parser.parse(text, None)
}

/// The cursor that `Tree::walk` gives: at the root of the tree.
pub uninterp spec fn root_place(tree: tree_sitter::Tree) -> tree_sitter::TreeCursor<'static>;

/// `Tree::walk` of tree-sitter: a cursor at the root of the tree.
#[verifier::external_body]
fn walk<'a>(tree: &'a tree_sitter::Tree) -> (r: tree_sitter::TreeCursor<'a>)
    ensures
        r == root_place(*tree),
{
    tree.walk()
}

/// What `TreeCursor::goto_first_child` does to a cursor: whether it moved,
/// and the cursor afterwards.
pub uninterp spec fn below(cursor: tree_sitter::TreeCursor<'static>) -> (
    bool,
    tree_sitter::TreeCursor<'static>,
);

/// `TreeCursor::goto_first_child` of tree-sitter: moves to the first child
/// and says whether there was one.
#[verifier::external_body]
fn goto_first_child(cursor: &mut tree_sitter::TreeCursor) -> (r: bool)
    ensures
        r == below(*old(cursor)).0,
        *final(cursor) == below(*old(cursor)).1,
{
    cursor.goto_first_child()
}

/// What `TreeCursor::goto_next_sibling` does to a cursor: whether it moved,
/// and the cursor afterwards.
pub uninterp spec fn beside(cursor: tree_sitter::TreeCursor<'static>) -> (
    bool,
    tree_sitter::TreeCursor<'static>,
);

/// `TreeCursor::goto_next_sibling` of tree-sitter: moves to the next
/// sibling and says whether there was one.
#[verifier::external_body]
fn goto_next_sibling(cursor: &mut tree_sitter::TreeCursor) -> (r: bool)
    ensures
        r == beside(*old(cursor)).0,
        *final(cursor) == beside(*old(cursor)).1,
{
    cursor.goto_next_sibling()
}

/// What `TreeCursor::goto_parent` does to a cursor: whether it moved, and
/// the cursor afterwards.
pub uninterp spec fn above(cursor: tree_sitter::TreeCursor<'static>) -> (
    bool,
    tree_sitter::TreeCursor<'static>,
);

/// `TreeCursor::goto_parent` of tree-sitter: moves to the parent and says
/// whether there was one.
#[verifier::external_body]
fn goto_parent(cursor: &mut tree_sitter::TreeCursor) -> (r: bool)
    ensures
        r == above(*old(cursor)).0,
        *final(cursor) == above(*old(cursor)).1,
{
    cursor.goto_parent()
}

/// What is read of a node of a tree-sitter tree: its kind, its span in
/// bytes and its rows.
#[derive(Clone, Debug, PartialEq, Eq)]
pub struct NodeFacts {
    pub kind: String,
    pub start_byte: usize,
    pub end_byte: usize,
    pub start_row: usize,
    pub end_row: usize,
}

/// What a `NodeFacts` holds, as mathematical values.
pub struct NodeFactsView {
    pub kind: Seq<char>,
    pub start_byte: usize,
    pub end_byte: usize,
    pub start_row: usize,
    pub end_row: usize,
}

impl View for NodeFacts {
    type V = NodeFactsView;

    open spec fn view(&self) -> NodeFactsView {
        NodeFactsView {
            kind: self.kind@,
            start_byte: self.start_byte,
            end_byte: self.end_byte,
            start_row: self.start_row,
            end_row: self.end_row,
        }
    }
}

/// What is read of the node at a cursor.
pub uninterp spec fn read_at(cursor: tree_sitter::TreeCursor<'static>) -> NodeFactsView;

/// `TreeCursor::node` of tree-sitter, with the node's `kind`, `start_byte`,
/// `end_byte`, `start_position` and `end_position` as plain values.
#[verifier::external_body]
fn node_facts(cursor: &tree_sitter::TreeCursor) -> (r: NodeFacts)
    ensures
        r@ == read_at(*cursor),
{
    let node = cursor.node();
    NodeFacts {
        kind: node.kind().to_string(),
        start_byte: node.start_byte(),
        end_byte: node.end_byte(),
        start_row: node.start_position().row,
        end_row: node.end_position().row,
    }
}

/// One node of a walk through a tree: what was read of the node, and how
/// the cursor came to it from the node before. It went down to the first
/// child; or it went up `ups` times and then on to the next sibling. The
/// walk begins at the root with no move at all.
#[derive(Clone, Debug, PartialEq, Eq)]
pub struct Step {
    pub facts: NodeFacts,
    pub down: bool,
    pub ups: usize,
}

/// What a `Step` holds, as mathematical values.
pub struct StepView {
    pub facts: NodeFactsView,
    pub down: bool,
    pub ups: usize,
}

impl View for Step {
    type V = StepView;

    open spec fn view(&self) -> StepView {
        StepView { facts: self.facts@, down: self.down, ups: self.ups }
    }
}

impl DeepView for Step {
    type V = StepView;

    open spec fn deep_view(&self) -> StepView {
        self@
    }
}

/// A capture as tree-sitter reports it: the capture's name in the query,
/// and the kind and the span in bytes of the captured node.
#[derive(Clone, Debug, PartialEq, Eq)]
pub struct RawCapture {
    pub name: String,
    pub kind: String,
    pub start_byte: usize,
    pub end_byte: usize,
}

/// What a `RawCapture` holds, as mathematical values.
pub struct RawCaptureView {
    pub name: Seq<char>,
    pub kind: Seq<char>,
    pub start_byte: usize,
    pub end_byte: usize,
}

impl View for RawCapture {
    type V = RawCaptureView;

    open spec fn view(&self) -> RawCaptureView {
        RawCaptureView {
            name: self.name@,
            kind: self.kind@,
            start_byte: self.start_byte,
            end_byte: self.end_byte,
        }
    }
}

impl DeepView for RawCapture {
    type V = RawCaptureView;

    open spec fn deep_view(&self) -> RawCaptureView {
        self@
    }
}

/// The matches that `QueryCursor::matches` finds for a query over a tree
/// of a text, in the order in which they are found.
pub uninterp spec fn matches_in(
    query: tree_sitter::Query,
    tree: tree_sitter::Tree,
    text: Seq<char>,
) -> Seq<Seq<RawCaptureView>>;

/// `QueryCursor::matches` of tree-sitter over the whole tree: the matches
/// in the order in which they are found, each with its captures as plain
/// values. The text is the one that the tree was parsed from: a predicate of
/// the query reads the text at the bytes of a captured node, which lie within
/// that text and may lie outside of any other.
#[verifier::external_body]
fn query_matches(query: &tree_sitter::Query, tree: &tree_sitter::Tree, text: &str) -> (r: Vec<
    Vec<RawCapture>,
>)
    requires
        exists|grammar: tree_sitter::Language| #[trigger] tree_of(grammar, text@) == Some(*tree),
    ensures
        r.deep_view() == matches_in(*query, *tree, text@),
{
    let mut cursor = tree_sitter::QueryCursor::new();
    let names = query.capture_names();
    cursor.matches(query, tree.root_node(), text.as_bytes()).map(
        |m|
            m.captures.iter().map(
                |c|
                    RawCapture {
                        name: names[c.index as usize].clone(),
                        kind: c.node.kind().to_string(),
                        start_byte: c.node.start_byte(),
                        end_byte: c.node.end_byte(),
                    },
            ).collect(),
    ).collect()
}

/// The grammar of a language.
fn grammar_for(language: SourceLanguage) -> tree_sitter::Language {
    match language {
        SourceLanguage::Python => python_grammar(),
        SourceLanguage::JavaScript => javascript_grammar(),
        SourceLanguage::TypeScript => typescript_grammar(),
        SourceLanguage::Tsx => tsx_grammar(),
        SourceLanguage::Go => go_grammar(),
        SourceLanguage::Rust => rust_grammar(),
        SourceLanguage::Java => java_grammar(),
        SourceLanguage::C => c_grammar(),
        SourceLanguage::Cpp => cpp_grammar(),
    }
}

/// The parser of one extension: its grammar and its compiled capture
/// query.
pub struct CompiledParser {
    pub extension: &'static str,
    pub language: SourceLanguage,
    pub grammar: tree_sitter::Language,
    pub query: tree_sitter::Query,
}

/// A parser in the making: an extension with its grammar, and the compiled
/// capture query where the grammar took it.
pub struct Attempt {
    pub extension: &'static str,
    pub language: SourceLanguage,
    pub grammar: tree_sitter::Language,
    pub query: Option<tree_sitter::Query>,
}

/// The parser that an attempt gives, where its query compiled.
pub open spec fn made_from(p: CompiledParser, a: Attempt) -> bool {
    &&& p.extension@ == a.extension@
    &&& p.language == a.language
    &&& p.grammar == a.grammar
    &&& Some(p.query) == a.query
}

/// The parsers of the attempts, one for one and in order: nothing where
/// some query did not compile.
pub fn assemble_parsers(attempts: Vec<Attempt>) -> (r: Option<Vec<CompiledParser>>)
    ensures
        r is Some <==> forall|i: int|
            0 <= i < attempts.len() ==> (#[trigger] attempts[i]).query is Some,
        r matches Some(parsers) ==> parsers.len() == attempts.len() && forall|i: int|
            0 <= i < parsers.len() ==> made_from(#[trigger] parsers[i], attempts[i]),
{
    let ghost all = attempts@;
    let mut parsers: Vec<CompiledParser> = Vec::new();
    for attempt in it: attempts
        invariant
            it.seq() == all,
            parsers.len() == it.index(),
            forall|k: int| 0 <= k < it.index() ==> (#[trigger] all[k]).query is Some,
            forall|k: int| 0 <= k < parsers.len() ==> made_from(#[trigger] parsers[k], all[k]),
    {
        let ghost i = it.index() as int;
        assert(all[i] == attempt);
        match attempt.query {
            Some(query) => {
                parsers.push(
                    CompiledParser {
                        extension: attempt.extension,
                        language: attempt.language,
                        grammar: attempt.grammar,
                        query,
                    },
                );
            },
            None => {
                assert(all[i].query is None);
                return None;
            },
        }
    }
    Some(parsers)
}

/// The attempts are those of the registry: one for each supported
/// extension, in order, each with the language that serves the extension and
/// with what the compiling of that language's capture query gave.
pub open spec fn registry_attempts(attempts: Seq<Attempt>) -> bool {
    attempts.len() == 14 && forall|i: int|
        0 <= i < attempts.len() ==> (#[trigger] attempts[i]).extension@
            == supported_extensions()[i] && Some(attempts[i].language) == language_of(
            attempts[i].extension@,
        ) && attempts[i].query == compiled(attempts[i].grammar, query_of(attempts[i].language))
}

/// The parsers are what the attempts give: one for each attempt, in order,
/// where every query compiled, and none at all where one did not.
pub open spec fn assembled(r: Option<Vec<CompiledParser>>, attempts: Seq<Attempt>) -> bool {
    &&& r is Some <==> forall|i: int|
        0 <= i < attempts.len() ==> (#[trigger] attempts[i]).query is Some
    &&& r matches Some(parsers) ==> parsers.len() == attempts.len() && forall|i: int|
        0 <= i < parsers.len() ==> made_from(#[trigger] parsers[i], attempts[i])
}

/// The parsers of the registry, each with its query compiled. There are
/// parsers exactly where every grammar takes the capture query of its
/// language, and each parser then holds its grammar with that compiled
/// query.
pub fn compile_parsers() -> (r: Option<Vec<CompiledParser>>)
    ensures
        exists|attempts: Seq<Attempt>| registry_attempts(attempts) && #[trigger] assembled(
            r,
            attempts,
        ),
        r matches Some(parsers) ==> parsers.len() == 14 && forall|i: int|
            0 <= i < parsers.len() ==> (#[trigger] parsers[i]).extension@
                == supported_extensions()[i] && Some(parsers[i].language) == language_of(
                parsers[i].extension@,
            ) && Some(parsers[i].query) == compiled(
                parsers[i].grammar,
                query_of(parsers[i].language),
            ),
{
    let setup = get_parser_setup();
    let mut attempts: Vec<Attempt> = Vec::new();
    let mut i: usize = 0;
    while i < setup.len()
        invariant
            i <= setup.len(),
            setup.len() == 14,
            attempts.len() == i,
            forall|k: int|
                0 <= k < setup.len() ==> (#[trigger] setup[k]).extension@
                    == supported_extensions()[k] && Some(setup[k].language) == language_of(
                    setup[k].extension@,
                ) && setup[k].query@ == query_of(setup[k].language),
            forall|k: int|
                0 <= k < i ==> (#[trigger] attempts[k]).extension@ == supported_extensions()[k]
                    && Some(attempts[k].language) == language_of(attempts[k].extension@)
                    && attempts[k].query == compiled(
                    attempts[k].grammar,
                    query_of(attempts[k].language),
                ),
        decreases setup.len() - i,
    {
        let entry = &setup[i];
        let grammar = grammar_for(entry.language);
        let query = compile_query(&grammar, entry.query);
        attempts.push(
            Attempt { extension: entry.extension, language: entry.language, grammar, query },
        );
        i += 1;
    }
    let ghost tried = attempts@;
    let r = assemble_parsers(attempts);
    proof {
        assert(registry_attempts(tried));
        assert(assembled(r, tried));
        match &r {
            Some(parsers) => {
                assert forall|k: int| 0 <= k < parsers.len() implies (
                #[trigger] parsers[k]).extension@ == supported_extensions()[k] && Some(
                    parsers[k].language,
                ) == language_of(parsers[k].extension@) && Some(parsers[k].query) == compiled(
                    parsers[k].grammar,
                    query_of(parsers[k].language),
                ) by {
                    assert(made_from(parsers[k], tried[k]));
                }
            },
            None => {},
        }
    }
    r
}

/// The first parser at or after `k` that serves the extension.
pub open spec fn parser_from(parsers: Seq<CompiledParser>, extension: Seq<char>, k: int) -> Option<
    int,
>
    decreases parsers.len() - k,
{
    if k < 0 || k >= parsers.len() {
        None
    } else if parsers[k].extension@ == extension {
        Some(k)
    } else {
        parser_from(parsers, extension, k + 1)
    }
}

/// The parser for a lower-case extension, if there is one: the first that
/// serves it.
pub fn find_parser<'a>(parsers: &'a Vec<CompiledParser>, extension: &str) -> (r: Option<
    &'a CompiledParser,
>)
    ensures
        r is Some <==> parser_from(parsers@, extension@, 0) is Some,
        r matches Some(p) ==> *p == parsers[parser_from(parsers@, extension@, 0)->0] && p.extension@
            == extension@,
        r is None ==> forall|i: int|
            0 <= i < parsers.len() ==> (#[trigger] parsers[i]).extension@ != extension@,
{
    let mut i: usize = 0;
    while i < parsers.len()
        invariant
            i <= parsers.len(),
            parser_from(parsers@, extension@, 0) == parser_from(parsers@, extension@, i as int),
            forall|k: int| 0 <= k < i ==> (#[trigger] parsers[k]).extension@ != extension@,
        decreases parsers.len() - i,
    {
        if same_text(parsers[i].extension, extension) {
            return Some(&parsers[i]);
        }
        i += 1;
    }
    None
}

/// A byte that begins a character in UTF-8: any but a continuation byte.
pub open spec fn starts_char(b: u8) -> bool {
    b < 0x80 || b >= 0xC0
}

/// The number of characters that begin before the byte offset `at`.
pub open spec fn chars_before(bytes: Seq<u8>, at: int) -> nat
    decreases at,
{
    if at <= 0 {
        0
    } else {
        chars_before(bytes, at - 1) + (if starts_char(bytes[at - 1]) {
            1nat
        } else {
            0nat
        })
    }
}

/// The table of character offsets of a text given by its bytes: for each
/// byte offset, from 0 to the length, the number of characters that begin
/// before it.
pub open spec fn char_table(bytes: Seq<u8>) -> Seq<usize> {
    Seq::new((bytes.len() + 1) as nat, |b: int| chars_before(bytes, b) as usize)
}

/// For each byte offset into the text, from 0 to its length, the number of
/// characters that begin before it: nothing for a text too long to have such
/// a table.
pub fn char_offsets(text: &str) -> (r: Option<Vec<usize>>)
    ensures
        r is Some <==> text.spec_bytes().len() < usize::MAX,
        r matches Some(table) ==> table@ == char_table(text.spec_bytes()),
{
    let bytes = text.as_bytes();
    if bytes.len() == usize::MAX {
        return None;
    }
    let mut table: Vec<usize> = Vec::new();
    let mut count: usize = 0;
    table.push(0);
    let mut i: usize = 0;
    while i < bytes.len()
        invariant
            i <= bytes.len(),
            bytes.len() < usize::MAX,
            bytes@ == text.spec_bytes(),
            count == chars_before(bytes@, i as int),
            count <= i,
            table.len() == i + 1,
            forall|b: int| 0 <= b < table.len() ==> #[trigger] table[b] == chars_before(bytes@, b),
        decreases bytes.len() - i,
    {
        let byte = bytes[i];
        if byte < 0x80 || byte >= 0xC0 {
            count += 1;
        }
        i += 1;
        table.push(count);
    }
    assert(table@ =~= char_table(text.spec_bytes()));
    Some(table)
}

/// Every parent comes before its child, and every child is a node.
pub open spec fn shaped(nodes: Seq<SyntaxNodeView>) -> bool {
    &&& forall|i: int|
        0 <= i < nodes.len() ==> ((#[trigger] nodes[i]).parent matches Some(p) ==> p < i)
    &&& forall|i: int, k: int|
        0 <= i < nodes.len() && 0 <= k < nodes[i].children.len() ==> #[trigger] nodes[i].children[k]
            < nodes.len()
}

/// The state of building a tree from a walk: the nodes so far, and the
/// open ancestors of the node that was placed last, from the root down.
pub struct Built {
    pub nodes: Seq<SyntaxNodeView>,
    pub open: Seq<usize>,
}

/// The open ancestors of the node of a step. After a move down, the node
/// placed last is one more of them. After `ups` moves up and a move to the
/// next sibling, the last `ups` of them are closed. There are none to speak
/// of where the walk goes down from nothing, or up past the root.
pub open spec fn open_after(b: Built, s: StepView) -> Option<Seq<usize>> {
    if s.down {
        if b.nodes.len() > 0 {
            Some(b.open.push((b.nodes.len() - 1) as usize))
        } else {
            None
        }
    } else if s.ups <= b.open.len() {
        Some(b.open.take(b.open.len() - s.ups))
    } else {
        None
    }
}

/// The node of a step below `parent`: its kind and rows as they were read,
/// its span in characters, and no children yet.
pub open spec fn node_at(facts: NodeFactsView, parent: Option<usize>, offsets: Seq<usize>)
    -> SyntaxNodeView {
    SyntaxNodeView {
        kind: facts.kind,
        parent: parent,
        children: Seq::empty(),
        start: offsets[facts.start_byte as int],
        end: offsets[facts.end_byte as int],
        start_row: facts.start_row,
        end_row: facts.end_row,
    }
}

/// The nodes with `child` as one more child of node `p`.
pub open spec fn with_child(nodes: Seq<SyntaxNodeView>, p: int, child: usize) -> Seq<
    SyntaxNodeView,
> {
    nodes.update(p, SyntaxNodeView { children: nodes[p].children.push(child), ..nodes[p] })
}

/// The state after one more step: the node of the step comes last, as a
/// child of the innermost open ancestor. There is no such state where the
/// walk cannot have gone as the step says, or where the node's span lies
/// outside of the table of offsets.
pub open spec fn placed(b: Built, s: StepView, offsets: Seq<usize>) -> Option<Built> {
    match open_after(b, s) {
        None => None,
        Some(open) => if s.facts.start_byte >= offsets.len() || s.facts.end_byte
            >= offsets.len() {
            None
        } else {
            let index = b.nodes.len() as usize;
            let parent = if open.len() > 0 {
                Some(open.last())
            } else {
                None
            };
            let family = match parent {
                Some(p) => with_child(b.nodes, p as int, index),
                None => b.nodes,
            };
            Some(Built { nodes: family.push(node_at(s.facts, parent, offsets)), open: open })
        },
    }
}

/// The state after all the steps of a walk, taken in order.
pub open spec fn built(steps: Seq<StepView>, offsets: Seq<usize>) -> Option<Built>
    decreases steps.len(),
{
    if steps.len() == 0 {
        Some(Built { nodes: Seq::empty(), open: Seq::empty() })
    } else {
        match built(steps.drop_last(), offsets) {
            None => None,
            Some(b) => placed(b, steps.last(), offsets),
        }
    }
}

/// The nodes of the tree of a walk: nothing where the walk gives no tree.
pub open spec fn tree_of_walk(steps: Seq<StepView>, offsets: Seq<usize>) -> Option<
    Seq<SyntaxNodeView>,
> {
    match built(steps, offsets) {
        Some(b) => Some(b.nodes),
        None => None,
    }
}

/// Where the leading steps of a walk give no tree, the walk gives none.
pub proof fn lemma_built_none(steps: Seq<StepView>, offsets: Seq<usize>, n: int)
    requires
        0 <= n <= steps.len(),
        built(steps.take(n), offsets) is None,
    ensures
        built(steps, offsets) is None,
    decreases steps.len() - n,
{
    if n < steps.len() {
        assert(steps.take(n + 1).drop_last() =~= steps.take(n));
        lemma_built_none(steps, offsets, n + 1);
    } else {
        assert(steps.take(n) =~= steps);
    }
}

/// Adds `child` to the children of node `p`.
fn add_child(nodes: &mut Vec<SyntaxNode>, p: usize, child: usize)
    requires
        p < old(nodes).len(),
    ensures
        final(nodes).deep_view() == with_child(old(nodes).deep_view(), p as int, child),
        final(nodes).len() == old(nodes).len(),
{
    let ghost before = nodes@;
    let ghost target = with_child(nodes.deep_view(), p as int, child);
    nodes[p].children.push(child);
    proof {
        assert(nodes@.len() == before.len());
        assert(forall|k: int| 0 <= k < before.len() && k != p ==> nodes@[k] == before[k]);
        let node = nodes@[p as int];
        let was = before[p as int];
        assert(node.children@ == was.children@.push(child));
        assert(node.kind == was.kind);
        assert(node.parent == was.parent);
        assert(node.start == was.start);
        assert(node.end == was.end);
        assert(node.start_row == was.start_row);
        assert(node.end_row == was.end_row);
        assert(node@ == target[p as int]);
        assert(nodes.deep_view() =~= target);
    }
}

/// The tree of a walk: its nodes in the order of the walk, every node
/// before its children, with spans in characters by the table of offsets.
/// There is no tree where the walk cannot have gone as a step says, or where
/// a span lies outside of the table.
pub fn build_tree(steps: &Vec<Step>, offsets: &Vec<usize>) -> (r: Option<Vec<SyntaxNode>>)
    ensures
        r.deep_view() == tree_of_walk(steps.deep_view(), offsets@),
        r matches Some(nodes) ==> shaped(nodes.deep_view()) && nodes.len() == steps.len(),
{
    let ghost all = steps.deep_view();
    let mut nodes: Vec<SyntaxNode> = Vec::new();
    let mut open: Vec<usize> = Vec::new();
    let mut i: usize = 0;
    assert(all.take(0) =~= Seq::<StepView>::empty());
    assert(nodes.deep_view() =~= Seq::<SyntaxNodeView>::empty());
    while i < steps.len()
        invariant
            i <= steps.len(),
            all == steps.deep_view(),
            built(all.take(i as int), offsets@) == Some(
                Built { nodes: nodes.deep_view(), open: open@ },
            ),
            shaped(nodes.deep_view()),
            nodes.len() == i,
            forall|k: int| 0 <= k < open.len() ==> #[trigger] open[k] < nodes.len(),
        decreases steps.len() - i,
    {
        let step = &steps[i];
        let ghost b = Built { nodes: nodes.deep_view(), open: open@ };
        proof {
            assert(all.take(i + 1).drop_last() =~= all.take(i as int));
            assert(all.take(i + 1).last() == step@);
            assert(built(all.take(i + 1), offsets@) == placed(b, step@, offsets@));
        }
        let ghost was_open = open@;
        if step.down {
            if nodes.len() == 0 {
                proof {
                    lemma_built_none(all, offsets@, i + 1);
                }
                return None;
            }
            open.push(nodes.len() - 1);
        } else {
            if step.ups > open.len() {
                proof {
                    lemma_built_none(all, offsets@, i + 1);
                }
                return None;
            }
            open.truncate(open.len() - step.ups);
            assert(open@ =~= was_open.take(was_open.len() - step.ups));
        }
        assert(open_after(b, step@) == Some(open@));
        if step.facts.start_byte >= offsets.len() || step.facts.end_byte >= offsets.len() {
            proof {
                lemma_built_none(all, offsets@, i + 1);
            }
            return None;
        }
        let index: usize = nodes.len();
        let parent: Option<usize> = if open.len() > 0 {
            Some(open[open.len() - 1])
        } else {
            None
        };
        let ghost before = nodes.deep_view();
        match parent {
            Some(p) => {
                add_child(&mut nodes, p, index);
            },
            None => {},
        }
        let ghost family = nodes.deep_view();
        let node = SyntaxNode {
            kind: step.facts.kind.clone(),
            parent,
            children: Vec::new(),
            start: offsets[step.facts.start_byte],
            end: offsets[step.facts.end_byte],
            start_row: step.facts.start_row,
            end_row: step.facts.end_row,
        };
        assert(node@ == node_at(step@.facts, parent, offsets@));
        nodes.push(node);
        proof {
            let now = nodes.deep_view();
            assert(now =~= family.push(node_at(step@.facts, parent, offsets@)));
            assert forall|a: int| 0 <= a < now.len() implies ((
            #[trigger] now[a]).parent matches Some(q) ==> q < a) by {
                if a < index {
                    assert(now[a] == family[a]);
                    assert(family[a].parent == before[a].parent);
                }
            }
            assert forall|a: int, k: int|
                0 <= a < now.len() && 0 <= k < now[a].children.len() implies #[trigger] now[a].children[k]
                < now.len() by {
                if a < index {
                    assert(now[a] == family[a]);
                    if parent == Some(a as usize) {
                        if k < before[a].children.len() {
                            assert(family[a].children[k] == before[a].children[k]);
                        }
                    } else {
                        assert(family[a] == before[a]);
                    }
                }
            }
        }
        i += 1;
    }
    assert(all.take(steps.len() as int) =~= all);
    Some(nodes)
}

/// How a walk goes on from a node without children.
pub enum Climb {
    /// To the next sibling, after this many moves up.
    Sibling(tree_sitter::TreeCursor<'static>, nat),
    /// Nowhere: the walk is at its end.
    Done,
    /// Up past the depth at which it began.
    Lost,
}

/// How a walk goes on from the cursor, at the given depth and after `ups`
/// moves up: on to the next sibling where there is one; else up, and on
/// from there; to its end where there is no parent.
pub open spec fn climb(cursor: tree_sitter::TreeCursor<'static>, ups: nat, depth: nat) -> Climb
    decreases depth - ups,
{
    let side = beside(cursor);
    if side.0 {
        Climb::Sibling(side.1, ups)
    } else {
        let up = above(side.1);
        if !up.0 {
            Climb::Done
        } else if ups >= depth {
            Climb::Lost
        } else {
            climb(up.1, ups + 1, depth)
        }
    }
}

/// The steps with one step before them.
pub open spec fn after_step(step: StepView, rest: Option<Seq<StepView>>) -> Option<Seq<StepView>> {
    match rest {
        Some(steps) => Some(seq![step] + steps),
        None => None,
    }
}

/// The steps of a walk that goes on from the cursor, which came to its
/// node by the given move: every node before its children, the children in
/// order. There are none where the walk does not come to an end within
/// `fuel` nodes, or goes up past the root.
pub open spec fn walk_from(
    cursor: tree_sitter::TreeCursor<'static>,
    down: bool,
    ups: nat,
    depth: nat,
    fuel: nat,
) -> Option<Seq<StepView>>
    decreases fuel,
{
    if fuel == 0 {
        None
    } else {
        let step = StepView { facts: read_at(cursor), down: down, ups: ups as usize };
        let child = below(cursor);
        if child.0 {
            after_step(step, walk_from(child.1, true, 0, depth + 1, (fuel - 1) as nat))
        } else {
            match climb(child.1, 0, depth) {
                Climb::Sibling(next, up) => after_step(
                    step,
                    walk_from(next, false, up, (depth - up) as nat, (fuel - 1) as nat),
                ),
                Climb::Done => Some(seq![step]),
                Climb::Lost => None,
            }
        }
    }
}

/// The steps of the walk through a tree from its root.
pub open spec fn walk_of(tree: tree_sitter::Tree) -> Option<Seq<StepView>> {
    walk_from(root_place(tree), false, 0, 0, usize::MAX as nat)
}

/// The steps so far, and then the steps that follow.
pub open spec fn and_then_steps(so_far: Seq<StepView>, rest: Option<Seq<StepView>>) -> Option<
    Seq<StepView>,
> {
    match rest {
        Some(steps) => Some(so_far + steps),
        None => None,
    }
}

/// The nodes of a tree in the order of a walk from the root, each with the
/// way that the cursor took to it: nothing where the walk does not come to
/// an end, or goes up past the root.
fn walk_steps(tree: &tree_sitter::Tree) -> (r: Option<Vec<Step>>)
    ensures
        r.deep_view() == walk_of(*tree),
{
    let mut cursor = walk(tree);
    let mut steps: Vec<Step> = Vec::new();
    let mut down = false;
    let mut ups: usize = 0;
    let mut depth: usize = 0;
    let mut fuel: usize = usize::MAX;
    assert(and_then_steps(
        steps.deep_view(),
        walk_from(cursor, down, ups as nat, depth as nat, fuel as nat),
    ) == walk_of(*tree)) by {
        let rest = walk_from(cursor, down, ups as nat, depth as nat, fuel as nat);
        if rest is Some {
            assert(steps.deep_view() + rest->0 =~= rest->0);
        }
    }
    while fuel > 0
        invariant
            depth <= usize::MAX - fuel,
            ups <= usize::MAX,
            and_then_steps(
                steps.deep_view(),
                walk_from(cursor, down, ups as nat, depth as nat, fuel as nat),
            ) == walk_of(*tree),
        decreases fuel,
    {
        let ghost here = cursor;
        let ghost so_far = steps.deep_view();
        let ghost step = StepView { facts: read_at(cursor), down: down, ups: ups };
        fuel -= 1;
        let facts = node_facts(&cursor);
        steps.push(Step { facts, down, ups });
        assert(steps.deep_view() =~= so_far.push(step));
        if goto_first_child(&mut cursor) {
            down = true;
            ups = 0;
            depth += 1;
            proof {
                let rest = walk_from(cursor, true, 0, depth as nat, fuel as nat);
                if rest is Some {
                    assert(so_far + (seq![step] + rest->0) =~= so_far.push(step) + rest->0);
                }
            }
        } else {
            down = false;
            ups = 0;
            let ghost start = cursor;
            loop
                invariant_except_break
                    climb(start, 0, depth as nat) == climb(cursor, ups as nat, depth as nat),
                invariant
                    ups <= depth,
                    steps.deep_view() == so_far.push(step),
                    walk_of(*tree) == and_then_steps(
                        so_far,
                        match climb(start, 0, depth as nat) {
                            Climb::Sibling(next, up) => after_step(
                                step,
                                walk_from(
                                    next,
                                    false,
                                    up,
                                    (depth - up) as nat,
                                    fuel as nat,
                                ),
                            ),
                            Climb::Done => Some(seq![step]),
                            Climb::Lost => None,
                        },
                    ),
                ensures
                    climb(start, 0, depth as nat) == Climb::Sibling(cursor, ups as nat),
                decreases depth - ups,
            {
                if goto_next_sibling(&mut cursor) {
                    break ;
                }
                if !goto_parent(&mut cursor) {
                    assert(climb(start, 0, depth as nat) == Climb::Done);
                    assert(so_far + seq![step] =~= so_far.push(step));
                    return Some(steps);
                }
                if ups == depth {
                    assert(climb(start, 0, depth as nat) == Climb::Lost);
                    return None;
                }
                ups += 1;
            }
            depth -= ups;
            proof {
                let rest = walk_from(cursor, false, ups as nat, depth as nat, fuel as nat);
                if rest is Some {
                    assert(so_far + (seq![step] + rest->0) =~= so_far.push(step) + rest->0);
                }
            }
        }
    }
    None
}

/// The steps of the walk through a tree, with the nodes of its tree:
/// nothing where the walk does not come to an end, or where it gives no
/// tree.
fn collect_nodes(tree: &tree_sitter::Tree, offsets: &Vec<usize>) -> (r: Option<
    (Vec<Step>, Vec<SyntaxNode>),
>)
    ensures
        r is Some <==> walk_of(*tree) is Some && tree_of_walk(walk_of(*tree)->0, offsets@) is Some,
        r matches Some(found) ==> found.0.deep_view() == walk_of(*tree)->0 && Some(
            found.1.deep_view(),
        ) == tree_of_walk(walk_of(*tree)->0, offsets@) && shaped(found.1.deep_view())
            && found.1.len() == found.0.len(),
{
    match walk_steps(tree) {
        Some(steps) => {
            match build_tree(&steps, offsets) {
                Some(nodes) => Some((steps, nodes)),
                None => None,
            }
        },
        None => None,
    }
}

/// The step is that of a node with the kind and the span of the capture.
pub open spec fn captured_by(s: StepView, c: RawCaptureView) -> bool {
    s.facts.kind == c.kind && s.facts.start_byte == c.start_byte && s.facts.end_byte == c.end_byte
}

/// The node that a capture names: the last node of the walk with the
/// capture's kind and span. Where nodes of one kind share a span, that is
/// the innermost of them, or the last of them where the span is empty.
pub open spec fn resolved(steps: Seq<StepView>, c: RawCaptureView) -> Option<int>
    decreases steps.len(),
{
    if steps.len() == 0 {
        None
    } else if captured_by(steps.last(), c) {
        Some(steps.len() - 1)
    } else {
        resolved(steps.drop_last(), c)
    }
}

/// What `resolved` finds is a node of the walk.
pub proof fn lemma_resolved(steps: Seq<StepView>, c: RawCaptureView)
    ensures
        resolved(steps, c) matches Some(i) ==> 0 <= i < steps.len(),
    decreases steps.len(),
{
    if steps.len() > 0 {
        lemma_resolved(steps.drop_last(), c);
    }
}

/// The node that a capture names.
pub fn resolve_capture(steps: &Vec<Step>, c: &RawCapture) -> (r: Option<usize>)
    ensures
        r matches Some(i) ==> i < steps.len() && resolved(steps.deep_view(), c@) == Some(i as int),
        r is None ==> resolved(steps.deep_view(), c@) is None,
{
    let ghost all = steps.deep_view();
    let mut k: usize = steps.len();
    assert(all.take(k as int) =~= all);
    while k > 0
        invariant
            k <= steps.len(),
            all == steps.deep_view(),
            resolved(all, c@) == resolved(all.take(k as int), c@),
        decreases k,
    {
        proof {
            assert(all.take(k as int).last() == steps@[k - 1]@);
            assert(all.take(k as int).drop_last() =~= all.take(k - 1));
        }
        k -= 1;
        let facts = &steps[k].facts;
        if facts.start_byte == c.start_byte && facts.end_byte == c.end_byte && same_text(
            facts.kind.as_str(),
            c.kind.as_str(),
        ) {
            return Some(k);
        }
    }
    None
}

/// Every capture names a node of the walk.
pub open spec fn all_resolved(raw: Seq<Seq<RawCaptureView>>, steps: Seq<StepView>) -> bool {
    forall|i: int, j: int|
        0 <= i < raw.len() && 0 <= j < raw[i].len() ==> resolved(steps, #[trigger] raw[i][j])
            is Some
}

/// A capture as a plain value: its name as a role, and the captured node
/// as its index in the walk.
pub open spec fn capture_of(c: RawCaptureView, steps: Seq<StepView>) -> Capture {
    Capture { kind: capture_kind_of(c.name), node: resolved(steps, c)->0 as usize }
}

/// The matches as plain values, one for one and in order.
pub open spec fn converted(raw: Seq<Seq<RawCaptureView>>, steps: Seq<StepView>) -> Seq<
    Seq<Capture>,
> {
    Seq::new(
        raw.len(),
        |i: int| Seq::new(raw[i].len(), |j: int| capture_of(raw[i][j], steps)),
    )
}

/// The matches with each capture's name as a role and each captured node
/// as its index in the walk, one for one and in order: nothing where a
/// capture names no node of the walk.
fn convert_matches(raw: &Vec<Vec<RawCapture>>, steps: &Vec<Step>) -> (r: Option<Vec<QueryMatch>>)
    ensures
        r is Some <==> all_resolved(raw.deep_view(), steps.deep_view()),
        r matches Some(matches) ==> matches.deep_view() == converted(
            raw.deep_view(),
            steps.deep_view(),
        ),
{
    let ghost all = raw.deep_view();
    let ghost walk = steps.deep_view();
    let mut matches: Vec<QueryMatch> = Vec::new();
    let mut i: usize = 0;
    while i < raw.len()
        invariant
            i <= raw.len(),
            all == raw.deep_view(),
            walk == steps.deep_view(),
            matches.len() == i,
            forall|a: int, b: int|
                0 <= a < i && 0 <= b < all[a].len() ==> resolved(walk, #[trigger] all[a][b])
                    is Some,
            forall|a: int| 0 <= a < i ==> #[trigger] matches.deep_view()[a] == converted(all, walk)[a],
        decreases raw.len() - i,
    {
        let mut captures: Vec<Capture> = Vec::new();
        let found = &raw[i];
        assert(all[i as int] == found.deep_view());
        let mut j: usize = 0;
        while j < found.len()
            invariant
                j <= found.len(),
                i < raw.len(),
                all == raw.deep_view(),
                walk == steps.deep_view(),
                all[i as int] == found.deep_view(),
                captures.len() == j,
                forall|b: int| 0 <= b < j ==> resolved(walk, #[trigger] all[i as int][b]) is Some,
                forall|b: int|
                    0 <= b < j ==> #[trigger] captures[b] == capture_of(all[i as int][b], walk),
            decreases found.len() - j,
        {
            let c = &found[j];
            assert(all[i as int][j as int] == c@);
            match resolve_capture(steps, c) {
                Some(index) => {
                    captures.push(Capture { kind: capture_kind(c.name.as_str()), node: index });
                },
                None => {
                    assert(resolved(walk, all[i as int][j as int]) is None);
                    return None;
                },
            }
            j += 1;
        }
        let ghost before = matches.deep_view();
        assert(captures@ =~= converted(all, walk)[i as int]);
        matches.push(QueryMatch { captures });
        assert(matches.deep_view() =~= before.push(converted(all, walk)[i as int]));
        i += 1;
    }
    assert(matches.deep_view() =~= converted(all, walk));
    Some(matches)
}

/// The parsed source of a text, from the steps of the walk through its
/// tree, the nodes of that tree, and the raw matches of the capture query:
/// nothing where a capture names no node of the walk, or where the tree does
/// not fit the text.
pub open spec fn finished(
    text: Seq<char>,
    steps: Seq<StepView>,
    nodes: Seq<SyntaxNodeView>,
    raw: Seq<Seq<RawCaptureView>>,
) -> Option<SourceView> {
    if all_resolved(raw, steps) && nodes.len() == steps.len() && tree_wf(nodes, text.len()) {
        Some(SourceView { text: text, tree: nodes, matches: converted(raw, steps) })
    } else {
        None
    }
}

/// A finished source is sound: its matches fit its tree.
pub proof fn lemma_finished_wf(
    text: Seq<char>,
    steps: Seq<StepView>,
    nodes: Seq<SyntaxNodeView>,
    raw: Seq<Seq<RawCaptureView>>,
)
    ensures
        finished(text, steps, nodes, raw) matches Some(src) ==> src.wf() && src.text == text,
{
    if finished(text, steps, nodes, raw) is Some {
        let ms = converted(raw, steps);
        assert forall|i: int, j: int|
            0 <= i < ms.len() && 0 <= j < ms[i].len() implies (#[trigger] ms[i][j]).node
            < nodes.len() by {
            assert(resolved(steps, raw[i][j]) is Some);
            lemma_resolved(steps, raw[i][j]);
        }
    }
}

/// The parsed source of a text, from the steps of the walk through its
/// tree, the nodes of that tree, and the raw matches of the capture query:
/// the text itself, the nodes as its tree, and the matches as plain values.
/// There is none where a capture names no node of the walk, where there is
/// not one node for each step, or where the tree does not fit the text.
pub fn finish_source(
    text: &str,
    steps: &Vec<Step>,
    nodes: Vec<SyntaxNode>,
    raw: &Vec<Vec<RawCapture>>,
) -> (r: Option<Source>)
    ensures
        r.deep_view() == finished(text@, steps.deep_view(), nodes.deep_view(), raw.deep_view()),
        r matches Some(src) ==> src@.wf(),
{
    proof {
        lemma_finished_wf(text@, steps.deep_view(), nodes.deep_view(), raw.deep_view());
    }
    let matches = match convert_matches(raw, steps) {
        Some(m) => m,
        None => {
            return None;
        },
    };
    if nodes.len() != steps.len() {
        return None;
    }
    let chars = to_chars(text);
    let src = Source { text: text.to_owned(), tree: SyntaxTree { nodes }, matches };
    if src.tree.check(chars.len()) {
        Some(src)
    } else {
        None
    }
}

/// The parsed source of a text under a grammar and its compiled capture
/// query. The parser gives the tree; the walk through the tree gives its
/// nodes, every node before its children; the table of offsets of the text
/// gives their spans in characters; the query gives the matches. There is no
/// source where the text is too long to have a table, where the parser gives
/// no tree, where the walk gives none, where a capture names no node, or
/// where the tree does not fit the text.
pub open spec fn parsed(
    grammar: tree_sitter::Language,
    query: tree_sitter::Query,
    text: Seq<char>,
) -> Option<SourceView> {
    if encode_utf8(text).len() >= usize::MAX {
        None
    } else {
        match tree_of(grammar, text) {
            None => None,
            Some(tree) => match walk_of(tree) {
                None => None,
                Some(steps) => match tree_of_walk(steps, char_table(encode_utf8(text))) {
                    None => None,
                    Some(nodes) => finished(text, steps, nodes, matches_in(query, tree, text)),
                },
            },
        }
    }
}

/// What is parsed of a text is sound: it holds the text, and its tree and
/// its matches fit the text.
pub proof fn lemma_parsed_wf(
    grammar: tree_sitter::Language,
    query: tree_sitter::Query,
    text: Seq<char>,
)
    ensures
        parsed(grammar, query, text) matches Some(src) ==> src.wf() && src.text == text,
{
    if parsed(grammar, query, text) is Some {
        let tree = tree_of(grammar, text)->0;
        let steps = walk_of(tree)->0;
        let nodes = tree_of_walk(steps, char_table(encode_utf8(text)))->0;
        lemma_finished_wf(text, steps, nodes, matches_in(query, tree, text));
    }
}

/// Parses a text: its syntax tree as plain values, with spans in
/// characters, and the matches of the capture query.
pub fn parse_source(parser: &CompiledParser, text: &str) -> (r: Option<Source>)
    ensures
        r.deep_view() == parsed(parser.grammar, parser.query, text@),
        r matches Some(src) ==> src@.text == text@ && src@.wf(),
{
    let offsets = match char_offsets(text) {
        Some(t) => t,
        None => {
            return None;
        },
    };
    let tree = match parse_text(&parser.grammar, text) {
        Some(t) => t,
        None => {
            return None;
        },
    };
    let (steps, nodes) = match collect_nodes(&tree, &offsets) {
        Some(found) => found,
        None => {
            return None;
        },
    };
    let raw = query_matches(&parser.query, &tree, text);
    proof {
        lemma_finished_wf(text@, steps.deep_view(), nodes.deep_view(), raw.deep_view());
    }
    finish_source(text, &steps, nodes, &raw)
}

} // verus!
