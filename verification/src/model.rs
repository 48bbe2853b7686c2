//! The data that flows through the index: symbol kinds, pending symbols and
//! calls as the extractor emits them, parse results, and the node that every
//! query answers with. Each type has a view that holds its text as
//! `Seq<char>`.

use vstd::prelude::*;
use vstd::string::*;

verus! {

/// What a symbol defines.
#[derive(Clone, Copy, Debug, PartialEq, Eq, Structural)]
pub enum SymbolKind {
    Function,
    Class,
}

/// How far a file has been indexed: fully, or as a file row only.
#[derive(Clone, Copy, Debug, PartialEq, Eq, Structural)]
pub enum IndexLevel {
    Symbol,
    Meta,
}

/// The prefix that a symbol's kind contributes to its canonical identifier.
pub open spec fn kind_prefix(kind: SymbolKind) -> Seq<char> {
    match kind {
        SymbolKind::Class => "class"@,
        SymbolKind::Function => "func"@,
    }
}

/// The canonical identifier of a symbol: `<prefix>:<file-path>::<name>`.
/// It is a function of the kind, the file path and the name; that it
/// determines them in turn is `lemma_canonical_id_injective`.
pub open spec fn canonical_id(kind: SymbolKind, path: Seq<char>, name: Seq<char>) -> Seq<char> {
    kind_prefix(kind) + ":"@ + path + "::"@ + name
}

/// The scope path ends with the symbol's own name: it is the name alone, or
/// some enclosing chain, `::`, and the name.
pub open spec fn scope_ends_with_name(scope_path: Seq<char>, name: Seq<char>) -> bool {
    scope_path == name || ("::"@ + name).is_suffix_of(scope_path)
}

/// A call site as the extractor emits it, tied to its caller by the caller's
/// temporary id.
#[derive(Clone, Debug, PartialEq, Eq)]
pub struct PendingCall {
    pub caller_temp_id: usize,
    pub callee_name: String,
    pub line: usize,
}

/// What a `PendingCall` holds, as mathematical values.
pub struct PendingCallView {
    pub caller_temp_id: usize,
    pub callee_name: Seq<char>,
    pub line: usize,
}

impl View for PendingCall {
    type V = PendingCallView;

    open spec fn view(&self) -> PendingCallView {
        PendingCallView {
            caller_temp_id: self.caller_temp_id,
            callee_name: self.callee_name@,
            line: self.line,
        }
    }
}

impl DeepView for PendingCall {
    type V = PendingCallView;

    open spec fn deep_view(&self) -> PendingCallView {
        self@
    }
}

/// A definition as the extractor emits it.
#[derive(Clone, Debug, PartialEq, Eq)]
pub struct PendingSymbol {
    pub temp_id: usize,
    pub parent_temp_id: Option<usize>,
    pub name: String,
    pub qualified_name: String,
    pub scope_path: String,
    pub kind: SymbolKind,
    pub line_start: usize,
    pub line_end: usize,
    pub text: String,
    pub signature: Option<String>,
}

/// What a `PendingSymbol` holds, as mathematical values.
pub struct PendingSymbolView {
    pub temp_id: usize,
    pub parent_temp_id: Option<usize>,
    pub name: Seq<char>,
    pub qualified_name: Seq<char>,
    pub scope_path: Seq<char>,
    pub kind: SymbolKind,
    pub line_start: usize,
    pub line_end: usize,
    pub text: Seq<char>,
    pub signature: Option<Seq<char>>,
}

impl PendingSymbolView {
    /// Lines are one-based and ordered, the qualified name is the scope
    /// path, and the scope path ends with the name.
    pub open spec fn wf(self) -> bool {
        &&& 1 <= self.line_start <= self.line_end
        &&& self.qualified_name == self.scope_path
        &&& scope_ends_with_name(self.scope_path, self.name)
    }
}

impl View for PendingSymbol {
    type V = PendingSymbolView;

    open spec fn view(&self) -> PendingSymbolView {
        PendingSymbolView {
            temp_id: self.temp_id,
            parent_temp_id: self.parent_temp_id,
            name: self.name@,
            qualified_name: self.qualified_name@,
            scope_path: self.scope_path@,
            kind: self.kind,
            line_start: self.line_start,
            line_end: self.line_end,
            text: self.text@,
            signature: self.signature.deep_view(),
        }
    }
}

impl DeepView for PendingSymbol {
    type V = PendingSymbolView;

    open spec fn deep_view(&self) -> PendingSymbolView {
        self@
    }
}

/// What became of one file in a run: left alone, recorded as a file row
/// only, or parsed.
#[derive(Clone, Copy, Debug, PartialEq, Eq, Structural)]
pub enum ParseStatus {
    Skipped,
    MetaOnly,
    Parsed,
}

/// The outcome of one file, as a worker hands it to the consumer.
#[derive(Clone, Debug, PartialEq, Eq)]
pub struct ParseResult {
    pub status: ParseStatus,
    pub file_path: String,
    pub file_hash: String,
    pub file_size: u64,
    pub file_mtime: i64,
    pub language: String,
    pub index_level: IndexLevel,
    pub line_count: usize,
    pub symbols: Vec<PendingSymbol>,
    pub calls: Vec<PendingCall>,
}

/// What a `ParseResult` holds, as mathematical values.
pub struct ParseResultView {
    pub status: ParseStatus,
    pub file_path: Seq<char>,
    pub file_hash: Seq<char>,
    pub file_size: u64,
    pub file_mtime: i64,
    pub language: Seq<char>,
    pub index_level: IndexLevel,
    pub line_count: usize,
    pub symbols: Seq<PendingSymbolView>,
    pub calls: Seq<PendingCallView>,
}

impl ParseResultView {
    /// Every pending symbol is well formed, and a result that carries
    /// symbols or calls is a parsed one at symbol level.
    pub open spec fn wf(self) -> bool {
        &&& forall|i: int| 0 <= i < self.symbols.len() ==> (#[trigger] self.symbols[i]).wf()
        &&& self.status == ParseStatus::Parsed <==> self.index_level == IndexLevel::Symbol
            && self.status != ParseStatus::Skipped
        &&& self.status != ParseStatus::Parsed ==> self.symbols.len() == 0 && self.calls.len()
            == 0
    }
}

impl View for ParseResult {
    type V = ParseResultView;

    open spec fn view(&self) -> ParseResultView {
        ParseResultView {
            status: self.status,
            file_path: self.file_path@,
            file_hash: self.file_hash@,
            file_size: self.file_size,
            file_mtime: self.file_mtime,
            language: self.language@,
            index_level: self.index_level,
            line_count: self.line_count,
            symbols: self.symbols.deep_view(),
            calls: self.calls.deep_view(),
        }
    }
}

impl DeepView for ParseResult {
    type V = ParseResultView;

    open spec fn deep_view(&self) -> ParseResultView {
        self@
    }
}

/// A symbol as queries report it.
#[derive(Clone, Debug, PartialEq, Eq)]
pub struct Node {
    pub id: String,
    pub node_type: SymbolKind,
    pub name: String,
    pub qualified_name: String,
    pub file_path: String,
    pub line_start: usize,
    pub line_end: usize,
    pub signature: Option<String>,
}

/// What a `Node` holds, as mathematical values.
pub struct NodeView {
    pub id: Seq<char>,
    pub node_type: SymbolKind,
    pub name: Seq<char>,
    pub qualified_name: Seq<char>,
    pub file_path: Seq<char>,
    pub line_start: usize,
    pub line_end: usize,
    pub signature: Option<Seq<char>>,
}

impl View for Node {
    type V = NodeView;

    open spec fn view(&self) -> NodeView {
        NodeView {
            id: self.id@,
            node_type: self.node_type,
            name: self.name@,
            qualified_name: self.qualified_name@,
            file_path: self.file_path@,
            line_start: self.line_start,
            line_end: self.line_end,
            signature: self.signature.deep_view(),
        }
    }
}

impl DeepView for Node {
    type V = NodeView;

    open spec fn deep_view(&self) -> NodeView {
        self@
    }
}

impl Node {
    /// A copy of the node.
    pub fn duplicate(&self) -> (r: Node)
        ensures
            r@ == self@,
    {
        Node {
            id: self.id.clone(),
            node_type: self.node_type,
            name: self.name.clone(),
            qualified_name: self.qualified_name.clone(),
            file_path: self.file_path.clone(),
            line_start: self.line_start,
            line_end: self.line_end,
            signature: self.signature.clone(),
        }
    }
}

impl SymbolKind {
    /// The kind's name as rows and reports spell it.
    pub fn name(&self) -> (r: &'static str)
        ensures
            r@ == (match *self {
                SymbolKind::Function => "function"@,
                SymbolKind::Class => "class"@,
            }),
    {
        match self {
            SymbolKind::Function => "function",
            SymbolKind::Class => "class",
        }
    }

    /// The kind that a stored name stands for: `class` is a class, and
    /// every other name a function.
    pub fn from_name(name: &str) -> (r: SymbolKind)
        ensures
            r == (if name@ == "class"@ {
                SymbolKind::Class
            } else {
                SymbolKind::Function
            }),
    {
        if crate::text::same_text(name, "class") {
            SymbolKind::Class
        } else {
            SymbolKind::Function
        }
    }

    /// The canonical identifier's prefix for this kind.
    pub fn prefix(&self) -> (r: &'static str)
        ensures
            r@ == kind_prefix(*self),
    {
        match self {
            SymbolKind::Function => "func",
            SymbolKind::Class => "class",
        }
    }
}

impl IndexLevel {
    /// The level's name as rows spell it.
    pub fn name(&self) -> (r: &'static str)
        ensures
            r@ == (match *self {
                IndexLevel::Symbol => "symbol"@,
                IndexLevel::Meta => "meta"@,
            }),
    {
        match self {
            IndexLevel::Symbol => "symbol",
            IndexLevel::Meta => "meta",
        }
    }

    /// The level that a stored name stands for: `meta` is the file-row-only
    /// level, and every other name the symbol level.
    pub fn from_name(name: &str) -> (r: IndexLevel)
        ensures
            r == (if name@ == "meta"@ {
                IndexLevel::Meta
            } else {
                IndexLevel::Symbol
            }),
    {
        if crate::text::same_text(name, "meta") {
            IndexLevel::Meta
        } else {
            IndexLevel::Symbol
        }
    }
}

/// Builds the canonical identifier `<prefix>:<file-path>::<name>`.
pub fn make_canonical_id(kind: SymbolKind, path: &str, name: &str) -> (r: String)
    ensures
        r@ == canonical_id(kind, path@, name@),
{
    let mut s = String::from_str(kind.prefix());
    s.append(":");
    s.append(path);
    s.append("::");
    s.append(name);
    s
}

/// The kind prefix, the file path and the name can each be read back from a
/// canonical identifier, provided that names hold no colon: two symbols with
/// the same identifier agree on all three. Identifiers of the languages that
/// are served hold no colon. Without the proviso there is no such law, not
/// even for paths and names without `::`: the path `a:` with the name `b`
/// and the path `a` with the name `:b` have the same identifier.
pub proof fn lemma_canonical_id_injective(
    kind_a: SymbolKind,
    path_a: Seq<char>,
    name_a: Seq<char>,
    kind_b: SymbolKind,
    path_b: Seq<char>,
    name_b: Seq<char>,
)
    requires
        !name_a.contains(':'),
        !name_b.contains(':'),
        canonical_id(kind_a, path_a, name_a) == canonical_id(kind_b, path_b, name_b),
    ensures
        kind_a == kind_b,
        path_a == path_b,
        name_a == name_b,
{
    reveal_strlit("class");
    reveal_strlit("func");
    reveal_strlit(":");
    reveal_strlit("::");
    let a = canonical_id(kind_a, path_a, name_a);
    let b = canonical_id(kind_b, path_b, name_b);
    let head_a = kind_prefix(kind_a) + ":"@ + path_a + "::"@;
    let head_b = kind_prefix(kind_b) + ":"@ + path_b + "::"@;
    assert(a == head_a + name_a);
    assert(b == head_b + name_b);
    assert(a[0] == kind_prefix(kind_a)[0]);
    assert(b[0] == kind_prefix(kind_b)[0]);
    assert(kind_a == kind_b);
    assert(head_a.last() == ':');
    assert(head_b.last() == ':');
    // The name is what follows the last colon.
    if name_a.len() < name_b.len() {
        let i = a.len() - name_a.len() - 1;
        assert(a[i] == head_a.last());
        assert(b[i] == name_b[i - head_b.len()]);
        assert(name_b.contains(':'));
    }
    if name_b.len() < name_a.len() {
        let i = b.len() - name_b.len() - 1;
        assert(b[i] == head_b.last());
        assert(a[i] == name_a[i - head_a.len()]);
        assert(name_a.contains(':'));
    }
    assert(name_a.len() == name_b.len());
    assert(head_a.len() == head_b.len());
    assert(name_a =~= name_b) by {
        assert forall|i: int| 0 <= i < name_a.len() implies name_a[i] == name_b[i] by {
            assert(a[head_a.len() + i] == name_a[i]);
            assert(b[head_b.len() + i] == name_b[i]);
        }
    }
    let pre = kind_prefix(kind_a) + ":"@;
    assert(path_a.len() == path_b.len());
    assert(path_a =~= path_b) by {
        assert forall|i: int| 0 <= i < path_a.len() implies path_a[i] == path_b[i] by {
            assert(a[pre.len() + i] == path_a[i]);
            assert(b[pre.len() + i] == path_b[i]);
        }
    }
}

} // verus!
