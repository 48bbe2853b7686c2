//! A parsed source file as plain values: the nodes of its syntax tree, each
//! with its kind, its parent, its children, its place in the text, and the
//! query matches over them.

use vstd::prelude::*;
use vstd::string::*;
use crate::text::same_text;

verus! {

/// One node of a syntax tree. `parent` and `children` are indices into the
/// tree's nodes; `start` and `end` are character offsets into the text; the
/// rows are zero-based.
#[derive(Clone, Debug, PartialEq, Eq)]
pub struct SyntaxNode {
    pub kind: String,
    pub parent: Option<usize>,
    pub children: Vec<usize>,
    pub start: usize,
    pub end: usize,
    pub start_row: usize,
    pub end_row: usize,
}

/// What a `SyntaxNode` holds, as mathematical values.
pub struct SyntaxNodeView {
    pub kind: Seq<char>,
    pub parent: Option<usize>,
    pub children: Seq<usize>,
    pub start: usize,
    pub end: usize,
    pub start_row: usize,
    pub end_row: usize,
}

impl View for SyntaxNode {
    type V = SyntaxNodeView;

    open spec fn view(&self) -> SyntaxNodeView {
        SyntaxNodeView {
            kind: self.kind@,
            parent: self.parent,
            children: self.children@,
            start: self.start,
            end: self.end,
            start_row: self.start_row,
            end_row: self.end_row,
        }
    }
}

impl DeepView for SyntaxNode {
    type V = SyntaxNodeView;

    open spec fn deep_view(&self) -> SyntaxNodeView {
        self@
    }
}

/// A syntax tree: its nodes, every parent before its children.
#[derive(Clone, Debug, PartialEq, Eq)]
pub struct SyntaxTree {
    pub nodes: Vec<SyntaxNode>,
}

impl View for SyntaxTree {
    type V = Seq<SyntaxNodeView>;

    open spec fn view(&self) -> Seq<SyntaxNodeView> {
        self.nodes.deep_view()
    }
}

/// Node `i` is sound: its parent comes before it, its children are nodes of
/// the tree, its span lies in the text, and its rows are ordered.
pub open spec fn node_ok(nodes: Seq<SyntaxNodeView>, i: int, text_len: nat) -> bool {
    let n = nodes[i];
    &&& (n.parent matches Some(p) ==> p < i)
    &&& forall|k: int| 0 <= k < n.children.len() ==> #[trigger] n.children[k] < nodes.len()
    &&& n.start <= n.end <= text_len
    &&& n.start_row <= n.end_row < usize::MAX
}

/// Every node of the tree is sound.
pub open spec fn tree_wf(nodes: Seq<SyntaxNodeView>, text_len: nat) -> bool {
    forall|i: int| 0 <= i < nodes.len() ==> node_ok(nodes, i, text_len)
}

impl SyntaxTree {
    /// Whether the tree is sound for a text of `text_len` characters.
    pub fn check(&self, text_len: usize) -> (r: bool)
        ensures
            r == tree_wf(self@, text_len as nat),
    {
        let n: usize = self.nodes.len();
        let mut i: usize = 0;
        while i < n
            invariant
                i <= n,
                n == self.nodes.len(),
                forall|j: int| 0 <= j < i ==> node_ok(self@, j, text_len as nat),
            decreases n - i,
        {
            let node = &self.nodes[i];
            assert(self@[i as int] == node@);
            let parent_ok = match node.parent {
                Some(p) => p < i,
                None => true,
            };
            let span_ok = node.start <= node.end && node.end <= text_len && node.start_row
                <= node.end_row && node.end_row < usize::MAX;
            if !parent_ok || !span_ok {
                assert(!node_ok(self@, i as int, text_len as nat));
                return false;
            }
            let mut k: usize = 0;
            while k < node.children.len()
                invariant
                    k <= node.children.len(),
                    n == self.nodes.len(),
                    i < n,
                    self@[i as int] == node@,
                    forall|m: int| 0 <= m < k ==> #[trigger] node.children@[m] < n,
                decreases node.children.len() - k,
            {
                if node.children[k] >= n {
                    assert(self@[i as int].children[k as int] >= self@.len());
                    assert(!node_ok(self@, i as int, text_len as nat));
                    return false;
                }
                k += 1;
            }
            assert(node_ok(self@, i as int, text_len as nat));
            i += 1;
        }
        true
    }
}

/// The role that a query gives to a captured node.
#[derive(Clone, Copy, Debug, PartialEq, Eq, Structural)]
pub enum CaptureKind {
    Name,
    Callee,
    DefFunc,
    DefClass,
    RefCall,
    Other,
}

/// One captured node of a match.
#[derive(Clone, Copy, Debug, PartialEq, Eq, Structural)]
pub struct Capture {
    pub kind: CaptureKind,
    pub node: usize,
}

/// One match of the capture query: its captures, in the query's order.
#[derive(Clone, Debug, PartialEq, Eq)]
pub struct QueryMatch {
    pub captures: Vec<Capture>,
}

impl View for QueryMatch {
    type V = Seq<Capture>;

    open spec fn view(&self) -> Seq<Capture> {
        self.captures@
    }
}

impl DeepView for QueryMatch {
    type V = Seq<Capture>;

    open spec fn deep_view(&self) -> Seq<Capture> {
        self@
    }
}

/// Every capture of every match names a node of the tree.
pub open spec fn matches_wf(matches: Seq<Seq<Capture>>, node_count: nat) -> bool {
    forall|i: int, j: int|
        0 <= i < matches.len() && 0 <= j < matches[i].len() ==> (#[trigger] matches[i][j]).node
            < node_count
}

/// Whether every capture of every match names a node of the tree.
pub fn check_matches(matches: &Vec<QueryMatch>, node_count: usize) -> (r: bool)
    ensures
        r == matches_wf(matches.deep_view(), node_count as nat),
{
    let mut i: usize = 0;
    while i < matches.len()
        invariant
            i <= matches.len(),
            forall|a: int, b: int|
                0 <= a < i && 0 <= b < matches.deep_view()[a].len() ==> (
                #[trigger] matches.deep_view()[a][b]).node < node_count,
        decreases matches.len() - i,
    {
        let m = &matches[i];
        assert(matches.deep_view()[i as int] == m.captures@);
        let mut j: usize = 0;
        while j < m.captures.len()
            invariant
                j <= m.captures.len(),
                i < matches.len(),
                matches.deep_view()[i as int] == m.captures@,
                forall|b: int| 0 <= b < j ==> (#[trigger] m.captures@[b]).node < node_count,
            decreases m.captures.len() - j,
        {
            if m.captures[j].node >= node_count {
                assert(matches.deep_view()[i as int][j as int].node >= node_count);
                return false;
            }
            j += 1;
        }
        i += 1;
    }
    true
}

/// The role that a capture name stands for.
pub open spec fn capture_kind_of(name: Seq<char>) -> CaptureKind {
    if name == "name"@ {
        CaptureKind::Name
    } else if name == "callee"@ {
        CaptureKind::Callee
    } else if name == "def.func"@ {
        CaptureKind::DefFunc
    } else if name == "def.class"@ {
        CaptureKind::DefClass
    } else if name == "ref.call"@ {
        CaptureKind::RefCall
    } else {
        CaptureKind::Other
    }
}

/// The role that a capture name of the query stands for.
pub fn capture_kind(name: &str) -> (r: CaptureKind)
    ensures
        r == capture_kind_of(name@),
{
    if same_text(name, "name") {
        CaptureKind::Name
    } else if same_text(name, "callee") {
        CaptureKind::Callee
    } else if same_text(name, "def.func") {
        CaptureKind::DefFunc
    } else if same_text(name, "def.class") {
        CaptureKind::DefClass
    } else if same_text(name, "ref.call") {
        CaptureKind::RefCall
    } else {
        CaptureKind::Other
    }
}

} // verus!
