//! Extraction: from the query matches over a syntax tree to the pending
//! symbols and pending calls of a file, with parents, scope paths and
//! signatures.

use vstd::prelude::*;
use vstd::string::*;
use crate::model::{
    scope_ends_with_name, PendingCall, PendingCallView, PendingSymbol, PendingSymbolView,
    SymbolKind,
};
use crate::syntax::{
    matches_wf, node_ok, tree_wf, Capture, CaptureKind, QueryMatch, SyntaxNodeView, SyntaxTree,
};
use crate::text::{
    join, join_strings, pieces, same_text, split, split_chars, string_of, string_of_range,
    to_chars, trim, trim_chars,
};

verus! {

/// The node kinds that open a scope.
pub open spec fn is_scope_kind(kind: Seq<char>) -> bool {
    ||| kind == "class_definition"@
    ||| kind == "class"@
    ||| kind == "function_definition"@
    ||| kind == "method_declaration"@
    ||| kind == "class_declaration"@
    ||| kind == "interface_declaration"@
    ||| kind == "struct_item"@
    ||| kind == "impl_item"@
    ||| kind == "mod_item"@
    ||| kind == "trait_item"@
}

/// The node kinds that can name a scope.
pub open spec fn is_identifier_kind(kind: Seq<char>) -> bool {
    ||| kind == "identifier"@
    ||| kind == "type_identifier"@
    ||| kind == "name"@
    ||| kind == "field_identifier"@
}

/// The text that a node spans.
pub open spec fn node_text(text: Seq<char>, n: SyntaxNodeView) -> Seq<char> {
    text.subrange(n.start as int, n.end as int)
}

/// The parent of node `i`, where the tree names one that comes before it.
pub open spec fn parent_of(tree: Seq<SyntaxNodeView>, i: int) -> Option<usize> {
    match tree[i].parent {
        Some(p) => if p < i {
            Some(p)
        } else {
            None
        },
        None => None,
    }
}

/// The first of `children` whose kind can name a scope.
pub open spec fn first_identifier(tree: Seq<SyntaxNodeView>, children: Seq<usize>) -> Option<
    usize,
>
    decreases children.len(),
{
    if children.len() == 0 {
        None
    } else if children[0] < tree.len() && is_identifier_kind(tree[children[0] as int].kind) {
        Some(children[0])
    } else {
        first_identifier(tree, children.drop_first())
    }
}

/// The name that node `i` gives to the scope it opens, if it opens one and
/// has an identifier among its children.
pub open spec fn scope_name(tree: Seq<SyntaxNodeView>, text: Seq<char>, i: int) -> Option<
    Seq<char>,
> {
    if is_scope_kind(tree[i].kind) {
        match first_identifier(tree, tree[i].children) {
            Some(c) => Some(node_text(text, tree[c as int])),
            None => None,
        }
    } else {
        None
    }
}

/// The names of the scopes that enclose a node, walking up from `at`:
/// the innermost first.
pub open spec fn scope_chain(tree: Seq<SyntaxNodeView>, text: Seq<char>, at: Option<usize>) -> Seq<
    Seq<char>,
>
    decreases
        (match at {
            Some(i) => i + 1,
            None => 0int,
        }),
{
    match at {
        None => Seq::empty(),
        Some(i) => if i >= tree.len() {
            Seq::empty()
        } else {
            let rest = scope_chain(tree, text, parent_of(tree, i as int));
            match scope_name(tree, text, i as int) {
                Some(n) => seq![n] + rest,
                None => rest,
            }
        },
    }
}

/// The scope path of a symbol: the enclosing scope names from the outermost
/// in, then the symbol's own name, joined by `::`.
pub open spec fn scope_path_of(chain: Seq<Seq<char>>, name: Seq<char>) -> Seq<char> {
    join(chain.reverse().push(name), "::"@)
}

/// The temporary id of the nearest definition at or above `at`, or 0 where
/// no definition encloses it. `memo[i]` is the temporary id of the
/// definition at node `i`, or 0.
pub open spec fn first_memoized(tree: Seq<SyntaxNodeView>, memo: Seq<usize>, at: Option<usize>)
    -> usize
    decreases
        (match at {
            Some(i) => i + 1,
            None => 0int,
        }),
{
    match at {
        None => 0,
        Some(i) => if i >= tree.len() || i >= memo.len() {
            0
        } else if memo[i as int] != 0 {
            memo[i as int]
        } else {
            first_memoized(tree, memo, parent_of(tree, i as int))
        },
    }
}

/// The first of the lines that is not blank, trimmed.
pub open spec fn first_nonblank(lines: Seq<Seq<char>>) -> Option<Seq<char>>
    decreases lines.len(),
{
    if lines.len() == 0 {
        None
    } else if trim(lines[0]).len() > 0 {
        Some(trim(lines[0]))
    } else {
        first_nonblank(lines.drop_first())
    }
}

/// The signature of a definition: the first line of its text that is not
/// blank, without the white space around it.
pub open spec fn signature_of(def_text: Seq<char>) -> Option<Seq<char>> {
    first_nonblank(split(def_text, '\n'))
}

/// What the captures of one match single out: the last capture of each role
/// counts.
#[derive(Clone, Copy)]
pub struct MatchRoles {
    pub name: Option<usize>,
    pub callee: Option<usize>,
    pub def: Option<DefCapture>,
}

/// A definition capture: the kind it declares and the node it spans.
#[derive(Clone, Copy)]
pub struct DefCapture {
    pub kind: SymbolKind,
    pub node: usize,
}

pub open spec fn roles_of(caps: Seq<Capture>) -> MatchRoles
    decreases caps.len(),
{
    if caps.len() == 0 {
        MatchRoles { name: None, callee: None, def: None }
    } else {
        let r = roles_of(caps.drop_last());
        let c = caps.last();
        match c.kind {
            CaptureKind::Name => MatchRoles { name: Some(c.node), ..r },
            CaptureKind::Callee => MatchRoles { callee: Some(c.node), ..r },
            CaptureKind::DefFunc => MatchRoles {
                def: Some(DefCapture { kind: SymbolKind::Function, node: c.node }),
                ..r
            },
            CaptureKind::DefClass => MatchRoles {
                def: Some(DefCapture { kind: SymbolKind::Class, node: c.node }),
                ..r
            },
            _ => r,
        }
    }
}

/// The state of an extraction: what was emitted so far, and which node
/// holds which definition.
pub struct Extraction {
    pub symbols: Seq<PendingSymbolView>,
    pub calls: Seq<PendingCallView>,
    pub memo: Seq<usize>,
}

/// The pending symbol for a definition match: `name_node` names it and
/// `def_node` spans it.
pub open spec fn symbol_for(
    tree: Seq<SyntaxNodeView>,
    text: Seq<char>,
    memo: Seq<usize>,
    tid: usize,
    kind: SymbolKind,
    name_node: int,
    def_node: int,
) -> PendingSymbolView {
    let name = node_text(text, tree[name_node]);
    let up = parent_of(tree, def_node);
    let parent = first_memoized(tree, memo, up);
    let path = scope_path_of(scope_chain(tree, text, up), name);
    PendingSymbolView {
        temp_id: tid,
        parent_temp_id: if parent == 0 {
            None
        } else {
            Some(parent)
        },
        name: name,
        qualified_name: path,
        scope_path: path,
        kind: kind,
        line_start: (tree[def_node].start_row + 1) as usize,
        line_end: (tree[def_node].end_row + 1) as usize,
        text: name,
        signature: if kind == SymbolKind::Function {
            signature_of(node_text(text, tree[def_node]))
        } else {
            None
        },
    }
}

/// The state after one more match. A match with a name and a definition
/// capture is a definition: it gets the next temporary id. Any other match
/// with a callee capture is a call: it is recorded where a definition
/// encloses it, and dropped where none does.
pub open spec fn extract_step(
    tree: Seq<SyntaxNodeView>,
    text: Seq<char>,
    st: Extraction,
    caps: Seq<Capture>,
) -> Extraction {
    let r = roles_of(caps);
    if r.name is Some && r.def is Some {
        let d = r.def->0.node as int;
        let tid = (st.symbols.len() + 1) as usize;
        let memo = st.memo.update(d, tid);
        Extraction {
            symbols: st.symbols.push(
                symbol_for(tree, text, memo, tid, r.def->0.kind, r.name->0 as int, d),
            ),
            calls: st.calls,
            memo: memo,
        }
    } else if r.callee is Some {
        let c = r.callee->0 as int;
        let caller = first_memoized(tree, st.memo, parent_of(tree, c));
        if caller > 0 {
            Extraction {
                calls: st.calls.push(
                    PendingCallView {
                        caller_temp_id: caller,
                        callee_name: node_text(text, tree[c]),
                        line: (tree[c].start_row + 1) as usize,
                    },
                ),
                ..st
            }
        } else {
            st
        }
    } else {
        st
    }
}

/// The state after all of `matches`, taken in order.
pub open spec fn extraction(
    tree: Seq<SyntaxNodeView>,
    text: Seq<char>,
    matches: Seq<Seq<Capture>>,
) -> Extraction
    decreases matches.len(),
{
    if matches.len() == 0 {
        Extraction {
            symbols: Seq::empty(),
            calls: Seq::empty(),
            memo: Seq::new(tree.len(), |i: int| 0usize),
        }
    } else {
        extract_step(tree, text, extraction(tree, text, matches.drop_last()), matches.last())
    }
}

/// A scope path ends with the name it was built for.
pub proof fn lemma_scope_path_ends_with_name(chain: Seq<Seq<char>>, name: Seq<char>)
    ensures
        scope_ends_with_name(scope_path_of(chain, name), name),
{
    let parts = chain.reverse().push(name);
    if parts.len() == 1 {
        assert(parts[0] == name);
    } else {
        let head = join(parts.drop_last(), "::"@);
        let whole = head + "::"@ + name;
        assert(parts.last() == name);
        assert(join(parts, "::"@) == whole);
        let tail = "::"@ + name;
        assert(whole.subrange(whole.len() - tail.len(), whole.len() as int) =~= tail);
    }
}

/// Whether a node of this kind opens a scope.
pub fn opens_scope(kind: &str) -> (r: bool)
    ensures
        r == is_scope_kind(kind@),
{
    same_text(kind, "class_definition") || same_text(kind, "class") || same_text(
        kind,
        "function_definition",
    ) || same_text(kind, "method_declaration") || same_text(kind, "class_declaration")
        || same_text(kind, "interface_declaration") || same_text(kind, "struct_item") || same_text(
        kind,
        "impl_item",
    ) || same_text(kind, "mod_item") || same_text(kind, "trait_item")
}

/// Whether a node of this kind can name a scope.
pub fn names_scope(kind: &str) -> (r: bool)
    ensures
        r == is_identifier_kind(kind@),
{
    same_text(kind, "identifier") || same_text(kind, "type_identifier") || same_text(kind, "name")
        || same_text(kind, "field_identifier")
}

/// The roles that the captures of a match single out.
pub fn match_roles(m: &QueryMatch) -> (r: MatchRoles)
    ensures
        r == roles_of(m@),
{
    let mut r = MatchRoles { name: None, callee: None, def: None };
    let mut i: usize = 0;
    assert(m@.take(0) =~= Seq::<Capture>::empty());
    while i < m.captures.len()
        invariant
            i <= m.captures.len(),
            r == roles_of(m@.take(i as int)),
        decreases m.captures.len() - i,
    {
        let c = m.captures[i];
        proof {
            assert(m@.take(i + 1).drop_last() =~= m@.take(i as int));
            assert(m@.take(i + 1).last() == c);
        }
        match c.kind {
            CaptureKind::Name => {
                r.name = Some(c.node);
            },
            CaptureKind::Callee => {
                r.callee = Some(c.node);
            },
            CaptureKind::DefFunc => {
                r.def = Some(DefCapture { kind: SymbolKind::Function, node: c.node });
            },
            CaptureKind::DefClass => {
                r.def = Some(DefCapture { kind: SymbolKind::Class, node: c.node });
            },
            _ => {},
        }
        i += 1;
    }
    assert(m@.take(m.captures.len() as int) =~= m@);
    r
}

/// The parent of node `i`, where the tree names one that comes before it.
fn parent_index(tree: &SyntaxTree, i: usize) -> (r: Option<usize>)
    requires
        i < tree@.len(),
    ensures
        r == parent_of(tree@, i as int),
        r matches Some(p) ==> p < i,
{
    match tree.nodes[i].parent {
        Some(p) => if p < i {
            Some(p)
        } else {
            None
        },
        None => None,
    }
}

/// The first child of node `i` whose kind can name a scope.
fn identifier_child(tree: &SyntaxTree, i: usize) -> (r: Option<usize>)
    requires
        i < tree@.len(),
    ensures
        r == first_identifier(tree@, tree@[i as int].children),
        r matches Some(c) ==> c < tree@.len(),
{
    let node = &tree.nodes[i];
    let ghost all = node.children@;
    let mut k: usize = 0;
    assert(all.skip(0) =~= all);
    while k < node.children.len()
        invariant
            k <= node.children.len(),
            i < tree.nodes.len(),
            all == node.children@,
            all == tree@[i as int].children,
            first_identifier(tree@, all) == first_identifier(tree@, all.skip(k as int)),
        decreases node.children.len() - k,
    {
        let c: usize = node.children[k];
        proof {
            assert(all.skip(k as int)[0] == c);
            assert(all.skip(k as int).drop_first() =~= all.skip(k + 1));
        }
        if c < tree.nodes.len() && names_scope(tree.nodes[c].kind.as_str()) {
            assert(tree@[c as int].kind == tree.nodes@[c as int].kind@);
            return Some(c);
        }
        assert(c < tree@.len() ==> tree@[c as int].kind == tree.nodes@[c as int].kind@);
        k += 1;
    }
    None
}

/// The temporary id of the nearest definition at or above `at`, or 0.
fn enclosing_definition(tree: &SyntaxTree, memo: &Vec<usize>, at: Option<usize>) -> (r: usize)
    requires
        memo@.len() == tree@.len(),
    ensures
        r == first_memoized(tree@, memo@, at),
{
    let mut cursor = at;
    loop
        invariant
            memo@.len() == tree@.len(),
            first_memoized(tree@, memo@, at) == first_memoized(tree@, memo@, cursor),
        decreases
            (match cursor {
                Some(i) => i + 1,
                None => 0int,
            }),
    {
        match cursor {
            None => {
                return 0;
            },
            Some(i) => {
                if i >= tree.nodes.len() {
                    return 0;
                }
                if memo[i] != 0 {
                    return memo[i];
                }
                cursor = parent_index(tree, i);
            },
        }
    }
}

/// The names of the scopes that enclose a node, walking up from `at`: the
/// outermost first.
fn enclosing_scopes(tree: &SyntaxTree, chars: &Vec<char>, at: Option<usize>) -> (r: Vec<String>)
    requires
        tree_wf(tree@, chars@.len()),
    ensures
        r.deep_view() == scope_chain(tree@, chars@, at).reverse(),
{
    let mut inner_first: Vec<String> = Vec::new();
    let mut cursor = at;
    loop
        invariant
            tree_wf(tree@, chars@.len()),
            scope_chain(tree@, chars@, at) == inner_first.deep_view() + scope_chain(
                tree@,
                chars@,
                cursor,
            ),
        ensures
            scope_chain(tree@, chars@, cursor) == Seq::<Seq<char>>::empty(),
        decreases
            (match cursor {
                Some(i) => i + 1,
                None => 0int,
            }),
    {
        match cursor {
            None => {
                break ;
            },
            Some(i) => {
                if i >= tree.nodes.len() {
                    break ;
                }
                let ghost before = inner_first.deep_view();
                let ghost rest = scope_chain(tree@, chars@, parent_of(tree@, i as int));
                if opens_scope(tree.nodes[i].kind.as_str()) {
                    match identifier_child(tree, i) {
                        Some(c) => {
                            assert(node_ok(tree@, c as int, chars@.len()));
                            let name = string_of_range(
                                chars,
                                tree.nodes[c].start,
                                tree.nodes[c].end,
                            );
                            inner_first.push(name);
                            assert(inner_first.deep_view() + rest =~= before + (seq![
                                node_text(chars@, tree@[c as int]),
                            ] + rest));
                        },
                        None => {},
                    }
                }
                cursor = parent_index(tree, i);
            },
        }
    }
    assert(scope_chain(tree@, chars@, at) =~= inner_first.deep_view());
    let mut out: Vec<String> = Vec::new();
    let mut k: usize = inner_first.len();
    while k > 0
        invariant
            k <= inner_first.len(),
            out.deep_view() == inner_first.deep_view().reverse().take(inner_first.len() - k),
        decreases k,
    {
        k -= 1;
        let ghost before = out.deep_view();
        out.push(inner_first[k].clone());
        proof {
            let rev = inner_first.deep_view().reverse();
            assert(rev[inner_first.len() - k - 1] == inner_first@[k as int]@);
            assert(out.deep_view() =~= before.push(inner_first@[k as int]@));
            assert(rev.take(inner_first.len() - k) =~= rev.take(inner_first.len() - k - 1).push(
                rev[inner_first.len() - k - 1],
            ));
        }
    }
    assert(inner_first.deep_view().reverse().take(inner_first.len() as int)
        =~= inner_first.deep_view().reverse());
    out
}

/// The signature of a definition with the text `def_text`.
pub fn signature_from(def_text: &Vec<char>) -> (r: Option<String>)
    ensures
        r.deep_view() == signature_of(def_text@),
{
    let lines = split_chars(def_text, '\n');
    let ghost all = pieces(lines@);
    let mut i: usize = 0;
    assert(all.skip(0) =~= all);
    while i < lines.len()
        invariant
            i <= lines.len(),
            all == pieces(lines@),
            all == split(def_text@, '\n'),
            first_nonblank(all) == first_nonblank(all.skip(i as int)),
        decreases lines.len() - i,
    {
        let trimmed = trim_chars(&lines[i]);
        proof {
            assert(all.skip(i as int)[0] == lines@[i as int]@);
            assert(all.skip(i as int).drop_first() =~= all.skip(i + 1));
        }
        if trimmed.len() > 0 {
            return Some(string_of(&trimmed));
        }
        i += 1;
    }
    None
}

/// The pending symbols and pending calls of a parsed file, from the matches
/// of its capture query in order. Definitions get the temporary ids 1, 2, 3
/// and so on; every emitted symbol is well formed; every call names the
/// temporary id of an emitted symbol.
pub fn extract(tree: &SyntaxTree, text: &str, matches: &Vec<QueryMatch>) -> (out: (
    Vec<PendingSymbol>,
    Vec<PendingCall>,
))
    requires
        tree_wf(tree@, text@.len()),
        matches_wf(matches.deep_view(), tree@.len()),
    ensures
        out.0.deep_view() == extraction(tree@, text@, matches.deep_view()).symbols,
        out.1.deep_view() == extraction(tree@, text@, matches.deep_view()).calls,
        forall|i: int|
            0 <= i < out.0.len() ==> (#[trigger] out.0.deep_view()[i]).wf()
                && out.0.deep_view()[i].temp_id == i + 1,
        forall|i: int|
            0 <= i < out.1.len() ==> 1 <= (#[trigger] out.1.deep_view()[i]).caller_temp_id
                <= out.0.len(),
{
    let chars = to_chars(text);
    let ghost ms = matches.deep_view();
    let mut symbols: Vec<PendingSymbol> = Vec::new();
    let mut calls: Vec<PendingCall> = Vec::new();
    let mut memo: Vec<usize> = Vec::new();
    let mut n: usize = 0;
    while n < tree.nodes.len()
        invariant
            n <= tree.nodes.len(),
            memo@ == Seq::new(n as nat, |i: int| 0usize),
        decreases tree.nodes.len() - n,
    {
        memo.push(0);
        n += 1;
        assert(memo@ =~= Seq::new(n as nat, |i: int| 0usize));
    }
    let mut i: usize = 0;
    assert(ms.take(0) =~= Seq::<Seq<Capture>>::empty());
    while i < matches.len()
        invariant
            i <= matches.len(),
            chars@ == text@,
            ms == matches.deep_view(),
            tree_wf(tree@, text@.len()),
            matches_wf(ms, tree@.len()),
            memo@.len() == tree@.len(),
            symbols.len() <= i,
            symbols.deep_view() == extraction(tree@, text@, ms.take(i as int)).symbols,
            calls.deep_view() == extraction(tree@, text@, ms.take(i as int)).calls,
            memo@ == extraction(tree@, text@, ms.take(i as int)).memo,
            forall|k: int|
                0 <= k < symbols.len() ==> (#[trigger] symbols.deep_view()[k]).wf()
                    && symbols.deep_view()[k].temp_id == k + 1,
            forall|k: int|
                0 <= k < calls.len() ==> 1 <= (#[trigger] calls.deep_view()[k]).caller_temp_id
                    <= symbols.len(),
            forall|k: int| 0 <= k < memo@.len() ==> #[trigger] memo@[k] <= symbols.len(),
        decreases matches.len() - i,
    {
        let m = &matches[i];
        let ghost st = extraction(tree@, text@, ms.take(i as int));
        let ghost old_symbols = symbols.deep_view();
        let ghost old_calls = calls.deep_view();
        proof {
            assert(ms.take(i + 1).drop_last() =~= ms.take(i as int));
            assert(ms.take(i + 1).last() == m@);
            assert(ms[i as int] == m@);
        }
        let roles = match_roles(m);
        proof {
            lemma_roles_in_tree(m@, tree@.len());
        }
        match (roles.name, roles.def) {
            (Some(name_node), Some(DefCapture { kind, node: def_node })) => {
                assert(node_ok(tree@, name_node as int, text@.len()));
                assert(node_ok(tree@, def_node as int, text@.len()));
                let tid: usize = symbols.len() + 1;
                memo[def_node] = tid;
                let up = parent_index(tree, def_node);
                let parent = enclosing_definition(tree, &memo, up);
                let name = string_of_range(
                    &chars,
                    tree.nodes[name_node].start,
                    tree.nodes[name_node].end,
                );
                let mut parts = enclosing_scopes(tree, &chars, up);
                parts.push(name.clone());
                let path = join_strings(&parts, "::");
                let signature = match kind {
                    SymbolKind::Function => {
                        let def_text = string_of_range(
                            &chars,
                            tree.nodes[def_node].start,
                            tree.nodes[def_node].end,
                        );
                        let def_chars = to_chars(def_text.as_str());
                        signature_from(&def_chars)
                    },
                    SymbolKind::Class => None,
                };
                let sym = PendingSymbol {
                    temp_id: tid,
                    parent_temp_id: if parent == 0 {
                        None
                    } else {
                        Some(parent)
                    },
                    name: name.clone(),
                    qualified_name: path.clone(),
                    scope_path: path,
                    kind,
                    line_start: tree.nodes[def_node].start_row + 1,
                    line_end: tree.nodes[def_node].end_row + 1,
                    text: name,
                    signature,
                };
                proof {
                    let chain = scope_chain(tree@, text@, up);
                    assert(parts.deep_view() =~= chain.reverse().push(
                        node_text(text@, tree@[name_node as int]),
                    ));
                    lemma_scope_path_ends_with_name(
                        chain,
                        node_text(text@, tree@[name_node as int]),
                    );
                    assert(sym@ == symbol_for(
                        tree@,
                        text@,
                        memo@,
                        tid,
                        kind,
                        name_node as int,
                        def_node as int,
                    ));
                }
                symbols.push(sym);
                proof {
                    assert(symbols.deep_view() =~= old_symbols.push(
                        symbol_for(
                            tree@,
                            text@,
                            memo@,
                            tid,
                            kind,
                            name_node as int,
                            def_node as int,
                        ),
                    ));
                }
            },
            _ => {
                match roles.callee {
                    Some(c) => {
                        assert(node_ok(tree@, c as int, text@.len()));
                        let up = parent_index(tree, c);
                        let caller = enclosing_definition(tree, &memo, up);
                        if caller > 0 {
                            proof {
                                lemma_first_memoized_bound(tree@, memo@, up, symbols.len() as nat);
                            }
                            let callee_name = string_of_range(
                                &chars,
                                tree.nodes[c].start,
                                tree.nodes[c].end,
                            );
                            let call = PendingCall {
                                caller_temp_id: caller,
                                callee_name,
                                line: tree.nodes[c].start_row + 1,
                            };
                            calls.push(call);
                            proof {
                                assert(calls.deep_view() =~= old_calls.push(
                                    PendingCallView {
                                        caller_temp_id: caller,
                                        callee_name: node_text(text@, tree@[c as int]),
                                        line: (tree@[c as int].start_row + 1) as usize,
                                    },
                                ));
                            }
                        }
                    },
                    None => {},
                }
            },
        }
        i += 1;
    }
    assert(ms.take(matches.len() as int) =~= ms);
    (symbols, calls)
}

/// The nodes that the roles of a match name are nodes of the tree, when all
/// its captures are.
pub proof fn lemma_roles_in_tree(caps: Seq<Capture>, node_count: nat)
    requires
        forall|j: int| 0 <= j < caps.len() ==> (#[trigger] caps[j]).node < node_count,
    ensures
        roles_of(caps).name matches Some(n) ==> n < node_count,
        roles_of(caps).callee matches Some(n) ==> n < node_count,
        roles_of(caps).def matches Some(d) ==> d.node < node_count,
    decreases caps.len(),
{
    if caps.len() > 0 {
        assert(caps.last().node < node_count);
        lemma_roles_in_tree(caps.drop_last(), node_count);
    }
}

/// The nearest definition's temporary id is one that the memo holds.
pub proof fn lemma_first_memoized_bound(
    tree: Seq<SyntaxNodeView>,
    memo: Seq<usize>,
    at: Option<usize>,
    bound: nat,
)
    requires
        forall|k: int| 0 <= k < memo.len() ==> #[trigger] memo[k] <= bound,
    ensures
        first_memoized(tree, memo, at) <= bound,
    decreases
        (match at {
            Some(i) => i + 1,
            None => 0int,
        }),
{
    match at {
        None => {},
        Some(i) => {
            if i >= tree.len() || i >= memo.len() {
            } else if memo[i as int] != 0 {
            } else {
                lemma_first_memoized_bound(tree, memo, parent_of(tree, i as int), bound);
            }
        },
    }
}

} // verus!
