//! The call graph over canonical identifiers: its edges in the order of the
//! call rows, adjacency in both directions, and reachability by breadth.

use vstd::prelude::*;
use vstd::string::*;
use crate::store::{CallRowView, Store, StoreView, SymbolRowView};
use crate::text::{contains_string, same_text};

verus! {

/// One edge of the call graph: from the caller's canonical identifier to
/// the callee's.
#[derive(Clone, Debug, PartialEq, Eq)]
pub struct Edge {
    pub caller: String,
    pub callee: String,
}

/// What a `Edge` holds, as mathematical values.
pub struct EdgeView {
    pub caller: Seq<char>,
    pub callee: Seq<char>,
}

impl View for Edge {
    type V = EdgeView;

    open spec fn view(&self) -> EdgeView {
        EdgeView { caller: self.caller@, callee: self.callee@ }
    }
}

impl DeepView for Edge {
    type V = EdgeView;

    open spec fn deep_view(&self) -> EdgeView {
        self@
    }
}

/// The call graph.
#[derive(Clone, Debug, PartialEq, Eq)]
pub struct CallGraph {
    pub edges: Vec<Edge>,
}

impl View for CallGraph {
    type V = Seq<EdgeView>;

    open spec fn view(&self) -> Seq<EdgeView> {
        self.edges.deep_view()
    }
}

/// The way in which the graph is walked: forward from a caller to what it
/// calls, or backward from a callee to what calls it.
#[derive(Clone, Copy, Debug, PartialEq, Eq, Structural)]
pub enum Direction {
    Forward,
    Backward,
}

/// The end of an edge from which a walk in the direction leaves.
pub open spec fn source(e: EdgeView, dir: Direction) -> Seq<char> {
    match dir {
        Direction::Forward => e.caller,
        Direction::Backward => e.callee,
    }
}

/// The end of an edge at which a walk in the direction arrives.
pub open spec fn target(e: EdgeView, dir: Direction) -> Seq<char> {
    match dir {
        Direction::Forward => e.callee,
        Direction::Backward => e.caller,
    }
}

/// The canonical identifiers of the symbols that have the name, in row
/// order.
pub open spec fn ids_named(symbols: Seq<SymbolRowView>, name: Seq<char>) -> Seq<Seq<char>>
    decreases symbols.len(),
{
    if symbols.len() == 0 {
        Seq::empty()
    } else if symbols.last().name == name {
        ids_named(symbols.drop_last(), name).push(symbols.last().canonical_id)
    } else {
        ids_named(symbols.drop_last(), name)
    }
}

/// One edge from `caller` to each of `ids`.
pub open spec fn edges_to(caller: Seq<char>, ids: Seq<Seq<char>>) -> Seq<EdgeView> {
    Seq::new(ids.len(), |i: int| EdgeView { caller: caller, callee: ids[i] })
}

/// The edges of one call row: one to its resolved callee, or, where it is
/// unresolved, one to every symbol that has the callee's name.
pub open spec fn edges_of_call(symbols: Seq<SymbolRowView>, caller: Seq<char>, c: CallRowView)
    -> Seq<EdgeView> {
    match c.callee_id {
        Some(id) => seq![EdgeView { caller: caller, callee: id }],
        None => edges_to(caller, ids_named(symbols, c.callee_name)),
    }
}

/// The edges of the call rows of one caller, in order.
pub open spec fn edges_of_calls(
    symbols: Seq<SymbolRowView>,
    caller: Seq<char>,
    calls: Seq<CallRowView>,
) -> Seq<EdgeView>
    decreases calls.len(),
{
    if calls.len() == 0 {
        Seq::empty()
    } else {
        edges_of_calls(symbols, caller, calls.drop_last()) + edges_of_call(
            symbols,
            caller,
            calls.last(),
        )
    }
}

/// The edges of the call rows of `rows`, in order.
pub open spec fn edges_of_rows(symbols: Seq<SymbolRowView>, rows: Seq<SymbolRowView>) -> Seq<
    EdgeView,
>
    decreases rows.len(),
{
    if rows.len() == 0 {
        Seq::empty()
    } else {
        edges_of_rows(symbols, rows.drop_last()) + edges_of_calls(
            symbols,
            rows.last().canonical_id,
            rows.last().calls,
        )
    }
}

/// The call graph of an indexed state.
pub open spec fn graph_of(s: StoreView) -> Seq<EdgeView> {
    edges_of_rows(s.symbols, s.symbols)
}

/// The neighbours of `id` in the direction, one for each edge that leaves
/// it, in edge order.
pub open spec fn successors(edges: Seq<EdgeView>, dir: Direction, id: Seq<char>) -> Seq<Seq<char>>
    decreases edges.len(),
{
    if edges.len() == 0 {
        Seq::empty()
    } else if source(edges.last(), dir) == id {
        successors(edges.drop_last(), dir, id).push(target(edges.last(), dir))
    } else {
        successors(edges.drop_last(), dir, id)
    }
}

/// `v` is reached from `from` by at most `k` edges in the direction.
pub open spec fn within(edges: Seq<EdgeView>, dir: Direction, from: Seq<char>, k: nat, v: Seq<char>)
    -> bool
    decreases k,
{
    if k == 0 {
        v == from
    } else {
        within(edges, dir, from, (k - 1) as nat, v) || exists|i: int|
            0 <= i < edges.len() && within(
                edges,
                dir,
                from,
                (k - 1) as nat,
                source(#[trigger] edges[i], dir),
            ) && target(edges[i], dir) == v
    }
}

/// `v` is the far end of an edge that leaves a member of `frontier`.
pub open spec fn steps_from(
    edges: Seq<EdgeView>,
    dir: Direction,
    frontier: Seq<Seq<char>>,
    v: Seq<char>,
) -> bool {
    exists|i: int|
        0 <= i < edges.len() && frontier.contains(source(#[trigger] edges[i], dir)) && target(
            edges[i],
            dir,
        ) == v
}

/// An edge leads from `from` to `to` in the direction.
pub open spec fn has_edge(edges: Seq<EdgeView>, dir: Direction, from: Seq<char>, to: Seq<char>)
    -> bool {
    exists|i: int|
        0 <= i < edges.len() && source(#[trigger] edges[i], dir) == from && target(edges[i], dir)
            == to
}

/// Every neighbour of a node is an edge away from it.
pub proof fn lemma_successors(edges: Seq<EdgeView>, dir: Direction, id: Seq<char>)
    ensures
        forall|j: int|
            0 <= j < successors(edges, dir, id).len() ==> has_edge(
                edges,
                dir,
                id,
                #[trigger] successors(edges, dir, id)[j],
            ),
    decreases edges.len(),
{
    if edges.len() > 0 {
        let head = edges.drop_last();
        lemma_successors(head, dir, id);
        let out = successors(edges, dir, id);
        assert forall|j: int| 0 <= j < out.len() implies has_edge(
            edges,
            dir,
            id,
            #[trigger] out[j],
        ) by {
            if j < successors(head, dir, id).len() {
                assert(has_edge(head, dir, id, successors(head, dir, id)[j]));
                let i = choose|i: int|
                    0 <= i < head.len() && source(#[trigger] head[i], dir) == id && target(
                        head[i],
                        dir,
                    ) == successors(head, dir, id)[j];
                assert(edges[i] == head[i]);
            } else {
                assert(edges[edges.len() - 1] == edges.last());
            }
        }
    }
}

impl CallGraph {
    /// The call graph of the indexed state: the edges of all call rows, in
    /// row order.
    pub fn build(store: &Store) -> (g: CallGraph)
        ensures
            g@ == graph_of(store@),
    {
        let ghost symbols = store@.symbols;
        let mut edges: Vec<Edge> = Vec::new();
        let mut i: usize = 0;
        assert(symbols.take(0) =~= Seq::<SymbolRowView>::empty());
        while i < store.symbols.len()
            invariant
                i <= store.symbols.len(),
                symbols == store@.symbols,
                edges.deep_view() == edges_of_rows(symbols, symbols.take(i as int)),
            decreases store.symbols.len() - i,
        {
            let row = &store.symbols[i];
            let ghost calls = row@.calls;
            let ghost base = edges.deep_view();
            proof {
                assert(symbols.take(i + 1).drop_last() =~= symbols.take(i as int));
                assert(symbols.take(i + 1).last() == row@);
            }
            let mut j: usize = 0;
            assert(calls.take(0) =~= Seq::<CallRowView>::empty());
            assert(edges.deep_view() =~= base + edges_of_calls(
                symbols,
                row@.canonical_id,
                calls.take(0),
            ));
            while j < row.calls.len()
                invariant
                    j <= row.calls.len(),
                    i < store.symbols.len(),
                    symbols == store@.symbols,
                    row@ == symbols[i as int],
                    calls == row@.calls,
                    edges.deep_view() == base + edges_of_calls(
                        symbols,
                        row@.canonical_id,
                        calls.take(j as int),
                    ),
                decreases row.calls.len() - j,
            {
                let call = &row.calls[j];
                let ghost so_far = edges.deep_view();
                proof {
                    assert(calls.take(j + 1).drop_last() =~= calls.take(j as int));
                    assert(calls.take(j + 1).last() == call@);
                }
                match &call.callee_id {
                    Some(id) => {
                        edges.push(Edge { caller: row.canonical_id.clone(), callee: id.clone() });
                        assert(edges.deep_view() =~= so_far + edges_of_call(
                            symbols,
                            row@.canonical_id,
                            call@,
                        ));
                    },
                    None => {
                        let ghost ids = ids_named(symbols, call@.callee_name);
                        let mut k: usize = 0;
                        let ghost mut found: Seq<Seq<char>> = Seq::empty();
                        assert(symbols.take(0) =~= Seq::<SymbolRowView>::empty());
                        while k < store.symbols.len()
                            invariant
                                k <= store.symbols.len(),
                                symbols == store@.symbols,
                                found == ids_named(symbols.take(k as int), call@.callee_name),
                                edges.deep_view() == so_far + edges_to(row@.canonical_id, found),
                            decreases store.symbols.len() - k,
                        {
                            let other = &store.symbols[k];
                            let ghost before = edges.deep_view();
                            proof {
                                assert(symbols.take(k + 1).drop_last() =~= symbols.take(k as int));
                                assert(symbols.take(k + 1).last() == other@);
                            }
                            if same_text(other.name.as_str(), call.callee_name.as_str()) {
                                edges.push(
                                    Edge {
                                        caller: row.canonical_id.clone(),
                                        callee: other.canonical_id.clone(),
                                    },
                                );
                                proof {
                                    let grown = found.push(other@.canonical_id);
                                    assert(edges.deep_view() =~= before.push(
                                        EdgeView {
                                            caller: row@.canonical_id,
                                            callee: other@.canonical_id,
                                        },
                                    ));
                                    assert(edges.deep_view() =~= so_far + edges_to(
                                        row@.canonical_id,
                                        grown,
                                    ));
                                    found = grown;
                                }
                            }
                            k += 1;
                        }
                        assert(symbols.take(store.symbols.len() as int) =~= symbols);
                    },
                }
                proof {
                    let a = edges_of_calls(symbols, row@.canonical_id, calls.take(j as int));
                    let b = edges_of_call(symbols, row@.canonical_id, call@);
                    assert(base + a + b =~= base + (a + b));
                }
                j += 1;
            }
            assert(calls.take(row.calls.len() as int) =~= calls);
            i += 1;
        }
        assert(symbols.take(store.symbols.len() as int) =~= symbols);
        CallGraph { edges }
    }

    /// The neighbours of `id` in the direction, in edge order.
    pub fn neighbours(&self, dir: Direction, id: &str) -> (r: Vec<String>)
        ensures
            r.deep_view() == successors(self@, dir, id@),
    {
        let ghost all = self@;
        let mut out: Vec<String> = Vec::new();
        let mut i: usize = 0;
        assert(all.take(0) =~= Seq::<EdgeView>::empty());
        while i < self.edges.len()
            invariant
                i <= self.edges.len(),
                all == self@,
                out.deep_view() == successors(all.take(i as int), dir, id@),
            decreases self.edges.len() - i,
        {
            let e = &self.edges[i];
            let ghost before = out.deep_view();
            proof {
                assert(all.take(i + 1).drop_last() =~= all.take(i as int));
                assert(all.take(i + 1).last() == e@);
            }
            match dir {
                Direction::Forward => {
                    if same_text(e.caller.as_str(), id) {
                        out.push(e.callee.clone());
                        assert(out.deep_view() =~= before.push(e@.callee));
                    }
                },
                Direction::Backward => {
                    if same_text(e.callee.as_str(), id) {
                        out.push(e.caller.clone());
                        assert(out.deep_view() =~= before.push(e@.caller));
                    }
                },
            }
            i += 1;
        }
        assert(all.take(self.edges.len() as int) =~= all);
        out
    }

    /// One level of the walk by breadth: the nodes one edge away from the
    /// frontier that were not visited before, each once, in edge order. They
    /// are added to the visited nodes.
    pub fn expand(&self, dir: Direction, frontier: &Vec<String>, visited: &mut Vec<String>) -> (next:
        Vec<String>)
        ensures
            final(visited).deep_view() == old(visited).deep_view() + next.deep_view(),
            next.deep_view().no_duplicates(),
            forall|v: Seq<char>|
                #[trigger] next.deep_view().contains(v) <==> steps_from(
                    self@,
                    dir,
                    frontier.deep_view(),
                    v,
                ) && !old(visited).deep_view().contains(v),
    {
        let ghost all = self@;
        let ghost start = visited.deep_view();
        let ghost front = frontier.deep_view();
        let mut next: Vec<String> = Vec::new();
        let mut i: usize = 0;
        assert(visited.deep_view() =~= start + next.deep_view());
        while i < self.edges.len()
            invariant
                i <= self.edges.len(),
                all == self@,
                front == frontier.deep_view(),
                visited.deep_view() == start + next.deep_view(),
                next.deep_view().no_duplicates(),
                forall|v: Seq<char>|
                    #[trigger] next.deep_view().contains(v) <==> steps_from(
                        all.take(i as int),
                        dir,
                        front,
                        v,
                    ) && !start.contains(v),
            decreases self.edges.len() - i,
        {
            let e = &self.edges[i];
            let ghost seen = next.deep_view();
            let ghost was = visited.deep_view();
            let (from, to) = match dir {
                Direction::Forward => (&e.caller, &e.callee),
                Direction::Backward => (&e.callee, &e.caller),
            };
            assert(from@ == source(all[i as int], dir));
            assert(to@ == target(all[i as int], dir));
            let fresh = contains_string(frontier, from.as_str()) && !contains_string(
                visited,
                to.as_str(),
            );
            if fresh {
                next.push(to.clone());
                visited.push(to.clone());
                proof {
                    assert(next.deep_view() =~= seen.push(to@));
                    assert(visited.deep_view() =~= was.push(to@));
                    assert(visited.deep_view() =~= start + next.deep_view());
                    assert(!seen.contains(to@)) by {
                        if seen.contains(to@) {
                            let k = choose|k: int| 0 <= k < seen.len() && seen[k] == to@;
                            assert(was[start.len() + k] == to@);
                        }
                    }
                }
            }
            proof {
                let now = next.deep_view();
                let head = all.take(i as int);
                let grown = all.take(i + 1);
                assert(grown.drop_last() =~= head);
                assert forall|v: Seq<char>| #[trigger]
                    now.contains(v) <==> steps_from(grown, dir, front, v) && !start.contains(
                        v,
                    ) by {
                    assert(seen.contains(v) <==> steps_from(head, dir, front, v) && !start.contains(
                        v,
                    ));
                    if now.contains(v) {
                        if seen.contains(v) {
                            let w = choose|w: int|
                                0 <= w < head.len() && front.contains(
                                    source(#[trigger] head[w], dir),
                                ) && target(head[w], dir) == v;
                            assert(grown[w] == head[w]);
                        } else {
                            let k = choose|k: int| 0 <= k < now.len() && now[k] == v;
                            assert(k == seen.len());
                            assert(v == to@);
                            assert(grown[i as int] == all[i as int]);
                            assert(!start.contains(v)) by {
                                if start.contains(v) {
                                    let k2 = choose|k2: int| 0 <= k2 < start.len() && start[k2] == v;
                                    assert(was[k2] == v);
                                }
                            }
                        }
                    }
                    if steps_from(grown, dir, front, v) && !start.contains(v) {
                        let w = choose|w: int|
                            0 <= w < grown.len() && front.contains(
                                source(#[trigger] grown[w], dir),
                            ) && target(grown[w], dir) == v;
                        if w < i {
                            assert(head[w] == grown[w]);
                            assert(steps_from(head, dir, front, v));
                            assert(seen.contains(v));
                            let k = choose|k: int| 0 <= k < seen.len() && seen[k] == v;
                            assert(now[k] == v);
                        } else {
                            assert(grown[w] == all[i as int]);
                            if fresh {
                                assert(now[now.len() - 1] == v);
                            } else {
                                assert(was.contains(v));
                                let k = choose|k: int| 0 <= k < was.len() && was[k] == v;
                                if k < start.len() {
                                    assert(start[k] == v);
                                } else {
                                    assert(seen[k - start.len()] == v);
                                }
                            }
                        }
                    }
                }
            }
            i += 1;
        }
        assert(all.take(self.edges.len() as int) =~= all);
        next
    }
}

/// Every edge of the call graph leaves a symbol that has a row: a call
/// edge is never without its caller.
pub proof fn lemma_edges_have_callers(s: StoreView)
    ensures
        forall|i: int|
            0 <= i < graph_of(s).len() ==> crate::link::has_symbol(
                s.symbols,
                (#[trigger] graph_of(s)[i]).caller,
            ),
{
    lemma_edges_of_rows(s.symbols, s.symbols.len() as int);
    assert(s.symbols.take(s.symbols.len() as int) =~= s.symbols);
}

/// The edges of the calls of one caller all leave that caller.
pub proof fn lemma_edges_of_calls(
    symbols: Seq<SymbolRowView>,
    caller: Seq<char>,
    calls: Seq<CallRowView>,
)
    ensures
        forall|i: int|
            0 <= i < edges_of_calls(symbols, caller, calls).len() ==> (#[trigger] edges_of_calls(
                symbols,
                caller,
                calls,
            )[i]).caller == caller,
    decreases calls.len(),
{
    if calls.len() > 0 {
        lemma_edges_of_calls(symbols, caller, calls.drop_last());
        let before = edges_of_calls(symbols, caller, calls.drop_last());
        let own = edges_of_call(symbols, caller, calls.last());
        let all = edges_of_calls(symbols, caller, calls);
        assert(all == before + own);
        assert forall|i: int| 0 <= i < all.len() implies (#[trigger] all[i]).caller == caller by {
            if i < before.len() {
                assert(all[i] == before[i]);
            } else {
                assert(all[i] == own[i - before.len()]);
            }
        }
    }
}

/// The edges of the leading rows all leave one of those rows.
pub proof fn lemma_edges_of_rows(symbols: Seq<SymbolRowView>, n: int)
    requires
        0 <= n <= symbols.len(),
    ensures
        forall|i: int|
            0 <= i < edges_of_rows(symbols, symbols.take(n)).len() ==> crate::link::has_symbol(
                symbols,
                (#[trigger] edges_of_rows(symbols, symbols.take(n))[i]).caller,
            ),
    decreases n,
{
    if n > 0 {
        lemma_edges_of_rows(symbols, n - 1);
        let rows = symbols.take(n);
        assert(rows.drop_last() =~= symbols.take(n - 1));
        let last = rows.last();
        assert(last == symbols[n - 1]);
        lemma_edges_of_calls(symbols, last.canonical_id, last.calls);
        let before = edges_of_rows(symbols, symbols.take(n - 1));
        let own = edges_of_calls(symbols, last.canonical_id, last.calls);
        let all = edges_of_rows(symbols, rows);
        assert(all == before + own);
        assert forall|i: int| 0 <= i < all.len() implies crate::link::has_symbol(
            symbols,
            (#[trigger] all[i]).caller,
        ) by {
            if i < before.len() {
                assert(all[i] == before[i]);
            } else {
                assert(all[i] == own[i - before.len()]);
                assert(symbols[n - 1].canonical_id == all[i].caller);
            }
        }
    }
}

} // verus!
