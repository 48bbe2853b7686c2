//! Impact analysis: what is reached from a symbol within three calls, a
//! complexity score from damped random walks, and the risk of a change.

use vstd::prelude::*;
use vstd::string::*;
use crate::graph::{
    graph_of, has_edge, lemma_successors, source, successors, target, within,
    CallGraph, Direction, EdgeView,
};
use crate::model::{Node, NodeView};
use crate::query::{
    find_first, first_meeting, first_meeting_from, get_node_by_id, least, CallType,
    CallerInfo, CallerInfoView, Criterion,
};
use crate::store::{Store, SymbolRowView};
use crate::text::{
    distinct_in_order, distinct_strings, lemma_distinct_in_order, lowercase, same_text, to_lower,
};

verus! {

/// The number of random walks behind a complexity score.
pub const WALKS: usize = 1000;

/// The most nodes that one walk goes on to from its start: with the start
/// a walk visits ten nodes at most.
pub const WALK_STEPS: usize = 9;

/// What is within `k` edges is within any larger number of edges.
pub proof fn lemma_within_mono(
    edges: Seq<EdgeView>,
    dir: Direction,
    from: Seq<char>,
    k: nat,
    m: nat,
    v: Seq<char>,
)
    requires
        within(edges, dir, from, k, v),
        k <= m,
    ensures
        within(edges, dir, from, m, v),
    decreases m - k,
{
    if k < m {
        lemma_within_mono(edges, dir, from, k + 1, m, v);
    }
}

/// What is an edge away from something within `k` edges is within `k + 1`.
pub proof fn lemma_within_step(
    edges: Seq<EdgeView>,
    dir: Direction,
    from: Seq<char>,
    k: nat,
    u: Seq<char>,
    v: Seq<char>,
)
    requires
        within(edges, dir, from, k, u),
        has_edge(edges, dir, u, v),
    ensures
        within(edges, dir, from, k + 1, v),
{
    let i = choose|i: int|
        0 <= i < edges.len() && source(#[trigger] edges[i], dir) == u && target(edges[i], dir)
            == v;
    assert(within(edges, dir, from, k, source(edges[i], dir)));
}

/// `v` is at exactly the distance `k`: within `k` edges, and not within
/// fewer.
pub open spec fn at_depth(edges: Seq<EdgeView>, dir: Direction, from: Seq<char>, k: nat, v: Seq<char>)
    -> bool {
    within(edges, dir, from, k, v) && (k > 0 ==> !within(edges, dir, from, (k - 1) as nat, v))
}

/// One level of the walk by breadth: from the nodes at the depth `k` and
/// the nodes within `k`, the unvisited neighbours are the nodes at the
/// depth `k + 1`.
pub proof fn lemma_level(
    edges: Seq<EdgeView>,
    dir: Direction,
    from: Seq<char>,
    k: nat,
    frontier: Seq<Seq<char>>,
    visited: Seq<Seq<char>>,
    next: Seq<Seq<char>>,
)
    requires
        forall|v: Seq<char>| #[trigger] frontier.contains(v) <==> at_depth(edges, dir, from, k, v),
        forall|v: Seq<char>| #[trigger] visited.contains(v) <==> within(edges, dir, from, k, v),
        forall|v: Seq<char>| #[trigger]
            next.contains(v) <==> crate::graph::steps_from(edges, dir, frontier, v)
                && !visited.contains(v),
    ensures
        forall|v: Seq<char>| #[trigger] next.contains(v) <==> at_depth(edges, dir, from, k + 1, v),
        forall|v: Seq<char>| #[trigger]
            (visited + next).contains(v) <==> within(edges, dir, from, k + 1, v),
{
    assert forall|v: Seq<char>| #[trigger] next.contains(v) <==> at_depth(
        edges,
        dir,
        from,
        k + 1,
        v,
    ) by {
        if next.contains(v) {
            let i = choose|i: int|
                0 <= i < edges.len() && frontier.contains(source(#[trigger] edges[i], dir))
                    && target(edges[i], dir) == v;
            assert(within(edges, dir, from, k, source(edges[i], dir)));
            assert(!visited.contains(v));
        }
        if at_depth(edges, dir, from, k + 1, v) {
            assert(!within(edges, dir, from, k, v));
            let i = choose|i: int|
                0 <= i < edges.len() && within(edges, dir, from, k, source(#[trigger] edges[i], dir))
                    && target(edges[i], dir) == v;
            let u = source(edges[i], dir);
            if k > 0 && within(edges, dir, from, (k - 1) as nat, u) {
                assert(within(edges, dir, from, k, v));
            }
            assert(frontier.contains(u));
            assert(crate::graph::steps_from(edges, dir, frontier, v));
            assert(!visited.contains(v));
        }
    }
    assert forall|v: Seq<char>| #[trigger]
        (visited + next).contains(v) <==> within(edges, dir, from, k + 1, v) by {
        let all = visited + next;
        if all.contains(v) {
            let j = choose|j: int| 0 <= j < all.len() && all[j] == v;
            if j < visited.len() {
                assert(visited[j] == v);
                assert(visited.contains(v));
            } else {
                assert(next[j - visited.len()] == v);
                assert(next.contains(v));
            }
        }
        if within(edges, dir, from, k + 1, v) {
            if within(edges, dir, from, k, v) {
                assert(visited.contains(v));
                let j = choose|j: int| 0 <= j < visited.len() && visited[j] == v;
                assert(all[j] == v);
            } else {
                assert(next.contains(v));
                let j = choose|j: int| 0 <= j < next.len() && next[j] == v;
                assert(all[visited.len() + j] == v);
            }
        }
    }
}

/// What is reached from a symbol: the nodes one edge away, and the nodes
/// two or three edges away.
#[derive(Clone, Debug, PartialEq, Eq)]
pub struct Reach {
    pub direct: Vec<String>,
    pub indirect: Vec<String>,
}

impl CallGraph {
    /// Reachability by breadth to the depth three. The direct nodes are
    /// those at the depth one, the indirect nodes those at the depths two and
    /// three; no node is listed twice, and the start is listed nowhere.
    pub fn reachable(&self, dir: Direction, from: &str) -> (r: Reach)
        ensures
            r.direct.deep_view().no_duplicates(),
            r.indirect.deep_view().no_duplicates(),
            forall|v: Seq<char>| #[trigger]
                r.direct.deep_view().contains(v) <==> within(self@, dir, from@, 1, v) && v
                    != from@,
            forall|v: Seq<char>| #[trigger]
                r.indirect.deep_view().contains(v) <==> within(self@, dir, from@, 3, v)
                    && !within(self@, dir, from@, 1, v),
    {
        let ghost edges = self@;
        let mut visited: Vec<String> = Vec::new();
        visited.push(from.to_owned());
        let mut start: Vec<String> = Vec::new();
        start.push(from.to_owned());
        let ghost v0 = visited.deep_view();
        let ghost f0 = start.deep_view();
        proof {
            assert(v0 =~= seq![from@]);
            assert(f0 =~= seq![from@]);
            assert forall|v: Seq<char>| #[trigger] f0.contains(v) <==> at_depth(
                edges,
                dir,
                from@,
                0,
                v,
            ) by {
                if v == from@ {
                    assert(f0[0] == v);
                }
            }
            assert forall|v: Seq<char>| #[trigger] v0.contains(v) <==> within(
                edges,
                dir,
                from@,
                0,
                v,
            ) by {
                if v == from@ {
                    assert(v0[0] == v);
                }
            }
        }
        let direct = self.expand(dir, &start, &mut visited);
        let ghost n1 = direct.deep_view();
        let ghost v1 = visited.deep_view();
        proof {
            lemma_level(edges, dir, from@, 0, f0, v0, n1);
        }
        let second = self.expand(dir, &direct, &mut visited);
        let ghost n2 = second.deep_view();
        let ghost v2 = visited.deep_view();
        proof {
            lemma_level(edges, dir, from@, 1, n1, v1, n2);
        }
        let mut third = self.expand(dir, &second, &mut visited);
        let ghost n3 = third.deep_view();
        proof {
            lemma_level(edges, dir, from@, 2, n2, v2, n3);
        }
        let mut indirect = second;
        indirect.append(&mut third);
        proof {
            let both = indirect.deep_view();
            assert(both =~= n2 + n3);
            assert forall|a: int, b: int| 0 <= a < both.len() && 0 <= b < both.len() && a
                != b implies both[a] != both[b] by {
                if a < n2.len() && b >= n2.len() {
                    assert(n2.contains(n2[a]));
                    assert(n3.contains(n3[b - n2.len()]));
                } else if b < n2.len() && a >= n2.len() {
                    assert(n2.contains(n2[b]));
                    assert(n3.contains(n3[a - n2.len()]));
                }
            }
            assert forall|v: Seq<char>| #[trigger]
                both.contains(v) <==> within(edges, dir, from@, 3, v) && !within(
                    edges,
                    dir,
                    from@,
                    1,
                    v,
                ) by {
                if both.contains(v) {
                    let j = choose|j: int| 0 <= j < both.len() && both[j] == v;
                    if j < n2.len() {
                        assert(n2.contains(n2[j]));
                        lemma_within_mono(edges, dir, from@, 2, 3, v);
                    } else {
                        assert(n3.contains(n3[j - n2.len()]));
                        if within(edges, dir, from@, 1, v) {
                            lemma_within_mono(edges, dir, from@, 1, 2, v);
                        }
                    }
                }
                if within(edges, dir, from@, 3, v) && !within(edges, dir, from@, 1, v) {
                    if within(edges, dir, from@, 2, v) {
                        assert(n2.contains(v));
                        let j = choose|j: int| 0 <= j < n2.len() && n2[j] == v;
                        assert(both[j] == v);
                    } else {
                        assert(n3.contains(v));
                        let j = choose|j: int| 0 <= j < n3.len() && n3[j] == v;
                        assert(both[n2.len() + j] == v);
                    }
                }
            }
            assert forall|v: Seq<char>| #[trigger]
                n1.contains(v) <==> within(edges, dir, from@, 1, v) && v != from@ by {}
        }
        Reach { direct, indirect }
    }
}

/// `rand::random_ratio` of the rand crate: a random boolean that is true
/// with the probability `numerator / denominator`. Nothing is promised of
/// the outcome.
#[verifier::external_body]
fn random_ratio(numerator: u32, denominator: u32) -> (r: bool)
    requires
        denominator > 0,
        numerator <= denominator,
{
    rand::random_ratio(numerator, denominator)
}

/// `rand::random_range` of the rand crate over `0..n`: a random number
/// below `n`.
#[verifier::external_body]
fn random_below(n: usize) -> (r: usize)
    requires
        n > 0,
    ensures
        r < n,
{
    rand::random_range(0..n)
}

/// One draw of a walk: whether the walk goes on, and the number by which
/// its next node is picked.
#[derive(Clone, Copy, Debug, PartialEq, Eq, Structural)]
pub struct Draw {
    pub go_on: bool,
    pub pick: usize,
}

impl View for Draw {
    type V = Draw;

    open spec fn view(&self) -> Draw {
        *self
    }
}

impl DeepView for Draw {
    type V = Draw;

    open spec fn deep_view(&self) -> Draw {
        *self
    }
}

/// The nodes that a walk goes on to from `curr`, in order: at most `left`
/// of them, by the draws from the `k`-th on, one draw for each node. The walk
/// ends where the draws end, where a draw says so, and at a node without
/// outgoing edges. Else it goes on to the neighbour that the pick names,
/// counted round the neighbours.
pub open spec fn walk_on(edges: Seq<EdgeView>, curr: Seq<char>, draws: Seq<Draw>, k: nat, left: nat)
    -> Seq<Seq<char>>
    decreases left,
{
    let next = successors(edges, Direction::Forward, curr);
    if left == 0 || k >= draws.len() || !draws[k as int].go_on || next.len() == 0 {
        Seq::empty()
    } else {
        let to = next[(draws[k as int].pick as int) % (next.len() as int)];
        seq![to] + walk_on(edges, to, draws, k + 1, (left - 1) as nat)
    }
}

/// The nodes that the walks go on to from `from`, walk after walk.
pub open spec fn walks_on(edges: Seq<EdgeView>, from: Seq<char>, walks: Seq<Seq<Draw>>) -> Seq<
    Seq<char>,
>
    decreases walks.len(),
{
    if walks.len() == 0 {
        Seq::empty()
    } else {
        walks_on(edges, from, walks.drop_last()) + walk_on(
            edges,
            from,
            walks.last(),
            0,
            WALK_STEPS as nat,
        )
    }
}

/// The nodes that walks from `from` visit: the start, and then the nodes
/// that the walks go on to, each where it is first visited.
pub open spec fn visited_by(edges: Seq<EdgeView>, from: Seq<char>, walks: Seq<Seq<Draw>>) -> Seq<
    Seq<char>,
> {
    distinct_in_order(seq![from] + walks_on(edges, from, walks))
}

/// What random walks from `from` may have visited: every node is listed
/// once, `from` is listed first, every listed node is within nine calls of
/// `from`, and no more nodes are listed than the walks can visit.
pub open spec fn walked(edges: Seq<EdgeView>, from: Seq<char>, visited: Seq<Seq<char>>) -> bool {
    &&& visited.no_duplicates()
    &&& 1 <= visited.len() <= 1 + 9 * WALKS
    &&& visited[0] == from
    &&& forall|k: int|
        0 <= k < visited.len() ==> within(edges, Direction::Forward, from, 9, #[trigger] visited[k])
}

/// The draws of a thousand walks, nine for each.
pub open spec fn drawn(walks: Seq<Seq<Draw>>) -> bool {
    walks.len() == WALKS && forall|i: int|
        0 <= i < walks.len() ==> (#[trigger] walks[i]).len() == WALK_STEPS
}

/// A walk goes on to no more nodes than it may, and each of them is as
/// many calls further from the start as the walk has gone.
pub proof fn lemma_walk_on(
    edges: Seq<EdgeView>,
    from: Seq<char>,
    depth: nat,
    curr: Seq<char>,
    draws: Seq<Draw>,
    k: nat,
    left: nat,
)
    requires
        within(edges, Direction::Forward, from, depth, curr),
    ensures
        walk_on(edges, curr, draws, k, left).len() <= left,
        forall|j: int|
            0 <= j < walk_on(edges, curr, draws, k, left).len() ==> within(
                edges,
                Direction::Forward,
                from,
                depth + left,
                #[trigger] walk_on(edges, curr, draws, k, left)[j],
            ),
    decreases left,
{
    let next = successors(edges, Direction::Forward, curr);
    if !(left == 0 || k >= draws.len() || !draws[k as int].go_on || next.len() == 0) {
        let at = (draws[k as int].pick as int) % (next.len() as int);
        let to = next[at];
        lemma_successors(edges, Direction::Forward, curr);
        lemma_within_step(edges, Direction::Forward, from, depth, curr, to);
        lemma_walk_on(edges, from, depth + 1, to, draws, k + 1, (left - 1) as nat);
        lemma_within_mono(edges, Direction::Forward, from, depth + 1, depth + left, to);
        let rest = walk_on(edges, to, draws, k + 1, (left - 1) as nat);
        let all = walk_on(edges, curr, draws, k, left);
        assert(all == seq![to] + rest);
        assert forall|j: int| 0 <= j < all.len() implies within(
            edges,
            Direction::Forward,
            from,
            depth + left,
            #[trigger] all[j],
        ) by {
            if j > 0 {
                assert(all[j] == rest[j - 1]);
            }
        }
    }
}

/// Walks go on to no more than nine nodes each, all within nine calls of
/// the start.
pub proof fn lemma_walks_on(edges: Seq<EdgeView>, from: Seq<char>, walks: Seq<Seq<Draw>>)
    ensures
        walks_on(edges, from, walks).len() <= 9 * walks.len(),
        forall|j: int|
            0 <= j < walks_on(edges, from, walks).len() ==> within(
                edges,
                Direction::Forward,
                from,
                9,
                #[trigger] walks_on(edges, from, walks)[j],
            ),
    decreases walks.len(),
{
    if walks.len() > 0 {
        lemma_walks_on(edges, from, walks.drop_last());
        lemma_walk_on(edges, from, 0, from, walks.last(), 0, WALK_STEPS as nat);
        let head = walks_on(edges, from, walks.drop_last());
        let tail = walk_on(edges, from, walks.last(), 0, WALK_STEPS as nat);
        assert forall|j: int| 0 <= j < (head + tail).len() implies within(
            edges,
            Direction::Forward,
            from,
            9,
            #[trigger] (head + tail)[j],
        ) by {
            if j >= head.len() {
                assert((head + tail)[j] == tail[j - head.len()]);
            }
        }
    }
}

/// `distinct_in_order` begins with the first text, and lists no more texts
/// than there are.
pub proof fn lemma_distinct_first(keys: Seq<Seq<char>>)
    ensures
        distinct_in_order(keys).len() <= keys.len(),
        keys.len() > 0 ==> distinct_in_order(keys).len() > 0 && distinct_in_order(keys)[0]
            == keys[0],
    decreases keys.len(),
{
    if keys.len() > 0 {
        lemma_distinct_first(keys.drop_last());
        if keys.len() > 1 {
            assert(keys.drop_last()[0] == keys[0]);
        }
    }
}

/// Whatever the draws are, the walks visit each node once, the start
/// first, none that is further than nine calls from the start, and no more
/// nodes than nine for each walk beside the start.
pub proof fn lemma_visited_by(edges: Seq<EdgeView>, from: Seq<char>, walks: Seq<Seq<Draw>>)
    requires
        walks.len() <= WALKS,
    ensures
        walked(edges, from, visited_by(edges, from, walks)),
        visited_by(edges, from, walks).len() <= 1 + 9 * walks.len(),
{
    let keys = seq![from] + walks_on(edges, from, walks);
    let visited = visited_by(edges, from, walks);
    lemma_distinct_in_order(keys);
    lemma_distinct_first(keys);
    lemma_walks_on(edges, from, walks);
    assert(keys[0] == from);
    lemma_within_mono(edges, Direction::Forward, from, 0, 9, from);
    assert forall|k: int| 0 <= k < visited.len() implies within(
        edges,
        Direction::Forward,
        from,
        9,
        #[trigger] visited[k],
    ) by {
        assert(visited.contains(visited[k]));
        assert(keys.contains(visited[k]));
        let j = choose|j: int| 0 <= j < keys.len() && keys[j] == visited[k];
        if j > 0 {
            assert(keys[j] == walks_on(edges, from, walks)[j - 1]);
        }
    }
}

impl CallGraph {
    /// The nodes that one walk goes on to from `from`, by its draws.
    pub fn walk_by(&self, from: &str, draws: &Vec<Draw>) -> (r: Vec<String>)
        ensures
            r.deep_view() == walk_on(self@, from@, draws.deep_view(), 0, WALK_STEPS as nat),
    {
        let ghost edges = self@;
        let ghost all = draws.deep_view();
        let ghost whole = walk_on(edges, from@, all, 0, WALK_STEPS as nat);
        let mut out: Vec<String> = Vec::new();
        let mut curr: String = from.to_owned();
        let mut k: usize = 0;
        assert(out.deep_view() + whole =~= whole);
        while k < WALK_STEPS
            invariant
                k <= WALK_STEPS,
                edges == self@,
                all == draws.deep_view(),
                whole == walk_on(edges, from@, all, 0, WALK_STEPS as nat),
                whole == out.deep_view() + walk_on(
                    edges,
                    curr@,
                    all,
                    k as nat,
                    (WALK_STEPS - k) as nat,
                ),
            decreases WALK_STEPS - k,
        {
            let ghost so_far = out.deep_view();
            let ghost rest = walk_on(edges, curr@, all, k as nat, (WALK_STEPS - k) as nat);
            assert(all.len() == draws.len());
            if k >= draws.len() {
                assert(rest =~= Seq::<Seq<char>>::empty());
                assert(so_far + rest =~= so_far);
                return out;
            }
            let draw = draws[k];
            assert(all[k as int] == draw);
            if !draw.go_on {
                assert(rest =~= Seq::<Seq<char>>::empty());
                assert(so_far + rest =~= so_far);
                return out;
            }
            let neighbours = self.neighbours(Direction::Forward, curr.as_str());
            assert(neighbours.deep_view().len() == neighbours.len());
            if neighbours.len() == 0 {
                assert(rest =~= Seq::<Seq<char>>::empty());
                assert(so_far + rest =~= so_far);
                return out;
            }
            let to = neighbours[draw.pick % neighbours.len()].clone();
            out.push(to.clone());
            proof {
                let tail = walk_on(edges, to@, all, (k + 1) as nat, (WALK_STEPS - k - 1) as nat);
                assert(rest == seq![to@] + tail);
                assert(out.deep_view() =~= so_far.push(to@));
                assert(so_far + (seq![to@] + tail) =~= so_far.push(to@) + tail);
            }
            curr = to;
            k += 1;
        }
        proof {
            let rest = walk_on(edges, curr@, all, k as nat, 0);
            assert(out.deep_view() + rest =~= out.deep_view());
        }
        out
    }

    /// The nodes that walks from `from` visit, by the draws of each walk:
    /// the start, and then the nodes that the walks go on to, each where it
    /// is first visited.
    pub fn visit_by(&self, from: &str, walks: &Vec<Vec<Draw>>) -> (visited: Vec<String>)
        ensures
            visited.deep_view() == visited_by(self@, from@, walks.deep_view()),
    {
        let ghost edges = self@;
        let ghost all = walks.deep_view();
        let mut nodes: Vec<String> = Vec::new();
        nodes.push(from.to_owned());
        assert(all.take(0) =~= Seq::<Seq<Draw>>::empty());
        assert(nodes.deep_view() =~= seq![from@] + walks_on(edges, from@, all.take(0)));
        let mut w: usize = 0;
        while w < walks.len()
            invariant
                w <= walks.len(),
                edges == self@,
                all == walks.deep_view(),
                nodes.deep_view() == seq![from@] + walks_on(edges, from@, all.take(w as int)),
            decreases walks.len() - w,
        {
            let ghost before = nodes.deep_view();
            let mut more = self.walk_by(from, &walks[w]);
            let ghost added = more.deep_view();
            proof {
                assert(all[w as int] == walks[w as int].deep_view());
                assert(all.take(w + 1).drop_last() =~= all.take(w as int));
                assert(all.take(w + 1).last() == all[w as int]);
            }
            nodes.append(&mut more);
            proof {
                assert(nodes.deep_view() =~= before + added);
                assert((seq![from@] + walks_on(edges, from@, all.take(w as int))) + added =~= seq![
                    from@,
                ] + walks_on(edges, from@, all.take(w + 1)));
            }
            w += 1;
        }
        assert(all.take(walks.len() as int) =~= all);
        distinct_strings(&nodes)
    }

    /// The nodes that a thousand damped random walks visit. Each walk
    /// starts at `from`, visits at most ten nodes, goes on after each with
    /// the probability 0.85, and then follows one outgoing edge picked at
    /// random. The nodes are those that the walks visit by the draws that
    /// were made. Whatever the draws are: every node is listed once, `from`
    /// is listed first, every listed node is within nine calls of `from`, and
    /// no more nodes are listed than the walks can visit.
    pub fn random_walk(&self, from: &str) -> (visited: Vec<String>)
        ensures
            exists|walks: Seq<Seq<Draw>>| #[trigger]
                drawn(walks) && visited.deep_view() == visited_by(self@, from@, walks),
            walked(self@, from@, visited.deep_view()),
    {
        let mut walks: Vec<Vec<Draw>> = Vec::new();
        let mut w: usize = 0;
        while w < WALKS
            invariant
                w <= WALKS,
                walks.len() == w,
                forall|i: int| 0 <= i < w ==> (#[trigger] walks[i]).len() == WALK_STEPS,
            decreases WALKS - w,
        {
            let mut draws: Vec<Draw> = Vec::new();
            let mut s: usize = 0;
            while s < WALK_STEPS
                invariant
                    s <= WALK_STEPS,
                    draws.len() == s,
                decreases WALK_STEPS - s,
            {
                let go_on = random_ratio(17, 20);
                let pick = random_below(usize::MAX);
                draws.push(Draw { go_on, pick });
                s += 1;
            }
            walks.push(draws);
            w += 1;
        }
        proof {
            let all = walks.deep_view();
            assert forall|i: int| 0 <= i < all.len() implies (#[trigger] all[i]).len()
                == WALK_STEPS by {
                assert(all[i] == walks[i].deep_view());
            }
            assert(drawn(all));
            lemma_visited_by(self@, from@, all);
        }
        self.visit_by(from, &walks)
    }
}

/// Twice the complexity score: half a point for each node that the walks
/// visited, two points for each call that the symbol makes, one point for
/// each call that is made to it, and no more than a hundred points in all.
pub open spec fn score_halves(coverage: nat, out_degree: nat, in_degree: nat) -> nat {
    least(coverage + 4 * out_degree + 2 * in_degree, 200)
}

/// Twice the complexity score.
pub fn complexity_score(coverage: usize, out_degree: usize, in_degree: usize) -> (s: u32)
    ensures
        s == score_halves(coverage as nat, out_degree as nat, in_degree as nat),
{
    let c: u32 = if coverage > 200 {
        200
    } else {
        coverage as u32
    };
    let o: u32 = if out_degree > 200 {
        200
    } else {
        out_degree as u32
    };
    let i: u32 = if in_degree > 200 {
        200
    } else {
        in_degree as u32
    };
    let total: u32 = c + 4 * o + 2 * i;
    if total > 200 {
        200
    } else {
        total
    }
}

/// The bin of a complexity score.
#[derive(Clone, Copy, Debug, PartialEq, Eq, Structural)]
pub enum ComplexityLevel {
    Simple,
    Medium,
    High,
    Extreme,
}

/// The bin of a score given in half points: simple below 20 points, medium
/// below 50, high below 80, extreme from there.
pub open spec fn level_of(halves: nat) -> ComplexityLevel {
    if halves < 40 {
        ComplexityLevel::Simple
    } else if halves < 100 {
        ComplexityLevel::Medium
    } else if halves < 160 {
        ComplexityLevel::High
    } else {
        ComplexityLevel::Extreme
    }
}

/// The bin of a score given in half points.
pub fn complexity_level(halves: u32) -> (l: ComplexityLevel)
    ensures
        l == level_of(halves as nat),
{
    if halves < 40 {
        ComplexityLevel::Simple
    } else if halves < 100 {
        ComplexityLevel::Medium
    } else if halves < 160 {
        ComplexityLevel::High
    } else {
        ComplexityLevel::Extreme
    }
}

/// The risk of a change.
#[derive(Clone, Copy, Debug, PartialEq, Eq, Structural)]
pub enum RiskLevel {
    Low,
    Medium,
    High,
}

/// The risk for a number of affected nodes: low up to three, medium up to
/// ten, high beyond.
pub open spec fn risk_of(affected: nat) -> RiskLevel {
    if affected <= 3 {
        RiskLevel::Low
    } else if affected <= 10 {
        RiskLevel::Medium
    } else {
        RiskLevel::High
    }
}

/// The risk for a number of affected nodes.
pub fn risk_level(affected: usize) -> (r: RiskLevel)
    ensures
        r == risk_of(affected as nat),
{
    if affected <= 3 {
        RiskLevel::Low
    } else if affected <= 10 {
        RiskLevel::Medium
    } else {
        RiskLevel::High
    }
}

impl ComplexityLevel {
    /// The bin's name as reports spell it.
    pub fn name(&self) -> (r: &'static str)
        ensures
            r@ == (match *self {
                ComplexityLevel::Simple => "Simple"@,
                ComplexityLevel::Medium => "Medium"@,
                ComplexityLevel::High => "High"@,
                ComplexityLevel::Extreme => "Extreme"@,
            }),
    {
        match self {
            ComplexityLevel::Simple => "Simple",
            ComplexityLevel::Medium => "Medium",
            ComplexityLevel::High => "High",
            ComplexityLevel::Extreme => "Extreme",
        }
    }
}

impl RiskLevel {
    /// The risk's name as reports spell it.
    pub fn name(&self) -> (r: &'static str)
        ensures
            r@ == (match *self {
                RiskLevel::Low => "low"@,
                RiskLevel::Medium => "medium"@,
                RiskLevel::High => "high"@,
            }),
    {
        match self {
            RiskLevel::Low => "low",
            RiskLevel::Medium => "medium",
            RiskLevel::High => "high",
        }
    }
}

/// The direction that a request names: forward for `forward` in any case of
/// letters, backward for anything else.
pub open spec fn direction_of(name: Seq<char>) -> Direction {
    if lowercase(name) == "forward"@ {
        Direction::Forward
    } else {
        Direction::Backward
    }
}

/// The direction that a request names.
pub fn parse_direction(name: &str) -> (d: Direction)
    ensures
        d == direction_of(name@),
{
    let lowered = to_lower(name);
    if same_text(lowered.as_str(), "forward") {
        Direction::Forward
    } else {
        Direction::Backward
    }
}

/// The symbol that an analysis is about: the first whose name is the
/// query; else the first whose name or qualified name contains it.
pub open spec fn target_of(symbols: Seq<SymbolRowView>, q: Seq<char>) -> Option<NodeView> {
    match first_meeting(symbols, Criterion::Exact, q) {
        Some(n) => Some(n),
        None => first_meeting(symbols, Criterion::NameOrQualified, q),
    }
}

/// The symbol that an analysis is about.
pub fn resolve_target(store: &Store, query: &str) -> (r: Option<Node>)
    ensures
        r.deep_view() == target_of(store@.symbols, query@),
{
    match find_first(store, Criterion::Exact, query) {
        Some(n) => Some(n),
        None => find_first(store, Criterion::NameOrQualified, query),
    }
}

/// The nodes of the rows with these canonical identifiers, each related in
/// the way `t`: nothing where one of the identifiers has no row.
pub open spec fn infos_of(symbols: Seq<SymbolRowView>, ids: Seq<Seq<char>>, t: CallType) -> Option<
    Seq<CallerInfoView>,
>
    decreases ids.len(),
{
    if ids.len() == 0 {
        Some(Seq::empty())
    } else {
        match (
            infos_of(symbols, ids.drop_last(), t),
            first_meeting(symbols, Criterion::CanonicalId, ids.last()),
        ) {
            (Some(before), Some(node)) => Some(
                before.push(CallerInfoView { node: node, call_type: t }),
            ),
            _ => None,
        }
    }
}

/// The nodes of the rows with these canonical identifiers.
pub fn infos_for(store: &Store, ids: &Vec<String>, t: CallType) -> (r: Option<Vec<CallerInfo>>)
    ensures
        r.deep_view() == infos_of(store@.symbols, ids.deep_view(), t),
{
    let ghost all = ids.deep_view();
    let mut out: Vec<CallerInfo> = Vec::new();
    let mut i: usize = 0;
    assert(all.take(0) =~= Seq::<Seq<char>>::empty());
    while i < ids.len()
        invariant
            i <= ids.len(),
            all == ids.deep_view(),
            infos_of(store@.symbols, all.take(i as int), t) == Some(out.deep_view()),
        ensures
            i == ids.len(),
        decreases ids.len() - i,
    {
        proof {
            assert(all.take(i + 1).drop_last() =~= all.take(i as int));
            assert(all.take(i + 1).last() == ids@[i as int]@);
        }
        let ghost before = out.deep_view();
        match get_node_by_id(store, ids[i].as_str()) {
            Some(node) => {
                out.push(CallerInfo { node, call_type: t });
                assert(out.deep_view() =~= before.push(
                    CallerInfoView {
                        node: first_meeting(store@.symbols, Criterion::CanonicalId, all[i as int])->0,
                        call_type: t,
                    },
                ));
            },
            None => {
                proof {
                    lemma_infos_of_none(store@.symbols, all, i + 1, t);
                }
                return None;
            },
        }
        i += 1;
    }
    assert(all.take(ids.len() as int) =~= all);
    Some(out)
}

/// Where the nodes of a leading part of the identifiers cannot all be
/// found, those of all identifiers cannot.
pub proof fn lemma_infos_of_none(
    symbols: Seq<SymbolRowView>,
    ids: Seq<Seq<char>>,
    n: int,
    t: CallType,
)
    requires
        0 <= n <= ids.len(),
        infos_of(symbols, ids.take(n), t) is None,
    ensures
        infos_of(symbols, ids, t) is None,
    decreases ids.len() - n,
{
    if n < ids.len() {
        assert(ids.take(n + 1).drop_last() =~= ids.take(n));
        lemma_infos_of_none(symbols, ids, n + 1, t);
    } else {
        assert(ids.take(n) =~= ids);
    }
}

/// The report of an impact analysis. The complexity score is given in half
/// points, `coverage` being the number of nodes that the random walks
/// visited. The number of affected nodes is that of the direct and the
/// indirect nodes together, as far as a `usize` can count.
#[derive(Clone, Debug, PartialEq, Eq)]
pub struct AnalysisResult {
    pub node_id: String,
    pub coverage: usize,
    pub complexity_score: u32,
    pub complexity_level: ComplexityLevel,
    pub affected_nodes: usize,
    pub direct_callers: Vec<CallerInfo>,
    pub indirect_callers: Vec<CallerInfo>,
    pub risk_level: RiskLevel,
}

/// Why an analysis gives no report.
#[derive(Clone, Copy, Debug, PartialEq, Eq, Structural)]
pub enum AnalyzeError {
    /// No symbol matches the query.
    SymbolNotFound,
    /// A node that is reached has no symbol row.
    NodeNotFound,
}

/// The report for a target, given what is reached from it and how many
/// nodes the random walks visited.
pub fn assess(store: &Store, graph: &CallGraph, target: &Node, reach: &Reach, coverage: usize) -> (r:
    Result<AnalysisResult, AnalyzeError>)
    ensures
        r is Ok <==> infos_of(store@.symbols, reach.direct.deep_view(), CallType::Direct) is Some
            && infos_of(store@.symbols, reach.indirect.deep_view(), CallType::Indirect) is Some,
        r matches Err(e) ==> e == AnalyzeError::NodeNotFound,
        r matches Ok(a) ==> {
            &&& a.node_id@ == target@.id
            &&& a.coverage == coverage
            &&& a.complexity_score == score_halves(
                coverage as nat,
                successors(graph@, Direction::Forward, target@.id).len(),
                successors(graph@, Direction::Backward, target@.id).len(),
            )
            &&& a.complexity_level == level_of(a.complexity_score as nat)
            &&& Some(a.direct_callers.deep_view()) == infos_of(
                store@.symbols,
                reach.direct.deep_view(),
                CallType::Direct,
            )
            &&& Some(a.indirect_callers.deep_view()) == infos_of(
                store@.symbols,
                reach.indirect.deep_view(),
                CallType::Indirect,
            )
            &&& a.affected_nodes == least(
                (reach.direct.len() + reach.indirect.len()) as nat,
                usize::MAX as nat,
            )
            &&& a.risk_level == risk_of((reach.direct.len() + reach.indirect.len()) as nat)
        },
{
    let direct = match infos_for(store, &reach.direct, CallType::Direct) {
        Some(v) => v,
        None => {
            return Err(AnalyzeError::NodeNotFound);
        },
    };
    let indirect = match infos_for(store, &reach.indirect, CallType::Indirect) {
        Some(v) => v,
        None => {
            return Err(AnalyzeError::NodeNotFound);
        },
    };
    let out_degree = graph.neighbours(Direction::Forward, target.id.as_str()).len();
    let in_degree = graph.neighbours(Direction::Backward, target.id.as_str()).len();
    let score = complexity_score(coverage, out_degree, in_degree);
    let affected: usize = if reach.direct.len() > usize::MAX - reach.indirect.len() {
        usize::MAX
    } else {
        reach.direct.len() + reach.indirect.len()
    };
    Ok(
        AnalysisResult {
            node_id: target.id.clone(),
            coverage,
            complexity_score: score,
            complexity_level: complexity_level(score),
            affected_nodes: affected,
            direct_callers: direct,
            indirect_callers: indirect,
            risk_level: risk_level(affected),
        },
    )
}

/// The canonical identifiers of the nodes of a list of related nodes.
pub open spec fn ids_of(infos: Seq<CallerInfoView>) -> Seq<Seq<char>> {
    Seq::new(infos.len(), |k: int| infos[k].node.id)
}

/// A row that is found by its canonical identifier carries it.
pub proof fn lemma_found_by_id(symbols: Seq<SymbolRowView>, id: Seq<char>, k: int)
    ensures
        first_meeting_from(symbols, Criterion::CanonicalId, id, k) matches Some(i) ==> 0 <= i
            < symbols.len() && symbols[i].canonical_id == id,
    decreases symbols.len() - k,
{
    if 0 <= k < symbols.len() {
        lemma_found_by_id(symbols, id, k + 1);
    }
}

/// What `infos_of` gives: one node for each identifier, the node of the
/// first row that carries it; and nothing exactly where some identifier has
/// no row.
pub proof fn lemma_infos_of(symbols: Seq<SymbolRowView>, ids: Seq<Seq<char>>, t: CallType)
    ensures
        infos_of(symbols, ids, t) is None <==> exists|k: int|
            0 <= k < ids.len() && first_meeting(symbols, Criterion::CanonicalId, #[trigger] ids[k])
                is None,
        infos_of(symbols, ids, t) matches Some(infos) ==> ids_of(infos) == ids && forall|k: int|
            0 <= k < infos.len() ==> (#[trigger] infos[k]).call_type == t && Some(infos[k].node)
                == first_meeting(symbols, Criterion::CanonicalId, ids[k]),
    decreases ids.len(),
{
    if ids.len() > 0 {
        let head = ids.drop_last();
        lemma_infos_of(symbols, head, t);
        lemma_found_by_id(symbols, ids.last(), 0);
        let found = first_meeting(symbols, Criterion::CanonicalId, ids.last());
        if infos_of(symbols, head, t) is None {
            let k = choose|k: int|
                0 <= k < head.len() && first_meeting(
                    symbols,
                    Criterion::CanonicalId,
                    #[trigger] head[k],
                ) is None;
            assert(ids[k] == head[k]);
        } else if found is None {
            assert(ids[ids.len() - 1] == ids.last());
        } else {
            let before = infos_of(symbols, head, t)->0;
            let infos = infos_of(symbols, ids, t)->0;
            assert(ids_of(before) == head);
            assert(ids_of(infos) =~= ids) by {
                assert forall|k: int| 0 <= k < ids.len() implies ids_of(infos)[k] == ids[k] by {
                    if k < head.len() {
                        assert(ids_of(before)[k] == head[k]);
                    }
                }
            }
            assert forall|k: int| 0 <= k < ids.len() implies first_meeting(
                symbols,
                Criterion::CanonicalId,
                #[trigger] ids[k],
            ) is Some by {
                if k < head.len() {
                    assert(head[k] == ids[k]);
                }
            }
            assert forall|k: int| 0 <= k < infos.len() implies (#[trigger] infos[k]).call_type
                == t && Some(infos[k].node) == first_meeting(
                symbols,
                Criterion::CanonicalId,
                ids[k],
            ) by {
                if k < head.len() {
                    assert(infos[k] == before[k]);
                    assert(head[k] == ids[k]);
                }
            }
        }
    } else {
        assert(ids_of(Seq::<CallerInfoView>::empty()) =~= ids);
    }
}

/// The impact analysis of the symbol that `query` names, in the direction
/// given. The direct nodes are those one call away, the indirect nodes those
/// two or three calls away, each listed once with the node of its first
/// row. The complexity score rests on random walks: the coverage is the
/// number of nodes that a thousand walks of nine draws each visit, which are
/// the target and nodes within nine calls of it, each counted once, and the
/// score is the one that this number gives.
pub fn run_analyze(store: &Store, query: &str, dir: Direction) -> (r: Result<
    AnalysisResult,
    AnalyzeError,
>)
    ensures
        target_of(store@.symbols, query@) is None <==> r == Err::<
            AnalysisResult,
            AnalyzeError,
        >(AnalyzeError::SymbolNotFound),
        r == Err::<AnalysisResult, AnalyzeError>(AnalyzeError::NodeNotFound) <==> target_of(
            store@.symbols,
            query@,
        ) is Some && exists|v: Seq<char>|
            within(graph_of(store@), dir, target_of(store@.symbols, query@)->0.id, 3, v) && v
                != target_of(store@.symbols, query@)->0.id && #[trigger] first_meeting(
                store@.symbols,
                Criterion::CanonicalId,
                v,
            ) is None,
        r matches Ok(a) ==> {
            let from = target_of(store@.symbols, query@)->0.id;
            let edges = graph_of(store@);
            let direct = a.direct_callers.deep_view();
            let indirect = a.indirect_callers.deep_view();
            &&& a.node_id@ == from
            &&& exists|walks: Seq<Seq<Draw>>| #[trigger]
                drawn(walks) && a.coverage == visited_by(edges, from, walks).len()
            &&& exists|visited: Seq<Seq<char>>| #[trigger]
                walked(edges, from, visited) && visited.len() == a.coverage
            &&& a.complexity_score == score_halves(
                a.coverage as nat,
                successors(edges, Direction::Forward, from).len(),
                successors(edges, Direction::Backward, from).len(),
            )
            &&& a.complexity_level == level_of(a.complexity_score as nat)
            &&& ids_of(direct).no_duplicates()
            &&& ids_of(indirect).no_duplicates()
            &&& forall|v: Seq<char>| #[trigger]
                ids_of(direct).contains(v) <==> within(edges, dir, from, 1, v) && v != from
            &&& forall|v: Seq<char>| #[trigger]
                ids_of(indirect).contains(v) <==> within(edges, dir, from, 3, v) && !within(
                    edges,
                    dir,
                    from,
                    1,
                    v,
                )
            &&& forall|k: int|
                0 <= k < direct.len() ==> (#[trigger] direct[k]).call_type == CallType::Direct
                    && Some(direct[k].node) == first_meeting(
                    store@.symbols,
                    Criterion::CanonicalId,
                    direct[k].node.id,
                )
            &&& forall|k: int|
                0 <= k < indirect.len() ==> (#[trigger] indirect[k]).call_type
                    == CallType::Indirect && Some(indirect[k].node) == first_meeting(
                    store@.symbols,
                    Criterion::CanonicalId,
                    indirect[k].node.id,
                )
            &&& a.affected_nodes == least((direct.len() + indirect.len()) as nat, usize::MAX as nat)
            &&& a.risk_level == risk_of((direct.len() + indirect.len()) as nat)
        },
{
    let target = match resolve_target(store, query) {
        Some(n) => n,
        None => {
            return Err(AnalyzeError::SymbolNotFound);
        },
    };
    let graph = CallGraph::build(store);
    let reach = graph.reachable(dir, target.id.as_str());
    let visited = graph.random_walk(target.id.as_str());
    let ghost symbols = store@.symbols;
    let ghost edges = graph@;
    let ghost from = target@.id;
    let ghost d = reach.direct.deep_view();
    let ghost n = reach.indirect.deep_view();
    proof {
        lemma_infos_of(symbols, d, CallType::Direct);
        lemma_infos_of(symbols, n, CallType::Indirect);
        if exists|v: Seq<char>|
            within(edges, dir, from, 3, v) && v != from && #[trigger] first_meeting(
                symbols,
                Criterion::CanonicalId,
                v,
            ) is None {
            let v = choose|v: Seq<char>|
                within(edges, dir, from, 3, v) && v != from && #[trigger] first_meeting(
                    symbols,
                    Criterion::CanonicalId,
                    v,
                ) is None;
            if within(edges, dir, from, 1, v) {
                assert(d.contains(v));
                let k = choose|k: int| 0 <= k < d.len() && d[k] == v;
                assert(first_meeting(symbols, Criterion::CanonicalId, d[k]) is None);
            } else {
                assert(n.contains(v));
                let k = choose|k: int| 0 <= k < n.len() && n[k] == v;
                assert(first_meeting(symbols, Criterion::CanonicalId, n[k]) is None);
            }
        }
        if infos_of(symbols, d, CallType::Direct) is None {
            let k = choose|k: int|
                0 <= k < d.len() && first_meeting(symbols, Criterion::CanonicalId, #[trigger] d[k])
                    is None;
            assert(d.contains(d[k]));
            lemma_within_mono(edges, dir, from, 1, 3, d[k]);
        }
        if infos_of(symbols, n, CallType::Indirect) is None {
            let k = choose|k: int|
                0 <= k < n.len() && first_meeting(symbols, Criterion::CanonicalId, #[trigger] n[k])
                    is None;
            assert(n.contains(n[k]));
            if n[k] == from {
                lemma_within_mono(edges, dir, from, 0, 1, from);
            }
        }
    }
    let r = assess(store, &graph, &target, &reach, visited.len());
    proof {
        match &r {
            Ok(a) => {
                let direct = a.direct_callers.deep_view();
                let indirect = a.indirect_callers.deep_view();
                assert(ids_of(direct) == d);
                assert(ids_of(indirect) == n);
                assert forall|k: int| 0 <= k < direct.len() implies (
                #[trigger] direct[k]).call_type == CallType::Direct && Some(direct[k].node)
                    == first_meeting(symbols, Criterion::CanonicalId, direct[k].node.id) by {
                    assert(ids_of(direct)[k] == d[k]);
                }
                assert forall|k: int| 0 <= k < indirect.len() implies (
                #[trigger] indirect[k]).call_type == CallType::Indirect && Some(indirect[k].node)
                    == first_meeting(symbols, Criterion::CanonicalId, indirect[k].node.id) by {
                    assert(ids_of(indirect)[k] == n[k]);
                }
                assert(direct.len() == d.len());
                assert(indirect.len() == n.len());
            },
            Err(_) => {},
        }
    }
    r
}

} // verus!
