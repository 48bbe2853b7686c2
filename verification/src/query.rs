//! The query engine: lookup by position, the progressive lookup of a name
//! through five layers of matching, and the direct callers of a symbol.

use strsim::levenshtein;
use vstd::prelude::*;
use vstd::string::*;
use crate::model::{Node, NodeView};
use crate::store::{CallRowView, Store, SymbolRow, SymbolRowView};
use crate::text::{
    contains, contains_text, decimal, decimal_string, ends_with, lowercase, replace_char,
    replace_in, same_text, starts_with, to_chars, to_lower,
};

verus! {

/// The node by which a symbol row is reported.
pub open spec fn node_of(row: SymbolRowView) -> NodeView {
    NodeView {
        id: row.canonical_id,
        node_type: row.kind,
        name: row.name,
        qualified_name: row.qualified_name,
        file_path: row.file_path,
        line_start: row.line_start,
        line_end: row.line_end,
        signature: None,
    }
}

/// The node by which a symbol row is reported.
pub fn node_of_row(row: &SymbolRow) -> (n: Node)
    ensures
        n@ == node_of(row@),
{
    Node {
        id: row.canonical_id.clone(),
        node_type: row.kind,
        name: row.name.clone(),
        qualified_name: row.qualified_name.clone(),
        file_path: row.file_path.clone(),
        line_start: row.line_start,
        line_end: row.line_end,
        signature: None,
    }
}

/// The first `limit` elements of a sequence: all of it where it is shorter.
pub open spec fn first_n<T>(s: Seq<T>, limit: nat) -> Seq<T> {
    if limit <= s.len() {
        s.take(limit as int)
    } else {
        s
    }
}

/// The ways in which a symbol row is matched against a query text.
#[derive(Clone, Copy, Debug, PartialEq, Eq, Structural)]
pub enum Criterion {
    /// The name is the query.
    Exact,
    /// The name starts or ends with the query.
    PrefixSuffix,
    /// The name contains the query.
    Substring,
    /// The query has four characters or more, and the name starts with its
    /// first four.
    Stem,
    /// The name or the qualified name contains the query.
    NameOrQualified,
    /// The canonical identifier is the query.
    CanonicalId,
}

/// Whether the row meets the criterion for the query `q`.
pub open spec fn meets(c: Criterion, row: SymbolRowView, q: Seq<char>) -> bool {
    match c {
        Criterion::Exact => row.name == q,
        Criterion::PrefixSuffix => q.is_prefix_of(row.name) || q.is_suffix_of(row.name),
        Criterion::Substring => contains_text(row.name, q),
        Criterion::Stem => q.len() >= 4 && q.take(4).is_prefix_of(row.name),
        Criterion::NameOrQualified => contains_text(row.name, q) || contains_text(
            row.qualified_name,
            q,
        ),
        Criterion::CanonicalId => row.canonical_id == q,
    }
}

/// The first row at or after `k` that meets the criterion.
pub open spec fn first_meeting_from(symbols: Seq<SymbolRowView>, c: Criterion, q: Seq<char>, k: int)
    -> Option<int>
    decreases symbols.len() - k,
{
    if k < 0 || k >= symbols.len() {
        None
    } else if meets(c, symbols[k], q) {
        Some(k)
    } else {
        first_meeting_from(symbols, c, q, k + 1)
    }
}

/// The node of the first row that meets the criterion.
pub open spec fn first_meeting(symbols: Seq<SymbolRowView>, c: Criterion, q: Seq<char>) -> Option<
    NodeView,
> {
    match first_meeting_from(symbols, c, q, 0) {
        Some(i) => Some(node_of(symbols[i])),
        None => None,
    }
}

/// The nodes of all rows that meet the criterion, in row order.
pub open spec fn all_meeting(symbols: Seq<SymbolRowView>, c: Criterion, q: Seq<char>) -> Seq<
    NodeView,
>
    decreases symbols.len(),
{
    if symbols.len() == 0 {
        Seq::empty()
    } else if meets(c, symbols.last(), q) {
        all_meeting(symbols.drop_last(), c, q).push(node_of(symbols.last()))
    } else {
        all_meeting(symbols.drop_last(), c, q)
    }
}

/// Whether the row meets the criterion for the query `q`.
pub fn meets_criterion(c: Criterion, row: &SymbolRow, q: &Vec<char>) -> (r: bool)
    ensures
        r == meets(c, row@, q@),
{
    match c {
        Criterion::Exact => {
            let name = to_chars(row.name.as_str());
            let r = name.len() == q.len() && starts_with(&name, q);
            proof {
                if r {
                    assert(name@.subrange(0, q@.len() as int) =~= name@);
                }
                if name@ == q@ {
                    assert(q@.subrange(0, q@.len() as int) =~= q@);
                }
            }
            r
        },
        Criterion::PrefixSuffix => {
            let name = to_chars(row.name.as_str());
            starts_with(&name, q) || ends_with(&name, q)
        },
        Criterion::Substring => {
            let name = to_chars(row.name.as_str());
            contains(&name, q)
        },
        Criterion::Stem => {
            if q.len() < 4 {
                false
            } else {
                let name = to_chars(row.name.as_str());
                let mut stem: Vec<char> = Vec::new();
                stem.push(q[0]);
                stem.push(q[1]);
                stem.push(q[2]);
                stem.push(q[3]);
                assert(stem@ =~= q@.take(4));
                starts_with(&name, &stem)
            }
        },
        Criterion::NameOrQualified => {
            let name = to_chars(row.name.as_str());
            let qualified = to_chars(row.qualified_name.as_str());
            contains(&name, q) || contains(&qualified, q)
        },
        Criterion::CanonicalId => {
            let id = to_chars(row.canonical_id.as_str());
            let r = id.len() == q.len() && starts_with(&id, q);
            proof {
                if r {
                    assert(id@.subrange(0, q@.len() as int) =~= id@);
                }
                if id@ == q@ {
                    assert(q@.subrange(0, q@.len() as int) =~= q@);
                }
            }
            r
        },
    }
}

/// The node of the first row that meets the criterion.
pub fn find_first(store: &Store, c: Criterion, q: &str) -> (r: Option<Node>)
    ensures
        r.deep_view() == first_meeting(store@.symbols, c, q@),
{
    let query = to_chars(q);
    let ghost symbols = store@.symbols;
    let mut i: usize = 0;
    while i < store.symbols.len()
        invariant
            i <= store.symbols.len(),
            query@ == q@,
            symbols == store@.symbols,
            first_meeting_from(symbols, c, q@, 0) == first_meeting_from(symbols, c, q@, i as int),
        decreases store.symbols.len() - i,
    {
        let row = &store.symbols[i];
        assert(symbols[i as int] == row@);
        if meets_criterion(c, row, &query) {
            return Some(node_of_row(row));
        }
        i += 1;
    }
    None
}

/// The nodes of the first `limit` rows that meet the criterion.
pub fn find_up_to(store: &Store, c: Criterion, q: &str, limit: usize) -> (r: Vec<Node>)
    ensures
        r.deep_view() == first_n(all_meeting(store@.symbols, c, q@), limit as nat),
{
    let query = to_chars(q);
    let ghost symbols = store@.symbols;
    let mut out: Vec<Node> = Vec::new();
    let mut i: usize = 0;
    assert(symbols.take(0) =~= Seq::<SymbolRowView>::empty());
    while i < store.symbols.len()
        invariant
            i <= store.symbols.len(),
            query@ == q@,
            symbols == store@.symbols,
            out.deep_view() == all_meeting(symbols.take(i as int), c, q@),
        decreases store.symbols.len() - i,
    {
        let row = &store.symbols[i];
        let ghost before = out.deep_view();
        proof {
            assert(symbols.take(i + 1).drop_last() =~= symbols.take(i as int));
            assert(symbols.take(i + 1).last() == row@);
        }
        if meets_criterion(c, row, &query) {
            out.push(node_of_row(row));
            assert(out.deep_view() =~= before.push(node_of(row@)));
        }
        i += 1;
    }
    assert(symbols.take(store.symbols.len() as int) =~= symbols);
    let ghost all = out.deep_view();
    out.truncate(limit);
    assert(out.deep_view() =~= first_n(all, limit as nat));
    out
}

/// The smaller of two numbers.
pub open spec fn least(a: nat, b: nat) -> nat {
    if a <= b {
        a
    } else {
        b
    }
}

/// The Levenshtein distance: the least number of insertions, deletions and
/// substitutions of single characters that turns one text into the other.
pub open spec fn edit_distance(a: Seq<char>, b: Seq<char>) -> nat
    decreases a.len() + b.len(),
{
    if a.len() == 0 {
        b.len()
    } else if b.len() == 0 {
        a.len()
    } else {
        let substituted = edit_distance(a.drop_last(), b.drop_last()) + (if a.last() == b.last() {
            0nat
        } else {
            1nat
        });
        let deleted = edit_distance(a.drop_last(), b) + 1;
        let inserted = edit_distance(a, b.drop_last()) + 1;
        least(substituted, least(deleted, inserted))
    }
}

/// `strsim::levenshtein`: the least number of insertions, deletions and
/// substitutions that turns one string into the other, counted in
/// characters.
#[verifier::external_body]
fn levenshtein_distance(a: &str, b: &str) -> (d: usize)
    ensures
        d == edit_distance(a@, b@),
{
    levenshtein(a, b)
}

/// The distance that the Levenshtein layer measures between a query and a
/// name: that of their lower-case forms.
pub open spec fn name_distance(q: Seq<char>, name: Seq<char>) -> nat {
    edit_distance(lowercase(q), lowercase(name))
}

/// A node with the distance at which it was matched.
#[derive(Clone, Debug, PartialEq, Eq)]
pub struct Ranked {
    pub node: Node,
    pub distance: usize,
}

/// What a `Ranked` holds, as mathematical values.
pub struct RankedView {
    pub node: NodeView,
    pub distance: usize,
}

impl View for Ranked {
    type V = RankedView;

    open spec fn view(&self) -> RankedView {
        RankedView { node: self.node@, distance: self.distance }
    }
}

impl DeepView for Ranked {
    type V = RankedView;

    open spec fn deep_view(&self) -> RankedView {
        self@
    }
}

/// The rows whose name is at the distance `d` from the query, in row order.
pub open spec fn at_distance(symbols: Seq<SymbolRowView>, q: Seq<char>, d: nat) -> Seq<RankedView>
    decreases symbols.len(),
{
    if symbols.len() == 0 {
        Seq::empty()
    } else if name_distance(q, symbols.last().name) == d {
        at_distance(symbols.drop_last(), q, d).push(
            RankedView { node: node_of(symbols.last()), distance: d as usize },
        )
    } else {
        at_distance(symbols.drop_last(), q, d)
    }
}

/// The rows whose name is at most at the distance `d` from the query, by
/// ascending distance, and in row order where the distance is the same.
pub open spec fn ranked_within(symbols: Seq<SymbolRowView>, q: Seq<char>, d: nat) -> Seq<
    RankedView,
>
    decreases d,
{
    if d == 0 {
        at_distance(symbols, q, 0)
    } else {
        ranked_within(symbols, q, (d - 1) as nat) + at_distance(symbols, q, d)
    }
}

/// The matches of the Levenshtein layer: the rows whose name is within
/// `max_distance` of the query, nearest first, the first `limit` of them.
pub fn levenshtein_match_multi(store: &Store, query: &str, max_distance: usize, limit: usize) -> (r:
    Vec<Ranked>)
    ensures
        r.deep_view() == first_n(
            ranked_within(store@.symbols, query@, max_distance as nat),
            limit as nat,
        ),
{
    let ghost symbols = store@.symbols;
    let lowered = to_lower(query);
    let mut distances: Vec<usize> = Vec::new();
    let mut i: usize = 0;
    while i < store.symbols.len()
        invariant
            i <= store.symbols.len(),
            symbols == store@.symbols,
            lowered@ == lowercase(query@),
            distances.len() == i,
            forall|k: int|
                0 <= k < i ==> #[trigger] distances[k] == name_distance(query@, symbols[k].name),
        decreases store.symbols.len() - i,
    {
        let name = to_lower(store.symbols[i].name.as_str());
        assert(symbols[i as int].name == store.symbols@[i as int].name@);
        distances.push(levenshtein_distance(lowered.as_str(), name.as_str()));
        i += 1;
    }
    let mut out: Vec<Ranked> = Vec::new();
    let mut d: usize = 0;
    loop
        invariant_except_break
            d == 0 ==> out.deep_view() == Seq::<RankedView>::empty(),
            d > 0 ==> out.deep_view() == ranked_within(symbols, query@, (d - 1) as nat),
        invariant
            d <= max_distance,
            symbols == store@.symbols,
            distances.len() == store.symbols.len(),
            forall|k: int|
                0 <= k < distances.len() ==> #[trigger] distances[k] == name_distance(
                    query@,
                    symbols[k].name,
                ),
        ensures
            out.deep_view() == ranked_within(symbols, query@, max_distance as nat),
        decreases max_distance - d,
    {
        let ghost base = out.deep_view();
        let mut k: usize = 0;
        assert(symbols.take(0) =~= Seq::<SymbolRowView>::empty());
        assert(out.deep_view() =~= base + at_distance(symbols.take(0), query@, d as nat));
        while k < store.symbols.len()
            invariant
                k <= store.symbols.len(),
                symbols == store@.symbols,
                distances.len() == store.symbols.len(),
                forall|t: int|
                    0 <= t < distances.len() ==> #[trigger] distances[t] == name_distance(
                        query@,
                        symbols[t].name,
                    ),
                out.deep_view() == base + at_distance(symbols.take(k as int), query@, d as nat),
            decreases store.symbols.len() - k,
        {
            let ghost before = out.deep_view();
            let row = &store.symbols[k];
            proof {
                assert(symbols.take(k + 1).drop_last() =~= symbols.take(k as int));
                assert(symbols.take(k + 1).last() == row@);
                assert(symbols[k as int] == row@);
            }
            if distances[k] == d {
                out.push(Ranked { node: node_of_row(row), distance: d });
                assert(out.deep_view() =~= before.push(
                    RankedView { node: node_of(row@), distance: d },
                ));
                assert(out.deep_view() =~= base + at_distance(
                    symbols.take(k + 1),
                    query@,
                    d as nat,
                ));
            }
            k += 1;
        }
        assert(symbols.take(store.symbols.len() as int) =~= symbols);
        if d == max_distance {
            break ;
        }
        d += 1;
    }
    let ghost all = out.deep_view();
    out.truncate(limit);
    assert(out.deep_view() =~= first_n(all, limit as nat));
    out
}

/// The first row whose name is the query.
pub fn exact_match(store: &Store, query: &str) -> (r: Option<Node>)
    ensures
        r.deep_view() == first_meeting(store@.symbols, Criterion::Exact, query@),
{
    find_first(store, Criterion::Exact, query)
}

/// The first row whose name starts or ends with the query.
pub fn prefix_suffix_match(store: &Store, query: &str) -> (r: Option<Node>)
    ensures
        r.deep_view() == first_meeting(store@.symbols, Criterion::PrefixSuffix, query@),
{
    find_first(store, Criterion::PrefixSuffix, query)
}

/// The first row whose name contains the query.
pub fn substring_match(store: &Store, query: &str) -> (r: Option<Node>)
    ensures
        r.deep_view() == first_meeting(store@.symbols, Criterion::Substring, query@),
{
    find_first(store, Criterion::Substring, query)
}

/// The first row whose name starts with the first four characters of a
/// query of four characters or more.
pub fn stem_match(store: &Store, query: &str) -> (r: Option<Node>)
    ensures
        r.deep_view() == first_meeting(store@.symbols, Criterion::Stem, query@),
{
    find_first(store, Criterion::Stem, query)
}

/// The row nearest to the query among those within `max_distance`: the
/// first of the nearest.
pub fn levenshtein_match(store: &Store, query: &str, max_distance: usize) -> (r: Option<Node>)
    ensures
        r.deep_view() == (if ranked_within(store@.symbols, query@, max_distance as nat).len()
            > 0 {
            Some(ranked_within(store@.symbols, query@, max_distance as nat)[0].node)
        } else {
            None
        }),
{
    let mut hits = levenshtein_match_multi(store, query, max_distance, 1);
    let ghost all = ranked_within(store@.symbols, query@, max_distance as nat);
    let ghost found = hits.deep_view();
    proof {
        if all.len() > 0 {
            assert(found.len() == 1);
            assert(found[0] == all[0]);
            assert(hits@[0]@ == found[0]);
        } else {
            assert(found.len() == 0);
        }
    }
    match hits.pop() {
        Some(hit) => Some(hit.node),
        None => None,
    }
}

/// The first `limit` rows whose name starts or ends with the query.
pub fn prefix_suffix_match_multi(store: &Store, query: &str, limit: usize) -> (r: Vec<Node>)
    ensures
        r.deep_view() == first_n(
            all_meeting(store@.symbols, Criterion::PrefixSuffix, query@),
            limit as nat,
        ),
{
    find_up_to(store, Criterion::PrefixSuffix, query, limit)
}

/// The first `limit` rows whose name contains the query.
pub fn substring_match_multi(store: &Store, query: &str, limit: usize) -> (r: Vec<Node>)
    ensures
        r.deep_view() == first_n(
            all_meeting(store@.symbols, Criterion::Substring, query@),
            limit as nat,
        ),
{
    find_up_to(store, Criterion::Substring, query, limit)
}

/// The first `limit` rows whose name starts with the first four characters
/// of a query of four characters or more.
pub fn stem_match_multi(store: &Store, query: &str, limit: usize) -> (r: Vec<Node>)
    ensures
        r.deep_view() == first_n(
            all_meeting(store@.symbols, Criterion::Stem, query@),
            limit as nat,
        ),
{
    find_up_to(store, Criterion::Stem, query, limit)
}

/// The row with this canonical identifier: the first, where several rows
/// carry it.
pub fn get_node_by_id(store: &Store, id: &str) -> (r: Option<Node>)
    ensures
        r.deep_view() == first_meeting(store@.symbols, Criterion::CanonicalId, id@),
{
    find_first(store, Criterion::CanonicalId, id)
}

/// The layer by which a name was matched.
#[derive(Clone, Copy, Debug, PartialEq, Eq, Structural)]
pub enum MatchType {
    Exact,
    PrefixSuffix,
    Substring,
    Levenshtein,
    Stem,
}

impl MatchType {
    /// The layer's name as reports spell it.
    pub fn name(&self) -> (r: &'static str)
        ensures
            r@ == (match *self {
                MatchType::Exact => "exact"@,
                MatchType::PrefixSuffix => "prefix_suffix"@,
                MatchType::Substring => "substring"@,
                MatchType::Levenshtein => "levenshtein"@,
                MatchType::Stem => "stem"@,
            }),
    {
        match self {
            MatchType::Exact => "exact",
            MatchType::PrefixSuffix => "prefix_suffix",
            MatchType::Substring => "substring",
            MatchType::Levenshtein => "levenshtein",
            MatchType::Stem => "stem",
        }
    }
}

/// The most candidates that a lookup reports.
pub const MAX_CANDIDATES: usize = 5;

/// The largest distance at which the Levenshtein layer matches.
pub const MAX_DISTANCE: usize = 3;

/// The score of a match, in hundredths: 1.0 for an exact match, 0.9 for a
/// prefix or suffix, 0.8 for a substring, 1 − d/4 at the Levenshtein
/// distance d, 0.5 for a stem.
pub open spec fn layer_score(m: MatchType, distance: nat) -> nat {
    match m {
        MatchType::Exact => 100,
        MatchType::PrefixSuffix => 90,
        MatchType::Substring => 80,
        MatchType::Levenshtein => (100 - 25 * distance) as nat,
        MatchType::Stem => 50,
    }
}

/// A candidate of a lookup: a node with the layer that matched it, the
/// distance at which it matched, and its score in hundredths.
#[derive(Clone, Debug, PartialEq, Eq)]
pub struct CandidateMatch {
    pub node: Node,
    pub match_type: MatchType,
    pub distance: usize,
    pub score: u32,
}

/// What a `Candidate` holds, as mathematical values.
pub struct CandidateView {
    pub node: NodeView,
    pub match_type: MatchType,
    pub distance: usize,
    pub score: u32,
}

impl View for CandidateMatch {
    type V = CandidateView;

    open spec fn view(&self) -> CandidateView {
        CandidateView {
            node: self.node@,
            match_type: self.match_type,
            distance: self.distance,
            score: self.score,
        }
    }
}

impl DeepView for CandidateMatch {
    type V = CandidateView;

    open spec fn deep_view(&self) -> CandidateView {
        self@
    }
}

/// The label of a candidate: the name of its layer, and for the Levenshtein
/// layer `levenshtein_d` with the distance.
pub open spec fn label_of(c: CandidateView) -> Seq<char> {
    if c.match_type == MatchType::Levenshtein {
        "levenshtein_d"@ + decimal(c.distance as nat)
    } else if c.match_type == MatchType::Exact {
        "exact"@
    } else if c.match_type == MatchType::PrefixSuffix {
        "prefix_suffix"@
    } else if c.match_type == MatchType::Substring {
        "substring"@
    } else {
        "stem"@
    }
}

impl CandidateMatch {
    /// The label of the candidate.
    pub fn label(&self) -> (r: String)
        ensures
            r@ == label_of(self@),
    {
        match self.match_type {
            MatchType::Levenshtein => {
                let mut s = String::from_str("levenshtein_d");
                let d = decimal_string(self.distance as u64);
                s.append(d.as_str());
                s
            },
            other => String::from_str(other.name()),
        }
    }
}

/// The candidate for a node that a layer without distances matched.
pub open spec fn plain_candidate(node: NodeView, m: MatchType) -> CandidateView {
    CandidateView { node: node, match_type: m, distance: 0, score: layer_score(m, 0) as u32 }
}

/// The candidate for a node that the Levenshtein layer matched.
pub open spec fn ranked_candidate(r: RankedView) -> CandidateView {
    CandidateView {
        node: r.node,
        match_type: MatchType::Levenshtein,
        distance: r.distance,
        score: layer_score(MatchType::Levenshtein, r.distance as nat) as u32,
    }
}

/// The criterion by which a layer without distances matches.
pub open spec fn criterion_of(m: MatchType) -> Criterion {
    match m {
        MatchType::Exact => Criterion::Exact,
        MatchType::PrefixSuffix => Criterion::PrefixSuffix,
        MatchType::Substring => Criterion::Substring,
        _ => Criterion::Stem,
    }
}

/// The candidates of one layer: its first five matches.
pub open spec fn layer_candidates(symbols: Seq<SymbolRowView>, q: Seq<char>, m: MatchType) -> Seq<
    CandidateView,
> {
    if m == MatchType::Levenshtein {
        first_n(ranked_within(symbols, q, MAX_DISTANCE as nat), MAX_CANDIDATES as nat).map_values(
            |r: RankedView| ranked_candidate(r),
        )
    } else {
        first_n(all_meeting(symbols, criterion_of(m), q), MAX_CANDIDATES as nat).map_values(
            |n: NodeView| plain_candidate(n, m),
        )
    }
}

/// The candidates of the progressive lookup: those of the first layer that
/// has any, the layers taken in the order exact, prefix or suffix,
/// substring, Levenshtein, stem.
pub open spec fn progressive(symbols: Seq<SymbolRowView>, q: Seq<char>) -> Seq<CandidateView> {
    if layer_candidates(symbols, q, MatchType::Exact).len() > 0 {
        layer_candidates(symbols, q, MatchType::Exact)
    } else if layer_candidates(symbols, q, MatchType::PrefixSuffix).len() > 0 {
        layer_candidates(symbols, q, MatchType::PrefixSuffix)
    } else if layer_candidates(symbols, q, MatchType::Substring).len() > 0 {
        layer_candidates(symbols, q, MatchType::Substring)
    } else if layer_candidates(symbols, q, MatchType::Levenshtein).len() > 0 {
        layer_candidates(symbols, q, MatchType::Levenshtein)
    } else {
        layer_candidates(symbols, q, MatchType::Stem)
    }
}

/// Every row that the Levenshtein layer ranks within `d` is at a distance
/// of at most `d`.
pub proof fn lemma_ranked_distance(symbols: Seq<SymbolRowView>, q: Seq<char>, d: nat)
    requires
        d <= usize::MAX,
    ensures
        forall|k: int|
            0 <= k < ranked_within(symbols, q, d).len() ==> (#[trigger] ranked_within(
                symbols,
                q,
                d,
            )[k]).distance <= d,
    decreases d,
{
    lemma_at_distance(symbols, q, d);
    if d > 0 {
        lemma_ranked_distance(symbols, q, (d - 1) as nat);
    }
}

/// Every row that is listed at the distance `d` carries that distance.
pub proof fn lemma_at_distance(symbols: Seq<SymbolRowView>, q: Seq<char>, d: nat)
    requires
        d <= usize::MAX,
    ensures
        forall|k: int|
            0 <= k < at_distance(symbols, q, d).len() ==> (#[trigger] at_distance(
                symbols,
                q,
                d,
            )[k]).distance == d,
    decreases symbols.len(),
{
    if symbols.len() > 0 {
        lemma_at_distance(symbols.drop_last(), q, d);
    }
}

/// The candidates of a layer without distances.
fn plain_layer(store: &Store, query: &str, m: MatchType) -> (r: Vec<CandidateMatch>)
    requires
        m != MatchType::Levenshtein,
    ensures
        r.deep_view() == layer_candidates(store@.symbols, query@, m),
{
    let (c, score): (Criterion, u32) = match m {
        MatchType::Exact => (Criterion::Exact, 100),
        MatchType::PrefixSuffix => (Criterion::PrefixSuffix, 90),
        MatchType::Substring => (Criterion::Substring, 80),
        _ => (Criterion::Stem, 50),
    };
    let nodes = find_up_to(store, c, query, MAX_CANDIDATES);
    let ghost found = nodes.deep_view();
    let mut out: Vec<CandidateMatch> = Vec::new();
    for node in it: nodes
        invariant
            score == layer_score(m, 0),
            it.seq().len() == found.len(),
            forall|k: int| 0 <= k < found.len() ==> found[k] == (#[trigger] it.seq()[k])@,
            out.len() == it.index(),
            forall|k: int|
                0 <= k < out.len() ==> (#[trigger] out.deep_view()[k]) == plain_candidate(
                    found[k],
                    m,
                ),
    {
        let ghost before = out.deep_view();
        let ghost i = it.index() as int;
        out.push(CandidateMatch { node, match_type: m, distance: 0, score });
        assert(out.deep_view() =~= before.push(plain_candidate(found[i], m)));
    }
    assert(out.deep_view() =~= layer_candidates(store@.symbols, query@, m));
    out
}

/// The candidates of the Levenshtein layer.
fn ranked_layer(store: &Store, query: &str) -> (r: Vec<CandidateMatch>)
    ensures
        r.deep_view() == layer_candidates(store@.symbols, query@, MatchType::Levenshtein),
{
    let hits = levenshtein_match_multi(store, query, MAX_DISTANCE, MAX_CANDIDATES);
    let ghost found = hits.deep_view();
    proof {
        lemma_ranked_distance(store@.symbols, query@, MAX_DISTANCE as nat);
    }
    let mut out: Vec<CandidateMatch> = Vec::new();
    for hit in it: hits
        invariant
            forall|k: int| 0 <= k < found.len() ==> (#[trigger] found[k]).distance <= 3,
            it.seq().len() == found.len(),
            forall|k: int| 0 <= k < found.len() ==> found[k] == (#[trigger] it.seq()[k])@,
            out.len() == it.index(),
            forall|k: int|
                0 <= k < out.len() ==> (#[trigger] out.deep_view()[k]) == ranked_candidate(
                    found[k],
                ),
    {
        let ghost before = out.deep_view();
        let ghost i = it.index() as int;
        let score: u32 = if hit.distance == 0 {
            100
        } else if hit.distance == 1 {
            75
        } else if hit.distance == 2 {
            50
        } else if hit.distance == 3 {
            25
        } else {
            0
        };
        let distance = hit.distance;
        out.push(CandidateMatch { node: hit.node, match_type: MatchType::Levenshtein, distance, score });
        assert(out.deep_view() =~= before.push(ranked_candidate(found[i])));
    }
    assert(out.deep_view() =~= layer_candidates(store@.symbols, query@, MatchType::Levenshtein));
    out
}

/// What the progressive lookup found.
#[derive(Clone, Debug, PartialEq, Eq)]
pub struct ProgressiveMatch {
    pub best: Option<Node>,
    pub match_type: Option<MatchType>,
    pub candidates: Vec<CandidateMatch>,
    pub found: bool,
}

/// The progressive lookup of a name: the candidates of the first layer that
/// matches anything, and the first of them as the best match.
pub fn progressive_search_multi(store: &Store, query: &str) -> (r: ProgressiveMatch)
    ensures
        r.candidates.deep_view() == progressive(store@.symbols, query@),
        r.found == (r.candidates.len() > 0),
        r.found ==> r.best.deep_view() == Some(r.candidates.deep_view()[0].node)
            && r.match_type == Some(r.candidates.deep_view()[0].match_type),
        !r.found ==> r.best is None && r.match_type is None,
{
    let mut candidates = plain_layer(store, query, MatchType::Exact);
    if candidates.len() == 0 {
        candidates = plain_layer(store, query, MatchType::PrefixSuffix);
    }
    if candidates.len() == 0 {
        candidates = plain_layer(store, query, MatchType::Substring);
    }
    if candidates.len() == 0 {
        candidates = ranked_layer(store, query);
    }
    if candidates.len() == 0 {
        candidates = plain_layer(store, query, MatchType::Stem);
    }
    if candidates.len() > 0 {
        let best = candidates[0].node.duplicate();
        let match_type = candidates[0].match_type;
        ProgressiveMatch { best: Some(best), match_type: Some(match_type), candidates, found: true }
    } else {
        ProgressiveMatch { best: None, match_type: None, candidates, found: false }
    }
}

/// The best match of the progressive lookup, with the layer that found it.
pub fn progressive_search(store: &Store, query: &str) -> (r: Option<(Node, MatchType)>)
    ensures
        r is Some <==> progressive(store@.symbols, query@).len() > 0,
        r matches Some(hit) ==> hit.0@ == progressive(store@.symbols, query@)[0].node && hit.1
            == progressive(store@.symbols, query@)[0].match_type,
{
    let found = progressive_search_multi(store, query);
    match (found.best, found.match_type) {
        (Some(node), Some(m)) => Some((node, m)),
        _ => None,
    }
}

/// The row covers the position: its file path ends with `suffix`, and the
/// line lies in its range.
pub open spec fn covers(row: SymbolRowView, suffix: Seq<char>, line: usize) -> bool {
    suffix.is_suffix_of(row.file_path) && row.line_start <= line <= row.line_end
}

/// The number of lines that a row spans beyond its first.
pub open spec fn span(row: SymbolRowView) -> int {
    row.line_end - row.line_start
}

/// The row of the smallest range among those that cover the position: the
/// first of them where several are equally small.
pub open spec fn narrowest(symbols: Seq<SymbolRowView>, suffix: Seq<char>, line: usize) -> Option<
    int,
>
    decreases symbols.len(),
{
    if symbols.len() == 0 {
        None
    } else {
        let before = narrowest(symbols.drop_last(), suffix, line);
        if covers(symbols.last(), suffix, line) && (before is None || span(symbols.last()) < span(
            symbols[before->0],
        )) {
            Some(symbols.len() - 1)
        } else {
            before
        }
    }
}

/// The node at a position: `file` names the end of a file path, with
/// either kind of slash.
pub open spec fn located(symbols: Seq<SymbolRowView>, file: Seq<char>, line: usize) -> Option<
    NodeView,
> {
    match narrowest(symbols, replace_char(file, '\\', '/'), line) {
        Some(i) => Some(node_of(symbols[i])),
        None => None,
    }
}

/// What `narrowest` finds is a row of the input.
pub proof fn lemma_narrowest(symbols: Seq<SymbolRowView>, suffix: Seq<char>, line: usize)
    ensures
        narrowest(symbols, suffix, line) matches Some(i) ==> 0 <= i < symbols.len() && covers(
            symbols[i],
            suffix,
            line,
        ),
    decreases symbols.len(),
{
    if symbols.len() > 0 {
        lemma_narrowest(symbols.drop_last(), suffix, line);
    }
}

/// Locate by position: the symbol of the smallest range that holds the
/// line, in a file whose path ends with `file`.
pub fn locate(store: &Store, file: &str, line: usize) -> (r: Option<Node>)
    ensures
        r.deep_view() == located(store@.symbols, file@, line),
{
    let ghost symbols = store@.symbols;
    let normalized = replace_in(file, '\\', '/');
    let suffix = to_chars(normalized.as_str());
    let mut best: Option<usize> = None;
    let mut i: usize = 0;
    assert(symbols.take(0) =~= Seq::<SymbolRowView>::empty());
    while i < store.symbols.len()
        invariant
            i <= store.symbols.len(),
            symbols == store@.symbols,
            suffix@ == replace_char(file@, '\\', '/'),
            best is None <==> narrowest(symbols.take(i as int), suffix@, line) is None,
            best matches Some(b) ==> b < i && narrowest(symbols.take(i as int), suffix@, line)
                == Some(b as int),
        decreases store.symbols.len() - i,
    {
        let row = &store.symbols[i];
        proof {
            assert(symbols.take(i + 1).drop_last() =~= symbols.take(i as int));
            assert(symbols.take(i + 1).last() == row@);
            assert(symbols[i as int] == row@);
        }
        let path = to_chars(row.file_path.as_str());
        if ends_with(&path, &suffix) && row.line_start <= line && line <= row.line_end {
            let better = match best {
                None => true,
                Some(b) => {
                    let other = &store.symbols[b];
                    assert(symbols.take(i + 1)[b as int] == other@);
                    other.line_start > other.line_end || row.line_end - row.line_start
                        < other.line_end - other.line_start
                },
            };
            proof {
                if best is Some {
                    let b = best->0;
                    lemma_narrowest(symbols.take(i as int), suffix@, line);
                    assert(symbols.take(i as int)[b as int] == symbols[b as int]);
                    assert(symbols.take(i + 1)[b as int] == symbols[b as int]);
                }
            }
            if better {
                best = Some(i);
            }
        } else {
            proof {
                if best is Some {
                    let b = best->0;
                    assert(symbols.take(i + 1)[b as int] == symbols[b as int]);
                }
            }
        }
        i += 1;
    }
    assert(symbols.take(store.symbols.len() as int) =~= symbols);
    match best {
        Some(b) => {
            assert(symbols[b as int] == store.symbols@[b as int]@);
            Some(node_of_row(&store.symbols[b]))
        },
        None => None,
    }
}

/// How a node is related to the symbol that was asked for.
#[derive(Clone, Copy, Debug, PartialEq, Eq, Structural)]
pub enum CallType {
    Direct,
    Indirect,
}

impl CallType {
    /// The relation's name as reports spell it.
    pub fn name(&self) -> (r: &'static str)
        ensures
            r@ == (match *self {
                CallType::Direct => "direct"@,
                CallType::Indirect => "indirect"@,
            }),
    {
        match self {
            CallType::Direct => "direct",
            CallType::Indirect => "indirect",
        }
    }
}

/// A node that is related to the symbol that was asked for.
#[derive(Clone, Debug, PartialEq, Eq)]
pub struct CallerInfo {
    pub node: Node,
    pub call_type: CallType,
}

/// What a `CallerInfo` holds, as mathematical values.
pub struct CallerInfoView {
    pub node: NodeView,
    pub call_type: CallType,
}

impl View for CallerInfo {
    type V = CallerInfoView;

    open spec fn view(&self) -> CallerInfoView {
        CallerInfoView { node: self.node@, call_type: self.call_type }
    }
}

impl DeepView for CallerInfo {
    type V = CallerInfoView;

    open spec fn deep_view(&self) -> CallerInfoView {
        self@
    }
}

/// The call edge leads to the symbol: it is resolved to the symbol's
/// canonical identifier, or it is unresolved and names the symbol.
pub open spec fn calls_symbol(c: CallRowView, id: Seq<char>, name: Seq<char>) -> bool {
    c.callee_id == Some(id) || (c.callee_id is None && c.callee_name == name)
}

/// One entry for each of the call edges that leads to the symbol.
pub open spec fn entries_for(
    caller: NodeView,
    calls: Seq<CallRowView>,
    id: Seq<char>,
    name: Seq<char>,
) -> Seq<CallerInfoView>
    decreases calls.len(),
{
    if calls.len() == 0 {
        Seq::empty()
    } else if calls_symbol(calls.last(), id, name) {
        entries_for(caller, calls.drop_last(), id, name).push(
            CallerInfoView { node: caller, call_type: CallType::Direct },
        )
    } else {
        entries_for(caller, calls.drop_last(), id, name)
    }
}

/// The direct callers of a symbol: for every call edge that leads to it,
/// in row order, the symbol in whose body the call stands.
pub open spec fn direct_callers(symbols: Seq<SymbolRowView>, id: Seq<char>, name: Seq<char>) -> Seq<
    CallerInfoView,
>
    decreases symbols.len(),
{
    if symbols.len() == 0 {
        Seq::empty()
    } else {
        direct_callers(symbols.drop_last(), id, name) + entries_for(
            node_of(symbols.last()),
            symbols.last().calls,
            id,
            name,
        )
    }
}

/// The direct callers of the symbol with the canonical identifier `id` and
/// the name `name`.
pub fn callers_of(store: &Store, id: &str, name: &str) -> (r: Vec<CallerInfo>)
    ensures
        r.deep_view() == direct_callers(store@.symbols, id@, name@),
{
    let ghost symbols = store@.symbols;
    let mut out: Vec<CallerInfo> = Vec::new();
    let mut i: usize = 0;
    assert(symbols.take(0) =~= Seq::<SymbolRowView>::empty());
    while i < store.symbols.len()
        invariant
            i <= store.symbols.len(),
            symbols == store@.symbols,
            out.deep_view() == direct_callers(symbols.take(i as int), id@, name@),
        decreases store.symbols.len() - i,
    {
        let row = &store.symbols[i];
        let ghost base = out.deep_view();
        let ghost calls = row@.calls;
        proof {
            assert(symbols.take(i + 1).drop_last() =~= symbols.take(i as int));
            assert(symbols.take(i + 1).last() == row@);
        }
        let mut j: usize = 0;
        assert(calls.take(0) =~= Seq::<CallRowView>::empty());
        assert(out.deep_view() =~= base + entries_for(node_of(row@), calls.take(0), id@, name@));
        while j < row.calls.len()
            invariant
                j <= row.calls.len(),
                calls == row@.calls,
                out.deep_view() == base + entries_for(
                    node_of(row@),
                    calls.take(j as int),
                    id@,
                    name@,
                ),
            decreases row.calls.len() - j,
        {
            let c = &row.calls[j];
            let ghost before = out.deep_view();
            proof {
                assert(calls.take(j + 1).drop_last() =~= calls.take(j as int));
                assert(calls.take(j + 1).last() == c@);
            }
            let leads = match &c.callee_id {
                Some(x) => same_text(x.as_str(), id),
                None => same_text(c.callee_name.as_str(), name),
            };
            if leads {
                out.push(CallerInfo { node: node_of_row(row), call_type: CallType::Direct });
                assert(out.deep_view() =~= before.push(
                    CallerInfoView { node: node_of(row@), call_type: CallType::Direct },
                ));
                assert(out.deep_view() =~= base + entries_for(
                    node_of(row@),
                    calls.take(j + 1),
                    id@,
                    name@,
                ));
            }
            j += 1;
        }
        assert(calls.take(row.calls.len() as int) =~= calls);
        i += 1;
    }
    assert(symbols.take(store.symbols.len() as int) =~= symbols);
    out
}

/// What is asked of the query engine: a position, where both a file and a
/// line are given; else a name, where one is given.
#[derive(Clone, Debug, PartialEq, Eq)]
pub struct QueryRequest {
    pub query: Option<String>,
    pub file: Option<String>,
    pub line: Option<usize>,
}

/// The answer of the query engine.
#[derive(Clone, Debug, PartialEq, Eq)]
pub struct QueryResult {
    pub query: String,
    pub found_symbol: Option<Node>,
    pub match_type: Option<MatchType>,
    pub candidates: Vec<CandidateMatch>,
    pub related_nodes: Vec<CallerInfo>,
}

/// How a lookup ended: with a symbol, or with none.
#[derive(Clone, Copy, Debug, PartialEq, Eq, Structural)]
pub enum LookupStatus {
    Success,
    Error,
}

impl LookupStatus {
    /// The status as reports spell it.
    pub fn name(&self) -> (r: &'static str)
        ensures
            r@ == (match *self {
                LookupStatus::Success => "success"@,
                LookupStatus::Error => "error"@,
            }),
    {
        match self {
            LookupStatus::Success => "success",
            LookupStatus::Error => "error",
        }
    }
}

impl QueryResult {
    /// The status of the answer: an error exactly where no symbol was found.
    pub fn status(&self) -> (r: LookupStatus)
        ensures
            r == (if self.found_symbol is Some {
                LookupStatus::Success
            } else {
                LookupStatus::Error
            }),
    {
        match &self.found_symbol {
            Some(_) => LookupStatus::Success,
            None => LookupStatus::Error,
        }
    }

    /// The diagnostic message of the answer: there is one exactly where no
    /// symbol was found.
    pub fn message(&self) -> (r: Option<&'static str>)
        ensures
            r is Some <==> self.found_symbol is None,
            r matches Some(m) ==> m@ == "Symbol not found"@,
    {
        match &self.found_symbol {
            Some(_) => None,
            None => Some("Symbol not found"),
        }
    }
}

/// The symbol that a request finds.
pub open spec fn found_by(
    symbols: Seq<SymbolRowView>,
    query: Option<Seq<char>>,
    file: Option<Seq<char>>,
    line: Option<usize>,
) -> Option<NodeView> {
    if file is Some && line is Some {
        located(symbols, file->0, line->0)
    } else if query is Some && progressive(symbols, query->0).len() > 0 {
        Some(progressive(symbols, query->0)[0].node)
    } else {
        None
    }
}

/// The candidates that a request reports: those of the progressive lookup
/// for a request by name, none for any other.
pub open spec fn candidates_by(
    symbols: Seq<SymbolRowView>,
    query: Option<Seq<char>>,
    file: Option<Seq<char>>,
    line: Option<usize>,
) -> Seq<CandidateView> {
    if file is Some && line is Some {
        Seq::empty()
    } else if query is Some {
        progressive(symbols, query->0)
    } else {
        Seq::empty()
    }
}

/// Answers a request: the symbol found, the candidates of the layer that
/// found it, and its direct callers.
pub fn run_query(store: &Store, request: &QueryRequest) -> (r: QueryResult)
    ensures
        r.found_symbol.deep_view() == found_by(
            store@.symbols,
            request.query.deep_view(),
            request.file.deep_view(),
            request.line,
        ),
        r.candidates.deep_view() == candidates_by(
            store@.symbols,
            request.query.deep_view(),
            request.file.deep_view(),
            request.line,
        ),
        r.match_type is Some <==> r.candidates.len() > 0,
        r.match_type matches Some(m) ==> m == r.candidates.deep_view()[0].match_type,
        r.related_nodes.deep_view() == (match r.found_symbol.deep_view() {
            Some(n) => direct_callers(store@.symbols, n.id, n.name),
            None => Seq::empty(),
        }),
        r.query@ == (match request.query.deep_view() {
            Some(q) => q,
            None => Seq::empty(),
        }),
{
    let mut found: Option<Node> = None;
    let mut match_type: Option<MatchType> = None;
    let mut candidates: Vec<CandidateMatch> = Vec::new();
    match (&request.file, request.line) {
        (Some(file), Some(line)) => {
            found = locate(store, file.as_str(), line);
        },
        _ => {
            match &request.query {
                Some(q) => {
                    let hit = progressive_search_multi(store, q.as_str());
                    found = hit.best;
                    match_type = hit.match_type;
                    candidates = hit.candidates;
                },
                None => {},
            }
        },
    }
    let related = match &found {
        Some(n) => callers_of(store, n.id.as_str(), n.name.as_str()),
        None => Vec::new(),
    };
    let query = match &request.query {
        Some(q) => q.clone(),
        None => String::new(),
    };
    QueryResult { query, found_symbol: found, match_type, candidates, related_nodes: related }
}

} // verus!
