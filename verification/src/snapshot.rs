//! Snapshots of the indexed state, keyed by canonical identifier, and the
//! difference between two of them.

use vstd::prelude::*;
use vstd::string::*;
use crate::link::same_but_calls;
use crate::model::SymbolKind;
use crate::store::{CallRowView, Store, SymbolRowView};
use crate::text::{
    contains_string, distinct_in_order, distinct_strings, join, join_strings, same_text,
};

verus! {

/// A symbol as a snapshot holds it.
#[derive(Clone, Debug, PartialEq, Eq)]
pub struct SnapshotSymbol {
    pub name: String,
    pub qualified_name: String,
    pub file_path: String,
    pub symbol_type: SymbolKind,
    pub line_start: usize,
    pub signature: Option<String>,
    pub calls: Vec<String>,
}

/// What a `SnapshotSymbol` holds, as mathematical values.
pub struct SnapshotSymbolView {
    pub name: Seq<char>,
    pub qualified_name: Seq<char>,
    pub file_path: Seq<char>,
    pub symbol_type: SymbolKind,
    pub line_start: usize,
    pub signature: Option<Seq<char>>,
    pub calls: Seq<Seq<char>>,
}

impl View for SnapshotSymbol {
    type V = SnapshotSymbolView;

    open spec fn view(&self) -> SnapshotSymbolView {
        SnapshotSymbolView {
            name: self.name@,
            qualified_name: self.qualified_name@,
            file_path: self.file_path@,
            symbol_type: self.symbol_type,
            line_start: self.line_start,
            signature: self.signature.deep_view(),
            calls: self.calls.deep_view(),
        }
    }
}

impl DeepView for SnapshotSymbol {
    type V = SnapshotSymbolView;

    open spec fn deep_view(&self) -> SnapshotSymbolView {
        self@
    }
}

/// One entry of a snapshot: a canonical identifier with its symbol.
#[derive(Clone, Debug, PartialEq, Eq)]
pub struct SnapshotEntry {
    pub id: String,
    pub symbol: SnapshotSymbol,
}

/// What a `SnapshotEntry` holds, as mathematical values.
pub struct SnapshotEntryView {
    pub id: Seq<char>,
    pub symbol: SnapshotSymbolView,
}

impl View for SnapshotEntry {
    type V = SnapshotEntryView;

    open spec fn view(&self) -> SnapshotEntryView {
        SnapshotEntryView { id: self.id@, symbol: self.symbol@ }
    }
}

impl DeepView for SnapshotEntry {
    type V = SnapshotEntryView;

    open spec fn deep_view(&self) -> SnapshotEntryView {
        self@
    }
}

/// A snapshot: the symbols of an indexed state by canonical identifier,
/// with the time of the export.
#[derive(Clone, Debug, PartialEq, Eq)]
pub struct Snapshot {
    pub timestamp: u64,
    pub symbols: Vec<SnapshotEntry>,
}

/// What a `Snapshot` holds, as mathematical values.
pub struct SnapshotView {
    pub timestamp: u64,
    pub symbols: Seq<SnapshotEntryView>,
}

impl View for Snapshot {
    type V = SnapshotView;

    open spec fn view(&self) -> SnapshotView {
        SnapshotView { timestamp: self.timestamp, symbols: self.symbols.deep_view() }
    }
}

/// The canonical identifiers of the entries.
pub open spec fn keys_of(entries: Seq<SnapshotEntryView>) -> Seq<Seq<char>> {
    Seq::new(entries.len(), |i: int| entries[i].id)
}

impl SnapshotView {
    /// No canonical identifier has two entries.
    pub open spec fn wf(self) -> bool {
        keys_of(self.symbols).no_duplicates()
    }
}

/// The canonical identifier of each symbol row.
pub open spec fn row_ids(symbols: Seq<SymbolRowView>) -> Seq<Seq<char>> {
    Seq::new(symbols.len(), |i: int| symbols[i].canonical_id)
}

/// The callee name of each call row.
pub open spec fn callee_names(calls: Seq<CallRowView>) -> Seq<Seq<char>> {
    Seq::new(calls.len(), |i: int| calls[i].callee_name)
}

/// The callee names of the calls of all rows with the canonical identifier,
/// in row order.
pub open spec fn calls_of_id(symbols: Seq<SymbolRowView>, id: Seq<char>) -> Seq<Seq<char>>
    decreases symbols.len(),
{
    if symbols.len() == 0 {
        Seq::empty()
    } else if symbols.last().canonical_id == id {
        calls_of_id(symbols.drop_last(), id) + callee_names(symbols.last().calls)
    } else {
        calls_of_id(symbols.drop_last(), id)
    }
}

/// The last row with the canonical identifier.
pub open spec fn last_with_id(symbols: Seq<SymbolRowView>, id: Seq<char>) -> Option<int>
    decreases symbols.len(),
{
    if symbols.len() == 0 {
        None
    } else if symbols.last().canonical_id == id {
        Some(symbols.len() - 1)
    } else {
        last_with_id(symbols.drop_last(), id)
    }
}

/// The snapshot entry of a canonical identifier that the row `i` carries:
/// the attributes of that row, and the calls of all rows that carry the
/// identifier.
pub open spec fn entry_of(symbols: Seq<SymbolRowView>, id: Seq<char>, i: int) -> SnapshotEntryView {
    SnapshotEntryView {
        id: id,
        symbol: SnapshotSymbolView {
            name: symbols[i].name,
            qualified_name: symbols[i].qualified_name,
            file_path: symbols[i].file_path,
            symbol_type: symbols[i].kind,
            line_start: symbols[i].line_start,
            signature: None,
            calls: calls_of_id(symbols, id),
        },
    }
}

/// The entries of the snapshot of an indexed state: one for each canonical
/// identifier, in the order in which the identifiers first occur, with the
/// attributes of the last row that carries the identifier.
pub open spec fn snapshot_of(symbols: Seq<SymbolRowView>) -> Seq<SnapshotEntryView> {
    let ids = distinct_in_order(row_ids(symbols));
    Seq::new(ids.len(), |k: int| entry_of(symbols, ids[k], last_with_id(symbols, ids[k])->0))
}

/// Two sequences of symbol rows agree on everything but what their call
/// edges are resolved to.
pub open spec fn same_but_links(a: Seq<SymbolRowView>, b: Seq<SymbolRowView>) -> bool {
    &&& a.len() == b.len()
    &&& forall|i: int|
        0 <= i < a.len() ==> same_but_calls(#[trigger] a[i], b[i]) && callee_names(a[i].calls)
            == callee_names(b[i].calls)
}

/// Rows that agree on everything but the resolutions have the same last
/// row and the same calls for every canonical identifier.
pub proof fn lemma_same_by_id(a: Seq<SymbolRowView>, b: Seq<SymbolRowView>, id: Seq<char>)
    requires
        same_but_links(a, b),
    ensures
        last_with_id(a, id) == last_with_id(b, id),
        last_with_id(a, id) matches Some(i) ==> 0 <= i < a.len(),
        calls_of_id(a, id) == calls_of_id(b, id),
    decreases a.len(),
{
    if a.len() > 0 {
        let n = a.len() - 1;
        assert(same_but_calls(a[n], b[n]));
        assert forall|i: int| 0 <= i < n implies same_but_calls(
            #[trigger] a.drop_last()[i],
            b.drop_last()[i],
        ) && callee_names(a.drop_last()[i].calls) == callee_names(b.drop_last()[i].calls) by {
            assert(same_but_calls(a[i], b[i]));
        }
        lemma_same_by_id(a.drop_last(), b.drop_last(), id);
    }
}

/// A snapshot reads nothing of what the call edges are resolved to: states
/// that agree on everything else have the same snapshot.
pub proof fn lemma_snapshot_ignores_links(a: Seq<SymbolRowView>, b: Seq<SymbolRowView>)
    requires
        same_but_links(a, b),
    ensures
        snapshot_of(a) == snapshot_of(b),
{
    assert(row_ids(a) =~= row_ids(b)) by {
        assert forall|i: int| 0 <= i < a.len() implies a[i].canonical_id == b[i].canonical_id by {
            assert(same_but_calls(a[i], b[i]));
        }
    }
    let ids = distinct_in_order(row_ids(a));
    assert forall|k: int| 0 <= k < ids.len() implies snapshot_of(a)[k] == snapshot_of(b)[k] by {
        lemma_same_by_id(a, b, ids[k]);
        crate::text::lemma_distinct_in_order(row_ids(a));
        assert(ids.contains(ids[k]));
        let w = choose|w: int| 0 <= w < row_ids(a).len() && row_ids(a)[w] == ids[k];
        lemma_last_with_id(a, ids[k], w);
        let i = last_with_id(a, ids[k])->0;
        assert(same_but_calls(a[i], b[i]));
    }
    assert(snapshot_of(a) =~= snapshot_of(b));
}

/// The last row with the canonical identifier.
fn find_last_with_id(store: &Store, id: &str) -> (r: Option<usize>)
    ensures
        r matches Some(i) ==> i < store.symbols.len() && last_with_id(store@.symbols, id@) == Some(
            i as int,
        ),
        r is None ==> last_with_id(store@.symbols, id@) is None,
{
    let ghost symbols = store@.symbols;
    let mut k: usize = store.symbols.len();
    assert(symbols.take(k as int) =~= symbols);
    while k > 0
        invariant
            k <= store.symbols.len(),
            symbols == store@.symbols,
            last_with_id(symbols, id@) == last_with_id(symbols.take(k as int), id@),
        decreases k,
    {
        proof {
            assert(symbols.take(k as int).last() == store.symbols@[k - 1]@);
            assert(symbols.take(k as int).drop_last() =~= symbols.take(k - 1));
        }
        k -= 1;
        if same_text(store.symbols[k].canonical_id.as_str(), id) {
            return Some(k);
        }
    }
    None
}

/// The snapshot of the indexed state, exported at the time `timestamp`.
pub fn run_snapshot(store: &Store, timestamp: u64) -> (r: Snapshot)
    ensures
        r@.timestamp == timestamp,
        r@.symbols == snapshot_of(store@.symbols),
        r@.wf(),
{
    let ghost symbols = store@.symbols;
    let mut all_ids: Vec<String> = Vec::new();
    let mut i: usize = 0;
    while i < store.symbols.len()
        invariant
            i <= store.symbols.len(),
            symbols == store@.symbols,
            all_ids.deep_view() == row_ids(symbols).take(i as int),
        decreases store.symbols.len() - i,
    {
        let ghost before = all_ids.deep_view();
        all_ids.push(store.symbols[i].canonical_id.clone());
        assert(all_ids.deep_view() =~= before.push(symbols[i as int].canonical_id));
        i += 1;
        assert(all_ids.deep_view() =~= row_ids(symbols).take(i as int));
    }
    assert(row_ids(symbols).take(store.symbols.len() as int) =~= row_ids(symbols));
    let ids = distinct_strings(&all_ids);
    let ghost keys = ids.deep_view();
    let mut entries: Vec<SnapshotEntry> = Vec::new();
    let mut d: usize = 0;
    while d < ids.len()
        invariant
            d <= ids.len(),
            symbols == store@.symbols,
            keys == ids.deep_view(),
            keys == distinct_in_order(row_ids(symbols)),
            entries.len() == d,
            forall|k: int|
                0 <= k < d ==> (#[trigger] entries.deep_view()[k]) == entry_of(
                    symbols,
                    keys[k],
                    last_with_id(symbols, keys[k])->0,
                ),
        decreases ids.len() - d,
    {
        let id = &ids[d];
        let mut calls: Vec<String> = Vec::new();
        let mut j: usize = 0;
        assert(symbols.take(0) =~= Seq::<SymbolRowView>::empty());
        while j < store.symbols.len()
            invariant
                j <= store.symbols.len(),
                symbols == store@.symbols,
                calls.deep_view() == calls_of_id(symbols.take(j as int), id@),
            decreases store.symbols.len() - j,
        {
            let row = &store.symbols[j];
            proof {
                assert(symbols.take(j + 1).drop_last() =~= symbols.take(j as int));
                assert(symbols.take(j + 1).last() == row@);
            }
            if same_text(row.canonical_id.as_str(), id.as_str()) {
                let ghost base = calls.deep_view();
                let ghost names = callee_names(row@.calls);
                let mut c: usize = 0;
                assert(calls.deep_view() =~= base + names.take(0));
                while c < row.calls.len()
                    invariant
                        c <= row.calls.len(),
                        names == callee_names(row@.calls),
                        calls.deep_view() == base + names.take(c as int),
                    decreases row.calls.len() - c,
                {
                    let ghost before = calls.deep_view();
                    calls.push(row.calls[c].callee_name.clone());
                    proof {
                        assert(calls.deep_view() =~= before.push(names[c as int]));
                        assert(calls.deep_view() =~= base + names.take(c + 1));
                    }
                    c += 1;
                }
                assert(names.take(row.calls.len() as int) =~= names);
            }
            j += 1;
        }
        assert(symbols.take(store.symbols.len() as int) =~= symbols);
        let ghost before = entries.deep_view();
        match find_last_with_id(store, id.as_str()) {
            Some(at) => {
                let row = &store.symbols[at];
                assert(symbols[at as int] == row@);
                let entry = SnapshotEntry {
                    id: id.clone(),
                    symbol: SnapshotSymbol {
                        name: row.name.clone(),
                        qualified_name: row.qualified_name.clone(),
                        file_path: row.file_path.clone(),
                        symbol_type: row.kind,
                        line_start: row.line_start,
                        signature: None,
                        calls,
                    },
                };
                assert(entry@ == entry_of(symbols, keys[d as int], at as int));
                entries.push(entry);
                assert(entries.deep_view() =~= before.push(
                    entry_of(symbols, keys[d as int], at as int),
                ));
            },
            None => {
                proof {
                    crate::text::lemma_distinct_in_order(row_ids(symbols));
                    assert(keys.contains(keys[d as int]));
                    assert(row_ids(symbols).contains(id@));
                    let w = choose|w: int|
                        0 <= w < row_ids(symbols).len() && row_ids(symbols)[w] == id@;
                    lemma_last_with_id(symbols, id@, w);
                }
            },
        }
        d += 1;
    }
    proof {
        crate::text::lemma_distinct_in_order(row_ids(symbols));
        assert(entries.deep_view() =~= snapshot_of(symbols));
        assert(keys_of(entries.deep_view()) =~= keys);
    }
    Snapshot { timestamp, symbols: entries }
}

/// An identifier that some row carries has a last row that carries it.
pub proof fn lemma_last_with_id(symbols: Seq<SymbolRowView>, id: Seq<char>, w: int)
    requires
        0 <= w < symbols.len(),
        symbols[w].canonical_id == id,
    ensures
        last_with_id(symbols, id) is Some,
    decreases symbols.len(),
{
    if symbols.last().canonical_id != id {
        lemma_last_with_id(symbols.drop_last(), id, w);
    }
}

/// The texts of `a` that are not in `b`, each once, in the order of `a`.
pub open spec fn only_in(a: Seq<Seq<char>>, b: Seq<Seq<char>>) -> Seq<Seq<char>>
    decreases a.len(),
{
    if a.len() == 0 {
        a
    } else {
        let before = only_in(a.drop_last(), b);
        if b.contains(a.last()) || before.contains(a.last()) {
            before
        } else {
            before.push(a.last())
        }
    }
}

/// How a symbol differs between two snapshots.
#[derive(Clone, Debug, PartialEq, Eq)]
pub struct DiffDetail {
    pub id: String,
    pub moved: Option<(String, String)>,
    pub type_changed: Option<(SymbolKind, SymbolKind)>,
    pub added_calls: Vec<String>,
    pub removed_calls: Vec<String>,
}

/// What a `DiffDetail` holds, as mathematical values.
pub struct DiffDetailView {
    pub id: Seq<char>,
    pub moved: Option<(Seq<char>, Seq<char>)>,
    pub type_changed: Option<(SymbolKind, SymbolKind)>,
    pub added_calls: Seq<Seq<char>>,
    pub removed_calls: Seq<Seq<char>>,
}

impl View for DiffDetail {
    type V = DiffDetailView;

    open spec fn view(&self) -> DiffDetailView {
        DiffDetailView {
            id: self.id@,
            moved: match self.moved {
                Some(m) => Some((m.0@, m.1@)),
                None => None,
            },
            type_changed: self.type_changed,
            added_calls: self.added_calls.deep_view(),
            removed_calls: self.removed_calls.deep_view(),
        }
    }
}

impl DeepView for DiffDetail {
    type V = DiffDetailView;

    open spec fn deep_view(&self) -> DiffDetailView {
        self@
    }
}

impl DiffDetailView {
    /// The detail records some difference.
    pub open spec fn differs(self) -> bool {
        self.moved is Some || self.type_changed is Some || self.added_calls.len() > 0
            || self.removed_calls.len() > 0
    }
}

/// The difference between two snapshots.
#[derive(Clone, Debug, PartialEq, Eq)]
pub struct DiffResult {
    pub added: Vec<String>,
    pub removed: Vec<String>,
    pub modified: Vec<String>,
    pub details: Vec<DiffDetail>,
}

/// The entry with the canonical identifier, if there is one.
pub open spec fn entry_at(entries: Seq<SnapshotEntryView>, id: Seq<char>, k: int) -> Option<int>
    decreases entries.len() - k,
{
    if k < 0 || k >= entries.len() {
        None
    } else if entries[k].id == id {
        Some(k)
    } else {
        entry_at(entries, id, k + 1)
    }
}

/// The identifiers of `a` that have no entry in `b`, in the order of `a`.
pub open spec fn missing_from(a: Seq<SnapshotEntryView>, b: Seq<SnapshotEntryView>) -> Seq<
    Seq<char>,
>
    decreases a.len(),
{
    if a.len() == 0 {
        Seq::empty()
    } else if entry_at(b, a.last().id, 0) is None {
        missing_from(a.drop_last(), b).push(a.last().id)
    } else {
        missing_from(a.drop_last(), b)
    }
}

/// How the symbol `new` differs from the symbol `old` of the same
/// identifier: by its file, by its kind, and by the calls it makes, taken
/// as sets.
pub open spec fn detail_of(id: Seq<char>, old: SnapshotSymbolView, new: SnapshotSymbolView)
    -> DiffDetailView {
    DiffDetailView {
        id: id,
        moved: if old.file_path != new.file_path {
            Some((old.file_path, new.file_path))
        } else {
            None
        },
        type_changed: if old.symbol_type != new.symbol_type {
            Some((old.symbol_type, new.symbol_type))
        } else {
            None
        },
        added_calls: only_in(new.calls, old.calls),
        removed_calls: only_in(old.calls, new.calls),
    }
}

/// The details of the entries of `target` that `base` holds too and that
/// differ, in the order of `target`.
pub open spec fn changes(base: Seq<SnapshotEntryView>, target: Seq<SnapshotEntryView>) -> Seq<
    DiffDetailView,
>
    decreases target.len(),
{
    if target.len() == 0 {
        Seq::empty()
    } else {
        let before = changes(base, target.drop_last());
        match entry_at(base, target.last().id, 0) {
            Some(i) => {
                let d = detail_of(target.last().id, base[i].symbol, target.last().symbol);
                if d.differs() {
                    before.push(d)
                } else {
                    before
                }
            },
            None => before,
        }
    }
}

/// The identifier of each detail.
pub open spec fn detail_ids(details: Seq<DiffDetailView>) -> Seq<Seq<char>> {
    Seq::new(details.len(), |i: int| details[i].id)
}

/// The strings of `a` that are not in `b`, each once, in the order of `a`.
pub fn strings_only_in(a: &Vec<String>, b: &Vec<String>) -> (r: Vec<String>)
    ensures
        r.deep_view() == only_in(a.deep_view(), b.deep_view()),
{
    let ghost all = a.deep_view();
    let mut out: Vec<String> = Vec::new();
    let mut i: usize = 0;
    assert(all.take(0) =~= Seq::<Seq<char>>::empty());
    while i < a.len()
        invariant
            i <= a.len(),
            all == a.deep_view(),
            out.deep_view() == only_in(all.take(i as int), b.deep_view()),
        decreases a.len() - i,
    {
        let ghost before = out.deep_view();
        proof {
            assert(all.take(i + 1).drop_last() =~= all.take(i as int));
            assert(all.take(i + 1).last() == a@[i as int]@);
        }
        if !contains_string(b, a[i].as_str()) && !contains_string(&out, a[i].as_str()) {
            out.push(a[i].clone());
            assert(out.deep_view() =~= before.push(a@[i as int]@));
        }
        i += 1;
    }
    assert(all.take(a.len() as int) =~= all);
    out
}

/// The index of the entry with the canonical identifier.
fn find_entry(entries: &Vec<SnapshotEntry>, id: &str) -> (r: Option<usize>)
    ensures
        r matches Some(i) ==> i < entries.len() && entry_at(entries.deep_view(), id@, 0) == Some(
            i as int,
        ),
        r is None ==> entry_at(entries.deep_view(), id@, 0) is None,
{
    let ghost all = entries.deep_view();
    let mut i: usize = 0;
    while i < entries.len()
        invariant
            i <= entries.len(),
            all == entries.deep_view(),
            entry_at(all, id@, 0) == entry_at(all, id@, i as int),
        decreases entries.len() - i,
    {
        assert(all[i as int] == entries@[i as int]@);
        if same_text(entries[i].id.as_str(), id) {
            return Some(i);
        }
        i += 1;
    }
    None
}

/// The identifiers of `a` that have no entry in `b`.
fn ids_missing_from(a: &Vec<SnapshotEntry>, b: &Vec<SnapshotEntry>) -> (r: Vec<String>)
    ensures
        r.deep_view() == missing_from(a.deep_view(), b.deep_view()),
{
    let ghost all = a.deep_view();
    let mut out: Vec<String> = Vec::new();
    let mut i: usize = 0;
    assert(all.take(0) =~= Seq::<SnapshotEntryView>::empty());
    while i < a.len()
        invariant
            i <= a.len(),
            all == a.deep_view(),
            out.deep_view() == missing_from(all.take(i as int), b.deep_view()),
        decreases a.len() - i,
    {
        let ghost before = out.deep_view();
        proof {
            assert(all.take(i + 1).drop_last() =~= all.take(i as int));
            assert(all.take(i + 1).last() == a@[i as int]@);
        }
        if find_entry(b, a[i].id.as_str()).is_none() {
            out.push(a[i].id.clone());
            assert(out.deep_view() =~= before.push(a@[i as int]@.id));
        }
        i += 1;
    }
    assert(all.take(a.len() as int) =~= all);
    out
}

/// The difference between two snapshots. A symbol that only the base holds
/// is removed; one that only the target holds is added; one that both hold
/// is modified where its file, its kind or the set of its calls differs,
/// and the details say how.
pub fn run_diff(base: &Snapshot, target: &Snapshot) -> (r: DiffResult)
    ensures
        r.removed.deep_view() == missing_from(base@.symbols, target@.symbols),
        r.added.deep_view() == missing_from(target@.symbols, base@.symbols),
        r.details.deep_view() == changes(base@.symbols, target@.symbols),
        r.modified.deep_view() == detail_ids(r.details.deep_view()),
{
    let removed = ids_missing_from(&base.symbols, &target.symbols);
    let added = ids_missing_from(&target.symbols, &base.symbols);
    let ghost b = base@.symbols;
    let ghost t = target@.symbols;
    let mut modified: Vec<String> = Vec::new();
    let mut details: Vec<DiffDetail> = Vec::new();
    let mut i: usize = 0;
    assert(t.take(0) =~= Seq::<SnapshotEntryView>::empty());
    assert(modified.deep_view() =~= detail_ids(details.deep_view()));
    while i < target.symbols.len()
        invariant
            i <= target.symbols.len(),
            b == base@.symbols,
            t == target@.symbols,
            details.deep_view() == changes(b, t.take(i as int)),
            modified.deep_view() == detail_ids(details.deep_view()),
        decreases target.symbols.len() - i,
    {
        let entry = &target.symbols[i];
        let ghost before = details.deep_view();
        let ghost before_ids = modified.deep_view();
        proof {
            assert(t.take(i + 1).drop_last() =~= t.take(i as int));
            assert(t.take(i + 1).last() == entry@);
        }
        match find_entry(&base.symbols, entry.id.as_str()) {
            Some(k) => {
                let old = &base.symbols[k].symbol;
                let new = &entry.symbol;
                assert(b[k as int].symbol == old@);
                let moved = if !same_text(old.file_path.as_str(), new.file_path.as_str()) {
                    Some((old.file_path.clone(), new.file_path.clone()))
                } else {
                    None
                };
                let type_changed = if old.symbol_type != new.symbol_type {
                    Some((old.symbol_type, new.symbol_type))
                } else {
                    None
                };
                let added_calls = strings_only_in(&new.calls, &old.calls);
                let removed_calls = strings_only_in(&old.calls, &new.calls);
                let differs = moved.is_some() || type_changed.is_some() || added_calls.len() > 0
                    || removed_calls.len() > 0;
                if differs {
                    let detail = DiffDetail {
                        id: entry.id.clone(),
                        moved,
                        type_changed,
                        added_calls,
                        removed_calls,
                    };
                    assert(detail@ == detail_of(entry@.id, old@, new@));
                    details.push(detail);
                    modified.push(entry.id.clone());
                    proof {
                        assert(details.deep_view() =~= before.push(
                            detail_of(entry@.id, old@, new@),
                        ));
                        assert(modified.deep_view() =~= before_ids.push(entry@.id));
                        assert(modified.deep_view() =~= detail_ids(details.deep_view()));
                    }
                }
            },
            None => {},
        }
        i += 1;
    }
    assert(t.take(target.symbols.len() as int) =~= t);
    DiffResult { added, removed, modified, details }
}

/// No text of a sequence is missing from the sequence itself.
pub proof fn lemma_only_in_self(a: Seq<Seq<char>>, b: Seq<Seq<char>>)
    requires
        forall|i: int| 0 <= i < a.len() ==> b.contains(#[trigger] a[i]),
    ensures
        only_in(a, b).len() == 0,
    decreases a.len(),
{
    if a.len() > 0 {
        assert(b.contains(a[a.len() - 1]));
        assert forall|i: int| 0 <= i < a.drop_last().len() implies b.contains(
            #[trigger] a.drop_last()[i],
        ) by {
            assert(a.drop_last()[i] == a[i]);
        }
        lemma_only_in_self(a.drop_last(), b);
    }
}

/// The entry of an identifier is found where an entry carries it, and it is
/// the first that does.
pub proof fn lemma_entry_at(entries: Seq<SnapshotEntryView>, id: Seq<char>, k: int, w: int)
    requires
        0 <= k <= w < entries.len(),
        entries[w].id == id,
    ensures
        entry_at(entries, id, k) matches Some(i) && k <= i <= w && entries[i].id == id,
    decreases entries.len() - k,
{
    if entries[k].id != id {
        lemma_entry_at(entries, id, k + 1, w);
    }
}

/// A snapshot does not differ from itself: nothing is added, removed or
/// modified.
pub proof fn lemma_diff_self(s: SnapshotView)
    requires
        s.wf(),
    ensures
        missing_from(s.symbols, s.symbols).len() == 0,
        changes(s.symbols, s.symbols).len() == 0,
{
    lemma_diff_prefix(s.symbols, s.symbols.len() as int);
    assert(s.symbols.take(s.symbols.len() as int) =~= s.symbols);
}

/// Against a snapshot, none of its leading entries is added, removed or
/// modified.
pub proof fn lemma_diff_prefix(entries: Seq<SnapshotEntryView>, n: int)
    requires
        keys_of(entries).no_duplicates(),
        0 <= n <= entries.len(),
    ensures
        missing_from(entries.take(n), entries).len() == 0,
        changes(entries, entries.take(n)).len() == 0,
    decreases n,
{
    if n > 0 {
        lemma_diff_prefix(entries, n - 1);
        let head = entries.take(n);
        assert(head.drop_last() =~= entries.take(n - 1));
        let e = head.last();
        assert(e == entries[n - 1]);
        lemma_entry_at(entries, e.id, 0, n - 1);
        let i = entry_at(entries, e.id, 0)->0;
        assert(keys_of(entries)[i] == e.id);
        assert(keys_of(entries)[n - 1] == e.id);
        assert(i == n - 1);
        let calls = e.symbol.calls;
        assert forall|j: int| 0 <= j < calls.len() implies calls.contains(#[trigger] calls[j]) by {}
        lemma_only_in_self(calls, calls);
    }
}

/// The text that `{:?}` gives for a list of strings.
pub uninterp spec fn debug_text(items: Seq<Seq<char>>) -> Seq<char>;

/// The `Debug` form of a vector of strings, as std's `format!` gives it for
/// `{:?}`.
#[verifier::external_body]
fn debug_list(items: &Vec<String>) -> (r: String)
    ensures
        r@ == debug_text(items.deep_view()),
{
    format!("{:?}", items)
}

/// The name of a kind in messages.
pub open spec fn kind_name(kind: SymbolKind) -> Seq<char> {
    match kind {
        SymbolKind::Function => "function"@,
        SymbolKind::Class => "class"@,
    }
}

/// The parts of the message of a detail: one for each way in which the
/// symbol differs.
pub open spec fn message_parts(d: DiffDetailView) -> Seq<Seq<char>> {
    let moved = match d.moved {
        Some(m) => seq!["Moved from "@ + m.0 + " to "@ + m.1],
        None => Seq::empty(),
    };
    let kind = match d.type_changed {
        Some(t) => seq!["Type changed: "@ + kind_name(t.0) + " -> "@ + kind_name(t.1)],
        None => Seq::empty(),
    };
    let added = if d.added_calls.len() > 0 {
        seq!["Added calls: "@ + debug_text(d.added_calls)]
    } else {
        Seq::empty()
    };
    let removed = if d.removed_calls.len() > 0 {
        seq!["Removed calls: "@ + debug_text(d.removed_calls)]
    } else {
        Seq::empty()
    };
    moved + kind + added + removed
}

impl DiffDetail {
    /// The message of the detail: its parts, joined by `; `.
    pub fn diff_msg(&self) -> (r: String)
        ensures
            r@ == join(message_parts(self@), "; "@),
    {
        let mut parts: Vec<String> = Vec::new();
        match &self.moved {
            Some(m) => {
                let mut s = String::from_str("Moved from ");
                s.append(m.0.as_str());
                s.append(" to ");
                s.append(m.1.as_str());
                parts.push(s);
            },
            None => {},
        }
        let ghost after_moved = parts.deep_view();
        match self.type_changed {
            Some(t) => {
                let mut s = String::from_str("Type changed: ");
                s.append(t.0.name());
                s.append(" -> ");
                s.append(t.1.name());
                parts.push(s);
            },
            None => {},
        }
        let ghost after_kind = parts.deep_view();
        if self.added_calls.len() > 0 {
            let mut s = String::from_str("Added calls: ");
            let list = debug_list(&self.added_calls);
            s.append(list.as_str());
            parts.push(s);
        }
        let ghost after_added = parts.deep_view();
        if self.removed_calls.len() > 0 {
            let mut s = String::from_str("Removed calls: ");
            let list = debug_list(&self.removed_calls);
            s.append(list.as_str());
            parts.push(s);
        }
        assert(parts.deep_view() =~= message_parts(self@));
        join_strings(&parts, "; ")
    }
}

} // verus!
