//! The indexed state: file rows and symbol rows, each symbol with the call
//! edges observed in its body. Symbols are kept in insertion order, which is
//! the order of their row ids; a symbol refers to its file by the file's
//! path, the unique key of file rows.

use vstd::prelude::*;
use vstd::string::*;
use crate::model::{
    canonical_id, make_canonical_id, scope_ends_with_name, IndexLevel, ParseResult,
    ParseResultView, ParseStatus, PendingCallView, PendingSymbol, PendingSymbolView,
    SymbolKind,
};

verus! {

/// A call edge: a call site inside a symbol's body. `callee_id` is the
/// canonical identifier that linking resolved the name to, if any.
#[derive(Clone, Debug, PartialEq, Eq)]
pub struct CallRow {
    pub callee_name: String,
    pub call_line: usize,
    pub callee_id: Option<String>,
}

/// What a `CallRow` holds, as mathematical values.
pub struct CallRowView {
    pub callee_name: Seq<char>,
    pub call_line: usize,
    pub callee_id: Option<Seq<char>>,
}

impl View for CallRow {
    type V = CallRowView;

    open spec fn view(&self) -> CallRowView {
        CallRowView {
            callee_name: self.callee_name@,
            call_line: self.call_line,
            callee_id: self.callee_id.deep_view(),
        }
    }
}

impl DeepView for CallRow {
    type V = CallRowView;

    open spec fn deep_view(&self) -> CallRowView {
        self@
    }
}

/// A symbol row, with the call edges of which it is the caller.
#[derive(Clone, Debug, PartialEq, Eq)]
pub struct SymbolRow {
    pub file_path: String,
    pub name: String,
    pub qualified_name: String,
    pub canonical_id: String,
    pub scope_path: String,
    pub kind: SymbolKind,
    pub line_start: usize,
    pub line_end: usize,
    pub signature: Option<String>,
    pub parent_id: Option<String>,
    pub calls: Vec<CallRow>,
}

/// What a `SymbolRow` holds, as mathematical values.
pub struct SymbolRowView {
    pub file_path: Seq<char>,
    pub name: Seq<char>,
    pub qualified_name: Seq<char>,
    pub canonical_id: Seq<char>,
    pub scope_path: Seq<char>,
    pub kind: SymbolKind,
    pub line_start: usize,
    pub line_end: usize,
    pub signature: Option<Seq<char>>,
    pub parent_id: Option<Seq<char>>,
    pub calls: Seq<CallRowView>,
}

impl SymbolRowView {
    /// The row's own invariants: its canonical identifier is the one that
    /// its kind, file path and name determine; its lines are one-based and
    /// ordered; its qualified name is its scope path, which ends with its
    /// name.
    pub open spec fn wf(self) -> bool {
        &&& self.canonical_id == canonical_id(self.kind, self.file_path, self.name)
        &&& 1 <= self.line_start <= self.line_end
        &&& self.qualified_name == self.scope_path
        &&& scope_ends_with_name(self.scope_path, self.name)
    }
}

impl View for SymbolRow {
    type V = SymbolRowView;

    open spec fn view(&self) -> SymbolRowView {
        SymbolRowView {
            file_path: self.file_path@,
            name: self.name@,
            qualified_name: self.qualified_name@,
            canonical_id: self.canonical_id@,
            scope_path: self.scope_path@,
            kind: self.kind,
            line_start: self.line_start,
            line_end: self.line_end,
            signature: self.signature.deep_view(),
            parent_id: self.parent_id.deep_view(),
            calls: self.calls.deep_view(),
        }
    }
}

impl DeepView for SymbolRow {
    type V = SymbolRowView;

    open spec fn deep_view(&self) -> SymbolRowView {
        self@
    }
}

/// A file row.
#[derive(Clone, Debug, PartialEq, Eq)]
pub struct FileRow {
    pub file_path: String,
    pub file_hash: String,
    pub file_size: u64,
    pub file_mtime: i64,
    pub language: String,
    pub line_count: usize,
    pub index_level: IndexLevel,
    pub indexed_at: u64,
    pub updated_at: u64,
}

/// What a `FileRow` holds, as mathematical values.
pub struct FileRowView {
    pub file_path: Seq<char>,
    pub file_hash: Seq<char>,
    pub file_size: u64,
    pub file_mtime: i64,
    pub language: Seq<char>,
    pub line_count: usize,
    pub index_level: IndexLevel,
    pub indexed_at: u64,
    pub updated_at: u64,
}

impl View for FileRow {
    type V = FileRowView;

    open spec fn view(&self) -> FileRowView {
        FileRowView {
            file_path: self.file_path@,
            file_hash: self.file_hash@,
            file_size: self.file_size,
            file_mtime: self.file_mtime,
            language: self.language@,
            line_count: self.line_count,
            index_level: self.index_level,
            indexed_at: self.indexed_at,
            updated_at: self.updated_at,
        }
    }
}

impl DeepView for FileRow {
    type V = FileRowView;

    open spec fn deep_view(&self) -> FileRowView {
        self@
    }
}

/// The indexed state.
#[derive(Clone, Debug, PartialEq, Eq)]
pub struct Store {
    pub files: Vec<FileRow>,
    pub symbols: Vec<SymbolRow>,
}

/// What a `Store` holds, as mathematical values.
pub struct StoreView {
    pub files: Seq<FileRowView>,
    pub symbols: Seq<SymbolRowView>,
}

impl View for Store {
    type V = StoreView;

    open spec fn view(&self) -> StoreView {
        StoreView { files: self.files.deep_view(), symbols: self.symbols.deep_view() }
    }
}

/// Some file row has this path.
pub open spec fn has_path(files: Seq<FileRowView>, path: Seq<char>) -> bool {
    exists|i: int| 0 <= i < files.len() && (#[trigger] files[i]).file_path == path
}

/// Some file row has this path and is indexed at the symbol level.
pub open spec fn has_symbol_file(files: Seq<FileRowView>, path: Seq<char>) -> bool {
    exists|i: int|
        0 <= i < files.len() && (#[trigger] files[i]).file_path == path && files[i].index_level
            == IndexLevel::Symbol
}

/// The index of a file row with this path.
pub open spec fn index_of_path(files: Seq<FileRowView>, path: Seq<char>) -> int {
    choose|i: int| 0 <= i < files.len() && (#[trigger] files[i]).file_path == path
}

/// No two file rows have the same path.
pub open spec fn distinct_paths(files: Seq<FileRowView>) -> bool {
    forall|i: int, j: int|
        0 <= i < j < files.len() ==> (#[trigger] files[i]).file_path != (
        #[trigger] files[j]).file_path
}

impl StoreView {
    /// The invariants of the indexed state: file paths are unique; every
    /// symbol row is well formed and belongs to a file row that is indexed
    /// at the symbol level.
    pub open spec fn wf(self) -> bool {
        &&& distinct_paths(self.files)
        &&& forall|i: int|
            0 <= i < self.symbols.len() ==> (#[trigger] self.symbols[i]).wf() && has_symbol_file(
                self.files,
                self.symbols[i].file_path,
            )
    }
}

/// The file row that a parse result gives rise to at the time `now`.
pub open spec fn file_row_of(r: ParseResultView, now: u64) -> FileRowView {
    FileRowView {
        file_path: r.file_path,
        file_hash: r.file_hash,
        file_size: r.file_size,
        file_mtime: r.file_mtime,
        language: r.language,
        line_count: r.line_count,
        index_level: r.index_level,
        indexed_at: if r.index_level == IndexLevel::Symbol {
            now
        } else {
            0
        },
        updated_at: now,
    }
}

/// The file rows after an upsert: the row with the same path is replaced
/// where there is one, and the new row comes last where there is none.
pub open spec fn upserted(files: Seq<FileRowView>, row: FileRowView) -> Seq<FileRowView> {
    if has_path(files, row.file_path) {
        files.update(index_of_path(files, row.file_path), row)
    } else {
        files.push(row)
    }
}

/// The symbol rows that do not belong to the file `path`, in order.
pub open spec fn without_file(symbols: Seq<SymbolRowView>, path: Seq<char>) -> Seq<SymbolRowView>
    decreases symbols.len(),
{
    if symbols.len() == 0 {
        symbols
    } else if symbols.last().file_path != path {
        without_file(symbols.drop_last(), path).push(symbols.last())
    } else {
        without_file(symbols.drop_last(), path)
    }
}

/// The symbol rows that belong to the file `path`, in order.
pub open spec fn of_file(symbols: Seq<SymbolRowView>, path: Seq<char>) -> Seq<SymbolRowView>
    decreases symbols.len(),
{
    if symbols.len() == 0 {
        symbols
    } else if symbols.last().file_path == path {
        of_file(symbols.drop_last(), path).push(symbols.last())
    } else {
        of_file(symbols.drop_last(), path)
    }
}

/// The rows of a file are those it has among the first rows, and then
/// those it has among the others.
pub proof fn lemma_of_file_joined(a: Seq<SymbolRowView>, b: Seq<SymbolRowView>, path: Seq<char>)
    ensures
        of_file(a + b, path) == of_file(a, path) + of_file(b, path),
    decreases b.len(),
{
    if b.len() == 0 {
        assert(a + b =~= a);
        assert(of_file(a, path) + of_file(b, path) =~= of_file(a, path));
    } else {
        lemma_of_file_joined(a, b.drop_last(), path);
        assert((a + b).drop_last() =~= a + b.drop_last());
        assert((a + b).last() == b.last());
        assert(of_file(a + b, path) =~= of_file(a, path) + of_file(b, path));
    }
}

/// A file has no rows where no row belongs to it.
pub proof fn lemma_of_file_none(symbols: Seq<SymbolRowView>, path: Seq<char>)
    requires
        forall|i: int| 0 <= i < symbols.len() ==> (#[trigger] symbols[i]).file_path != path,
    ensures
        of_file(symbols, path) == Seq::<SymbolRowView>::empty(),
    decreases symbols.len(),
{
    if symbols.len() > 0 {
        assert forall|i: int| 0 <= i < symbols.drop_last().len() implies (
        #[trigger] symbols.drop_last()[i]).file_path != path by {
            assert(symbols.drop_last()[i] == symbols[i]);
        }
        lemma_of_file_none(symbols.drop_last(), path);
        assert(symbols[symbols.len() - 1].file_path != path);
    }
}

/// Taking out the rows of one file leaves the rows of every other file as
/// they are.
pub proof fn lemma_of_file_without(symbols: Seq<SymbolRowView>, path: Seq<char>, other: Seq<char>)
    requires
        path != other,
    ensures
        of_file(without_file(symbols, other), path) == of_file(symbols, path),
    decreases symbols.len(),
{
    if symbols.len() > 0 {
        lemma_of_file_without(symbols.drop_last(), path, other);
        if symbols.last().file_path != other {
            let kept = without_file(symbols.drop_last(), other).push(symbols.last());
            assert(kept.drop_last() =~= without_file(symbols.drop_last(), other));
            assert(kept.last() == symbols.last());
        }
    }
}

/// Persisting a result for one file leaves the rows of every other file as
/// they are.
pub proof fn lemma_persisted_elsewhere(s: StoreView, r: ParseResultView, now: u64, path: Seq<char>)
    requires
        r.file_path != path,
    ensures
        of_file(persisted(s, r, now).symbols, path) == of_file(s.symbols, path),
{
    if r.status != ParseStatus::Skipped {
        let kept = without_file(s.symbols, r.file_path);
        lemma_of_file_without(s.symbols, path, r.file_path);
        if r.index_level != IndexLevel::Meta {
            lemma_of_file_joined(kept, rows_for(r), path);
            lemma_of_file_none(rows_for(r), path);
            assert(of_file(kept, path) + Seq::<SymbolRowView>::empty() =~= of_file(kept, path));
        }
    }
}

/// The pending symbol that a temporary id stands for: the last one that
/// carries it.
pub open spec fn owner_of(symbols: Seq<PendingSymbolView>, tid: usize) -> Option<int>
    decreases symbols.len(),
{
    if symbols.len() == 0 {
        None
    } else if symbols.last().temp_id == tid {
        Some(symbols.len() - 1)
    } else {
        owner_of(symbols.drop_last(), tid)
    }
}

/// The call edge that a pending call becomes: not yet resolved.
pub open spec fn call_row_of(c: PendingCallView) -> CallRowView {
    CallRowView { callee_name: c.callee_name, call_line: c.line, callee_id: None }
}

/// The call edges of the pending symbol `k`: those pending calls, in order,
/// whose caller id stands for it.
pub open spec fn calls_for(
    calls: Seq<PendingCallView>,
    symbols: Seq<PendingSymbolView>,
    k: int,
) -> Seq<CallRowView>
    decreases calls.len(),
{
    if calls.len() == 0 {
        Seq::empty()
    } else {
        let rest = calls_for(calls.drop_last(), symbols, k);
        if owner_of(symbols, calls.last().caller_temp_id) == Some(k) {
            rest.push(call_row_of(calls.last()))
        } else {
            rest
        }
    }
}

/// The canonical identifier of the parent of a pending symbol, where its
/// parent id stands for a pending symbol of the same file.
pub open spec fn parent_id_for(path: Seq<char>, symbols: Seq<PendingSymbolView>, k: int) -> Option<
    Seq<char>,
> {
    match symbols[k].parent_temp_id {
        Some(t) => match owner_of(symbols, t) {
            Some(j) => Some(canonical_id(symbols[j].kind, path, symbols[j].name)),
            None => None,
        },
        None => None,
    }
}

/// The symbol row that the pending symbol `k` of a file becomes, with the
/// given call edges.
pub open spec fn row_with(
    path: Seq<char>,
    symbols: Seq<PendingSymbolView>,
    k: int,
    calls: Seq<CallRowView>,
) -> SymbolRowView {
    let s = symbols[k];
    SymbolRowView {
        file_path: path,
        name: s.name,
        qualified_name: s.qualified_name,
        canonical_id: canonical_id(s.kind, path, s.name),
        scope_path: s.scope_path,
        kind: s.kind,
        line_start: s.line_start,
        line_end: s.line_end,
        signature: s.signature,
        parent_id: parent_id_for(path, symbols, k),
        calls: calls,
    }
}

/// The symbol rows that a parse result inserts, in the order of its pending
/// symbols.
pub open spec fn rows_for(r: ParseResultView) -> Seq<SymbolRowView> {
    Seq::new(
        r.symbols.len(),
        |k: int| row_with(r.file_path, r.symbols, k, calls_for(r.calls, r.symbols, k)),
    )
}

/// The state after one parse result is persisted at the time `now`. A
/// skipped file changes nothing. Otherwise the file row is upserted and the
/// file's former symbols go, their call edges with them; a parsed file then
/// gets its new symbols and call edges, a meta file none.
pub open spec fn persisted(s: StoreView, r: ParseResultView, now: u64) -> StoreView {
    if r.status == ParseStatus::Skipped {
        s
    } else {
        let kept = without_file(s.symbols, r.file_path);
        StoreView {
            files: upserted(s.files, file_row_of(r, now)),
            symbols: if r.index_level == IndexLevel::Meta {
                kept
            } else {
                kept + rows_for(r)
            },
        }
    }
}

/// Every row of `without_file` is a row of the input that belongs to
/// another file.
pub proof fn lemma_without_file(symbols: Seq<SymbolRowView>, path: Seq<char>)
    ensures
        forall|i: int|
            0 <= i < without_file(symbols, path).len() ==> symbols.contains(
                #[trigger] without_file(symbols, path)[i],
            ) && without_file(symbols, path)[i].file_path != path,
    decreases symbols.len(),
{
    if symbols.len() > 0 {
        lemma_without_file(symbols.drop_last(), path);
        let rest = without_file(symbols.drop_last(), path);
        assert forall|i: int| 0 <= i < without_file(symbols, path).len() implies symbols.contains(
            #[trigger] without_file(symbols, path)[i],
        ) && without_file(symbols, path)[i].file_path != path by {
            if i < rest.len() {
                let x = rest[i];
                assert(symbols.drop_last().contains(x));
                let j = choose|j: int| 0 <= j < symbols.drop_last().len() && symbols.drop_last()[j] == x;
                assert(symbols[j] == x);
            } else {
                assert(symbols[symbols.len() - 1] == symbols.last());
            }
        }
    }
}

/// Persisting a well-formed parse result keeps the state well formed: file
/// paths stay unique, every symbol row still belongs to a file row at the
/// symbol level, carries the canonical identifier of its kind, path and
/// name, and has ordered one-based lines.
pub proof fn lemma_persisted_wf(s: StoreView, r: ParseResultView, now: u64)
    requires
        s.wf(),
        r.wf(),
    ensures
        persisted(s, r, now).wf(),
{
    if r.status != ParseStatus::Skipped {
        let row = file_row_of(r, now);
        let files = upserted(s.files, row);
        let kept = without_file(s.symbols, r.file_path);
        let after = persisted(s, r, now);
        lemma_without_file(s.symbols, r.file_path);
        let at = if has_path(s.files, r.file_path) {
            index_of_path(s.files, r.file_path)
        } else {
            s.files.len() as int
        };
        assert(files[at] == row);
        assert(distinct_paths(files));
        assert forall|i: int| 0 <= i < after.symbols.len() implies (#[trigger] after.symbols[i]).wf()
            && has_symbol_file(files, after.symbols[i].file_path) by {
            if i < kept.len() {
                let x = kept[i];
                assert(s.symbols.contains(x));
                let j = choose|j: int| 0 <= j < s.symbols.len() && s.symbols[j] == x;
                assert(s.symbols[j].wf());
                let f = choose|f: int|
                    0 <= f < s.files.len() && (#[trigger] s.files[f]).file_path == x.file_path
                        && s.files[f].index_level == IndexLevel::Symbol;
                assert(files[f] == s.files[f]);
            } else {
                let k = i - kept.len();
                assert(after.symbols[i] == rows_for(r)[k]);
                assert(r.symbols[k].wf());
                assert(files[at].index_level == IndexLevel::Symbol);
            }
        }
    }
}

impl CallRow {
    /// A copy of the call edge.
    pub fn duplicate(&self) -> (r: CallRow)
        ensures
            r@ == self@,
    {
        CallRow {
            callee_name: self.callee_name.clone(),
            call_line: self.call_line,
            callee_id: self.callee_id.clone(),
        }
    }
}

impl SymbolRow {
    /// A copy of the symbol row, with its call edges.
    pub fn duplicate(&self) -> (r: SymbolRow)
        ensures
            r@ == self@,
    {
        let mut calls: Vec<CallRow> = Vec::new();
        let mut j: usize = 0;
        assert(calls.deep_view() =~= self.calls.deep_view().take(0));
        while j < self.calls.len()
            invariant
                j <= self.calls.len(),
                calls.deep_view() == self.calls.deep_view().take(j as int),
            decreases self.calls.len() - j,
        {
            let ghost so_far = calls.deep_view();
            let call = self.calls[j].duplicate();
            calls.push(call);
            assert(calls.deep_view() =~= so_far.push(self.calls[j as int]@));
            assert(so_far.push(self.calls[j as int]@) =~= self.calls.deep_view().take(j + 1));
            j += 1;
        }
        assert(self.calls.deep_view().take(self.calls.len() as int) =~= self.calls.deep_view());
        SymbolRow {
            file_path: self.file_path.clone(),
            name: self.name.clone(),
            qualified_name: self.qualified_name.clone(),
            canonical_id: self.canonical_id.clone(),
            scope_path: self.scope_path.clone(),
            kind: self.kind,
            line_start: self.line_start,
            line_end: self.line_end,
            signature: self.signature.clone(),
            parent_id: self.parent_id.clone(),
            calls,
        }
    }
}

impl FileRow {
    /// A copy of the file row.
    pub fn duplicate(&self) -> (r: FileRow)
        ensures
            r@ == self@,
    {
        FileRow {
            file_path: self.file_path.clone(),
            file_hash: self.file_hash.clone(),
            file_size: self.file_size,
            file_mtime: self.file_mtime,
            language: self.language.clone(),
            line_count: self.line_count,
            index_level: self.index_level,
            indexed_at: self.indexed_at,
            updated_at: self.updated_at,
        }
    }
}

/// The index of the last pending symbol that carries the temporary id.
pub fn find_owner(symbols: &Vec<PendingSymbol>, tid: usize) -> (r: Option<usize>)
    ensures
        r matches Some(k) ==> k < symbols.len() && owner_of(symbols.deep_view(), tid) == Some(
            k as int,
        ),
        r is None ==> owner_of(symbols.deep_view(), tid) is None,
{
    let ghost all = symbols.deep_view();
    let mut k: usize = symbols.len();
    assert(all.take(k as int) =~= all);
    while k > 0
        invariant
            k <= symbols.len(),
            all == symbols.deep_view(),
            owner_of(all, tid) == owner_of(all.take(k as int), tid),
        decreases k,
    {
        proof {
            assert(all.take(k as int).last() == symbols@[k - 1]@);
            assert(all.take(k as int).drop_last() =~= all.take(k - 1));
        }
        k -= 1;
        if symbols[k].temp_id == tid {
            return Some(k);
        }
    }
    None
}

impl Store {
    /// The empty state.
    pub fn new() -> (s: Store)
        ensures
            s@.files.len() == 0,
            s@.symbols.len() == 0,
            s@.wf(),
    {
        Store { files: Vec::new(), symbols: Vec::new() }
    }

    /// The index of the file row with this path.
    pub fn find_file(&self, path: &str) -> (r: Option<usize>)
        ensures
            r matches Some(i) ==> i < self.files.len() && self@.files[i as int].file_path == path@,
            r is None ==> !has_path(self@.files, path@),
            r is Some <==> has_path(self@.files, path@),
    {
        let mut i: usize = 0;
        while i < self.files.len()
            invariant
                i <= self.files.len(),
                forall|k: int| 0 <= k < i ==> (#[trigger] self@.files[k]).file_path != path@,
            decreases self.files.len() - i,
        {
            if crate::text::same_text(self.files[i].file_path.as_str(), path) {
                assert(self@.files[i as int].file_path == path@);
                return Some(i);
            }
            i += 1;
        }
        None
    }

    /// Persists one parse result at the time `now`.
    pub fn persist(&mut self, r: &ParseResult, now: u64)
        requires
            old(self)@.wf(),
            r@.wf(),
        ensures
            final(self)@ == persisted(old(self)@, r@, now),
            final(self)@.wf(),
    {
        proof {
            lemma_persisted_wf(self@, r@, now);
        }
        match r.status {
            ParseStatus::Skipped => {
                return ;
            },
            _ => {},
        }
        let ghost before = self@;
        let row = FileRow {
            file_path: r.file_path.clone(),
            file_hash: r.file_hash.clone(),
            file_size: r.file_size,
            file_mtime: r.file_mtime,
            language: r.language.clone(),
            line_count: r.line_count,
            index_level: r.index_level,
            indexed_at: match r.index_level {
                IndexLevel::Symbol => now,
                IndexLevel::Meta => 0,
            },
            updated_at: now,
        };
        assert(row@ == file_row_of(r@, now));
        match self.find_file(r.file_path.as_str()) {
            Some(i) => {
                proof {
                    let c = index_of_path(before.files, r@.file_path);
                    assert(before.files[c].file_path == before.files[i as int].file_path);
                    assert(c == i);
                }
                self.files[i] = row;
                assert(self.files.deep_view() =~= before.files.update(i as int, row@));
            },
            None => {
                self.files.push(row);
                assert(self.files.deep_view() =~= before.files.push(row@));
            },
        }
        assert(self.files.deep_view() == upserted(before.files, file_row_of(r@, now)));
        let mut former: Vec<SymbolRow> = Vec::new();
        std::mem::swap(&mut former, &mut self.symbols);
        let mut kept = rows_without_file(former, r.file_path.as_str());
        match r.index_level {
            IndexLevel::Meta => {},
            IndexLevel::Symbol => {
                let mut fresh = rows_of(r);
                let ghost kept_view = kept.deep_view();
                let ghost fresh_view = fresh.deep_view();
                kept.append(&mut fresh);
                assert(kept.deep_view() =~= kept_view + fresh_view);
            },
        }
        self.symbols = kept;
    }
}

/// The rows that do not belong to the file `path`, in order.
pub fn rows_without_file(rows: Vec<SymbolRow>, path: &str) -> (out: Vec<SymbolRow>)
    ensures
        out.deep_view() == without_file(rows.deep_view(), path@),
{
    let mut out: Vec<SymbolRow> = Vec::new();
    let ghost all = rows.deep_view();
    assert(all.take(0) =~= Seq::<SymbolRowView>::empty());
    for row in it: rows
        invariant
            it.seq().len() == all.len(),
            forall|k: int| 0 <= k < all.len() ==> all[k] == (#[trigger] it.seq()[k])@,
            out.deep_view() == without_file(all.take(it.index() as int), path@),
    {
        let ghost before = out.deep_view();
        let ghost i = it.index() as int;
        proof {
            assert(all.take(i + 1).drop_last() =~= all.take(i));
            assert(all.take(i + 1).last() == row@);
        }
        if !crate::text::same_text(row.file_path.as_str(), path) {
            out.push(row);
            assert(out.deep_view() =~= before.push(all[i]));
        }
    }
    assert(all.take(all.len() as int) =~= all);
    out
}

/// The symbol rows that a parse result inserts.
pub fn rows_of(r: &ParseResult) -> (out: Vec<SymbolRow>)
    ensures
        out.deep_view() == rows_for(r@),
{
    let ghost path = r@.file_path;
    let ghost symbols = r@.symbols;
    let ghost calls = r@.calls;
    let mut out: Vec<SymbolRow> = Vec::new();
    let mut k: usize = 0;
    while k < r.symbols.len()
        invariant
            k <= r.symbols.len(),
            path == r@.file_path,
            symbols == r@.symbols,
            out.len() == k,
            forall|i: int|
                0 <= i < k ==> (#[trigger] out.deep_view()[i]) == row_with(
                    path,
                    symbols,
                    i,
                    Seq::empty(),
                ),
        decreases r.symbols.len() - k,
    {
        let s = &r.symbols[k];
        assert(symbols[k as int] == s@);
        let parent_id = match s.parent_temp_id {
            Some(t) => match find_owner(&r.symbols, t) {
                Some(j) => {
                    assert(symbols[j as int] == r.symbols@[j as int]@);
                    Some(
                        make_canonical_id(
                            r.symbols[j].kind,
                            r.file_path.as_str(),
                            r.symbols[j].name.as_str(),
                        ),
                    )
                },
                None => None,
            },
            None => None,
        };
        let row = SymbolRow {
            file_path: r.file_path.clone(),
            name: s.name.clone(),
            qualified_name: s.qualified_name.clone(),
            canonical_id: make_canonical_id(s.kind, r.file_path.as_str(), s.name.as_str()),
            scope_path: s.scope_path.clone(),
            kind: s.kind,
            line_start: s.line_start,
            line_end: s.line_end,
            signature: s.signature.clone(),
            parent_id,
            calls: Vec::new(),
        };
        assert(row.calls.deep_view() =~= Seq::<CallRowView>::empty());
        assert(row@ == row_with(path, symbols, k as int, Seq::empty()));
        let ghost before = out.deep_view();
        out.push(row);
        assert(out.deep_view() =~= before.push(row_with(path, symbols, k as int, Seq::empty())));
        k += 1;
    }
    let mut j: usize = 0;
    assert(calls.take(0) =~= Seq::<PendingCallView>::empty());
    while j < r.calls.len()
        invariant
            j <= r.calls.len(),
            path == r@.file_path,
            symbols == r@.symbols,
            calls == r@.calls,
            out.len() == r.symbols.len(),
            forall|i: int|
                0 <= i < out.len() ==> (#[trigger] out.deep_view()[i]) == row_with(
                    path,
                    symbols,
                    i,
                    calls_for(calls.take(j as int), symbols, i),
                ),
        decreases r.calls.len() - j,
    {
        let c = &r.calls[j];
        let ghost before = out.deep_view();
        proof {
            assert(calls.take(j + 1).drop_last() =~= calls.take(j as int));
            assert(calls.take(j + 1).last() == c@);
        }
        match find_owner(&r.symbols, c.caller_temp_id) {
            Some(owner) => {
                let edge = CallRow {
                    callee_name: c.callee_name.clone(),
                    call_line: c.line,
                    callee_id: None,
                };
                assert(edge@ == call_row_of(c@));
                let ghost old_calls = out@[owner as int].calls.deep_view();
                let ghost out_before = out@;
                out[owner].calls.push(edge);
                proof {
                    assert(out@.len() == before.len());
                    assert(out@[owner as int].calls.deep_view() =~= old_calls.push(
                        call_row_of(c@),
                    ));
                    assert forall|i: int| 0 <= i < out.len() implies (
                    #[trigger] out.deep_view()[i]) == row_with(
                        path,
                        symbols,
                        i,
                        calls_for(calls.take(j + 1), symbols, i),
                    ) by {
                        assert(before[i] == row_with(
                            path,
                            symbols,
                            i,
                            calls_for(calls.take(j as int), symbols, i),
                        ));
                        if i != owner {
                            assert(out@[i] == out_before[i]);
                        }
                    }
                }
            },
            None => {},
        }
        j += 1;
    }
    assert(calls.take(r.calls.len() as int) =~= calls);
    assert(out.deep_view() =~= rows_for(r@));
    out
}

/// Whether a scope path ends with the name: it is the name, or ends with
/// `::` and the name.
pub fn scope_path_ends_with(scope_path: &str, name: &str) -> (r: bool)
    ensures
        r == scope_ends_with_name(scope_path@, name@),
{
    if crate::text::same_text(scope_path, name) {
        return true;
    }
    let mut tail = String::from_str("::");
    tail.append(name);
    let s = crate::text::to_chars(scope_path);
    let t = crate::text::to_chars(tail.as_str());
    crate::text::ends_with(&s, &t)
}

impl PendingSymbol {
    /// Whether the pending symbol is well formed.
    pub fn is_well_formed(&self) -> (r: bool)
        ensures
            r == self@.wf(),
    {
        1 <= self.line_start && self.line_start <= self.line_end && crate::text::same_text(
            self.qualified_name.as_str(),
            self.scope_path.as_str(),
        ) && scope_path_ends_with(self.scope_path.as_str(), self.name.as_str())
    }
}

impl ParseResult {
    /// Whether the parse result is well formed.
    pub fn is_well_formed(&self) -> (r: bool)
        ensures
            r == self@.wf(),
    {
        let consistent = match self.status {
            ParseStatus::Parsed => match self.index_level {
                IndexLevel::Symbol => true,
                IndexLevel::Meta => false,
            },
            ParseStatus::MetaOnly => match self.index_level {
                IndexLevel::Symbol => false,
                IndexLevel::Meta => self.symbols.len() == 0 && self.calls.len() == 0,
            },
            ParseStatus::Skipped => self.symbols.len() == 0 && self.calls.len() == 0,
        };
        if !consistent {
            return false;
        }
        let mut i: usize = 0;
        while i < self.symbols.len()
            invariant
                i <= self.symbols.len(),
                forall|k: int| 0 <= k < i ==> (#[trigger] self@.symbols[k]).wf(),
            decreases self.symbols.len() - i,
        {
            if !self.symbols[i].is_well_formed() {
                assert(!self@.symbols[i as int].wf());
                return false;
            }
            i += 1;
        }
        true
    }
}

impl SymbolRow {
    /// Whether the row meets its own invariants.
    pub fn is_well_formed(&self) -> (r: bool)
        ensures
            r == self@.wf(),
    {
        let expected = make_canonical_id(self.kind, self.file_path.as_str(), self.name.as_str());
        crate::text::same_text(self.canonical_id.as_str(), expected.as_str()) && 1
            <= self.line_start && self.line_start <= self.line_end && crate::text::same_text(
            self.qualified_name.as_str(),
            self.scope_path.as_str(),
        ) && scope_path_ends_with(self.scope_path.as_str(), self.name.as_str())
    }
}

impl Store {
    /// Whether some file row has this path and is at the symbol level.
    pub fn has_symbol_level_file(&self, path: &str) -> (r: bool)
        ensures
            r == has_symbol_file(self@.files, path@),
    {
        let mut i: usize = 0;
        while i < self.files.len()
            invariant
                i <= self.files.len(),
                forall|k: int|
                    0 <= k < i ==> !((#[trigger] self@.files[k]).file_path == path@
                        && self@.files[k].index_level == IndexLevel::Symbol),
            decreases self.files.len() - i,
        {
            let symbol_level = match self.files[i].index_level {
                IndexLevel::Symbol => true,
                IndexLevel::Meta => false,
            };
            if symbol_level && crate::text::same_text(self.files[i].file_path.as_str(), path) {
                assert(self@.files[i as int].file_path == path@);
                return true;
            }
            i += 1;
        }
        false
    }

    /// Whether the state is well formed: rows that were read from outside
    /// are to be checked before anything else is done with them.
    pub fn is_well_formed(&self) -> (r: bool)
        ensures
            r == self@.wf(),
    {
        let mut j: usize = 0;
        while j < self.files.len()
            invariant
                j <= self.files.len(),
                forall|a: int, b: int|
                    0 <= a < b < j ==> (#[trigger] self@.files[a]).file_path != (
                    #[trigger] self@.files[b]).file_path,
            decreases self.files.len() - j,
        {
            let mut i: usize = 0;
            while i < j
                invariant
                    i <= j,
                    j < self.files.len(),
                    forall|a: int| 0 <= a < i ==> (#[trigger] self@.files[a]).file_path
                        != self@.files[j as int].file_path,
                decreases j - i,
            {
                if crate::text::same_text(
                    self.files[i].file_path.as_str(),
                    self.files[j].file_path.as_str(),
                ) {
                    assert(self@.files[i as int].file_path == self@.files[j as int].file_path);
                    return false;
                }
                i += 1;
            }
            j += 1;
        }
        let mut k: usize = 0;
        while k < self.symbols.len()
            invariant
                k <= self.symbols.len(),
                distinct_paths(self@.files),
                forall|t: int|
                    0 <= t < k ==> (#[trigger] self@.symbols[t]).wf() && has_symbol_file(
                        self@.files,
                        self@.symbols[t].file_path,
                    ),
            decreases self.symbols.len() - k,
        {
            let row = &self.symbols[k];
            assert(self@.symbols[k as int] == row@);
            if !row.is_well_formed() || !self.has_symbol_level_file(row.file_path.as_str()) {
                return false;
            }
            k += 1;
        }
        true
    }
}

} // verus!
