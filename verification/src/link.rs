//! The closing passes of a run: linking call edges to canonical
//! identifiers, removing the rows of files that are gone from disk, and
//! linking once more what the removal has unresolved.

use vstd::prelude::*;
use vstd::string::*;
use crate::store::{
    has_symbol_file, CallRowView, FileRow, FileRowView, Store, StoreView, SymbolRow,
    SymbolRowView,
};
use crate::text::{contains_string, same_text};

verus! {

/// The first symbol at or after `k` that has the name, and, where a path is
/// given, belongs to that file.
pub open spec fn first_named_from(
    symbols: Seq<SymbolRowView>,
    name: Seq<char>,
    path: Option<Seq<char>>,
    k: int,
) -> Option<int>
    decreases symbols.len() - k,
{
    if k < 0 || k >= symbols.len() {
        None
    } else if symbols[k].name == name && (path matches Some(p) ==> symbols[k].file_path == p) {
        Some(k)
    } else {
        first_named_from(symbols, name, path, k + 1)
    }
}

/// What a callee name resolves to for a caller in the file `path`: the
/// canonical identifier of the first symbol of that name in the same file,
/// else of the first symbol of that name anywhere, else nothing.
pub open spec fn resolve(symbols: Seq<SymbolRowView>, path: Seq<char>, name: Seq<char>) -> Option<
    Seq<char>,
> {
    match first_named_from(symbols, name, Some(path), 0) {
        Some(i) => Some(symbols[i].canonical_id),
        None => match first_named_from(symbols, name, None, 0) {
            Some(i) => Some(symbols[i].canonical_id),
            None => None,
        },
    }
}

/// A call edge after linking: an unresolved one gets what its name
/// resolves to, a resolved one stays.
pub open spec fn linked_call(c: CallRowView, symbols: Seq<SymbolRowView>, path: Seq<char>)
    -> CallRowView {
    if c.callee_id is None {
        CallRowView { callee_id: resolve(symbols, path, c.callee_name), ..c }
    } else {
        c
    }
}

/// A symbol row after linking.
pub open spec fn linked_row(row: SymbolRowView, symbols: Seq<SymbolRowView>) -> SymbolRowView {
    SymbolRowView {
        calls: Seq::new(
            row.calls.len(),
            |j: int| linked_call(row.calls[j], symbols, row.file_path),
        ),
        ..row
    }
}

/// The state after the linking pass.
pub open spec fn linked(s: StoreView) -> StoreView {
    StoreView {
        files: s.files,
        symbols: Seq::new(s.symbols.len(), |i: int| linked_row(s.symbols[i], s.symbols)),
    }
}

/// Two sequences of symbol rows agree on what linking reads: the name, the
/// file path and the canonical identifier of each row.
pub open spec fn same_keys(a: Seq<SymbolRowView>, b: Seq<SymbolRowView>) -> bool {
    &&& a.len() == b.len()
    &&& forall|i: int|
        0 <= i < a.len() ==> (#[trigger] a[i]).name == b[i].name && a[i].file_path
            == b[i].file_path && a[i].canonical_id == b[i].canonical_id
}

/// Resolution reads names, file paths and canonical identifiers only.
pub proof fn lemma_first_named_same_keys(
    a: Seq<SymbolRowView>,
    b: Seq<SymbolRowView>,
    name: Seq<char>,
    path: Option<Seq<char>>,
    k: int,
)
    requires
        same_keys(a, b),
    ensures
        first_named_from(a, name, path, k) == first_named_from(b, name, path, k),
        first_named_from(a, name, path, k) matches Some(i) ==> k <= i < a.len(),
    decreases a.len() - k,
{
    if 0 <= k < a.len() {
        lemma_first_named_same_keys(a, b, name, path, k + 1);
    }
}

/// Resolution reads names, file paths and canonical identifiers only.
pub proof fn lemma_resolve_same_keys(
    a: Seq<SymbolRowView>,
    b: Seq<SymbolRowView>,
    path: Seq<char>,
    name: Seq<char>,
)
    requires
        same_keys(a, b),
    ensures
        resolve(a, path, name) == resolve(b, path, name),
{
    lemma_first_named_same_keys(a, b, name, Some(path), 0);
    lemma_first_named_same_keys(a, b, name, None, 0);
}

/// Linking keeps the state well formed.
pub proof fn lemma_linked_wf(s: StoreView)
    requires
        s.wf(),
    ensures
        linked(s).wf(),
{
    assert forall|i: int| 0 <= i < linked(s).symbols.len() implies (
    #[trigger] linked(s).symbols[i]).wf() && has_symbol_file(
        linked(s).files,
        linked(s).symbols[i].file_path,
    ) by {
        assert(s.symbols[i].wf());
    }
}

/// Linking twice is linking once: after a linking pass, every call edge
/// that is still unresolved has a name that resolves to nothing.
pub proof fn lemma_linked_idempotent(s: StoreView)
    ensures
        linked(linked(s)) == linked(s),
{
    let once = linked(s);
    let twice = linked(once);
    assert(same_keys(once.symbols, s.symbols));
    assert(twice.symbols =~= once.symbols) by {
        assert forall|i: int| 0 <= i < once.symbols.len() implies twice.symbols[i]
            == once.symbols[i] by {
            let row = once.symbols[i];
            assert(linked_row(row, once.symbols).calls =~= row.calls) by {
                assert forall|j: int| 0 <= j < row.calls.len() implies linked_call(
                    row.calls[j],
                    once.symbols,
                    row.file_path,
                ) == row.calls[j] by {
                    let c = s.symbols[i].calls[j];
                    lemma_resolve_same_keys(
                        once.symbols,
                        s.symbols,
                        row.file_path,
                        c.callee_name,
                    );
                }
            }
        }
    }
}

/// The file rows whose path is among `present`, in order.
pub open spec fn files_on_disk(files: Seq<FileRowView>, present: Seq<Seq<char>>) -> Seq<
    FileRowView,
>
    decreases files.len(),
{
    if files.len() == 0 {
        files
    } else if present.contains(files.last().file_path) {
        files_on_disk(files.drop_last(), present).push(files.last())
    } else {
        files_on_disk(files.drop_last(), present)
    }
}

/// The symbol rows whose file path is among `present`, in order.
pub open spec fn symbols_on_disk(symbols: Seq<SymbolRowView>, present: Seq<Seq<char>>) -> Seq<
    SymbolRowView,
>
    decreases symbols.len(),
{
    if symbols.len() == 0 {
        symbols
    } else if present.contains(symbols.last().file_path) {
        symbols_on_disk(symbols.drop_last(), present).push(symbols.last())
    } else {
        symbols_on_disk(symbols.drop_last(), present)
    }
}

/// Some symbol row carries this canonical identifier.
pub open spec fn has_symbol(symbols: Seq<SymbolRowView>, id: Seq<char>) -> bool {
    exists|i: int| 0 <= i < symbols.len() && (#[trigger] symbols[i]).canonical_id == id
}

/// A call edge with its resolution dropped where it names a symbol that is
/// not there.
pub open spec fn settled_call(c: CallRowView, symbols: Seq<SymbolRowView>) -> CallRowView {
    if c.callee_id is Some && !has_symbol(symbols, c.callee_id->0) {
        CallRowView { callee_id: None, ..c }
    } else {
        c
    }
}

/// A symbol row with every dangling resolution dropped.
pub open spec fn settled_row(row: SymbolRowView, symbols: Seq<SymbolRowView>) -> SymbolRowView {
    SymbolRowView {
        calls: Seq::new(row.calls.len(), |j: int| settled_call(row.calls[j], symbols)),
        ..row
    }
}

/// The symbol rows with every dangling resolution dropped.
pub open spec fn settled(symbols: Seq<SymbolRowView>) -> Seq<SymbolRowView> {
    Seq::new(symbols.len(), |i: int| settled_row(symbols[i], symbols))
}

/// The state after orphan cleanup, `present` being the stored paths that
/// still exist on disk: the rows of every other file go, their symbols and
/// call edges with them, and a call edge that was resolved to a symbol that
/// is gone is unresolved again.
pub open spec fn cleaned(s: StoreView, present: Seq<Seq<char>>) -> StoreView {
    StoreView {
        files: files_on_disk(s.files, present),
        symbols: settled(symbols_on_disk(s.symbols, present)),
    }
}

/// No call edge is resolved to a canonical identifier that no symbol
/// carries.
pub open spec fn no_dangling(symbols: Seq<SymbolRowView>) -> bool {
    forall|i: int, j: int|
        0 <= i < symbols.len() && 0 <= j < symbols[i].calls.len() ==> ((
        #[trigger] symbols[i].calls[j]).callee_id matches Some(x) ==> has_symbol(symbols, x))
}

/// What `files_on_disk` keeps: rows of the input, in their order, and
/// exactly those whose path is present.
pub proof fn lemma_files_on_disk(files: Seq<FileRowView>, present: Seq<Seq<char>>)
    ensures
        forall|i: int|
            0 <= i < files_on_disk(files, present).len() ==> present.contains(
                (#[trigger] files_on_disk(files, present)[i]).file_path,
            ) && files.contains(files_on_disk(files, present)[i]),
        forall|i: int|
            0 <= i < files.len() && present.contains((#[trigger] files[i]).file_path)
                ==> files_on_disk(files, present).contains(files[i]),
        crate::store::distinct_paths(files) ==> crate::store::distinct_paths(
            files_on_disk(files, present),
        ),
    decreases files.len(),
{
    if files.len() > 0 {
        let head = files.drop_last();
        let rest = files_on_disk(head, present);
        let out = files_on_disk(files, present);
        lemma_files_on_disk(head, present);
        assert forall|i: int| 0 <= i < out.len() implies present.contains(
            (#[trigger] out[i]).file_path,
        ) && files.contains(out[i]) by {
            if i < rest.len() {
                let j = choose|j: int| 0 <= j < head.len() && head[j] == rest[i];
                assert(files[j] == out[i]);
            } else {
                assert(files[files.len() - 1] == out[i]);
            }
        }
        assert forall|i: int|
            0 <= i < files.len() && present.contains(
                (#[trigger] files[i]).file_path,
            ) implies out.contains(files[i]) by {
            if i < head.len() {
                assert(head[i] == files[i]);
                let j = choose|j: int| 0 <= j < rest.len() && rest[j] == head[i];
                assert(out[j] == files[i]);
            } else {
                assert(out[out.len() - 1] == files[i]);
            }
        }
        if crate::store::distinct_paths(files) {
            assert(crate::store::distinct_paths(head));
            assert forall|i: int, j: int| 0 <= i < j < out.len() implies (
            #[trigger] out[i]).file_path != (#[trigger] out[j]).file_path by {
                if j == rest.len() {
                    let a = choose|a: int| 0 <= a < head.len() && head[a] == rest[i];
                    assert(files[a].file_path != files[files.len() - 1].file_path);
                }
            }
        }
    }
}

/// What `symbols_on_disk` keeps: rows of the input whose file path is
/// present.
pub proof fn lemma_symbols_on_disk(symbols: Seq<SymbolRowView>, present: Seq<Seq<char>>)
    ensures
        forall|i: int|
            0 <= i < symbols_on_disk(symbols, present).len() ==> present.contains(
                (#[trigger] symbols_on_disk(symbols, present)[i]).file_path,
            ) && symbols.contains(symbols_on_disk(symbols, present)[i]),
    decreases symbols.len(),
{
    if symbols.len() > 0 {
        let head = symbols.drop_last();
        let rest = symbols_on_disk(head, present);
        let out = symbols_on_disk(symbols, present);
        lemma_symbols_on_disk(head, present);
        assert forall|i: int| 0 <= i < out.len() implies present.contains(
            (#[trigger] out[i]).file_path,
        ) && symbols.contains(out[i]) by {
            if i < rest.len() {
                let j = choose|j: int| 0 <= j < head.len() && head[j] == rest[i];
                assert(symbols[j] == out[i]);
            } else {
                assert(symbols[symbols.len() - 1] == out[i]);
            }
        }
    }
}

/// After orphan cleanup the state is well formed, every file row has a path
/// that is present on disk, and no call edge is resolved to a symbol that is
/// not there.
pub proof fn lemma_cleaned(s: StoreView, present: Seq<Seq<char>>)
    requires
        s.wf(),
    ensures
        cleaned(s, present).wf(),
        forall|i: int|
            0 <= i < cleaned(s, present).files.len() ==> present.contains(
                (#[trigger] cleaned(s, present).files[i]).file_path,
            ),
        no_dangling(cleaned(s, present).symbols),
{
    let after = cleaned(s, present);
    let kept = symbols_on_disk(s.symbols, present);
    lemma_files_on_disk(s.files, present);
    lemma_symbols_on_disk(s.symbols, present);
    assert forall|i: int| 0 <= i < after.symbols.len() implies (#[trigger] after.symbols[i]).wf()
        && has_symbol_file(after.files, after.symbols[i].file_path) by {
        let x = kept[i];
        let j = choose|j: int| 0 <= j < s.symbols.len() && s.symbols[j] == x;
        assert(s.symbols[j].wf());
        let f = choose|f: int|
            0 <= f < s.files.len() && (#[trigger] s.files[f]).file_path == x.file_path
                && s.files[f].index_level == crate::model::IndexLevel::Symbol;
        assert(after.files.contains(s.files[f]));
        let g = choose|g: int| 0 <= g < after.files.len() && after.files[g] == s.files[f];
        assert(after.files[g].file_path == x.file_path);
    }
    assert forall|i: int, j: int|
        0 <= i < after.symbols.len() && 0 <= j < after.symbols[i].calls.len() implies ((
    #[trigger] after.symbols[i].calls[j]).callee_id matches Some(x) ==> has_symbol(
        after.symbols,
        x,
    )) by {
        let c = after.symbols[i].calls[j];
        if c.callee_id is Some {
            let x = c.callee_id->0;
            assert(c == settled_call(kept[i].calls[j], kept));
            assert(has_symbol(kept, x));
            let w = choose|w: int| 0 <= w < kept.len() && (#[trigger] kept[w]).canonical_id == x;
            assert(after.symbols[w].canonical_id == x);
        }
    }
}

/// What the callee name resolves to for a caller in the file `path`.
pub fn resolve_name(symbols: &Vec<SymbolRow>, path: &str, name: &str) -> (r: Option<String>)
    ensures
        r.deep_view() == resolve(symbols.deep_view(), path@, name@),
{
    let ghost all = symbols.deep_view();
    let mut anywhere: Option<usize> = None;
    let mut i: usize = 0;
    while i < symbols.len()
        invariant
            i <= symbols.len(),
            all == symbols.deep_view(),
            first_named_from(all, name@, Some(path@), 0) == first_named_from(
                all,
                name@,
                Some(path@),
                i as int,
            ),
            anywhere is None ==> first_named_from(all, name@, None, 0) == first_named_from(
                all,
                name@,
                None,
                i as int,
            ),
            anywhere matches Some(a) ==> a < i && first_named_from(all, name@, None, 0) == Some(
                a as int,
            ),
        decreases symbols.len() - i,
    {
        let row = &symbols[i];
        assert(all[i as int] == row@);
        if same_text(row.name.as_str(), name) {
            if same_text(row.file_path.as_str(), path) {
                return Some(row.canonical_id.clone());
            }
            if anywhere.is_none() {
                anywhere = Some(i);
            }
        }
        i += 1;
    }
    match anywhere {
        Some(a) => {
            assert(all[a as int] == symbols@[a as int]@);
            Some(symbols[a].canonical_id.clone())
        },
        None => None,
    }
}

/// Whether some symbol row carries the canonical identifier.
pub fn symbol_exists(symbols: &Vec<SymbolRow>, id: &str) -> (r: bool)
    ensures
        r == has_symbol(symbols.deep_view(), id@),
{
    let mut i: usize = 0;
    while i < symbols.len()
        invariant
            i <= symbols.len(),
            forall|k: int| 0 <= k < i ==> (#[trigger] symbols.deep_view()[k]).canonical_id != id@,
        decreases symbols.len() - i,
    {
        if same_text(symbols[i].canonical_id.as_str(), id) {
            assert(symbols.deep_view()[i as int].canonical_id == id@);
            return true;
        }
        i += 1;
    }
    false
}

/// The file rows whose path is among `present`.
pub fn keep_files_on_disk(files: Vec<FileRow>, present: &Vec<String>) -> (out: Vec<FileRow>)
    ensures
        out.deep_view() == files_on_disk(files.deep_view(), present.deep_view()),
{
    let mut out: Vec<FileRow> = Vec::new();
    let ghost all = files.deep_view();
    assert(all.take(0) =~= Seq::<FileRowView>::empty());
    for row in it: files
        invariant
            it.seq().len() == all.len(),
            forall|k: int| 0 <= k < all.len() ==> all[k] == (#[trigger] it.seq()[k])@,
            out.deep_view() == files_on_disk(all.take(it.index() as int), present.deep_view()),
    {
        let ghost before = out.deep_view();
        let ghost i = it.index() as int;
        proof {
            assert(all.take(i + 1).drop_last() =~= all.take(i));
            assert(all.take(i + 1).last() == row@);
        }
        if contains_string(present, row.file_path.as_str()) {
            out.push(row);
            assert(out.deep_view() =~= before.push(all[i]));
        }
    }
    assert(all.take(all.len() as int) =~= all);
    out
}

/// The symbol rows whose file path is among `present`.
pub fn keep_symbols_on_disk(symbols: Vec<SymbolRow>, present: &Vec<String>) -> (out: Vec<
    SymbolRow,
>)
    ensures
        out.deep_view() == symbols_on_disk(symbols.deep_view(), present.deep_view()),
{
    let mut out: Vec<SymbolRow> = Vec::new();
    let ghost all = symbols.deep_view();
    assert(all.take(0) =~= Seq::<SymbolRowView>::empty());
    for row in it: symbols
        invariant
            it.seq().len() == all.len(),
            forall|k: int| 0 <= k < all.len() ==> all[k] == (#[trigger] it.seq()[k])@,
            out.deep_view() == symbols_on_disk(all.take(it.index() as int), present.deep_view()),
    {
        let ghost before = out.deep_view();
        let ghost i = it.index() as int;
        proof {
            assert(all.take(i + 1).drop_last() =~= all.take(i));
            assert(all.take(i + 1).last() == row@);
        }
        if contains_string(present, row.file_path.as_str()) {
            out.push(row);
            assert(out.deep_view() =~= before.push(all[i]));
        }
    }
    assert(all.take(all.len() as int) =~= all);
    out
}

/// One row agrees with another on everything but its call edges.
pub open spec fn same_but_calls(a: SymbolRowView, b: SymbolRowView) -> bool {
    SymbolRowView { calls: b.calls, ..a } == b
}

/// The rows with the resolution of call edge `j` of row `i` set to `id`.
pub open spec fn with_callee(
    rows: Seq<SymbolRowView>,
    i: int,
    j: int,
    id: Option<Seq<char>>,
) -> Seq<SymbolRowView> {
    rows.update(
        i,
        SymbolRowView {
            calls: rows[i].calls.update(j, CallRowView { callee_id: id, ..rows[i].calls[j] }),
            ..rows[i]
        },
    )
}

/// Sets the resolution of call edge `j` of row `i`.
fn set_callee(symbols: &mut Vec<SymbolRow>, i: usize, j: usize, id: Option<String>)
    requires
        i < old(symbols).len(),
        j < old(symbols)@[i as int].calls.len(),
    ensures
        final(symbols).deep_view() == with_callee(
            old(symbols).deep_view(),
            i as int,
            j as int,
            id.deep_view(),
        ),
        final(symbols)@.len() == old(symbols)@.len(),
        final(symbols)@[i as int].calls@.len() == old(symbols)@[i as int].calls@.len(),
{
    let ghost before = symbols@;
    let ghost target = with_callee(symbols.deep_view(), i as int, j as int, id.deep_view());
    symbols[i].calls[j].callee_id = id;
    proof {
        assert(symbols@.len() == before.len());
        assert(forall|k: int| 0 <= k < before.len() && k != i ==> symbols@[k] == before[k]);
        let row = symbols@[i as int];
        let was = before[i as int];
        assert(row.calls@.len() == was.calls@.len());
        assert(forall|t: int|
            0 <= t < was.calls@.len() && t != j ==> row.calls@[t] == was.calls@[t]);
        assert(row.calls@[j as int].callee_id == id);
        assert(row.calls@[j as int].callee_name == was.calls@[j as int].callee_name);
        assert(row.calls@[j as int].call_line == was.calls@[j as int].call_line);
        assert(row.file_path == was.file_path);
        assert(row.name == was.name);
        assert(row.qualified_name == was.qualified_name);
        assert(row.canonical_id == was.canonical_id);
        assert(row.scope_path == was.scope_path);
        assert(row.kind == was.kind);
        assert(row.line_start == was.line_start);
        assert(row.line_end == was.line_end);
        assert(row.signature == was.signature);
        assert(row.parent_id == was.parent_id);
        assert(row@.calls =~= target[i as int].calls);
        assert(symbols.deep_view() =~= target);
    }
}

impl Store {
    /// The linking pass: every unresolved call edge gets the canonical
    /// identifier of a symbol of its callee's name, one in the caller's own
    /// file first, else the first of that name; it stays unresolved where no
    /// symbol has the name.
    pub fn link(&mut self)
        requires
            old(self)@.wf(),
        ensures
            final(self)@ == linked(old(self)@),
            final(self)@.wf(),
    {
        let ghost before = self@;
        proof {
            lemma_linked_wf(before);
        }
        let n: usize = self.symbols.len();
        let mut i: usize = 0;
        while i < n
            invariant
                i <= n,
                n == self.symbols.len(),
                n == before.symbols.len(),
                self@.files == before.files,
                same_keys(self@.symbols, before.symbols),
                forall|k: int|
                    0 <= k < i ==> (#[trigger] self@.symbols[k]) == linked_row(
                        before.symbols[k],
                        before.symbols,
                    ),
                forall|k: int| i <= k < n ==> (#[trigger] self@.symbols[k]) == before.symbols[k],
            decreases n - i,
        {
            let m: usize = self.symbols[i].calls.len();
            let mut j: usize = 0;
            while j < m
                invariant
                    j <= m,
                    i < n,
                    n == self.symbols.len(),
                    n == before.symbols.len(),
                    m == self.symbols@[i as int].calls.len(),
                    m == before.symbols[i as int].calls.len(),
                    self@.files == before.files,
                    same_keys(self@.symbols, before.symbols),
                    same_but_calls(self@.symbols[i as int], before.symbols[i as int]),
                    forall|k: int|
                        0 <= k < n && k != i ==> (#[trigger] self@.symbols[k]) == (if k < i {
                            linked_row(before.symbols[k], before.symbols)
                        } else {
                            before.symbols[k]
                        }),
                    forall|t: int|
                        0 <= t < j ==> (#[trigger] self@.symbols[i as int].calls[t]) == linked_call(
                            before.symbols[i as int].calls[t],
                            before.symbols,
                            before.symbols[i as int].file_path,
                        ),
                    forall|t: int|
                        j <= t < m ==> (#[trigger] self@.symbols[i as int].calls[t])
                            == before.symbols[i as int].calls[t],
                decreases m - j,
            {
                let ghost mid = self@;
                let ghost mid_rows = self.symbols@;
                if self.symbols[i].calls[j].callee_id.is_none() {
                    let resolved = resolve_name(
                        &self.symbols,
                        self.symbols[i].file_path.as_str(),
                        self.symbols[i].calls[j].callee_name.as_str(),
                    );
                    proof {
                        lemma_resolve_same_keys(
                            mid.symbols,
                            before.symbols,
                            before.symbols[i as int].file_path,
                            before.symbols[i as int].calls[j as int].callee_name,
                        );
                    }
                    set_callee(&mut self.symbols, i, j, resolved);
                    proof {
                        assert(self@.files =~= before.files);
                    }
                }
                j += 1;
            }
            proof {
                assert(self@.symbols[i as int].calls =~= linked_row(
                    before.symbols[i as int],
                    before.symbols,
                ).calls);
            }
            i += 1;
        }
        assert(self@.symbols =~= linked(before).symbols);
    }

    /// Orphan cleanup: `present` holds the stored paths that still exist on
    /// disk. Afterwards every file row has a path among them, every symbol
    /// row still belongs to a file row, and no call edge is resolved to a
    /// symbol that is gone.
    pub fn remove_orphans(&mut self, present: &Vec<String>)
        requires
            old(self)@.wf(),
        ensures
            final(self)@ == cleaned(old(self)@, present.deep_view()),
            final(self)@.wf(),
            forall|i: int|
                0 <= i < final(self)@.files.len() ==> present.deep_view().contains(
                    (#[trigger] final(self)@.files[i]).file_path,
                ),
            no_dangling(final(self)@.symbols),
    {
        let ghost start = self@;
        proof {
            lemma_cleaned(start, present.deep_view());
        }
        let mut files: Vec<FileRow> = Vec::new();
        std::mem::swap(&mut files, &mut self.files);
        self.files = keep_files_on_disk(files, present);
        let mut symbols: Vec<SymbolRow> = Vec::new();
        std::mem::swap(&mut symbols, &mut self.symbols);
        self.symbols = keep_symbols_on_disk(symbols, present);
        let ghost before = self@;
        let n: usize = self.symbols.len();
        let mut i: usize = 0;
        while i < n
            invariant
                i <= n,
                n == self.symbols.len(),
                n == before.symbols.len(),
                self@.files == before.files,
                same_keys(self@.symbols, before.symbols),
                forall|k: int|
                    0 <= k < i ==> (#[trigger] self@.symbols[k]) == settled_row(
                        before.symbols[k],
                        before.symbols,
                    ),
                forall|k: int| i <= k < n ==> (#[trigger] self@.symbols[k]) == before.symbols[k],
            decreases n - i,
        {
            let m: usize = self.symbols[i].calls.len();
            let mut j: usize = 0;
            while j < m
                invariant
                    j <= m,
                    i < n,
                    n == self.symbols.len(),
                    n == before.symbols.len(),
                    m == self.symbols@[i as int].calls.len(),
                    m == before.symbols[i as int].calls.len(),
                    self@.files == before.files,
                    same_keys(self@.symbols, before.symbols),
                    same_but_calls(self@.symbols[i as int], before.symbols[i as int]),
                    forall|k: int|
                        0 <= k < n && k != i ==> (#[trigger] self@.symbols[k]) == (if k < i {
                            settled_row(before.symbols[k], before.symbols)
                        } else {
                            before.symbols[k]
                        }),
                    forall|t: int|
                        0 <= t < j ==> (#[trigger] self@.symbols[i as int].calls[t])
                            == settled_call(before.symbols[i as int].calls[t], before.symbols),
                    forall|t: int|
                        j <= t < m ==> (#[trigger] self@.symbols[i as int].calls[t])
                            == before.symbols[i as int].calls[t],
                decreases m - j,
            {
                let ghost mid = self@;
                let ghost mid_rows = self.symbols@;
                let dangling = match &self.symbols[i].calls[j].callee_id {
                    Some(id) => !symbol_exists(&self.symbols, id.as_str()),
                    None => false,
                };
                proof {
                    let c = before.symbols[i as int].calls[j as int];
                    if c.callee_id is Some {
                        lemma_has_symbol_same_keys(mid.symbols, before.symbols, c.callee_id->0);
                    }
                }
                if dangling {
                    set_callee(&mut self.symbols, i, j, None);
                    proof {
                        assert(self@.files =~= before.files);
                    }
                }
                j += 1;
            }
            proof {
                assert(self@.symbols[i as int].calls =~= settled_row(
                    before.symbols[i as int],
                    before.symbols,
                ).calls);
            }
            i += 1;
        }
        assert(self@.symbols =~= settled(before.symbols));
    }
}

/// Whether a canonical identifier is carried depends on the canonical
/// identifiers alone.
pub proof fn lemma_has_symbol_same_keys(a: Seq<SymbolRowView>, b: Seq<SymbolRowView>, id: Seq<char>)
    requires
        same_keys(a, b),
    ensures
        has_symbol(a, id) == has_symbol(b, id),
{
    if has_symbol(a, id) {
        let i = choose|i: int| 0 <= i < a.len() && (#[trigger] a[i]).canonical_id == id;
        assert(b[i].canonical_id == id);
    }
    if has_symbol(b, id) {
        let i = choose|i: int| 0 <= i < b.len() && (#[trigger] b[i]).canonical_id == id;
        assert(a[i].canonical_id == id);
    }
}

/// Nothing goes where every file row has a path that is present.
pub proof fn lemma_files_all_on_disk(files: Seq<FileRowView>, present: Seq<Seq<char>>)
    requires
        forall|i: int| 0 <= i < files.len() ==> present.contains((#[trigger] files[i]).file_path),
    ensures
        files_on_disk(files, present) == files,
    decreases files.len(),
{
    if files.len() > 0 {
        let head = files.drop_last();
        assert forall|i: int| 0 <= i < head.len() implies present.contains(
            (#[trigger] head[i]).file_path,
        ) by {
            assert(head[i] == files[i]);
        }
        lemma_files_all_on_disk(head, present);
        assert(present.contains(files[files.len() - 1].file_path));
        assert(head.push(files.last()) =~= files);
    }
}

/// Nothing goes where every symbol row has a file path that is present.
pub proof fn lemma_symbols_all_on_disk(symbols: Seq<SymbolRowView>, present: Seq<Seq<char>>)
    requires
        forall|i: int|
            0 <= i < symbols.len() ==> present.contains((#[trigger] symbols[i]).file_path),
    ensures
        symbols_on_disk(symbols, present) == symbols,
    decreases symbols.len(),
{
    if symbols.len() > 0 {
        let head = symbols.drop_last();
        assert forall|i: int| 0 <= i < head.len() implies present.contains(
            (#[trigger] head[i]).file_path,
        ) by {
            assert(head[i] == symbols[i]);
        }
        lemma_symbols_all_on_disk(head, present);
        assert(present.contains(symbols[symbols.len() - 1].file_path));
        assert(head.push(symbols.last()) =~= symbols);
    }
}

/// Dropping dangling resolutions twice is dropping them once.
pub proof fn lemma_settled_idempotent(symbols: Seq<SymbolRowView>)
    ensures
        settled(settled(symbols)) == settled(symbols),
{
    let once = settled(symbols);
    let twice = settled(once);
    assert(same_keys(once, symbols));
    assert(twice =~= once) by {
        assert forall|i: int| 0 <= i < once.len() implies twice[i] == once[i] by {
            let row = once[i];
            assert(settled_row(row, once).calls =~= row.calls) by {
                assert forall|j: int| 0 <= j < row.calls.len() implies settled_call(
                    row.calls[j],
                    once,
                ) == row.calls[j] by {
                    let c = row.calls[j];
                    if c.callee_id is Some {
                        lemma_has_symbol_same_keys(once, symbols, c.callee_id->0);
                    }
                }
            }
        }
    }
}

/// Orphan cleanup twice against the same paths is orphan cleanup once: a
/// state that a run leaves is one that cleanup does not change.
pub proof fn lemma_cleaned_idempotent(s: StoreView, present: Seq<Seq<char>>)
    ensures
        cleaned(cleaned(s, present), present) == cleaned(s, present),
{
    let once = cleaned(s, present);
    let kept = symbols_on_disk(s.symbols, present);
    lemma_files_on_disk(s.files, present);
    lemma_symbols_on_disk(s.symbols, present);
    lemma_files_all_on_disk(once.files, present);
    assert forall|i: int| 0 <= i < once.symbols.len() implies present.contains(
        (#[trigger] once.symbols[i]).file_path,
    ) by {
        assert(once.symbols[i].file_path == kept[i].file_path);
    }
    lemma_symbols_all_on_disk(once.symbols, present);
    lemma_settled_idempotent(kept);
}

/// What a name resolves to is the canonical identifier of a symbol that
/// is there.
pub proof fn lemma_resolve_has_symbol(symbols: Seq<SymbolRowView>, path: Seq<char>, name: Seq<char>)
    ensures
        resolve(symbols, path, name) matches Some(id) ==> has_symbol(symbols, id),
{
    lemma_first_named_same_keys(symbols, symbols, name, Some(path), 0);
    lemma_first_named_same_keys(symbols, symbols, name, None, 0);
}

/// Linking resolves to symbols that are there: where no resolution
/// dangled before it, none dangles after it.
pub proof fn lemma_linked_no_dangling(s: StoreView)
    requires
        no_dangling(s.symbols),
    ensures
        no_dangling(linked(s).symbols),
{
    let after = linked(s).symbols;
    assert(same_keys(after, s.symbols));
    assert forall|i: int, j: int|
        0 <= i < after.len() && 0 <= j < after[i].calls.len() implies ((
    #[trigger] after[i].calls[j]).callee_id matches Some(x) ==> has_symbol(after, x)) by {
        let c = s.symbols[i].calls[j];
        let d = after[i].calls[j];
        assert(d == linked_call(c, s.symbols, s.symbols[i].file_path));
        if d.callee_id is Some {
            if c.callee_id is None {
                lemma_resolve_has_symbol(s.symbols, s.symbols[i].file_path, c.callee_name);
            }
            lemma_has_symbol_same_keys(after, s.symbols, d.callee_id->0);
        }
    }
}

/// Where no resolution dangles, dropping the dangling ones changes
/// nothing.
pub proof fn lemma_settled_fixed(symbols: Seq<SymbolRowView>)
    requires
        no_dangling(symbols),
    ensures
        settled(symbols) == symbols,
{
    assert(settled(symbols) =~= symbols) by {
        assert forall|i: int| 0 <= i < symbols.len() implies settled(symbols)[i] == symbols[i] by {
            let row = symbols[i];
            assert(settled_row(row, symbols).calls =~= row.calls) by {
                assert forall|j: int| 0 <= j < row.calls.len() implies settled_call(
                    row.calls[j],
                    symbols,
                ) == row.calls[j] by {
                    assert(symbols[i].calls[j] == row.calls[j]);
                }
            }
        }
    }
}

/// The state after the closing passes of a run, `present` being the stored
/// paths that still exist on disk: the linking pass, then orphan cleanup,
/// then the linking pass once more, which resolves anew what cleanup has
/// unresolved and another symbol still answers to.
pub open spec fn wound_up(s: StoreView, present: Seq<Seq<char>>) -> StoreView {
    linked(cleaned(linked(s), present))
}

/// After the closing passes the state is well formed, every file row has a
/// path that is present on disk, no call edge is resolved to a symbol that is
/// not there, and neither the linking pass nor orphan cleanup against the
/// same paths changes it any more.
pub proof fn lemma_wound_up(s: StoreView, present: Seq<Seq<char>>)
    requires
        s.wf(),
    ensures
        wound_up(s, present).wf(),
        forall|i: int|
            0 <= i < wound_up(s, present).files.len() ==> present.contains(
                (#[trigger] wound_up(s, present).files[i]).file_path,
            ),
        no_dangling(wound_up(s, present).symbols),
        linked(wound_up(s, present)) == wound_up(s, present),
        cleaned(wound_up(s, present), present) == wound_up(s, present),
        wound_up(wound_up(s, present), present) == wound_up(s, present),
{
    let joined = linked(s);
    lemma_linked_wf(s);
    let kept = cleaned(joined, present);
    lemma_cleaned(joined, present);
    let end = linked(kept);
    lemma_linked_wf(kept);
    lemma_linked_no_dangling(kept);
    lemma_linked_idempotent(kept);
    assert(end.files == kept.files);
    lemma_files_all_on_disk(end.files, present);
    lemma_symbols_on_disk(joined.symbols, present);
    assert forall|i: int| 0 <= i < end.symbols.len() implies present.contains(
        (#[trigger] end.symbols[i]).file_path,
    ) by {
        assert(end.symbols[i].file_path == kept.symbols[i].file_path);
        assert(kept.symbols[i].file_path == symbols_on_disk(joined.symbols, present)[i].file_path);
    }
    lemma_symbols_all_on_disk(end.symbols, present);
    lemma_settled_fixed(end.symbols);
}

} // verus!
