//! What has to be written to the stored rows after a run: which files are
//! written anew, for which only the resolutions of their calls are written,
//! and which are deleted.

use vstd::prelude::*;
use vstd::string::*;
use crate::link::same_but_calls;
use crate::model::{IndexLevel, SymbolKind};
use crate::indexer::stored_row;
use crate::store::{
    has_path, index_of_path, of_file, CallRow, CallRowView, FileRow, FileRowView, Store,
    StoreView, SymbolRow, SymbolRowView,
};
use crate::text::{distinct_in_order, distinct_strings, same_text};

verus! {

/// How two lists of rows differ.
#[derive(Clone, Copy, Debug, PartialEq, Eq, Structural)]
pub enum Difference {
    /// Not at all.
    Same,
    /// Only in what call edges are resolved to.
    Links,
    /// In more than that.
    Rows,
}

/// The call edges are the same but for what they are resolved to.
pub open spec fn same_but_ids(a: Seq<CallRowView>, b: Seq<CallRowView>) -> bool {
    a.len() == b.len() && forall|j: int|
        0 <= j < a.len() ==> (#[trigger] a[j]).callee_name == b[j].callee_name && a[j].call_line
            == b[j].call_line
}

/// How two lists of call edges differ.
pub open spec fn calls_difference_of(a: Seq<CallRowView>, b: Seq<CallRowView>) -> Difference {
    if a == b {
        Difference::Same
    } else if same_but_ids(a, b) {
        Difference::Links
    } else {
        Difference::Rows
    }
}

/// The symbol rows are the same but for what their call edges are
/// resolved to.
pub open spec fn same_but_resolutions(a: Seq<SymbolRowView>, b: Seq<SymbolRowView>) -> bool {
    a.len() == b.len() && forall|i: int|
        0 <= i < a.len() ==> same_but_calls(#[trigger] a[i], b[i]) && same_but_ids(
            a[i].calls,
            b[i].calls,
        )
}

/// How two lists of symbol rows differ.
pub open spec fn difference_of(a: Seq<SymbolRowView>, b: Seq<SymbolRowView>) -> Difference {
    if a == b {
        Difference::Same
    } else if same_but_resolutions(a, b) {
        Difference::Links
    } else {
        Difference::Rows
    }
}

/// Whether two optional texts are the same.
pub fn same_option(a: &Option<String>, b: &Option<String>) -> (r: bool)
    ensures
        r == (a.deep_view() == b.deep_view()),
{
    match (a, b) {
        (Some(x), Some(y)) => same_text(x.as_str(), y.as_str()),
        (None, None) => true,
        _ => false,
    }
}

/// Whether two file rows are the same.
pub fn same_file_row(a: &FileRow, b: &FileRow) -> (r: bool)
    ensures
        r == (a@ == b@),
{
    let level = match (a.index_level, b.index_level) {
        (IndexLevel::Symbol, IndexLevel::Symbol) => true,
        (IndexLevel::Meta, IndexLevel::Meta) => true,
        _ => false,
    };
    level && same_text(a.file_path.as_str(), b.file_path.as_str()) && same_text(
        a.file_hash.as_str(),
        b.file_hash.as_str(),
    ) && a.file_size == b.file_size && a.file_mtime == b.file_mtime && same_text(
        a.language.as_str(),
        b.language.as_str(),
    ) && a.line_count == b.line_count && a.indexed_at == b.indexed_at && a.updated_at
        == b.updated_at
}

/// How two lists of call edges differ.
pub fn calls_difference(a: &Vec<CallRow>, b: &Vec<CallRow>) -> (r: Difference)
    ensures
        r == calls_difference_of(a.deep_view(), b.deep_view()),
{
    let ghost x = a.deep_view();
    let ghost y = b.deep_view();
    if a.len() != b.len() {
        assert(x.len() != y.len());
        return Difference::Rows;
    }
    let mut same = true;
    let mut j: usize = 0;
    while j < a.len()
        invariant
            j <= a.len(),
            a.len() == b.len(),
            x == a.deep_view(),
            y == b.deep_view(),
            forall|k: int|
                0 <= k < j ==> (#[trigger] x[k]).callee_name == y[k].callee_name && x[k].call_line
                    == y[k].call_line,
            same ==> forall|k: int| 0 <= k < j ==> #[trigger] x[k] == y[k],
            !same ==> exists|k: int| 0 <= k < j && #[trigger] x[k] != y[k],
        decreases a.len() - j,
    {
        assert(x[j as int] == a[j as int]@);
        assert(y[j as int] == b[j as int]@);
        if !same_text(a[j].callee_name.as_str(), b[j].callee_name.as_str()) || a[j].call_line
            != b[j].call_line {
            assert(x[j as int] != y[j as int]);
            return Difference::Rows;
        }
        if !same_option(&a[j].callee_id, &b[j].callee_id) {
            assert(x[j as int] != y[j as int]);
            same = false;
        }
        j += 1;
    }
    if same {
        assert(x =~= y);
        Difference::Same
    } else {
        Difference::Links
    }
}

/// The rows are the same in everything but their call edges.
fn same_apart_from_calls(a: &SymbolRow, b: &SymbolRow) -> (r: bool)
    ensures
        r == same_but_calls(a@, b@),
{
    let kind = match (a.kind, b.kind) {
        (SymbolKind::Function, SymbolKind::Function) => true,
        (SymbolKind::Class, SymbolKind::Class) => true,
        _ => false,
    };
    kind && same_text(a.file_path.as_str(), b.file_path.as_str()) && same_text(
        a.name.as_str(),
        b.name.as_str(),
    ) && same_text(a.qualified_name.as_str(), b.qualified_name.as_str()) && same_text(
        a.canonical_id.as_str(),
        b.canonical_id.as_str(),
    ) && same_text(a.scope_path.as_str(), b.scope_path.as_str()) && a.line_start == b.line_start
        && a.line_end == b.line_end && same_option(&a.signature, &b.signature) && same_option(
        &a.parent_id,
        &b.parent_id,
    )
}

/// How two lists of symbol rows differ.
pub fn rows_difference(a: &Vec<SymbolRow>, b: &Vec<SymbolRow>) -> (r: Difference)
    ensures
        r == difference_of(a.deep_view(), b.deep_view()),
{
    let ghost x = a.deep_view();
    let ghost y = b.deep_view();
    if a.len() != b.len() {
        assert(x.len() != y.len());
        return Difference::Rows;
    }
    let mut same = true;
    let mut i: usize = 0;
    while i < a.len()
        invariant
            i <= a.len(),
            a.len() == b.len(),
            x == a.deep_view(),
            y == b.deep_view(),
            forall|k: int|
                0 <= k < i ==> same_but_calls(#[trigger] x[k], y[k]) && same_but_ids(
                    x[k].calls,
                    y[k].calls,
                ),
            same ==> forall|k: int| 0 <= k < i ==> #[trigger] x[k] == y[k],
            !same ==> exists|k: int| 0 <= k < i && #[trigger] x[k] != y[k],
        decreases a.len() - i,
    {
        assert(x[i as int] == a[i as int]@);
        assert(y[i as int] == b[i as int]@);
        if !same_apart_from_calls(&a[i], &b[i]) {
            assert(x[i as int] != y[i as int]);
            return Difference::Rows;
        }
        match calls_difference(&a[i].calls, &b[i].calls) {
            Difference::Rows => {
                assert(x[i as int] != y[i as int]);
                return Difference::Rows;
            },
            Difference::Links => {
                assert(x[i as int] != y[i as int]);
                same = false;
            },
            Difference::Same => {
                assert(x[i as int] == y[i as int]);
            },
        }
        i += 1;
    }
    if same {
        assert(x =~= y);
        Difference::Same
    } else {
        Difference::Links
    }
}

/// The symbol rows that belong to the file `path`, in order.
pub fn symbols_of(symbols: &Vec<SymbolRow>, path: &str) -> (out: Vec<SymbolRow>)
    ensures
        out.deep_view() == of_file(symbols.deep_view(), path@),
{
    let ghost all = symbols.deep_view();
    let mut out: Vec<SymbolRow> = Vec::new();
    let mut i: usize = 0;
    assert(all.take(0) =~= Seq::<SymbolRowView>::empty());
    assert(out.deep_view() =~= of_file(all.take(0), path@));
    while i < symbols.len()
        invariant
            i <= symbols.len(),
            all == symbols.deep_view(),
            out.deep_view() == of_file(all.take(i as int), path@),
        decreases symbols.len() - i,
    {
        let ghost before = out.deep_view();
        proof {
            assert(all.take(i + 1).drop_last() =~= all.take(i as int));
            assert(all.take(i + 1).last() == symbols[i as int]@);
        }
        if same_text(symbols[i].file_path.as_str(), path) {
            let row = symbols[i].duplicate();
            out.push(row);
            assert(out.deep_view() =~= before.push(symbols[i as int]@));
        }
        i += 1;
    }
    assert(all.take(symbols.len() as int) =~= all);
    out
}

/// The file path of each symbol row.
pub open spec fn row_paths(symbols: Seq<SymbolRowView>) -> Seq<Seq<char>> {
    Seq::new(symbols.len(), |i: int| symbols[i].file_path)
}

/// The path of each file row.
pub open spec fn file_paths(files: Seq<FileRowView>) -> Seq<Seq<char>> {
    Seq::new(files.len(), |i: int| files[i].file_path)
}

/// The paths of a state, each once: in the order in which their symbols
/// stand, and then those of the files without symbols, in the order of the
/// file rows.
pub open spec fn paths_of(s: StoreView) -> Seq<Seq<char>> {
    distinct_in_order(row_paths(s.symbols) + file_paths(s.files))
}

/// How the rows of one file differ between two states: in their rows where
/// the file row or a symbol row differs in more than the resolutions of
/// calls, in their links where only those differ, else not at all.
pub open spec fn change_at(before: StoreView, after: StoreView, path: Seq<char>) -> Difference {
    if stored_row(before.files, path) != stored_row(after.files, path) {
        Difference::Rows
    } else {
        difference_of(of_file(before.symbols, path), of_file(after.symbols, path))
    }
}

/// The paths at which two states differ in the given way, in order.
pub open spec fn with_change(
    before: StoreView,
    after: StoreView,
    paths: Seq<Seq<char>>,
    d: Difference,
) -> Seq<Seq<char>>
    decreases paths.len(),
{
    if paths.len() == 0 {
        paths
    } else if change_at(before, after, paths.last()) == d {
        with_change(before, after, paths.drop_last(), d).push(paths.last())
    } else {
        with_change(before, after, paths.drop_last(), d)
    }
}

/// The paths of the file rows that are gone: those of `before` for which
/// `after` has no row, in order.
pub open spec fn gone(before: Seq<FileRowView>, after: Seq<FileRowView>) -> Seq<Seq<char>>
    decreases before.len(),
{
    if before.len() == 0 {
        Seq::empty()
    } else if !has_path(after, before.last().file_path) {
        gone(before.drop_last(), after).push(before.last().file_path)
    } else {
        gone(before.drop_last(), after)
    }
}

/// What is to be written after a run, by the paths of the files.
#[derive(Clone, Debug, PartialEq, Eq)]
pub struct SavePlan {
    /// The files to write anew: the file row, and its symbols and calls in
    /// the place of those it had.
    pub write: Vec<String>,
    /// The files of which only the resolutions of the calls are written.
    pub relink: Vec<String>,
    /// The files whose rows are deleted.
    pub delete: Vec<String>,
}

/// The stored row of a path.
fn row_at<'a>(store: &'a Store, path: &str) -> (r: Option<&'a FileRow>)
    requires
        store@.wf(),
    ensures
        r.deep_view() == stored_row(store@.files, path@),
{
    match store.find_file(path) {
        Some(k) => {
            proof {
                let c = index_of_path(store@.files, path@);
                assert(store@.files[c].file_path == store@.files[k as int].file_path);
                assert(c == k);
            }
            Some(&store.files[k])
        },
        None => None,
    }
}

/// How the rows of one file differ between two states.
pub fn change_of(before: &Store, after: &Store, path: &str) -> (r: Difference)
    requires
        before@.wf(),
        after@.wf(),
    ensures
        r == change_at(before@, after@, path@),
{
    let same_row = match (row_at(before, path), row_at(after, path)) {
        (Some(a), Some(b)) => same_file_row(a, b),
        (None, None) => true,
        _ => false,
    };
    if !same_row {
        return Difference::Rows;
    }
    let was = symbols_of(&before.symbols, path);
    let is = symbols_of(&after.symbols, path);
    rows_difference(&was, &is)
}

/// The paths of a state, each once.
pub fn all_paths(store: &Store) -> (r: Vec<String>)
    ensures
        r.deep_view() == paths_of(store@),
{
    let ghost rows = row_paths(store@.symbols);
    let ghost files = file_paths(store@.files);
    let mut paths: Vec<String> = Vec::new();
    let mut i: usize = 0;
    assert(paths.deep_view() =~= rows.take(0));
    while i < store.symbols.len()
        invariant
            i <= store.symbols.len(),
            rows == row_paths(store@.symbols),
            paths.deep_view() == rows.take(i as int),
        decreases store.symbols.len() - i,
    {
        let ghost so_far = paths.deep_view();
        assert(rows[i as int] == store.symbols[i as int]@.file_path);
        paths.push(store.symbols[i].file_path.clone());
        assert(paths.deep_view() =~= so_far.push(rows[i as int]));
        assert(so_far.push(rows[i as int]) =~= rows.take(i + 1));
        i += 1;
    }
    assert(rows.take(store.symbols.len() as int) =~= rows);
    assert(rows =~= rows + files.take(0));
    let mut k: usize = 0;
    while k < store.files.len()
        invariant
            k <= store.files.len(),
            rows == row_paths(store@.symbols),
            files == file_paths(store@.files),
            paths.deep_view() == rows + files.take(k as int),
        decreases store.files.len() - k,
    {
        let ghost so_far = paths.deep_view();
        assert(files[k as int] == store.files[k as int]@.file_path);
        paths.push(store.files[k].file_path.clone());
        assert(paths.deep_view() =~= so_far.push(files[k as int]));
        assert(so_far.push(files[k as int]) =~= rows + files.take(k + 1));
        k += 1;
    }
    assert(files.take(store.files.len() as int) =~= files);
    distinct_strings(&paths)
}

/// What is to be written after a run that made the state `after` of the
/// state `before`. The files whose rows differ are written anew, in the order
/// in which their symbols stand afterwards. The files whose rows differ only
/// in what their calls are resolved to are relinked. The files for which
/// there is no row any more are deleted.
pub fn save_plan(before: &Store, after: &Store) -> (plan: SavePlan)
    requires
        before@.wf(),
        after@.wf(),
    ensures
        plan.write.deep_view() == with_change(
            before@,
            after@,
            paths_of(after@),
            Difference::Rows,
        ),
        plan.relink.deep_view() == with_change(
            before@,
            after@,
            paths_of(after@),
            Difference::Links,
        ),
        plan.delete.deep_view() == gone(before@.files, after@.files),
{
    let paths = all_paths(after);
    let ghost all = paths.deep_view();
    let mut write: Vec<String> = Vec::new();
    let mut relink: Vec<String> = Vec::new();
    let mut i: usize = 0;
    assert(all.take(0) =~= Seq::<Seq<char>>::empty());
    while i < paths.len()
        invariant
            i <= paths.len(),
            all == paths.deep_view(),
            before@.wf(),
            after@.wf(),
            write.deep_view() == with_change(
                before@,
                after@,
                all.take(i as int),
                Difference::Rows,
            ),
            relink.deep_view() == with_change(
                before@,
                after@,
                all.take(i as int),
                Difference::Links,
            ),
        decreases paths.len() - i,
    {
        let ghost written = write.deep_view();
        let ghost relinked = relink.deep_view();
        proof {
            assert(all.take(i + 1).drop_last() =~= all.take(i as int));
            assert(all.take(i + 1).last() == paths[i as int]@);
        }
        match change_of(before, after, paths[i].as_str()) {
            Difference::Rows => {
                write.push(paths[i].clone());
                assert(write.deep_view() =~= written.push(paths[i as int]@));
            },
            Difference::Links => {
                relink.push(paths[i].clone());
                assert(relink.deep_view() =~= relinked.push(paths[i as int]@));
            },
            Difference::Same => {},
        }
        i += 1;
    }
    assert(all.take(paths.len() as int) =~= all);
    let ghost old_files = before@.files;
    let mut delete: Vec<String> = Vec::new();
    let mut k: usize = 0;
    assert(old_files.take(0) =~= Seq::<FileRowView>::empty());
    while k < before.files.len()
        invariant
            k <= before.files.len(),
            old_files == before@.files,
            delete.deep_view() == gone(old_files.take(k as int), after@.files),
        decreases before.files.len() - k,
    {
        let ghost deleted = delete.deep_view();
        proof {
            assert(old_files.take(k + 1).drop_last() =~= old_files.take(k as int));
            assert(old_files.take(k + 1).last() == before.files[k as int]@);
        }
        if after.find_file(before.files[k].file_path.as_str()).is_none() {
            delete.push(before.files[k].file_path.clone());
            assert(delete.deep_view() =~= deleted.push(before.files[k as int]@.file_path));
        }
        k += 1;
    }
    assert(old_files.take(before.files.len() as int) =~= old_files);
    SavePlan { write, relink, delete }
}

/// A state does not differ from itself at any path.
pub proof fn lemma_no_change(s: StoreView, paths: Seq<Seq<char>>)
    ensures
        with_change(s, s, paths, Difference::Rows) == Seq::<Seq<char>>::empty(),
        with_change(s, s, paths, Difference::Links) == Seq::<Seq<char>>::empty(),
    decreases paths.len(),
{
    if paths.len() > 0 {
        lemma_no_change(s, paths.drop_last());
    }
}

/// No file row is gone from a state that is as it was.
pub proof fn lemma_none_gone(files: Seq<FileRowView>, n: int)
    requires
        0 <= n <= files.len(),
    ensures
        gone(files.take(n), files) == Seq::<Seq<char>>::empty(),
    decreases n,
{
    if n > 0 {
        lemma_none_gone(files, n - 1);
        assert(files.take(n).drop_last() =~= files.take(n - 1));
        assert(files.take(n).last() == files[n - 1]);
        assert(has_path(files, files[n - 1].file_path));
    }
}

/// Where a run has left the state as it was, nothing is to be written.
pub proof fn lemma_nothing_to_save(s: StoreView)
    ensures
        with_change(s, s, paths_of(s), Difference::Rows) == Seq::<Seq<char>>::empty(),
        with_change(s, s, paths_of(s), Difference::Links) == Seq::<Seq<char>>::empty(),
        gone(s.files, s.files) == Seq::<Seq<char>>::empty(),
{
    lemma_no_change(s, paths_of(s));
    lemma_none_gone(s.files, s.files.len() as int);
    assert(s.files.take(s.files.len() as int) =~= s.files);
}

} // verus!
