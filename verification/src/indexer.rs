//! A run of the indexer over observed files: the change detector and the
//! extractor decide what each file becomes, the results are persisted in
//! order, and the run closes with the linking pass, orphan cleanup and the
//! linking pass once more.

use vstd::prelude::*;
use vstd::string::*;
use vstd::utf8::encode_utf8;
use crate::detector::{
    hash_tier, hash_unchanged, has_meta_backlog, meta_backlog, metadata_tier, metadata_unchanged,
    metadata_verdict, select_strategy, strategy_for, MetadataVerdict, RunCounters, Strategy,
    Tuning,
};
use crate::parser::{
    find_parser, lemma_parsed_wf, parse_source, parsed, parser_from, CompiledParser,
};
use crate::query::least;
use crate::digest::{
    content_hash, hash_of, is_sentinel, lemma_hash_is_no_sentinel, meta_hash, meta_sentinel,
};
use crate::extract::{extract, extraction};
use crate::link::{cleaned, lemma_wound_up, linked, no_dangling, wound_up};
use crate::snapshot::snapshot_of;
use crate::model::{IndexLevel, ParseResult, ParseResultView, ParseStatus};
use crate::registry::{language_for_extension, language_of};
use crate::store::{
    distinct_paths, file_row_of, has_path, index_of_path, lemma_persisted_elsewhere,
    lemma_persisted_wf, of_file, persisted, upserted, FileRow, FileRowView, Store, StoreView,
};
use crate::syntax::{
    check_matches, matches_wf, tree_wf, Capture, QueryMatch, SyntaxNodeView, SyntaxTree,
};
use crate::text::{count_lines, line_count_of, to_chars};
use crate::walker::{extension_allowed, extension_of, file_extension};

verus! {

/// A file's content with its syntax tree and the matches of its grammar's
/// capture query.
#[derive(Clone, Debug, PartialEq, Eq)]
pub struct Source {
    pub text: String,
    pub tree: SyntaxTree,
    pub matches: Vec<QueryMatch>,
}

/// What a `Source` holds, as mathematical values.
pub struct SourceView {
    pub text: Seq<char>,
    pub tree: Seq<SyntaxNodeView>,
    pub matches: Seq<Seq<Capture>>,
}

impl View for Source {
    type V = SourceView;

    open spec fn view(&self) -> SourceView {
        SourceView { text: self.text@, tree: self.tree@, matches: self.matches.deep_view() }
    }
}

impl DeepView for Source {
    type V = SourceView;

    open spec fn deep_view(&self) -> SourceView {
        self@
    }
}

impl SourceView {
    /// The tree fits the text and the matches fit the tree.
    pub open spec fn wf(self) -> bool {
        tree_wf(self.tree, self.text.len()) && matches_wf(self.matches, self.tree.len())
    }
}

/// A file as a run observes it: its reported path, its size, its
/// modification time, and its parsed content where it could be read.
#[derive(Clone, Debug, PartialEq, Eq)]
pub struct SourceFile {
    pub path: String,
    pub size: u64,
    pub mtime: i64,
    pub content: Option<Source>,
}

/// What a `SourceFile` holds, as mathematical values.
pub struct SourceFileView {
    pub path: Seq<char>,
    pub size: u64,
    pub mtime: i64,
    pub content: Option<SourceView>,
}

impl View for SourceFile {
    type V = SourceFileView;

    open spec fn view(&self) -> SourceFileView {
        SourceFileView {
            path: self.path@,
            size: self.size,
            mtime: self.mtime,
            content: self.content.deep_view(),
        }
    }
}

impl DeepView for SourceFile {
    type V = SourceFileView;

    open spec fn deep_view(&self) -> SourceFileView {
        self@
    }
}

/// The marker for a file that is left alone.
pub open spec fn skip_result(
    path: Seq<char>,
    hash: Seq<char>,
    size: u64,
    mtime: i64,
    level: IndexLevel,
) -> ParseResultView {
    ParseResultView {
        status: ParseStatus::Skipped,
        file_path: path,
        file_hash: hash,
        file_size: size,
        file_mtime: mtime,
        language: "skip"@,
        index_level: level,
        line_count: 0,
        symbols: Seq::empty(),
        calls: Seq::empty(),
    }
}

/// The result for a file that is recorded as a file row only.
pub open spec fn meta_result(path: Seq<char>, size: u64, mtime: i64) -> ParseResultView {
    ParseResultView {
        status: ParseStatus::MetaOnly,
        file_path: path,
        file_hash: meta_sentinel(size, mtime),
        file_size: size,
        file_mtime: mtime,
        language: "meta"@,
        index_level: IndexLevel::Meta,
        line_count: 0,
        symbols: Seq::empty(),
        calls: Seq::empty(),
    }
}

/// The result for a file that is parsed.
pub open spec fn parsed_result(
    path: Seq<char>,
    hash: Seq<char>,
    size: u64,
    mtime: i64,
    src: SourceView,
) -> ParseResultView {
    ParseResultView {
        status: ParseStatus::Parsed,
        file_path: path,
        file_hash: hash,
        file_size: size,
        file_mtime: mtime,
        language: extension_of(path),
        index_level: IndexLevel::Symbol,
        line_count: line_count_of(src.text) as usize,
        symbols: extraction(src.tree, src.text, src.matches).symbols,
        calls: extraction(src.tree, src.text, src.matches).calls,
    }
}

/// A file is eligible: its extension is wanted and a grammar serves it.
pub open spec fn eligible(path: Seq<char>, allowed: Seq<Seq<char>>) -> bool {
    let ext = extension_of(path);
    (allowed.len() == 0 || allowed.contains(ext)) && language_of(ext) is Some
}

/// The stored row of a path, if there is one.
pub open spec fn stored_row(db: Seq<FileRowView>, path: Seq<char>) -> Option<FileRowView> {
    if has_path(db, path) {
        Some(db[index_of_path(db, path)])
    } else {
        None
    }
}

/// A file reaches the bootstrap budget: it is eligible, the metadata tier
/// does not skip it, and the run is a bootstrap run.
pub open spec fn reaches_budget(
    stored: Option<FileRowView>,
    f: SourceFileView,
    allowed: Seq<Seq<char>>,
    strategy: Strategy,
) -> bool {
    eligible(f.path, allowed) && !metadata_unchanged(stored, f.size, f.mtime) && strategy
        == Strategy::Bootstrap
}

/// What a file becomes. A file that is not eligible is dropped. The
/// metadata tier skips it, records it at the meta level, or has it read. A
/// file that cannot be read is dropped. One whose content hash is the stored
/// one is skipped. One whose tree does not fit its text is dropped. Any
/// other is parsed.
pub open spec fn outcome(
    stored: Option<FileRowView>,
    f: SourceFileView,
    allowed: Seq<Seq<char>>,
    strategy: Strategy,
    budget: nat,
    seen: nat,
) -> Option<ParseResultView> {
    if !eligible(f.path, allowed) {
        None
    } else {
        match metadata_verdict(stored, f.size, f.mtime, strategy, budget, seen) {
            MetadataVerdict::Skip => Some(
                skip_result(f.path, stored->0.file_hash, f.size, f.mtime, stored->0.index_level),
            ),
            MetadataVerdict::MetaOnly => Some(meta_result(f.path, f.size, f.mtime)),
            MetadataVerdict::ReadContent => match f.content {
                None => None,
                Some(src) => {
                    let hash = hash_of(encode_utf8(src.text));
                    if hash_unchanged(stored, hash) {
                        Some(skip_result(f.path, hash, f.size, f.mtime, stored->0.index_level))
                    } else if !src.wf() {
                        None
                    } else {
                        Some(parsed_result(f.path, hash, f.size, f.mtime, src))
                    }
                },
            },
        }
    }
}

/// The state of a run: the indexed state and the counters.
pub struct RunState {
    pub store: StoreView,
    pub seen: nat,
    pub parsed: nat,
    pub meta: nat,
    pub skipped: nat,
}

/// The state of a run after one more outcome: a result is persisted and
/// counted by its status, and a file that reached the budget is counted as
/// seen.
pub open spec fn run_apply(st: RunState, out: Option<ParseResultView>, reaches: bool, now: u64)
    -> RunState {
    let seen = if reaches {
        st.seen + 1
    } else {
        st.seen
    };
    match out {
        None => RunState { seen: seen, ..st },
        Some(r) => RunState {
            store: persisted(st.store, r, now),
            seen: seen,
            parsed: st.parsed + (if r.status == ParseStatus::Parsed {
                1nat
            } else {
                0nat
            }),
            meta: st.meta + (if r.status == ParseStatus::MetaOnly {
                1nat
            } else {
                0nat
            }),
            skipped: st.skipped + (if r.status == ParseStatus::Skipped {
                1nat
            } else {
                0nat
            }),
        },
    }
}

/// The state of a run after one more file. `db` holds the file rows as they
/// were when the run began: the change detector decides against those.
pub open spec fn run_step(
    db: Seq<FileRowView>,
    st: RunState,
    f: SourceFileView,
    allowed: Seq<Seq<char>>,
    strategy: Strategy,
    budget: nat,
    now: u64,
) -> RunState {
    let stored = stored_row(db, f.path);
    run_apply(
        st,
        outcome(stored, f, allowed, strategy, budget, st.seen),
        reaches_budget(stored, f, allowed, strategy),
        now,
    )
}

/// The state of a run after the files, taken in order.
pub open spec fn run_files(
    s: StoreView,
    files: Seq<SourceFileView>,
    allowed: Seq<Seq<char>>,
    strategy: Strategy,
    budget: nat,
    now: u64,
) -> RunState
    decreases files.len(),
{
    if files.len() == 0 {
        RunState { store: s, seen: 0, parsed: 0, meta: 0, skipped: 0 }
    } else {
        run_step(
            s.files,
            run_files(s, files.drop_last(), allowed, strategy, budget, now),
            files.last(),
            allowed,
            strategy,
            budget,
            now,
        )
    }
}

/// The number of eligible files.
pub open spec fn count_eligible(files: Seq<SourceFileView>, allowed: Seq<Seq<char>>) -> nat
    decreases files.len(),
{
    if files.len() == 0 {
        0
    } else {
        count_eligible(files.drop_last(), allowed) + (if eligible(files.last().path, allowed) {
            1nat
        } else {
            0nat
        })
    }
}

/// What a run is asked to do.
#[derive(Clone, Debug, PartialEq, Eq)]
pub struct IndexOptions {
    pub force_full: bool,
    pub tuning: Tuning,
    pub allowed_extensions: Vec<String>,
}

/// The summary of a run.
#[derive(Clone, Copy, Debug, PartialEq, Eq, Structural)]
pub struct IndexResult {
    pub total_files: usize,
    pub parsed_files: usize,
    pub meta_files: usize,
    pub skipped_files: usize,
    pub strategy: Strategy,
}

/// The strategy of a run over `total` files from the state `s`.
pub open spec fn run_strategy(s: StoreView, force_full: bool, total: nat, huge: nat) -> Strategy {
    strategy_for(force_full, s.files.len() == 0, meta_backlog(s.files), total, huge)
}

/// The indexed state after a whole run: the files in order, then the
/// closing passes: the linking pass, orphan cleanup against the paths that
/// are `present` on disk, and the linking pass once more.
pub open spec fn indexed(
    s: StoreView,
    files: Seq<SourceFileView>,
    present: Seq<Seq<char>>,
    force_full: bool,
    tuning: Tuning,
    allowed: Seq<Seq<char>>,
    now: u64,
) -> StoreView {
    let strategy = run_strategy(s, force_full, files.len(), tuning.huge_threshold as nat);
    wound_up(run_files(s, files, allowed, strategy, tuning.parse_budget as nat, now).store, present)
}

/// Every result of the change detector and the extractor is well formed.
pub proof fn lemma_outcome_wf(
    stored: Option<FileRowView>,
    f: SourceFileView,
    allowed: Seq<Seq<char>>,
    strategy: Strategy,
    budget: nat,
    seen: nat,
)
    ensures
        outcome(stored, f, allowed, strategy, budget, seen) matches Some(r) ==> r.wf(),
{
    match outcome(stored, f, allowed, strategy, budget, seen) {
        Some(r) => {
            if r.status == ParseStatus::Parsed {
                let src = f.content->0;
                lemma_extraction_wf(src.tree, src.text, src.matches);
            }
        },
        None => {},
    }
}

/// Every symbol that extraction emits is well formed.
pub proof fn lemma_extraction_wf(
    tree: Seq<SyntaxNodeView>,
    text: Seq<char>,
    matches: Seq<Seq<Capture>>,
)
    requires
        tree_wf(tree, text.len()),
        matches_wf(matches, tree.len()),
    ensures
        forall|i: int|
            0 <= i < extraction(tree, text, matches).symbols.len() ==> (#[trigger] extraction(
                tree,
                text,
                matches,
            ).symbols[i]).wf(),
    decreases matches.len(),
{
    if matches.len() > 0 {
        let head = matches.drop_last();
        assert(matches_wf(head, tree.len())) by {
            assert forall|i: int, j: int| 0 <= i < head.len() && 0 <= j < head[i].len() implies (
            #[trigger] head[i][j]).node < tree.len() by {
                assert(matches[i][j].node < tree.len());
            }
        }
        lemma_extraction_wf(tree, text, head);
        let st = extraction(tree, text, head);
        let caps = matches.last();
        let r = crate::extract::roles_of(caps);
        assert forall|j: int| 0 <= j < caps.len() implies (#[trigger] caps[j]).node
            < tree.len() by {
            assert(matches[matches.len() - 1][j].node < tree.len());
        }
        crate::extract::lemma_roles_in_tree(caps, tree.len());
        if r.name is Some && r.def is Some {
            let d = r.def->0.node as int;
            let up = crate::extract::parent_of(tree, d);
            let name = crate::extract::node_text(text, tree[r.name->0 as int]);
            crate::extract::lemma_scope_path_ends_with_name(
                crate::extract::scope_chain(tree, text, up),
                name,
            );
            assert(crate::syntax::node_ok(tree, d, text.len()));
        }
    }
}

/// The run keeps the state well formed, and counts no more than the files
/// it has seen.
pub proof fn lemma_run_files(
    s: StoreView,
    files: Seq<SourceFileView>,
    allowed: Seq<Seq<char>>,
    strategy: Strategy,
    budget: nat,
    now: u64,
)
    requires
        s.wf(),
    ensures
        run_files(s, files, allowed, strategy, budget, now).store.wf(),
        run_files(s, files, allowed, strategy, budget, now).seen <= files.len(),
        run_files(s, files, allowed, strategy, budget, now).parsed + run_files(
            s,
            files,
            allowed,
            strategy,
            budget,
            now,
        ).meta + run_files(s, files, allowed, strategy, budget, now).skipped <= files.len(),
    decreases files.len(),
{
    if files.len() > 0 {
        lemma_run_files(s, files.drop_last(), allowed, strategy, budget, now);
        let st = run_files(s, files.drop_last(), allowed, strategy, budget, now);
        let f = files.last();
        let stored = stored_row(s.files, f.path);
        lemma_outcome_wf(stored, f, allowed, strategy, budget, st.seen);
        match outcome(stored, f, allowed, strategy, budget, st.seen) {
            Some(r) => {
                lemma_persisted_wf(st.store, r, now);
            },
            None => {},
        }
    }
}

/// A run over files that the metadata tier finds unchanged, every eligible
/// one of them, leaves the indexed state as it is and counts each eligible
/// file as skipped.
pub proof fn lemma_unchanged_run(
    s: StoreView,
    files: Seq<SourceFileView>,
    allowed: Seq<Seq<char>>,
    strategy: Strategy,
    budget: nat,
    now: u64,
)
    requires
        forall|i: int|
            0 <= i < files.len() && eligible((#[trigger] files[i]).path, allowed)
                ==> metadata_unchanged(stored_row(s.files, files[i].path), files[i].size, files[i].mtime),
    ensures
        run_files(s, files, allowed, strategy, budget, now).store == s,
        run_files(s, files, allowed, strategy, budget, now).skipped == count_eligible(
            files,
            allowed,
        ),
        run_files(s, files, allowed, strategy, budget, now).parsed == 0,
        run_files(s, files, allowed, strategy, budget, now).meta == 0,
    decreases files.len(),
{
    if files.len() > 0 {
        let head = files.drop_last();
        assert forall|i: int|
            0 <= i < head.len() && eligible(
                (#[trigger] head[i]).path,
                allowed,
            ) implies metadata_unchanged(
            stored_row(s.files, head[i].path),
            head[i].size,
            head[i].mtime,
        ) by {
            assert(head[i] == files[i]);
        }
        lemma_unchanged_run(s, head, allowed, strategy, budget, now);
        assert(files[files.len() - 1] == files.last());
    }
}

/// A file whose size and modification time are the stored ones is skipped
/// without a look at its content, whatever the run has done with the files
/// before it: the state stays as it is, and the file is counted as skipped.
/// So a change of content that keeps the size and the modification time is
/// missed until the modification time changes.
pub proof fn lemma_unchanged_metadata_skips(
    db: Seq<FileRowView>,
    st: RunState,
    f: SourceFileView,
    allowed: Seq<Seq<char>>,
    strategy: Strategy,
    budget: nat,
    now: u64,
)
    requires
        eligible(f.path, allowed),
        metadata_unchanged(stored_row(db, f.path), f.size, f.mtime),
    ensures
        run_step(db, st, f, allowed, strategy, budget, now) == (RunState {
            skipped: st.skipped + 1,
            ..st
        }),
{
}

/// In a run over any files, a file whose size and modification time are
/// the stored ones changes nothing but the count of skipped files, whatever
/// its content and whatever the files before it are.
pub proof fn lemma_unchanged_file_among_others(
    s: StoreView,
    files: Seq<SourceFileView>,
    i: int,
    allowed: Seq<Seq<char>>,
    strategy: Strategy,
    budget: nat,
    now: u64,
)
    requires
        0 <= i < files.len(),
        eligible(files[i].path, allowed),
        metadata_unchanged(stored_row(s.files, files[i].path), files[i].size, files[i].mtime),
    ensures
        run_files(s, files.take(i + 1), allowed, strategy, budget, now) == (RunState {
            skipped: run_files(s, files.take(i), allowed, strategy, budget, now).skipped + 1,
            ..run_files(s, files.take(i), allowed, strategy, budget, now)
        }),
{
    assert(files.take(i + 1).drop_last() =~= files.take(i));
    assert(files.take(i + 1).last() == files[i]);
    lemma_unchanged_metadata_skips(
        s.files,
        run_files(s, files.take(i), allowed, strategy, budget, now),
        files[i],
        allowed,
        strategy,
        budget,
        now,
    );
}

/// A file whose size and modification time are the stored ones keeps its
/// row and its symbols through a run, whatever the other files of the run
/// are and whatever its own content is now: the row keeps its hash, and the
/// symbol rows of the file, with their call edges, stay as they are.
pub proof fn lemma_unchanged_file_keeps_its_rows(
    s: StoreView,
    files: Seq<SourceFileView>,
    path: Seq<char>,
    allowed: Seq<Seq<char>>,
    strategy: Strategy,
    budget: nat,
    now: u64,
)
    requires
        s.wf(),
        forall|i: int|
            0 <= i < files.len() && (#[trigger] files[i]).path == path && eligible(path, allowed)
                ==> metadata_unchanged(stored_row(s.files, path), files[i].size, files[i].mtime),
    ensures
        stored_row(run_files(s, files, allowed, strategy, budget, now).store.files, path)
            == stored_row(s.files, path),
        of_file(run_files(s, files, allowed, strategy, budget, now).store.symbols, path) == of_file(
            s.symbols,
            path,
        ),
    decreases files.len(),
{
    if files.len() > 0 {
        let head = files.drop_last();
        let f = files.last();
        assert forall|i: int|
            0 <= i < head.len() && (#[trigger] head[i]).path == path && eligible(
                path,
                allowed,
            ) implies metadata_unchanged(stored_row(s.files, path), head[i].size, head[i].mtime) by {
            assert(head[i] == files[i]);
        }
        lemma_unchanged_file_keeps_its_rows(s, head, path, allowed, strategy, budget, now);
        lemma_run_files(s, head, allowed, strategy, budget, now);
        let st = run_files(s, head, allowed, strategy, budget, now);
        assert(files[files.len() - 1] == f);
        match outcome(stored_row(s.files, f.path), f, allowed, strategy, budget, st.seen) {
            Some(r) => {
                if f.path == path {
                    assert(r.status == ParseStatus::Skipped);
                } else if r.status != ParseStatus::Skipped {
                    lemma_upserted_rows(st.store.files, file_row_of(r, now), path);
                    lemma_persisted_elsewhere(st.store, r, now, path);
                }
            },
            None => {},
        }
    }
}

/// The row of a path after an upsert of a row with that path is that row,
/// and the row of any other path is the one it was.
pub proof fn lemma_upserted_rows(files: Seq<FileRowView>, row: FileRowView, path: Seq<char>)
    requires
        distinct_paths(files),
    ensures
        distinct_paths(upserted(files, row)),
        stored_row(upserted(files, row), row.file_path) == Some(row),
        path != row.file_path ==> stored_row(upserted(files, row), path) == stored_row(files, path),
{
    let after = upserted(files, row);
    let at = if has_path(files, row.file_path) {
        index_of_path(files, row.file_path)
    } else {
        files.len() as int
    };
    assert(0 <= at < after.len() && after[at] == row);
    assert forall|a: int| 0 <= a < after.len() && a != at implies #[trigger] after[a] == files[a]
        && files[a].file_path != row.file_path by {
        if has_path(files, row.file_path) {
        }
    }
    assert(distinct_paths(after));
    assert(has_path(after, row.file_path));
    if path != row.file_path {
        if has_path(files, path) {
            let k = index_of_path(files, path);
            assert(after[k].file_path == path);
            assert(has_path(after, path));
            let m = index_of_path(after, path);
            assert(m != at);
            assert(files[m].file_path == path);
            assert(m == k);
        } else if has_path(after, path) {
            let m = index_of_path(after, path);
            assert(m != at);
            assert(files[m].file_path == path);
        }
    }
}

/// A file that is recorded at the meta level is taken up to the symbol
/// level by a run that has budget left for it, where its text can be read
/// and parsed: the file is counted as parsed, and its row is then at the
/// symbol level, with the hash of the content in the place of the sentinel.
pub proof fn lemma_meta_row_is_upgraded(
    db: Seq<FileRowView>,
    st: RunState,
    f: SourceFileView,
    allowed: Seq<Seq<char>>,
    strategy: Strategy,
    budget: nat,
    now: u64,
)
    requires
        distinct_paths(st.store.files),
        eligible(f.path, allowed),
        at_meta_level(db, f.path),
        has_sound_content(f),
        strategy == Strategy::Bootstrap ==> st.seen < budget,
    ensures
        run_step(db, st, f, allowed, strategy, budget, now).parsed == st.parsed + 1,
        run_step(db, st, f, allowed, strategy, budget, now).meta == st.meta,
        stored_row(
            run_step(db, st, f, allowed, strategy, budget, now).store.files,
            f.path,
        ) matches Some(row) && row.index_level == IndexLevel::Symbol && row.file_hash == hash_of(
            encode_utf8(f.content->0.text),
        ),
{
    let src = f.content->0;
    let hash = hash_of(encode_utf8(src.text));
    lemma_hash_is_no_sentinel(encode_utf8(src.text));
    let r = parsed_result(f.path, hash, f.size, f.mtime, src);
    assert(outcome(stored_row(db, f.path), f, allowed, strategy, budget, st.seen) == Some(r));
    lemma_upserted_rows(st.store.files, file_row_of(r, now), f.path);
}

/// The row of the path is at the symbol level.
pub open spec fn at_symbol_level(files: Seq<FileRowView>, path: Seq<char>) -> bool {
    stored_row(files, path) matches Some(row) && row.index_level == IndexLevel::Symbol
}

/// The row of the path is at the meta level, with a sentinel in the place
/// of the hash.
pub open spec fn at_meta_level(files: Seq<FileRowView>, path: Seq<char>) -> bool {
    stored_row(files, path) matches Some(row) && row.index_level == IndexLevel::Meta
        && is_sentinel(row.file_hash)
}

/// The text of the file was read, and its tree fits it.
pub open spec fn has_sound_content(f: SourceFileView) -> bool {
    f.content matches Some(src) && src.wf()
}

/// The number of files that the metadata tier finds unchanged.
pub open spec fn count_unchanged(db: Seq<FileRowView>, files: Seq<SourceFileView>) -> nat
    decreases files.len(),
{
    if files.len() == 0 {
        0
    } else {
        count_unchanged(db, files.drop_last()) + (if metadata_unchanged(
            stored_row(db, files.last().path),
            files.last().size,
            files.last().mtime,
        ) {
            1nat
        } else {
            0nat
        })
    }
}

/// A run with budget for every file clears the backlog of a bootstrap run.
/// The files are eligible; each is either unchanged by its size and
/// modification time, or recorded at the meta level with a text that can be
/// read and parsed. Then the unchanged files are skipped, all others are
/// parsed, none is recorded at the meta level, and the row of every file is
/// at the symbol level afterwards.
pub proof fn lemma_backlog_is_cleared(
    s: StoreView,
    files: Seq<SourceFileView>,
    allowed: Seq<Seq<char>>,
    strategy: Strategy,
    budget: nat,
    now: u64,
)
    requires
        s.wf(),
        files.len() <= budget,
        forall|i: int|
            0 <= i < files.len() ==> eligible((#[trigger] files[i]).path, allowed) && (
            metadata_unchanged(stored_row(s.files, files[i].path), files[i].size, files[i].mtime)
                || (at_meta_level(s.files, files[i].path) && has_sound_content(files[i]))),
    ensures
        run_files(s, files, allowed, strategy, budget, now).skipped == count_unchanged(
            s.files,
            files,
        ),
        run_files(s, files, allowed, strategy, budget, now).parsed == files.len()
            - count_unchanged(s.files, files),
        run_files(s, files, allowed, strategy, budget, now).meta == 0,
        run_files(s, files, allowed, strategy, budget, now).seen <= files.len(),
        distinct_paths(run_files(s, files, allowed, strategy, budget, now).store.files),
        forall|path: Seq<char>|
            at_symbol_level(s.files, path) ==> #[trigger] at_symbol_level(
                run_files(s, files, allowed, strategy, budget, now).store.files,
                path,
            ),
        forall|i: int|
            0 <= i < files.len() ==> at_symbol_level(
                run_files(s, files, allowed, strategy, budget, now).store.files,
                (#[trigger] files[i]).path,
            ),
    decreases files.len(),
{
    if files.len() > 0 {
        let head = files.drop_last();
        let f = files.last();
        assert forall|i: int| 0 <= i < head.len() implies eligible(
            (#[trigger] head[i]).path,
            allowed,
        ) && (metadata_unchanged(stored_row(s.files, head[i].path), head[i].size, head[i].mtime)
            || (at_meta_level(s.files, head[i].path) && has_sound_content(head[i]))) by {
            assert(head[i] == files[i]);
        }
        lemma_backlog_is_cleared(s, head, allowed, strategy, budget, now);
        let st = run_files(s, head, allowed, strategy, budget, now);
        let after = run_step(s.files, st, f, allowed, strategy, budget, now);
        assert(files[files.len() - 1] == f);
        if metadata_unchanged(stored_row(s.files, f.path), f.size, f.mtime) {
            lemma_unchanged_metadata_skips(s.files, st, f, allowed, strategy, budget, now);
            assert(at_symbol_level(s.files, f.path));
            assert forall|i: int| 0 <= i < files.len() implies at_symbol_level(
                after.store.files,
                (#[trigger] files[i]).path,
            ) by {
                if i < head.len() {
                    assert(head[i] == files[i]);
                }
            }
        } else {
            lemma_meta_row_is_upgraded(s.files, st, f, allowed, strategy, budget, now);
            let src = f.content->0;
            let r = parsed_result(f.path, hash_of(encode_utf8(src.text)), f.size, f.mtime, src);
            lemma_hash_is_no_sentinel(encode_utf8(src.text));
            assert(after.store.files == upserted(st.store.files, file_row_of(r, now)));
            assert forall|path: Seq<char>| at_symbol_level(s.files, path) implies #[trigger] at_symbol_level(
                after.store.files,
                path,
            ) by {
                lemma_upserted_rows(st.store.files, file_row_of(r, now), path);
                assert(at_symbol_level(st.store.files, path));
            }
            assert forall|i: int| 0 <= i < files.len() implies at_symbol_level(
                after.store.files,
                (#[trigger] files[i]).path,
            ) by {
                lemma_upserted_rows(st.store.files, file_row_of(r, now), files[i].path);
                if files[i].path != f.path {
                    assert(head[i] == files[i]);
                }
            }
        }
    }
}

/// The bootstrap budget cuts off exactly: in a bootstrap run in which the
/// metadata tier skips no file, every eligible file reaches the budget, and
/// those beyond the budget, and no others, are recorded at the meta level.
pub proof fn lemma_bootstrap_budget(
    s: StoreView,
    files: Seq<SourceFileView>,
    allowed: Seq<Seq<char>>,
    budget: nat,
    now: u64,
)
    requires
        forall|i: int|
            0 <= i < files.len() ==> !metadata_unchanged(
                stored_row(s.files, (#[trigger] files[i]).path),
                files[i].size,
                files[i].mtime,
            ),
    ensures
        run_files(s, files, allowed, Strategy::Bootstrap, budget, now).seen == count_eligible(
            files,
            allowed,
        ),
        run_files(s, files, allowed, Strategy::Bootstrap, budget, now).meta == (if count_eligible(
            files,
            allowed,
        ) > budget {
            count_eligible(files, allowed) - budget
        } else {
            0
        }),
        run_files(s, files, allowed, Strategy::Bootstrap, budget, now).skipped + run_files(
            s,
            files,
            allowed,
            Strategy::Bootstrap,
            budget,
            now,
        ).parsed <= least(count_eligible(files, allowed), budget),
    decreases files.len(),
{
    if files.len() > 0 {
        let head = files.drop_last();
        assert forall|i: int| 0 <= i < head.len() implies !metadata_unchanged(
            stored_row(s.files, (#[trigger] head[i]).path),
            head[i].size,
            head[i].mtime,
        ) by {
            assert(head[i] == files[i]);
        }
        lemma_bootstrap_budget(s, head, allowed, budget, now);
        assert(files[files.len() - 1] == files.last());
    }
}

/// A bootstrap run over new files parses as many as the budget allows and
/// records the others: where every file is eligible and has no stored row,
/// and the text of each file within the budget can be read and parsed, the
/// first files up to the budget are parsed, all others are recorded at the
/// meta level, and none is skipped.
pub proof fn lemma_bootstrap_counts(
    s: StoreView,
    files: Seq<SourceFileView>,
    allowed: Seq<Seq<char>>,
    budget: nat,
    now: u64,
)
    requires
        forall|i: int|
            0 <= i < files.len() ==> eligible((#[trigger] files[i]).path, allowed) && stored_row(
                s.files,
                files[i].path,
            ) is None && (i < budget ==> has_sound_content(files[i])),
    ensures
        run_files(s, files, allowed, Strategy::Bootstrap, budget, now).seen == files.len(),
        run_files(s, files, allowed, Strategy::Bootstrap, budget, now).parsed == least(
            files.len(),
            budget,
        ),
        run_files(s, files, allowed, Strategy::Bootstrap, budget, now).meta == files.len() - least(
            files.len(),
            budget,
        ),
        run_files(s, files, allowed, Strategy::Bootstrap, budget, now).skipped == 0,
    decreases files.len(),
{
    if files.len() > 0 {
        let head = files.drop_last();
        assert forall|i: int| 0 <= i < head.len() implies eligible(
            (#[trigger] head[i]).path,
            allowed,
        ) && stored_row(s.files, head[i].path) is None && (i < budget ==> has_sound_content(
            head[i],
        )) by {
            assert(head[i] == files[i]);
        }
        lemma_bootstrap_counts(s, head, allowed, budget, now);
        assert(files[files.len() - 1] == files.last());
    }
}

/// A whole run over unchanged files is a no-op on a state that an earlier
/// run has settled: one on which the linking pass and orphan cleanup change
/// nothing.
pub proof fn lemma_rerun_is_noop(
    s: StoreView,
    files: Seq<SourceFileView>,
    present: Seq<Seq<char>>,
    force_full: bool,
    tuning: Tuning,
    allowed: Seq<Seq<char>>,
    now: u64,
)
    requires
        forall|i: int|
            0 <= i < files.len() && eligible((#[trigger] files[i]).path, allowed)
                ==> metadata_unchanged(stored_row(s.files, files[i].path), files[i].size, files[i].mtime),
        linked(s) == s,
        cleaned(s, present) == s,
    ensures
        indexed(s, files, present, force_full, tuning, allowed, now) == s,
{
    let strategy = run_strategy(s, force_full, files.len(), tuning.huge_threshold as nat);
    lemma_unchanged_run(s, files, allowed, strategy, tuning.parse_budget as nat, now);
}

/// Running again after a run, over files that the metadata tier finds
/// unchanged and against the same paths on disk, is a no-op: the closing
/// passes leave a state that neither linking nor orphan cleanup changes.
pub proof fn lemma_rerun_after_run(
    s: StoreView,
    first: Seq<SourceFileView>,
    files: Seq<SourceFileView>,
    present: Seq<Seq<char>>,
    force_full: bool,
    tuning: Tuning,
    allowed: Seq<Seq<char>>,
    then: u64,
    now: u64,
)
    requires
        s.wf(),
        forall|i: int|
            0 <= i < files.len() && eligible((#[trigger] files[i]).path, allowed)
                ==> metadata_unchanged(
                stored_row(
                    indexed(s, first, present, force_full, tuning, allowed, then).files,
                    files[i].path,
                ),
                files[i].size,
                files[i].mtime,
            ),
    ensures
        indexed(
            indexed(s, first, present, force_full, tuning, allowed, then),
            files,
            present,
            force_full,
            tuning,
            allowed,
            now,
        ) == indexed(s, first, present, force_full, tuning, allowed, then),
        run_files(
            indexed(s, first, present, force_full, tuning, allowed, then),
            files,
            allowed,
            run_strategy(
                indexed(s, first, present, force_full, tuning, allowed, then),
                force_full,
                files.len(),
                tuning.huge_threshold as nat,
            ),
            tuning.parse_budget as nat,
            now,
        ).skipped == count_eligible(files, allowed),
{
    let after = indexed(s, first, present, force_full, tuning, allowed, then);
    let strategy = run_strategy(s, force_full, first.len(), tuning.huge_threshold as nat);
    lemma_run_files(s, first, allowed, strategy, tuning.parse_budget as nat, then);
    lemma_wound_up(
        run_files(s, first, allowed, strategy, tuning.parse_budget as nat, then).store,
        present,
    );
    lemma_rerun_is_noop(after, files, present, force_full, tuning, allowed, now);
    lemma_unchanged_run(
        after,
        files,
        allowed,
        run_strategy(after, force_full, files.len(), tuning.huge_threshold as nat),
        tuning.parse_budget as nat,
        now,
    );
}

/// Running again after a run, over files that the metadata tier finds
/// unchanged and against the same paths on disk, leaves the snapshot as it
/// is.
pub proof fn lemma_snapshot_after_rerun(
    s: StoreView,
    first: Seq<SourceFileView>,
    files: Seq<SourceFileView>,
    present: Seq<Seq<char>>,
    force_full: bool,
    tuning: Tuning,
    allowed: Seq<Seq<char>>,
    then: u64,
    now: u64,
)
    requires
        s.wf(),
        forall|i: int|
            0 <= i < files.len() && eligible((#[trigger] files[i]).path, allowed)
                ==> metadata_unchanged(
                stored_row(
                    indexed(s, first, present, force_full, tuning, allowed, then).files,
                    files[i].path,
                ),
                files[i].size,
                files[i].mtime,
            ),
    ensures
        snapshot_of(
            indexed(
                indexed(s, first, present, force_full, tuning, allowed, then),
                files,
                present,
                force_full,
                tuning,
                allowed,
                now,
            ).symbols,
        ) == snapshot_of(indexed(s, first, present, force_full, tuning, allowed, then).symbols),
{
    lemma_rerun_after_run(s, first, files, present, force_full, tuning, allowed, then, now);
}

/// What one file becomes in a run: `None` where it is dropped.
pub fn process_file(
    stored: Option<&FileRow>,
    f: &SourceFile,
    allowed: &Vec<String>,
    strategy: Strategy,
    budget: usize,
    seen: usize,
) -> (r: Option<ParseResult>)
    ensures
        r.deep_view() == outcome(
            stored.deep_view(),
            f@,
            allowed.deep_view(),
            strategy,
            budget as nat,
            seen as nat,
        ),
        r matches Some(x) ==> x@.wf(),
{
    proof {
        lemma_outcome_wf(
            stored.deep_view(),
            f@,
            allowed.deep_view(),
            strategy,
            budget as nat,
            seen as nat,
        );
    }
    let ext = file_extension(f.path.as_str());
    if !extension_allowed(ext.as_str(), allowed) {
        return None;
    }
    if language_for_extension(ext.as_str()).is_none() {
        return None;
    }
    match metadata_tier(stored, f.size, f.mtime, strategy, budget, seen) {
        MetadataVerdict::Skip => {
            match stored {
                Some(row) => {
                    let r = ParseResult {
                        status: ParseStatus::Skipped,
                        file_path: f.path.clone(),
                        file_hash: row.file_hash.clone(),
                        file_size: f.size,
                        file_mtime: f.mtime,
                        language: String::from_str("skip"),
                        index_level: row.index_level,
                        line_count: 0,
                        symbols: Vec::new(),
                        calls: Vec::new(),
                    };
                    assert(r@.symbols =~= Seq::empty());
                    assert(r@.calls =~= Seq::empty());
                    Some(r)
                },
                None => None,
            }
        },
        MetadataVerdict::MetaOnly => {
            let r = ParseResult {
                status: ParseStatus::MetaOnly,
                file_path: f.path.clone(),
                file_hash: meta_hash(f.size, f.mtime),
                file_size: f.size,
                file_mtime: f.mtime,
                language: String::from_str("meta"),
                index_level: IndexLevel::Meta,
                line_count: 0,
                symbols: Vec::new(),
                calls: Vec::new(),
            };
            assert(r@.symbols =~= Seq::empty());
            assert(r@.calls =~= Seq::empty());
            Some(r)
        },
        MetadataVerdict::ReadContent => {
            match &f.content {
                None => None,
                Some(src) => {
                    let hash = content_hash(src.text.as_str());
                    if hash_tier(stored, hash.as_str()) {
                        match stored {
                            Some(row) => {
                                let r = ParseResult {
                                    status: ParseStatus::Skipped,
                                    file_path: f.path.clone(),
                                    file_hash: hash,
                                    file_size: f.size,
                                    file_mtime: f.mtime,
                                    language: String::from_str("skip"),
                                    index_level: row.index_level,
                                    line_count: 0,
                                    symbols: Vec::new(),
                                    calls: Vec::new(),
                                };
                                assert(r@.symbols =~= Seq::empty());
                                assert(r@.calls =~= Seq::empty());
                                Some(r)
                            },
                            None => None,
                        }
                    } else {
                        let chars = to_chars(src.text.as_str());
                        if !src.tree.check(chars.len()) || !check_matches(
                            &src.matches,
                            src.tree.nodes.len(),
                        ) {
                            return None;
                        }
                        let (symbols, calls) = extract(&src.tree, src.text.as_str(), &src.matches);
                        let r = ParseResult {
                            status: ParseStatus::Parsed,
                            file_path: f.path.clone(),
                            file_hash: hash,
                            file_size: f.size,
                            file_mtime: f.mtime,
                            language: ext,
                            index_level: IndexLevel::Symbol,
                            line_count: count_lines(&chars),
                            symbols,
                            calls,
                        };
                        Some(r)
                    }
                },
            }
        },
    }
}

/// Whether a file reaches the bootstrap budget.
pub fn budget_reached(
    stored: Option<&FileRow>,
    path: &str,
    size: u64,
    mtime: i64,
    allowed: &Vec<String>,
    strategy: Strategy,
) -> (r: bool)
    ensures
        r == (eligible(path@, allowed.deep_view()) && !metadata_unchanged(
            stored.deep_view(),
            size,
            mtime,
        ) && strategy == Strategy::Bootstrap),
{
    match strategy {
        Strategy::Bootstrap => {
            let ext = file_extension(path);
            let wanted = extension_allowed(ext.as_str(), allowed) && language_for_extension(
                ext.as_str(),
            ).is_some();
            let verdict = metadata_tier(stored, size, mtime, strategy, 0, 0);
            wanted && match verdict {
                MetadataVerdict::Skip => false,
                _ => true,
            }
        },
        _ => false,
    }
}

/// The counters as the state of a run holds them.
pub open spec fn counted(store: StoreView, c: RunCounters) -> RunState {
    RunState {
        store: store,
        seen: c.seen as nat,
        parsed: c.parsed as nat,
        meta: c.meta as nat,
        skipped: c.skipped as nat,
    }
}

/// Takes one outcome into the run: a result is persisted and counted.
pub fn apply_outcome(
    store: &mut Store,
    counters: &mut RunCounters,
    result: Option<ParseResult>,
    reaches: bool,
    now: u64,
)
    requires
        old(store)@.wf(),
        result matches Some(r) ==> r@.wf(),
        old(counters).seen < usize::MAX,
        old(counters).parsed < usize::MAX,
        old(counters).meta < usize::MAX,
        old(counters).skipped < usize::MAX,
    ensures
        counted(final(store)@, *final(counters)) == run_apply(
            counted(old(store)@, *old(counters)),
            result.deep_view(),
            reaches,
            now,
        ),
        final(store)@.wf(),
{
    if reaches {
        counters.seen = counters.seen + 1;
    }
    match result {
        Some(r) => {
            match r.status {
                ParseStatus::Parsed => {
                    counters.parsed = counters.parsed + 1;
                },
                ParseStatus::MetaOnly => {
                    counters.meta = counters.meta + 1;
                },
                ParseStatus::Skipped => {
                    counters.skipped = counters.skipped + 1;
                },
            }
            store.persist(&r, now);
        },
        None => {},
    }
}

/// A copy of the file rows, for the change detector to decide against.
fn file_snapshot(store: &Store) -> (snapshot: Store)
    ensures
        snapshot@.files == store@.files,
{
    let ghost start = store@;
    let mut db: Vec<FileRow> = Vec::new();
    let mut d: usize = 0;
    while d < store.files.len()
        invariant
            d <= store.files.len(),
            start == store@,
            db.deep_view() == start.files.take(d as int),
        decreases store.files.len() - d,
    {
        let ghost before = db.deep_view();
        let row = store.files[d].duplicate();
        assert(row@ == start.files[d as int]);
        db.push(row);
        assert(db.deep_view() =~= before.push(start.files[d as int]));
        d += 1;
        assert(db.deep_view() =~= start.files.take(d as int));
    }
    assert(start.files.take(start.files.len() as int) =~= start.files);
    Store { files: db, symbols: Vec::new() }
}

/// The row that the snapshot holds for a path.
fn stored_in<'a>(snapshot: &'a Store, path: &str) -> (r: Option<&'a FileRow>)
    requires
        crate::store::distinct_paths(snapshot@.files),
    ensures
        r.deep_view() == stored_row(snapshot@.files, path@),
{
    match snapshot.find_file(path) {
        Some(k) => {
            proof {
                let c = index_of_path(snapshot@.files, path@);
                assert(snapshot@.files[c].file_path == snapshot@.files[k as int].file_path);
                assert(c == k);
            }
            Some(&snapshot.files[k])
        },
        None => None,
    }
}

/// Runs the indexer over files that are parsed already. `present` holds the
/// stored paths that exist on disk when the run closes. The state becomes
/// what the files in order and then the closing passes make of it: the
/// linking pass, orphan cleanup, and the linking pass once more. The summary
/// counts what was parsed, recorded at the meta level and skipped.
pub fn index_sources(
    store: &mut Store,
    files: &Vec<SourceFile>,
    present: &Vec<String>,
    options: &IndexOptions,
    now: u64,
) -> (summary: IndexResult)
    requires
        old(store)@.wf(),
    ensures
        final(store)@ == indexed(
            old(store)@,
            files.deep_view(),
            present.deep_view(),
            options.force_full,
            options.tuning,
            options.allowed_extensions.deep_view(),
            now,
        ),
        final(store)@.wf(),
        no_dangling(final(store)@.symbols),
        forall|i: int|
            0 <= i < final(store)@.files.len() ==> present.deep_view().contains(
                (#[trigger] final(store)@.files[i]).file_path,
            ),
        summarizes(
            summary,
            old(store)@,
            files.deep_view(),
            options.force_full,
            options.tuning,
            options.allowed_extensions.deep_view(),
            now,
        ),
{
    let ghost start = store@;
    let ghost all = files.deep_view();
    let ghost allowed = options.allowed_extensions.deep_view();
    let ghost budget = options.tuning.parse_budget as nat;
    let initial_build = store.files.len() == 0;
    let backlog = has_meta_backlog(&store.files);
    let strategy = select_strategy(
        options.force_full,
        initial_build,
        backlog,
        files.len(),
        options.tuning.huge_threshold,
    );
    let snapshot = file_snapshot(store);
    let mut counters = RunCounters::new();
    let mut i: usize = 0;
    assert(all.take(0) =~= Seq::<SourceFileView>::empty());
    while i < files.len()
        invariant
            i <= files.len(),
            all == files.deep_view(),
            allowed == options.allowed_extensions.deep_view(),
            budget == options.tuning.parse_budget as nat,
            start.wf(),
            store@.wf(),
            snapshot@.files == start.files,
            counted(store@, counters) == run_files(
                start,
                all.take(i as int),
                allowed,
                strategy,
                budget,
                now,
            ),
        decreases files.len() - i,
    {
        let f = &files[i];
        proof {
            assert(all.take(i + 1).drop_last() =~= all.take(i as int));
            assert(all.take(i + 1).last() == f@);
            lemma_run_files(start, all.take(i as int), allowed, strategy, budget, now);
        }
        let stored = stored_in(&snapshot, f.path.as_str());
        let result = process_file(
            stored,
            f,
            &options.allowed_extensions,
            strategy,
            options.tuning.parse_budget,
            counters.seen,
        );
        let reaches = budget_reached(
            stored,
            f.path.as_str(),
            f.size,
            f.mtime,
            &options.allowed_extensions,
            strategy,
        );
        apply_outcome(store, &mut counters, result, reaches, now);
        i += 1;
    }
    assert(all.take(files.len() as int) =~= all);
    let ghost ran = store@;
    store.link();
    store.remove_orphans(present);
    store.link();
    proof {
        lemma_wound_up(ran, present.deep_view());
    }
    IndexResult {
        total_files: files.len(),
        parsed_files: counters.parsed,
        meta_files: counters.meta,
        skipped_files: counters.skipped,
        strategy,
    }
}

/// The summary is that of a run over the files from the state `s`.
pub open spec fn summarizes(
    summary: IndexResult,
    s: StoreView,
    files: Seq<SourceFileView>,
    force_full: bool,
    tuning: Tuning,
    allowed: Seq<Seq<char>>,
    now: u64,
) -> bool {
    let strategy = run_strategy(s, force_full, files.len(), tuning.huge_threshold as nat);
    let end = run_files(s, files, allowed, strategy, tuning.parse_budget as nat, now);
    &&& summary.total_files == files.len()
    &&& summary.strategy == strategy
    &&& summary.parsed_files == end.parsed
    &&& summary.meta_files == end.meta
    &&& summary.skipped_files == end.skipped
}

/// A file as a run finds it on disk: its reported path, its size, its
/// modification time, and its text where it could be read.
#[derive(Clone, Debug, PartialEq, Eq)]
pub struct RawFile {
    pub path: String,
    pub size: u64,
    pub mtime: i64,
    pub text: Option<String>,
}

/// What a `RawFile` holds, as mathematical values.
pub struct RawFileView {
    pub path: Seq<char>,
    pub size: u64,
    pub mtime: i64,
    pub text: Option<Seq<char>>,
}

impl View for RawFile {
    type V = RawFileView;

    open spec fn view(&self) -> RawFileView {
        RawFileView {
            path: self.path@,
            size: self.size,
            mtime: self.mtime,
            text: self.text.deep_view(),
        }
    }
}

impl DeepView for RawFile {
    type V = RawFileView;

    open spec fn deep_view(&self) -> RawFileView {
        self@
    }
}

/// The text of a file is needed: the file is eligible, and the metadata
/// tier neither skips it nor records it at the meta level.
pub open spec fn text_needed(
    stored: Option<FileRowView>,
    raw: RawFileView,
    allowed: Seq<Seq<char>>,
    strategy: Strategy,
    budget: nat,
    seen: nat,
) -> bool {
    eligible(raw.path, allowed) && metadata_verdict(
        stored,
        raw.size,
        raw.mtime,
        strategy,
        budget,
        seen,
    ) == MetadataVerdict::ReadContent
}

/// The content by which a file is seen whose text is the stored one by its
/// hash: the text, with no tree.
pub open spec fn unparsed(text: Seq<char>) -> SourceView {
    SourceView { text: text, tree: Seq::empty(), matches: Seq::empty() }
}

/// What the parsers make of the text of a file: the parsed source under
/// the first parser that serves the extension of its path, and nothing where
/// no parser serves it.
pub open spec fn parsed_by(parsers: Seq<CompiledParser>, path: Seq<char>, text: Seq<char>)
    -> Option<SourceView> {
    match parser_from(parsers, extension_of(path), 0) {
        Some(i) => parsed(parsers[i].grammar, parsers[i].query, text),
        None => None,
    }
}

/// The content by which a run sees a file on disk. There is none where the
/// text is not needed or not there. Where the text has the stored hash, it is
/// the text with no tree. Else it is what the parsers make of the text.
pub open spec fn content_seen(
    raw: RawFileView,
    stored: Option<FileRowView>,
    parsers: Seq<CompiledParser>,
    allowed: Seq<Seq<char>>,
    strategy: Strategy,
    budget: nat,
    seen: nat,
) -> Option<SourceView> {
    if !text_needed(stored, raw, allowed, strategy, budget, seen) || raw.text is None {
        None
    } else if hash_unchanged(stored, hash_of(encode_utf8(raw.text->0))) {
        Some(unparsed(raw.text->0))
    } else {
        parsed_by(parsers, raw.path, raw.text->0)
    }
}

/// The content by which a run sees a file is sound where there is any: it
/// holds the text of the file, and its tree and its matches fit the text.
pub proof fn lemma_content_seen_is_sound(
    raw: RawFileView,
    stored: Option<FileRowView>,
    parsers: Seq<CompiledParser>,
    allowed: Seq<Seq<char>>,
    strategy: Strategy,
    budget: nat,
    seen: nat,
)
    ensures
        content_seen(raw, stored, parsers, allowed, strategy, budget, seen) matches Some(src)
            ==> src.wf() && Some(src.text) == raw.text,
{
    if content_seen(raw, stored, parsers, allowed, strategy, budget, seen) is Some {
        if hash_unchanged(stored, hash_of(encode_utf8(raw.text->0))) {
        } else {
            let i = parser_from(parsers, extension_of(raw.path), 0)->0;
            lemma_parsed_wf(parsers[i].grammar, parsers[i].query, raw.text->0);
        }
    }
}

/// A file on disk as a run sees it: with its path, size and modification
/// time, and the content by which the run sees it.
pub open spec fn source_seen(
    raw: RawFileView,
    stored: Option<FileRowView>,
    parsers: Seq<CompiledParser>,
    allowed: Seq<Seq<char>>,
    strategy: Strategy,
    budget: nat,
    seen: nat,
) -> SourceFileView {
    SourceFileView {
        path: raw.path,
        size: raw.size,
        mtime: raw.mtime,
        content: content_seen(raw, stored, parsers, allowed, strategy, budget, seen),
    }
}

/// A file on disk uses up one of the budget of a bootstrap run: it is
/// eligible, and the metadata tier does not skip it.
pub open spec fn uses_budget(
    db: Seq<FileRowView>,
    raw: RawFileView,
    allowed: Seq<Seq<char>>,
    strategy: Strategy,
) -> bool {
    eligible(raw.path, allowed) && !metadata_unchanged(
        stored_row(db, raw.path),
        raw.size,
        raw.mtime,
    ) && strategy == Strategy::Bootstrap
}

/// How much of the budget the files use up: the number of them that use
/// one of it.
pub open spec fn used_by(
    db: Seq<FileRowView>,
    raw: Seq<RawFileView>,
    allowed: Seq<Seq<char>>,
    strategy: Strategy,
) -> nat
    decreases raw.len(),
{
    if raw.len() == 0 {
        0
    } else {
        used_by(db, raw.drop_last(), allowed, strategy) + (if uses_budget(
            db,
            raw.last(),
            allowed,
            strategy,
        ) {
            1nat
        } else {
            0nat
        })
    }
}

/// The files on disk as a run against the stored rows `db` sees them, one
/// for one and in order: each is seen against its stored row, and with as
/// much of the budget used as the files before it use up.
pub open spec fn sources_seen(
    raw: Seq<RawFileView>,
    db: Seq<FileRowView>,
    parsers: Seq<CompiledParser>,
    allowed: Seq<Seq<char>>,
    strategy: Strategy,
    budget: nat,
) -> Seq<SourceFileView> {
    Seq::new(
        raw.len(),
        |i: int|
            source_seen(
                raw[i],
                stored_row(db, raw[i].path),
                parsers,
                allowed,
                strategy,
                budget,
                used_by(db, raw.take(i), allowed, strategy),
            ),
    )
}

/// A run has used as much of the budget after the files as the files use
/// up: the count that the run keeps is the count of `used_by`.
pub proof fn lemma_seen_is_used(
    raw: Seq<RawFileView>,
    s: StoreView,
    parsers: Seq<CompiledParser>,
    allowed: Seq<Seq<char>>,
    strategy: Strategy,
    budget: nat,
    now: u64,
    n: int,
)
    requires
        0 <= n <= raw.len(),
    ensures
        run_files(
            s,
            sources_seen(raw, s.files, parsers, allowed, strategy, budget).take(n),
            allowed,
            strategy,
            budget,
            now,
        ).seen == used_by(s.files, raw.take(n), allowed, strategy),
    decreases n,
{
    let all = sources_seen(raw, s.files, parsers, allowed, strategy, budget);
    if n > 0 {
        lemma_seen_is_used(raw, s, parsers, allowed, strategy, budget, now, n - 1);
        assert(all.take(n).drop_last() =~= all.take(n - 1));
        assert(all.take(n).last() == all[n - 1]);
        assert(raw.take(n).drop_last() =~= raw.take(n - 1));
        assert(raw.take(n).last() == raw[n - 1]);
    }
}

/// How much of the budget of a bootstrap run is used when the run comes to
/// each file: for each file, the number of files before it that use one of
/// the budget.
pub fn budget_used(
    store: &Store,
    files: &Vec<RawFile>,
    allowed: &Vec<String>,
    strategy: Strategy,
) -> (used: Vec<usize>)
    requires
        store@.wf(),
    ensures
        used.len() == files.len(),
        forall|i: int|
            0 <= i < used.len() ==> #[trigger] used[i] == used_by(
                store@.files,
                files.deep_view().take(i),
                allowed.deep_view(),
                strategy,
            ),
{
    let ghost raw = files.deep_view();
    let ghost db = store@.files;
    let mut used: Vec<usize> = Vec::new();
    let mut seen: usize = 0;
    let mut i: usize = 0;
    while i < files.len()
        invariant
            i <= files.len(),
            raw == files.deep_view(),
            db == store@.files,
            store@.wf(),
            used.len() == i,
            seen <= i,
            seen == used_by(db, raw.take(i as int), allowed.deep_view(), strategy),
            forall|k: int|
                0 <= k < i ==> #[trigger] used[k] == used_by(
                    db,
                    raw.take(k),
                    allowed.deep_view(),
                    strategy,
                ),
        decreases files.len() - i,
    {
        let file = &files[i];
        used.push(seen);
        let stored = stored_in(store, file.path.as_str());
        proof {
            assert(raw[i as int] == file@);
            assert(raw.take(i + 1).drop_last() =~= raw.take(i as int));
            assert(raw.take(i + 1).last() == file@);
        }
        if budget_reached(stored, file.path.as_str(), file.size, file.mtime, allowed, strategy) {
            seen += 1;
        }
        i += 1;
    }
    used
}

/// Whether the text of a file is needed.
pub fn needs_text(
    stored: Option<&FileRow>,
    raw: &RawFile,
    allowed: &Vec<String>,
    strategy: Strategy,
    budget: usize,
    seen: usize,
) -> (r: bool)
    ensures
        r == text_needed(
            stored.deep_view(),
            raw@,
            allowed.deep_view(),
            strategy,
            budget as nat,
            seen as nat,
        ),
{
    let ext = file_extension(raw.path.as_str());
    let wanted = extension_allowed(ext.as_str(), allowed) && language_for_extension(
        ext.as_str(),
    ).is_some();
    wanted && match metadata_tier(stored, raw.size, raw.mtime, strategy, budget, seen) {
        MetadataVerdict::ReadContent => true,
        _ => false,
    }
}

/// A file on disk as far as the run needs to see it: it is parsed only
/// where the change detector asks for its symbols. A file whose text is not
/// needed or not there is seen without content; a file that is skipped by
/// its hash is seen with its text and no tree; any other file is seen with
/// what the parser for its extension makes of its text.
pub fn observe(
    stored: Option<&FileRow>,
    raw: &RawFile,
    parsers: &Vec<CompiledParser>,
    allowed: &Vec<String>,
    strategy: Strategy,
    budget: usize,
    seen: usize,
) -> (f: SourceFile)
    ensures
        f@ == source_seen(
            raw@,
            stored.deep_view(),
            parsers@,
            allowed.deep_view(),
            strategy,
            budget as nat,
            seen as nat,
        ),
{
    let read = needs_text(stored, raw, allowed, strategy, budget, seen);
    let content: Option<Source> = if !read {
        None
    } else {
        match &raw.text {
            None => None,
            Some(text) => {
                let hash = content_hash(text.as_str());
                if hash_tier(stored, hash.as_str()) {
                    let src = Source {
                        text: text.clone(),
                        tree: SyntaxTree { nodes: Vec::new() },
                        matches: Vec::new(),
                    };
                    assert(src@.tree =~= Seq::empty());
                    assert(src@.matches =~= Seq::empty());
                    Some(src)
                } else {
                    let ext = file_extension(raw.path.as_str());
                    match find_parser(parsers, ext.as_str()) {
                        Some(parser) => parse_source(parser, text.as_str()),
                        None => None,
                    }
                }
            },
        }
    };
    SourceFile { path: raw.path.clone(), size: raw.size, mtime: raw.mtime, content }
}

/// Runs the indexer over the files found on disk, parsing those that the
/// change detector does not skip. `present` holds the stored paths that
/// exist on disk when the run closes. The state and the summary are those
/// of a run over the files as the run sees them, each with what the parser
/// for its extension makes of its text.
pub fn run_indexer(
    store: &mut Store,
    files: &Vec<RawFile>,
    present: &Vec<String>,
    parsers: &Vec<CompiledParser>,
    options: &IndexOptions,
    now: u64,
) -> (summary: IndexResult)
    requires
        old(store)@.wf(),
    ensures
        final(store)@ == indexed(
            old(store)@,
            sources_seen(
                files.deep_view(),
                old(store)@.files,
                parsers@,
                options.allowed_extensions.deep_view(),
                run_strategy(
                    old(store)@,
                    options.force_full,
                    files.len() as nat,
                    options.tuning.huge_threshold as nat,
                ),
                options.tuning.parse_budget as nat,
            ),
            present.deep_view(),
            options.force_full,
            options.tuning,
            options.allowed_extensions.deep_view(),
            now,
        ),
        summarizes(
            summary,
            old(store)@,
            sources_seen(
                files.deep_view(),
                old(store)@.files,
                parsers@,
                options.allowed_extensions.deep_view(),
                run_strategy(
                    old(store)@,
                    options.force_full,
                    files.len() as nat,
                    options.tuning.huge_threshold as nat,
                ),
                options.tuning.parse_budget as nat,
            ),
            options.force_full,
            options.tuning,
            options.allowed_extensions.deep_view(),
            now,
        ),
        final(store)@.wf(),
        no_dangling(final(store)@.symbols),
        forall|i: int|
            0 <= i < final(store)@.files.len() ==> present.deep_view().contains(
                (#[trigger] final(store)@.files[i]).file_path,
            ),
        summary.total_files == files.len(),
        summary.strategy == run_strategy(
            old(store)@,
            options.force_full,
            files.len() as nat,
            options.tuning.huge_threshold as nat,
        ),
{
    let ghost start = store@;
    let ghost raw = files.deep_view();
    let ghost allowed = options.allowed_extensions.deep_view();
    let ghost budget = options.tuning.parse_budget as nat;
    let initial_build = store.files.len() == 0;
    let backlog = has_meta_backlog(&store.files);
    let strategy = select_strategy(
        options.force_full,
        initial_build,
        backlog,
        files.len(),
        options.tuning.huge_threshold,
    );
    let snapshot = file_snapshot(store);
    let mut counters = RunCounters::new();
    let ghost mut parsed: Seq<SourceFileView> = Seq::empty();
    let mut i: usize = 0;
    while i < files.len()
        invariant
            i <= files.len(),
            raw == files.deep_view(),
            allowed == options.allowed_extensions.deep_view(),
            budget == options.tuning.parse_budget as nat,
            start.wf(),
            store@.wf(),
            snapshot@.files == start.files,
            parsed.len() == i,
            parsed == sources_seen(raw, start.files, parsers@, allowed, strategy, budget).take(
                i as int,
            ),
            counted(store@, counters) == run_files(start, parsed, allowed, strategy, budget, now),
        decreases files.len() - i,
    {
        let file = &files[i];
        let stored = stored_in(&snapshot, file.path.as_str());
        proof {
            lemma_run_files(start, parsed, allowed, strategy, budget, now);
            lemma_seen_is_used(raw, start, parsers@, allowed, strategy, budget, now, i as int);
            assert(raw[i as int] == file@);
        }
        let f = observe(
            stored,
            file,
            parsers,
            &options.allowed_extensions,
            strategy,
            options.tuning.parse_budget,
            counters.seen,
        );
        let result = process_file(
            stored,
            &f,
            &options.allowed_extensions,
            strategy,
            options.tuning.parse_budget,
            counters.seen,
        );
        let reaches = budget_reached(
            stored,
            f.path.as_str(),
            f.size,
            f.mtime,
            &options.allowed_extensions,
            strategy,
        );
        proof {
            let all = sources_seen(raw, start.files, parsers@, allowed, strategy, budget);
            let grown = parsed.push(f@);
            assert(grown.drop_last() =~= parsed);
            assert(grown.last() == f@);
            assert(all[i as int] == f@);
            assert(grown =~= all.take(i + 1));
            parsed = grown;
        }
        apply_outcome(store, &mut counters, result, reaches, now);
        i += 1;
    }
    let ghost ran = store@;
    store.link();
    store.remove_orphans(present);
    store.link();
    proof {
        lemma_wound_up(ran, present.deep_view());
    }
    let summary = IndexResult {
        total_files: files.len(),
        parsed_files: counters.parsed,
        meta_files: counters.meta,
        skipped_files: counters.skipped,
        strategy,
    };
    proof {
        let all = sources_seen(raw, start.files, parsers@, allowed, strategy, budget);
        assert(all.take(files.len() as int) =~= all);
        assert(summarizes(
            summary,
            start,
            parsed,
            options.force_full,
            options.tuning,
            allowed,
            now,
        ));
    }
    summary
}

} // verus!
