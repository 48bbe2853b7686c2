//! The policy of a run: which indexing strategy applies, and for each file
//! whether it is skipped, recorded at the meta level, or read and parsed.

use vstd::prelude::*;
use vstd::string::*;
use crate::model::IndexLevel;
use crate::store::{FileRow, FileRowView};
use crate::text::{decimal, decimal_string, same_text};

verus! {

/// The huge-repository threshold that applies where none is configured.
pub const DEFAULT_HUGE_THRESHOLD: usize = 50000;

/// The bootstrap parse budget that applies where none is configured.
pub const DEFAULT_PARSE_BUDGET: usize = 5000;

/// The number of mutated files after which a batch is committed.
pub const BATCH_SIZE: usize = 300;

/// The number of processed results after which a heartbeat is due.
pub const HEARTBEAT_EVERY: usize = 10;

/// How a run treats the files that it does not skip.
#[derive(Clone, Copy, Debug, PartialEq, Eq, Structural)]
pub enum Strategy {
    ForceFull,
    Bootstrap,
    FullOrIncremental,
}

/// The two tunables of a run.
#[derive(Clone, Copy, Debug, PartialEq, Eq, Structural)]
pub struct Tuning {
    pub huge_threshold: usize,
    pub parse_budget: usize,
}

impl Tuning {
    /// The tunables, each with its default where it is not configured.
    pub fn from_settings(huge_threshold: Option<usize>, parse_budget: Option<usize>) -> (t: Tuning)
        ensures
            t.huge_threshold == (match huge_threshold {
                Some(v) => v,
                None => DEFAULT_HUGE_THRESHOLD,
            }),
            t.parse_budget == (match parse_budget {
                Some(v) => v,
                None => DEFAULT_PARSE_BUDGET,
            }),
    {
        Tuning {
            huge_threshold: match huge_threshold {
                Some(v) => v,
                None => DEFAULT_HUGE_THRESHOLD,
            },
            parse_budget: match parse_budget {
                Some(v) => v,
                None => DEFAULT_PARSE_BUDGET,
            },
        }
    }
}

/// The strategy of a run: a forced full parse where the caller asks for
/// one; else bootstrap where the project is larger than the threshold and
/// the index is new or holds meta rows; else a full or incremental parse.
pub open spec fn strategy_for(
    force_full: bool,
    initial_build: bool,
    has_meta_backlog: bool,
    total_files: nat,
    huge_threshold: nat,
) -> Strategy {
    if force_full {
        Strategy::ForceFull
    } else if (initial_build || has_meta_backlog) && total_files > huge_threshold {
        Strategy::Bootstrap
    } else {
        Strategy::FullOrIncremental
    }
}

/// Some file row is at the meta level.
pub open spec fn meta_backlog(files: Seq<FileRowView>) -> bool {
    exists|i: int| 0 <= i < files.len() && (#[trigger] files[i]).index_level == IndexLevel::Meta
}

/// Selects the strategy of a run.
pub fn select_strategy(
    force_full: bool,
    initial_build: bool,
    has_meta_backlog: bool,
    total_files: usize,
    huge_threshold: usize,
) -> (s: Strategy)
    ensures
        s == strategy_for(
            force_full,
            initial_build,
            has_meta_backlog,
            total_files as nat,
            huge_threshold as nat,
        ),
{
    if force_full {
        Strategy::ForceFull
    } else if (initial_build || has_meta_backlog) && total_files > huge_threshold {
        Strategy::Bootstrap
    } else {
        Strategy::FullOrIncremental
    }
}

/// Whether some stored file is at the meta level.
pub fn has_meta_backlog(files: &Vec<FileRow>) -> (r: bool)
    ensures
        r == meta_backlog(files.deep_view()),
{
    let mut i: usize = 0;
    while i < files.len()
        invariant
            i <= files.len(),
            forall|k: int|
                0 <= k < i ==> (#[trigger] files.deep_view()[k]).index_level != IndexLevel::Meta,
        decreases files.len() - i,
    {
        match files[i].index_level {
            IndexLevel::Meta => {
                assert(files.deep_view()[i as int].index_level == IndexLevel::Meta);
                return true;
            },
            IndexLevel::Symbol => {},
        }
        i += 1;
    }
    false
}

impl Strategy {
    /// The strategy's name as the run summary records it.
    pub fn name(&self) -> (r: &'static str)
        ensures
            r@ == (match *self {
                Strategy::ForceFull => "force_full"@,
                Strategy::Bootstrap => "bootstrap"@,
                Strategy::FullOrIncremental => "full_or_incremental"@,
            }),
    {
        match self {
            Strategy::ForceFull => "force_full",
            Strategy::Bootstrap => "bootstrap",
            Strategy::FullOrIncremental => "full_or_incremental",
        }
    }
}

/// The metadata tier finds the file unchanged: it is stored at the symbol
/// level with the same size and the same modification time. A change of
/// content that keeps both is not seen here.
pub open spec fn metadata_unchanged(stored: Option<FileRowView>, size: u64, mtime: i64) -> bool {
    stored matches Some(row) && row.index_level == IndexLevel::Symbol && row.file_size == size
        && row.file_mtime == mtime
}

/// The hash tier finds the file unchanged: its content hash is the stored
/// one.
pub open spec fn hash_unchanged(stored: Option<FileRowView>, hash: Seq<char>) -> bool {
    stored matches Some(row) && row.file_hash == hash
}

/// What the metadata tier decides for a file.
#[derive(Clone, Copy, Debug, PartialEq, Eq, Structural)]
pub enum MetadataVerdict {
    /// Unchanged by size and modification time: skipped without a read.
    Skip,
    /// Past the bootstrap budget: recorded as a file row only.
    MetaOnly,
    /// To be read, hashed and, if changed, parsed.
    ReadContent,
}

/// The decision of the metadata tier. `seen` is the number of files that
/// reached the budget before this one in a bootstrap run.
pub open spec fn metadata_verdict(
    stored: Option<FileRowView>,
    size: u64,
    mtime: i64,
    strategy: Strategy,
    parse_budget: nat,
    seen: nat,
) -> MetadataVerdict {
    if metadata_unchanged(stored, size, mtime) {
        MetadataVerdict::Skip
    } else if strategy == Strategy::Bootstrap && seen >= parse_budget {
        MetadataVerdict::MetaOnly
    } else {
        MetadataVerdict::ReadContent
    }
}

/// The metadata tier: decides from the stored row, the size and the
/// modification time alone.
pub fn metadata_tier(
    stored: Option<&FileRow>,
    size: u64,
    mtime: i64,
    strategy: Strategy,
    parse_budget: usize,
    seen: usize,
) -> (v: MetadataVerdict)
    ensures
        v == metadata_verdict(
            stored.deep_view(),
            size,
            mtime,
            strategy,
            parse_budget as nat,
            seen as nat,
        ),
{
    let unchanged = match stored {
        Some(row) => {
            let symbol_level = match row.index_level {
                IndexLevel::Symbol => true,
                IndexLevel::Meta => false,
            };
            symbol_level && row.file_size == size && row.file_mtime == mtime
        },
        None => false,
    };
    let bootstrap = match strategy {
        Strategy::Bootstrap => true,
        _ => false,
    };
    if unchanged {
        MetadataVerdict::Skip
    } else if bootstrap && seen >= parse_budget {
        MetadataVerdict::MetaOnly
    } else {
        MetadataVerdict::ReadContent
    }
}

/// The hash tier: whether the content hash equals the stored one.
pub fn hash_tier(stored: Option<&FileRow>, hash: &str) -> (unchanged: bool)
    ensures
        unchanged == hash_unchanged(stored.deep_view(), hash@),
{
    match stored {
        Some(row) => same_text(row.file_hash.as_str(), hash),
        None => false,
    }
}

/// The counters of a run.
#[derive(Clone, Copy, Debug, PartialEq, Eq, Structural)]
pub struct RunCounters {
    /// Files that reached the budget in a bootstrap run.
    pub seen: usize,
    pub parsed: usize,
    pub meta: usize,
    pub skipped: usize,
}

impl RunCounters {
    /// The counters at the start of a run.
    pub fn new() -> (c: RunCounters)
        ensures
            c == (RunCounters { seen: 0, parsed: 0, meta: 0, skipped: 0 }),
    {
        RunCounters { seen: 0, parsed: 0, meta: 0, skipped: 0 }
    }
}

/// Whether a heartbeat is due after `processed` results: after every tenth.
pub fn heartbeat_due(processed: usize) -> (due: bool)
    ensures
        due == (processed % HEARTBEAT_EVERY == 0),
{
    processed % HEARTBEAT_EVERY == 0
}

/// Counts one more mutated file, and says whether the batch is to be
/// committed now: with every 300th mutated file, when the count starts
/// again.
pub fn note_mutation(changed_in_batch: &mut usize) -> (commit: bool)
    ensures
        commit == (*old(changed_in_batch) + 1 >= BATCH_SIZE),
        *final(changed_in_batch) == (if commit {
            0
        } else {
            *old(changed_in_batch) + 1
        }),
{
    if *changed_in_batch >= BATCH_SIZE - 1 {
        *changed_in_batch = 0;
        true
    } else {
        *changed_in_batch = *changed_in_batch + 1;
        false
    }
}

/// The text of a heartbeat: the time, the number of results processed and
/// the number of files in all.
pub open spec fn heartbeat_of(timestamp: u64, processed: usize, total: usize) -> Seq<char> {
    "{\"timestamp\": "@ + decimal(timestamp as nat) + ", \"processed\": "@ + decimal(
        processed as nat,
    ) + ", \"total\": "@ + decimal(total as nat) + "}"@
}

/// The text of a heartbeat.
pub fn heartbeat_text(timestamp: u64, processed: usize, total: usize) -> (r: String)
    ensures
        r@ == heartbeat_of(timestamp, processed, total),
{
    let mut s = String::from_str("{\"timestamp\": ");
    let a = decimal_string(timestamp);
    s.append(a.as_str());
    s.append(", \"processed\": ");
    let b = decimal_string(processed as u64);
    s.append(b.as_str());
    s.append(", \"total\": ");
    let c = decimal_string(total as u64);
    s.append(c.as_str());
    s.append("}");
    s
}

} // verus!
