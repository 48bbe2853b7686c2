use ast_indexer::detector::{
    has_meta_backlog, hash_tier, heartbeat_due, heartbeat_text, metadata_tier, note_mutation,
    select_strategy,
    MetadataVerdict, RunCounters, Strategy, Tuning, BATCH_SIZE, DEFAULT_HUGE_THRESHOLD,
    DEFAULT_PARSE_BUDGET,
};
use ast_indexer::model::IndexLevel;
use ast_indexer::store::FileRow;

fn row(path: &str, hash: &str, size: u64, mtime: i64, level: IndexLevel) -> FileRow {
    FileRow {
        file_path: path.to_string(),
        file_hash: hash.to_string(),
        file_size: size,
        file_mtime: mtime,
        language: "py".to_string(),
        line_count: 1,
        index_level: level,
        indexed_at: 1,
        updated_at: 1,
    }
}

#[test]
fn tunables_have_their_defaults() {
    let t = Tuning::from_settings(None, None);
    assert_eq!(t.huge_threshold, 50000);
    assert_eq!(t.parse_budget, 5000);
    assert_eq!(DEFAULT_HUGE_THRESHOLD, 50000);
    assert_eq!(DEFAULT_PARSE_BUDGET, 5000);
    let u = Tuning::from_settings(Some(4), Some(2));
    assert_eq!(u.huge_threshold, 4);
    assert_eq!(u.parse_budget, 2);
}

#[test]
fn strategy_selection() {
    assert_eq!(select_strategy(true, true, true, 100000, 50000), Strategy::ForceFull);
    assert_eq!(select_strategy(true, false, false, 1, 50000), Strategy::ForceFull);
    assert_eq!(select_strategy(false, true, false, 50001, 50000), Strategy::Bootstrap);
    assert_eq!(select_strategy(false, false, true, 50001, 50000), Strategy::Bootstrap);
    assert_eq!(select_strategy(false, true, true, 50000, 50000), Strategy::FullOrIncremental);
    assert_eq!(select_strategy(false, false, false, 50001, 50000), Strategy::FullOrIncremental);
    assert_eq!(select_strategy(false, true, false, 0, 50000), Strategy::FullOrIncremental);
}

#[test]
fn strategy_names() {
    assert_eq!(Strategy::ForceFull.name(), "force_full");
    assert_eq!(Strategy::Bootstrap.name(), "bootstrap");
    assert_eq!(Strategy::FullOrIncremental.name(), "full_or_incremental");
}

#[test]
fn meta_backlog_is_any_meta_row() {
    assert!(!has_meta_backlog(&Vec::new()));
    assert!(!has_meta_backlog(&vec![row("a.py", "h", 1, 1, IndexLevel::Symbol)]));
    assert!(has_meta_backlog(&vec![
        row("a.py", "h", 1, 1, IndexLevel::Symbol),
        row("b.py", "meta:1:1", 1, 1, IndexLevel::Meta),
    ]));
}

#[test]
fn metadata_tier_skips_unchanged_symbol_rows() {
    let stored = row("a.py", "h", 10, 20, IndexLevel::Symbol);
    let s = Strategy::FullOrIncremental;
    assert_eq!(metadata_tier(Some(&stored), 10, 20, s, 5000, 0), MetadataVerdict::Skip);
    assert_eq!(metadata_tier(Some(&stored), 11, 20, s, 5000, 0), MetadataVerdict::ReadContent);
    assert_eq!(metadata_tier(Some(&stored), 10, 21, s, 5000, 0), MetadataVerdict::ReadContent);
    assert_eq!(metadata_tier(None, 10, 20, s, 5000, 0), MetadataVerdict::ReadContent);
}

#[test]
fn metadata_tier_does_not_skip_meta_rows() {
    let stored = row("a.py", "meta:10:20", 10, 20, IndexLevel::Meta);
    assert_eq!(
        metadata_tier(Some(&stored), 10, 20, Strategy::FullOrIncremental, 5000, 0),
        MetadataVerdict::ReadContent
    );
}

#[test]
fn content_change_that_keeps_size_and_mtime_is_missed() {
    let stored = row("a.py", "hash-of-old-content", 10, 20, IndexLevel::Symbol);
    assert_eq!(
        metadata_tier(Some(&stored), 10, 20, Strategy::FullOrIncremental, 5000, 0),
        MetadataVerdict::Skip
    );
    assert!(!hash_tier(Some(&stored), "hash-of-new-content"));
}

#[test]
fn bootstrap_budget_cuts_off_exactly() {
    let s = Strategy::Bootstrap;
    assert_eq!(metadata_tier(None, 1, 1, s, 2, 0), MetadataVerdict::ReadContent);
    assert_eq!(metadata_tier(None, 1, 1, s, 2, 1), MetadataVerdict::ReadContent);
    assert_eq!(metadata_tier(None, 1, 1, s, 2, 2), MetadataVerdict::MetaOnly);
    assert_eq!(metadata_tier(None, 1, 1, s, 2, 3), MetadataVerdict::MetaOnly);
    assert_eq!(metadata_tier(None, 1, 1, Strategy::ForceFull, 2, 3), MetadataVerdict::ReadContent);
    assert_eq!(
        metadata_tier(None, 1, 1, Strategy::FullOrIncremental, 2, 3),
        MetadataVerdict::ReadContent
    );
    let stored = row("a.py", "h", 1, 1, IndexLevel::Symbol);
    assert_eq!(metadata_tier(Some(&stored), 1, 1, s, 2, 9), MetadataVerdict::Skip);
}

#[test]
fn hash_tier_compares_with_the_stored_hash() {
    let stored = row("a.py", "abc", 10, 20, IndexLevel::Symbol);
    assert!(hash_tier(Some(&stored), "abc"));
    assert!(!hash_tier(Some(&stored), "abd"));
    assert!(!hash_tier(None, "abc"));
}

#[test]
fn heartbeat_is_due_every_tenth_result() {
    assert!(heartbeat_due(10));
    assert!(heartbeat_due(20));
    assert!(!heartbeat_due(1));
    assert!(!heartbeat_due(19));
    assert!(heartbeat_due(0));
}

#[test]
fn batch_is_committed_every_three_hundred_mutations() {
    assert_eq!(BATCH_SIZE, 300);
    let mut changed: usize = 0;
    let mut commits = 0;
    for i in 1..=900 {
        let commit = note_mutation(&mut changed);
        assert_eq!(commit, i % 300 == 0, "at {}", i);
        if commit {
            commits += 1;
            assert_eq!(changed, 0);
        }
    }
    assert_eq!(commits, 3);
}

#[test]
fn counters_start_at_zero() {
    let c = RunCounters::new();
    assert_eq!(c.seen + c.parsed + c.meta + c.skipped, 0);
}

#[test]
fn batch_count_recovers_from_any_value() {
    let mut changed: usize = 299;
    assert!(note_mutation(&mut changed));
    assert_eq!(changed, 0);
    let mut wild: usize = usize::MAX;
    assert!(note_mutation(&mut wild));
    assert_eq!(wild, 0);
    let mut one: usize = 0;
    assert!(!note_mutation(&mut one));
    assert_eq!(one, 1);
}

#[test]
fn heartbeat_text_holds_time_and_progress() {
    assert_eq!(
        heartbeat_text(1700000000, 20, 345),
        "{\"timestamp\": 1700000000, \"processed\": 20, \"total\": 345}"
    );
    assert_eq!(heartbeat_text(0, 0, 0), "{\"timestamp\": 0, \"processed\": 0, \"total\": 0}");
}
