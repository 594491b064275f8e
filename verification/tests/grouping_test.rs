use moves_together::changed_file::ChangedFile;
use moves_together::cli::Args;
use moves_together::commit::Commit;
use moves_together::coupling::{CouplingStat, Key};
use moves_together::delta::Delta;
use moves_together::errors::Error;
use moves_together::filters::within_time_limit;
use moves_together::hash;
use moves_together::statistics::{truncate_timestamp, Statistics, Strategy};

fn delta(id: &str, timestamp: i64, files: &[&str]) -> Delta {
    Delta::new(
        hash::Hash::new(id),
        timestamp,
        files.iter().map(|f| ChangedFile::new(f)).collect(),
    )
}

#[test]
fn deltas_three_minutes_apart_merge_under_a_five_minute_window() {
    let window = Strategy::CommitTime(5 * 60);
    let statistics = Statistics::default()
        .add_delta(&delta("first", 600, &["file_a"]), &window)
        .add_delta(&delta("second", 780, &["file_b"]), &window);

    assert_eq!(statistics.hash_to_delta.len(), 1);
    let (key, merged) = &statistics.hash_to_delta[0];
    assert_eq!(*key, hash::Hash::new("600"));
    assert_eq!(merged.hash(), hash::Hash::new("600"));
    assert_eq!(merged.timestamp(), 600);
    let names: Vec<String> = merged.files().iter().map(|f| f.display_name()).collect();
    assert_eq!(names, vec!["file_a", "file_b"]);

    // the bucket's earlier, pre-merge unit stays on record for file_a:
    // only the keyed entry is replaced, the per-file sets never shrink
    let coupling = statistics.coupling();
    assert_eq!(
        coupling.result,
        vec![CouplingStat {
            key: Key::new(ChangedFile::new("file_a"), ChangedFile::new("file_b")),
            together: 1,
            total: 2,
        }]
    );
}

#[test]
fn the_same_deltas_stay_distinct_under_identity_grouping() {
    let statistics = Statistics::default()
        .add_delta(&delta("first", 600, &["file_a"]), &Strategy::Hash)
        .add_delta(&delta("second", 780, &["file_b"]), &Strategy::Hash);

    assert_eq!(statistics.hash_to_delta.len(), 2);
    assert!(statistics.coupling().is_empty());
}

#[test]
fn truncation_rounds_down_to_the_bucket_start() {
    assert_eq!(truncate_timestamp(780, 300), 600);
    assert_eq!(truncate_timestamp(600, 300), 600);
    assert_eq!(truncate_timestamp(899, 300), 600);
    assert_eq!(truncate_timestamp(900, 300), 900);
    assert_eq!(truncate_timestamp(-10, 60), -60);
    assert_eq!(truncate_timestamp(-60, 60), -60);
}

#[test]
fn bucket_identifiers_render_in_decimal() {
    assert_eq!(hash::Hash::from_timestamp(0), hash::Hash::new("0"));
    assert_eq!(
        hash::Hash::from_timestamp(987_654_321),
        hash::Hash::new("987654321")
    );
    assert_eq!(hash::Hash::from_timestamp(-1234), hash::Hash::new("-1234"));
    assert_eq!(
        hash::Hash::from_timestamp(i64::MIN),
        hash::Hash::new("-9223372036854775808")
    );
}

#[test]
fn a_missing_window_means_identity_grouping() {
    let args = Args { git_repo: vec![".".to_string()], max_days_ago: None, time_window_minutes: None };
    assert_eq!(args.strategy(), Ok(Strategy::Hash));
}

#[test]
fn a_positive_window_is_measured_in_seconds() {
    let args = Args {
        git_repo: vec![".".to_string()],
        max_days_ago: None,
        time_window_minutes: Some(10),
    };
    assert_eq!(args.strategy(), Ok(Strategy::CommitTime(600)));
}

#[test]
fn a_non_positive_window_is_a_configuration_error() {
    let zero = Args { git_repo: vec![], max_days_ago: None, time_window_minutes: Some(0) };
    assert_eq!(zero.strategy(), Err(Error::TimeWindow(0)));
    let negative = Args { git_repo: vec![], max_days_ago: None, time_window_minutes: Some(-5) };
    assert_eq!(negative.strategy(), Err(Error::TimeWindow(-5)));
    let too_wide = Args { git_repo: vec![], max_days_ago: None, time_window_minutes: Some(i64::MAX) };
    assert_eq!(too_wide.strategy(), Err(Error::TimeWindow(i64::MAX)));
}

#[test]
fn the_age_filter_keeps_commits_younger_than_the_limit() {
    let commit = Commit::new(hash::Hash::new("c"), vec![], 1_000);
    assert!(within_time_limit(None, 2_000_000, &commit));
    assert!(within_time_limit(Some(1), 1_000 + 86_399, &commit));
    assert!(!within_time_limit(Some(1), 1_000 + 86_400, &commit));
}

#[test]
fn replaying_the_same_identity_delta_replaces_its_entry() {
    let statistics = Statistics::default()
        .add_delta(&delta("same", 100, &["old_file"]), &Strategy::Hash)
        .add_delta(&delta("same", 100, &["new_file"]), &Strategy::Hash);
    assert_eq!(statistics.hash_to_delta.len(), 1);
    let names: Vec<String> = statistics.hash_to_delta[0]
        .1
        .files()
        .iter()
        .map(|f| f.display_name())
        .collect();
    assert_eq!(names, vec!["new_file"]);
}

#[test]
fn an_empty_index_reports_no_coupling() {
    let coupling = Statistics::default().coupling();
    assert!(coupling.is_empty());
    assert_eq!(coupling.len(), 0);
    assert_eq!(coupling.ranked(), Vec::new());
}

#[test]
fn the_largest_timestamp_still_renders() {
    assert_eq!(
        hash::Hash::from_timestamp(i64::MAX),
        hash::Hash::new("9223372036854775807")
    );
}
