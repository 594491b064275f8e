use moves_together::changed_file::ChangedFile;
use moves_together::coupling::{CouplingStat, Key};
use moves_together::delta::Delta;
use moves_together::hash;
use moves_together::statistics::{Statistics, Strategy};

fn delta(id: &str, timestamp: i64, files: &[&str]) -> Delta {
    Delta::new(
        hash::Hash::new(id),
        timestamp,
        files.iter().map(|f| ChangedFile::new(f)).collect(),
    )
}

fn stat(left: &str, right: &str, together: usize, total: usize) -> CouplingStat {
    CouplingStat {
        key: Key::new(ChangedFile::new(left), ChangedFile::new(right)),
        together,
        total,
    }
}

#[test]
fn adding_one_file_to_statistics_will_give_a_count_of_zero() {
    let statistics = Statistics::default();
    let actual = statistics.add_delta(&delta("Id", 1_600_000_000, &["file_1"]), &Strategy::Hash);
    assert_eq!(actual.coupling().result, Vec::new());
}

#[test]
fn a_file_two_files_at_the_same_time_twice_is_full_coupling() {
    let statistics = Statistics::default();
    let actual = statistics
        .add_delta(&delta("1", 1_600_000_000, &["file_1", "file_2"]), &Strategy::Hash)
        .add_delta(&delta("2", 1_600_000_001, &["file_1", "file_2"]), &Strategy::Hash)
        .add_delta(&delta("3", 1_600_000_002, &["file_1", "file_2"]), &Strategy::Hash);
    let coupling = actual.coupling();
    assert_eq!(coupling.result, vec![stat("file_1", "file_2", 3, 3)]);
    let score = (coupling.result[0].together as f64) / (coupling.result[0].total as f64);
    assert_eq!(score, 1.0);
}

#[test]
fn more_complex_coupling() {
    let statistics = Statistics::default();
    let actual = statistics
        .add_delta(&delta("1", 1_600_000_000, &["file_1", "file_2"]), &Strategy::Hash)
        .add_delta(&delta("2", 1_600_000_001, &["file_3", "file_2"]), &Strategy::Hash)
        .add_delta(&delta("3", 1_600_000_002, &["file_3", "file_2"]), &Strategy::Hash)
        .add_delta(&delta("4", 1_600_000_003, &["file_3", "file_5"]), &Strategy::Hash)
        .add_delta(&delta("5", 1_600_000_004, &["file_3", "file_1"]), &Strategy::Hash)
        .add_delta(&delta("6", 1_600_000_005, &["file_1", "file_2"]), &Strategy::Hash);
    let coupling = actual.coupling();
    assert_eq!(
        coupling.result,
        vec![
            stat("file_1", "file_2", 2, 5),
            stat("file_1", "file_3", 1, 6),
            stat("file_2", "file_3", 2, 6),
            stat("file_3", "file_5", 1, 4),
        ]
    );
    let scores: Vec<f64> = coupling
        .result
        .iter()
        .map(|s| (s.together as f64) / (s.total as f64))
        .collect();
    assert_eq!(
        scores,
        vec![0.4, 0.166_666_666_666_666_66, 0.333_333_333_333_333_3, 0.25]
    );
}

#[test]
fn ranked_order_prefers_high_rank_and_breaks_ties_by_key() {
    let statistics = Statistics::default()
        .add_delta(&delta("1", 1_600_000_000, &["file_1", "file_2"]), &Strategy::Hash)
        .add_delta(&delta("2", 1_600_000_001, &["file_3", "file_2"]), &Strategy::Hash)
        .add_delta(&delta("3", 1_600_000_002, &["file_3", "file_2"]), &Strategy::Hash)
        .add_delta(&delta("4", 1_600_000_003, &["file_3", "file_5"]), &Strategy::Hash)
        .add_delta(&delta("5", 1_600_000_004, &["file_3", "file_1"]), &Strategy::Hash)
        .add_delta(&delta("6", 1_600_000_005, &["file_1", "file_2"]), &Strategy::Hash);
    let ranked = statistics.coupling().ranked();
    assert_eq!(
        ranked,
        vec![
            stat("file_1", "file_2", 2, 5),
            stat("file_2", "file_3", 2, 6),
            stat("file_1", "file_3", 1, 6),
            stat("file_3", "file_5", 1, 4),
        ]
    );
}

#[test]
fn pair_keys_collapse_both_orders() {
    let one_way = Key::new(ChangedFile::new("a"), ChangedFile::new("b"));
    let other_way = Key::new(ChangedFile::new("b"), ChangedFile::new("a"));
    assert_eq!(one_way, other_way);
    assert_eq!(one_way.left.display_name(), "a");
    assert_eq!(one_way.right.display_name(), "b");
}

#[test]
fn prefixed_sources_never_couple_with_each_other() {
    let statistics = Statistics::default()
        .add_delta(
            &delta("1", 1_600_000_000, &["a", "b"]).add_str_prefix("repo1"),
            &Strategy::Hash,
        )
        .add_delta(
            &delta("2", 1_600_000_001, &["a", "b"]).add_str_prefix("repo2"),
            &Strategy::Hash,
        );
    let coupling = statistics.coupling();
    assert_eq!(coupling.len(), 2);
    let names: Vec<(String, String, usize, usize)> = coupling
        .result
        .iter()
        .map(|s| {
            (
                s.key.left.display_name(),
                s.key.right.display_name(),
                s.together,
                s.total,
            )
        })
        .collect();
    assert_eq!(
        names,
        vec![
            ("repo1@a".to_string(), "repo1@b".to_string(), 1, 1),
            ("repo2@a".to_string(), "repo2@b".to_string(), 1, 1),
        ]
    );
}
