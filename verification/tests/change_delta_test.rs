use moves_together::change_delta::ChangeDelta;
use moves_together::changed_file::ChangedFile;
use moves_together::changed_file_path::ChangedFilePath;
use moves_together::delta::Delta;
use moves_together::hash;

#[test]
fn change_delta_can_put_a_prefix_on_everything_in() {
    let actual: Vec<String> = ChangeDelta::from_strs(vec!["item 1", "item 2", "item 3"])
        .add_prefix("Something")
        .files()
        .iter()
        .map(|x| x.display_name())
        .collect();

    assert_eq!(
        actual,
        vec!["Something@item 1", "Something@item 2", "Something@item 3"]
    );
}

#[test]
fn can_tell_if_something_is_in_this_delta() {
    let actual = ChangeDelta::from_strs(vec!["item 1", "item 2", "item 3"]);

    assert!(actual.contains(&ChangedFilePath::new("item 1")));
    assert!(!actual.contains(&ChangedFilePath::new("none existing")));
}

#[test]
fn delta_can_put_a_prefix_on_everything_in() {
    let actual: Vec<String> = Delta::new(
        hash::Hash::new("sample-id"),
        1_600_000_000,
        vec![
            ChangedFile::new("item 1"),
            ChangedFile::new("item 2"),
            ChangedFile::new("item 3"),
        ],
    )
    .add_str_prefix("Something")
    .files()
    .iter()
    .map(|x| x.display_name())
    .collect();

    assert_eq!(
        actual,
        vec!["Something@item 1", "Something@item 2", "Something@item 3"]
    );
}

#[test]
fn prefixing_twice_keeps_only_the_last_prefix() {
    let actual: Vec<String> = Delta::new(
        hash::Hash::new("sample-id"),
        1_600_000_000,
        vec![ChangedFile::new("item 1"), ChangedFile::new("item 2")],
    )
    .add_str_prefix("first")
    .add_str_prefix("second")
    .files()
    .iter()
    .map(|x| x.display_name())
    .collect();

    assert_eq!(actual, vec!["second@item 1", "second@item 2"]);
}

#[test]
fn a_delta_collapses_duplicate_files() {
    let delta = Delta::new(
        hash::Hash::new("sample-id"),
        1_600_000_000,
        vec![
            ChangedFile::new("same"),
            ChangedFile::new("same"),
            ChangedFile::new("other"),
        ],
    );
    let names: Vec<String> = delta.files().iter().map(|x| x.display_name()).collect();
    assert_eq!(names, vec!["other", "same"]);
}

#[test]
fn merge_unions_changes_and_keeps_the_first_identity() {
    let a = Delta::new(
        hash::Hash::new("a"),
        100,
        vec![ChangedFile::new("one"), ChangedFile::new("two")],
    );
    let b = Delta::new(
        hash::Hash::new("b"),
        200,
        vec![ChangedFile::new("two"), ChangedFile::new("three")],
    );
    let merged = a.merge(&b);
    assert_eq!(merged.hash(), hash::Hash::new("a"));
    assert_eq!(merged.timestamp(), 100);
    let names: Vec<String> = merged.files().iter().map(|x| x.display_name()).collect();
    assert_eq!(names, vec!["one", "three", "two"]);
    // the merged change set reads the same both ways round
    let other_way = b.merge(&a);
    let other_names: Vec<String> = other_way.files().iter().map(|x| x.display_name()).collect();
    assert_eq!(names, other_names);
}

#[test]
fn display_name_carries_the_prefix() {
    let plain = ChangedFile::new("src/main.rs");
    assert_eq!(plain.display_name(), "src/main.rs");
    let prefixed = plain.add_prefix("repo");
    assert_eq!(prefixed.display_name(), "repo@src/main.rs");
}
