use moves_together::changed_file::ChangedFile;
use moves_together::commit::Commit;
use moves_together::commits::Commits;
use moves_together::delta::Delta;
use moves_together::hash;
use moves_together::repository::{flatten_or_first_err, Error, InMemory, Repository};

fn in_memory_repository() -> InMemory {
    InMemory::new(
        Commits::new(vec![
            Commit::new(hash::Hash::new("3"), vec![hash::Hash::new("2")], 1_600_000_300),
            Commit::new(hash::Hash::new("2"), vec![hash::Hash::new("1")], 1_600_000_200),
            Commit::new(hash::Hash::new("1"), vec![], 1_600_000_100),
        ]),
        vec![
            (hash::Hash::new("1"), ChangedFile::new("file1")),
            (hash::Hash::new("2"), ChangedFile::new("file2")),
            (hash::Hash::new("3"), ChangedFile::new("file2")),
            (hash::Hash::new("3"), ChangedFile::new("file3")),
        ],
    )
}

#[test]
fn i_can_get_a_list_of_all_current_commits() {
    let repo = in_memory_repository();
    let actual = repo.commits_in_current_branch().unwrap();
    assert_eq!(actual.len(), 3);
    let items = actual.items();
    let head = &items[0];
    let mid = &items[1];
    let root = &items[2];

    assert_eq!(
        Commits::new(vec![
            Commit::new(head.hash(), vec![mid.hash()], head.timestamp()),
            Commit::new(mid.hash(), vec![root.hash()], mid.timestamp()),
            Commit::new(root.hash(), vec![], root.timestamp()),
        ]),
        actual
    );
}

#[test]
fn given_a_commit_i_can_find_out_what_files_changed_in_it() {
    let repo = in_memory_repository();
    let actual = repo.commits_in_current_branch().unwrap();
    assert_eq!(actual.len(), 3);
    let items = actual.items();
    let head = &items[0];
    let mid = &items[1];

    let expected: Delta = Delta::new(
        head.hash(),
        head.timestamp(),
        vec![ChangedFile::new("file2"), ChangedFile::new("file3")],
    );
    assert_eq!(
        expected,
        repo.compare_with_parent(&Commit::new(head.hash(), vec![mid.hash()], head.timestamp()))
            .unwrap()
    );
}

#[test]
fn a_root_commit_compares_to_an_empty_delta() {
    let repo = in_memory_repository();
    let root = Commit::new(hash::Hash::new("0"), vec![], 1_600_000_000);
    let delta = repo.compare_with_parent(&root).unwrap();
    assert_eq!(delta.files().len(), 0);
}

#[test]
fn a_failed_parent_comparison_aborts_the_whole_comparison() {
    let ok_then_err: Vec<Result<Vec<ChangedFile>, Error>> = vec![
        Ok(vec![ChangedFile::new("one")]),
        Err(Error::LibGit2("first failure".to_string())),
        Err(Error::LibGit2("second failure".to_string())),
    ];
    assert_eq!(
        flatten_or_first_err(&ok_then_err),
        Err(Error::LibGit2("first failure".to_string()))
    );

    let all_ok: Vec<Result<Vec<ChangedFile>, Error>> = vec![
        Ok(vec![ChangedFile::new("one")]),
        Ok(vec![ChangedFile::new("two"), ChangedFile::new("one")]),
    ];
    assert_eq!(
        flatten_or_first_err(&all_ok),
        Ok(vec![
            ChangedFile::new("one"),
            ChangedFile::new("two"),
            ChangedFile::new("one"),
        ])
    );
}
