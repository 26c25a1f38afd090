use ka::diff::ContentChange;
use ka::history::{FileChange, FileChangeVariant, FileHistory, RepositoryChange, RepositoryHistory};

#[test]
fn test_get_content() {
    let stages = &[
        "",
        "hiii!",
        "yes hii? this is a test.",
        "yes bye! this is not a test.",
    ];

    let mut history = FileHistory::default();

    history.add_change(FileChange {
        change_index: 0,
        variant: FileChangeVariant::Updated(Vec::new()),
    });

    for old_index in 0..stages.len() - 1 {
        let old = stages[old_index].as_bytes();
        let new = stages[old_index + 1].as_bytes();

        let stage_difference = ContentChange::diff(old, new);

        history.add_change(FileChange {
            change_index: old_index + 1,
            variant: FileChangeVariant::Updated(stage_difference),
        });
    }

    for index in 0..stages.len() {
        assert_eq!(stages[index].as_bytes(), history.get_content(index));
    }
}

fn update(index: usize, changes: Vec<ContentChange>) -> FileChange {
    FileChange { change_index: index, variant: FileChangeVariant::Updated(changes) }
}

fn deletion(index: usize) -> FileChange {
    FileChange { change_index: index, variant: FileChangeVariant::Deleted }
}

#[test]
fn empty_history_is_empty_and_not_deleted() {
    let history = FileHistory::default();
    assert_eq!(history.get_content(5), Vec::<u8>::new());
    assert!(!history.is_file_deleted(5));
}

#[test]
fn deletion_holds_until_the_next_update() {
    let mut history = FileHistory::default();
    history.add_change(update(1, vec![ContentChange::Inserted { at: 0, new_content: b"abc".to_vec() }]));
    history.add_change(deletion(3));
    history.add_change(update(5, vec![ContentChange::Inserted { at: 0, new_content: b"xy".to_vec() }]));

    assert!(!history.is_file_deleted(0));
    assert!(!history.is_file_deleted(2));
    assert_eq!(history.get_content(2), b"abc".to_vec());
    for cursor in 3..5 {
        assert!(history.is_file_deleted(cursor));
        assert_eq!(history.get_content(cursor), Vec::<u8>::new());
    }
    for cursor in 5..8 {
        assert!(!history.is_file_deleted(cursor));
        assert_eq!(history.get_content(cursor), b"xy".to_vec());
    }
}

#[test]
fn replay_reports_a_corrupt_history() {
    let mut history = FileHistory::default();
    history.add_change(update(1, vec![ContentChange::Deleted { at: 0, upto: 4 }]));
    assert_eq!(history.replay(0), Some(Vec::new()));
    assert_eq!(history.replay(1), None);
}

#[test]
fn reconstruction_matches_each_version() {
    let versions: [&[u8]; 4] = [b"one", b"one two", b"two", b""];
    let mut history = FileHistory::default();
    let mut previous: &[u8] = b"";
    for (k, version) in versions.iter().enumerate() {
        history.add_change(update(k + 1, ContentChange::diff(previous, version)));
        previous = version;
    }
    for (k, version) in versions.iter().enumerate() {
        assert_eq!(history.get_content(k + 1), version.to_vec());
    }
}

#[test]
fn repository_add_change_keeps_cursor() {
    let mut history = RepositoryHistory::default();
    assert_eq!(history.cursor, 0);
    history.add_change(RepositoryChange { affected_files: vec!["./a".to_string()], timestamp: 7 });
    assert_eq!(history.cursor, 0);
    assert_eq!(history.get_changes().len(), 1);
    assert_eq!(history.get_changes()[0].affected_files, vec!["./a".to_string()]);
    assert_eq!(history.get_changes()[0].timestamp, 7);
}

#[test]
fn replay_passes_over_later_entries_out_of_order() {
    let mut history = FileHistory::default();
    history.add_change(update(1, vec![ContentChange::Inserted { at: 0, new_content: b"ab".to_vec() }]));
    history.add_change(update(3, vec![ContentChange::Inserted { at: 0, new_content: b"Z".to_vec() }]));
    history.add_change(update(2, vec![ContentChange::Inserted { at: 2, new_content: b"c".to_vec() }]));
    assert_eq!(history.get_content(2), b"abc".to_vec());
    assert_eq!(history.get_content(3), b"Zacb".to_vec());
    history.add_change(deletion(2));
    assert!(history.is_file_deleted(2));
    assert!(history.is_file_deleted(3));
    assert!(!history.is_file_deleted(1));
}
