use ka::actions::{
    create, get_new_history_for_file, shift, shift_file, update, ActionError, FileRecord,
    PendingFile, ShiftAction,
};
use ka::diff::ContentChange;
use ka::files::{ActionOptions, Locations};
use ka::history::{FileChange, FileChangeVariant, FileHistory, RepositoryChange, RepositoryHistory};

fn pending(path: &str, record: FileRecord) -> PendingFile {
    PendingFile { working_path: path.to_string(), record }
}

fn history_of(changes: Vec<FileChange>) -> FileHistory {
    let mut history = FileHistory::default();
    for change in changes {
        history.add_change(change);
    }
    history
}

fn inserted(index: usize, at: usize, bytes: &[u8]) -> FileChange {
    FileChange {
        change_index: index,
        variant: FileChangeVariant::Updated(vec![ContentChange::Inserted {
            at,
            new_content: bytes.to_vec(),
        }]),
    }
}

fn same_change(a: &FileChange, b: &FileChange) -> bool {
    a.change_index == b.change_index
        && match (&a.variant, &b.variant) {
            (FileChangeVariant::Updated(x), FileChangeVariant::Updated(y)) => x == y,
            (FileChangeVariant::Deleted, FileChangeVariant::Deleted) => true,
            _ => false,
        }
}

fn same_history(a: &FileHistory, b: &FileHistory) -> bool {
    a.changes.len() == b.changes.len()
        && a.changes.iter().zip(b.changes.iter()).all(|(x, y)| same_change(x, y))
}

#[test]
fn create_empty() {
    let now = 0xC0FFEE;
    let options = ActionOptions::from_path(".");
    let locations = Locations::from_options(&options);

    let (index, histories) = create(Vec::new(), now).expect("Action failed.");

    assert_eq!(locations.ka_path, "./.ka");
    assert_eq!(locations.get_repository_index_path(), "./.ka/index");
    assert_eq!(locations.ka_files_path, "./.ka/files");
    assert_eq!(index.cursor, 0);
    assert!(index.get_changes().is_empty());
    assert!(histories.is_empty());
}

#[test]
fn create_basic() {
    let now = 0xC0FFEE;
    let options = ActionOptions::from_path(".");
    let locations = Locations::from_options(&options);

    let files = vec![pending("./test", FileRecord::Untracked { content: vec![1, 2, 3] })];
    let (index, histories) = create(files, now).expect("Action failed.");

    assert_eq!(index.cursor, 1);
    assert_eq!(index.get_changes().len(), 1);
    assert_eq!(index.get_changes()[0].affected_files, vec!["./test".to_string()]);
    assert_eq!(index.get_changes()[0].timestamp, now);

    assert_eq!(locations.history_from_working("./test"), Ok("./.ka/files/test".to_string()));
    let expected = history_of(vec![inserted(1, 0, &[1, 2, 3])]);
    assert!(same_history(histories[0].as_ref().unwrap(), &expected));
}

#[test]
fn no_update_if_no_change() {
    let now = 0xC0FFEE;
    let files = vec![pending("./test", FileRecord::Untracked { content: vec![1, 2, 3] })];
    let (mut index, mut histories) = create(files, now).expect("Creating expected state failed.");
    let history = histories.remove(0).unwrap();
    assert!(same_history(&history, &history_of(vec![inserted(1, 0, &[1, 2, 3])])));

    let files = vec![pending("./test", FileRecord::Versioned { history, content: vec![1, 2, 3] })];
    let out = update(&mut index, files, now + 1).expect("Action failed.");

    // No new history for the file (so nothing is written) and the index is as it was.
    assert!(out[0].is_none());
    assert_eq!(index.cursor, 1);
    assert_eq!(index.get_changes().len(), 1);
    assert_eq!(index.get_changes()[0].affected_files, vec!["./test".to_string()]);
    assert_eq!(index.get_changes()[0].timestamp, now);
}

#[test]
fn selective_update() {
    let now = 0xC0FFEE;
    let mut index = RepositoryHistory::default();
    index.add_change(RepositoryChange {
        affected_files: vec!["./changed_file".to_string(), "./unchanged_file".to_string()],
        timestamp: now,
    });
    index.cursor = 1;

    let files = vec![
        pending(
            "./changed_file",
            FileRecord::Versioned {
                history: history_of(vec![inserted(1, 0, &[1, 2, 3])]),
                content: vec![1, 2, 3, 4, 5],
            },
        ),
        pending(
            "./unchanged_file",
            FileRecord::Versioned {
                history: history_of(vec![inserted(1, 0, &[1, 2, 3])]),
                content: vec![1, 2, 3],
            },
        ),
    ];
    let out = update(&mut index, files, now + 1).expect("Action failed.");

    assert_eq!(index.cursor, 2);
    assert_eq!(index.get_changes().len(), 2);
    assert_eq!(index.get_changes()[1].affected_files, vec!["./changed_file".to_string()]);
    assert_eq!(index.get_changes()[1].timestamp, now + 1);
    let updated = history_of(vec![inserted(1, 0, &[1, 2, 3]), inserted(2, 3, &[4, 5])]);
    assert!(same_history(out[0].as_ref().unwrap(), &updated));
    assert!(out[1].is_none());
}

#[test]
fn update_records_a_deletion_once() {
    let mut index = RepositoryHistory::default();
    index.cursor = 1;
    let files = vec![pending(
        "./gone",
        FileRecord::Deleted { history: history_of(vec![inserted(1, 0, b"x")]) },
    )];
    let out = update(&mut index, files, 9).unwrap();
    let after = out.into_iter().next().unwrap().unwrap();
    assert_eq!(after.changes.len(), 2);
    assert!(matches!(after.changes[1].variant, FileChangeVariant::Deleted));
    assert_eq!(after.changes[1].change_index, 2);
    assert_eq!(index.cursor, 2);
    assert_eq!(index.get_changes()[0].affected_files, vec!["./gone".to_string()]);

    let again = update(&mut index, vec![pending("./gone", FileRecord::Deleted { history: after })], 10)
        .unwrap();
    assert!(again[0].is_none());
    assert_eq!(index.cursor, 2);
    assert_eq!(index.get_changes().len(), 1);
}

#[test]
fn update_twice_changes_nothing() {
    let mut index = RepositoryHistory::default();
    let files = vec![
        pending("./a", FileRecord::Untracked { content: b"hello".to_vec() }),
        pending(
            "./b",
            FileRecord::Versioned { history: FileHistory::default(), content: b"world".to_vec() },
        ),
    ];
    let out = update(&mut index, files, 1).unwrap();
    assert_eq!(index.cursor, 1);
    let mut reread = Vec::new();
    for (path, (history, content)) in
        ["./a", "./b"].iter().zip(out.into_iter().zip([b"hello".to_vec(), b"world".to_vec()]))
    {
        reread.push(pending(path, FileRecord::Versioned { history: history.unwrap(), content }));
    }
    let second = update(&mut index, reread, 2).unwrap();
    assert!(second.iter().all(|h| h.is_none()));
    assert_eq!(index.cursor, 1);
    assert_eq!(index.get_changes().len(), 1);
}

#[test]
fn update_fails_on_corrupt_history() {
    let mut index = RepositoryHistory::default();
    index.cursor = 1;
    let broken = history_of(vec![FileChange {
        change_index: 1,
        variant: FileChangeVariant::Updated(vec![ContentChange::Deleted { at: 0, upto: 3 }]),
    }]);
    let files = vec![
        pending("./ok", FileRecord::Untracked { content: b"x".to_vec() }),
        pending("./bad", FileRecord::Versioned { history: broken, content: b"y".to_vec() }),
    ];
    assert_eq!(update(&mut index, files, 3).err(), Some(ActionError::CorruptHistory));
    assert_eq!(index.cursor, 1);
    assert!(index.get_changes().is_empty());
}

#[test]
fn new_history_for_untracked_file() {
    let out = get_new_history_for_file(4, FileRecord::Untracked { content: b"abc".to_vec() })
        .unwrap()
        .unwrap();
    assert!(same_history(&out, &history_of(vec![inserted(5, 0, b"abc")])));
    assert_eq!(out.get_content(5), b"abc".to_vec());
    assert_eq!(out.get_content(4), Vec::<u8>::new());
}

#[test]
fn new_history_for_edited_file_replays_to_content() {
    let history = history_of(vec![inserted(1, 0, b"hello")]);
    let out = get_new_history_for_file(
        1,
        FileRecord::Versioned { history, content: b"hello world".to_vec() },
    )
    .unwrap()
    .unwrap();
    assert_eq!(out.changes.len(), 2);
    assert_eq!(out.get_content(1), b"hello".to_vec());
    assert_eq!(out.get_content(2), b"hello world".to_vec());
}

fn shift_scenario() -> (RepositoryHistory, FileHistory) {
    let mut index = RepositoryHistory::default();
    let first = update(
        &mut index,
        vec![
            pending("./a", FileRecord::Untracked { content: b"hello".to_vec() }),
            pending("./b", FileRecord::Untracked { content: b"other".to_vec() }),
        ],
        1,
    )
    .unwrap();
    let mut first = first.into_iter();
    let a = first.next().unwrap().unwrap();
    let b = first.next().unwrap().unwrap();
    let second = update(
        &mut index,
        vec![
            pending("./a", FileRecord::Versioned { history: a, content: b"hello world".to_vec() }),
            pending("./b", FileRecord::Versioned { history: b, content: b"other".to_vec() }),
        ],
        2,
    )
    .unwrap();
    assert!(second[1].is_none());
    let a = second.into_iter().next().unwrap().unwrap();
    (index, a)
}

#[test]
fn shift_round_trip() {
    let (mut index, a) = shift_scenario();
    assert_eq!(index.cursor, 2);

    let back = shift(&mut index, 0);
    assert_eq!(index.cursor, 0);
    let mut back_sorted = back.clone();
    back_sorted.sort();
    assert_eq!(back_sorted, vec!["./a".to_string(), "./b".to_string()]);

    let forward = shift(&mut index, 2);
    assert_eq!(index.cursor, 2);
    assert_eq!(forward.len(), 2);
    assert_eq!(shift_file(Some(&a), 2, true), Ok(ShiftAction::Write(b"hello world".to_vec())));
    assert_eq!(shift_file(Some(&a), 1, true), Ok(ShiftAction::Write(b"hello".to_vec())));
    assert_eq!(shift_file(Some(&a), 0, true), Ok(ShiftAction::Write(Vec::new())));
}

#[test]
fn shift_touches_only_changed_paths() {
    let (mut index, _) = shift_scenario();
    let paths = shift(&mut index, 1);
    assert_eq!(paths, vec!["./a".to_string()]);
    assert_eq!(shift(&mut index, 1), Vec::<String>::new());
    assert_eq!(index.get_changes().len(), 2);
}

#[test]
fn shift_past_the_end_is_no_error() {
    let (mut index, _) = shift_scenario();
    let paths = shift(&mut index, 40);
    assert!(paths.is_empty());
    assert_eq!(index.cursor, 40);
    let paths = shift(&mut index, 1);
    assert_eq!(paths, vec!["./a".to_string()]);
}

#[test]
fn shift_file_deletion_matrix() {
    let mut history = history_of(vec![inserted(1, 0, b"x")]);
    history.add_change(FileChange { change_index: 2, variant: FileChangeVariant::Deleted });
    assert_eq!(shift_file(Some(&history), 2, true), Ok(ShiftAction::Delete));
    assert_eq!(shift_file(Some(&history), 2, false), Ok(ShiftAction::Keep));
    assert_eq!(shift_file(Some(&history), 1, false), Ok(ShiftAction::Write(b"x".to_vec())));
    let broken = history_of(vec![FileChange {
        change_index: 1,
        variant: FileChangeVariant::Updated(vec![ContentChange::Deleted { at: 1, upto: 2 }]),
    }]);
    assert_eq!(shift_file(Some(&broken), 1, true), Err(ActionError::CorruptHistory));
}

#[test]
fn shift_round_trip_single_file() {
    let mut index = RepositoryHistory::default();
    let first = update(
        &mut index,
        vec![pending("./a", FileRecord::Untracked { content: b"hello".to_vec() })],
        1,
    )
    .unwrap();
    let a = first.into_iter().next().unwrap().unwrap();
    let second = update(
        &mut index,
        vec![pending("./a", FileRecord::Versioned { history: a, content: b"hello world".to_vec() })],
        2,
    )
    .unwrap();
    let a = second.into_iter().next().unwrap().unwrap();
    assert_eq!(index.cursor, 2);

    assert_eq!(shift(&mut index, 0), vec!["./a".to_string()]);
    assert_eq!(shift_file(Some(&a), 0, true), Ok(ShiftAction::Write(Vec::new())));
    assert_eq!(shift(&mut index, 2), vec!["./a".to_string()]);
    assert_eq!(shift_file(Some(&a), 2, true), Ok(ShiftAction::Write(b"hello world".to_vec())));
    assert_eq!(index.cursor, 2);
    assert_eq!(index.get_changes().len(), 2);
}

#[test]
fn shift_file_leaves_untracked_alone() {
    assert_eq!(shift_file(None, 3, true), Ok(ShiftAction::Keep));
    assert_eq!(shift_file(None, 0, false), Ok(ShiftAction::Keep));
}
