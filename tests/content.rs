use ka::diff::ContentChange::{self, Deleted, Inserted};
use ka::diff::Span;

fn replay(old: &[u8], changes: &Vec<ContentChange>) -> Vec<u8> {
    let mut buffer = old.to_vec();
    for change in changes {
        change.apply(&mut buffer);
    }
    buffer
}

#[test]
fn test_diff() {
    let old = "This is an old string...";
    let new = "This is a new string...!";

    let changes = ContentChange::diff(old.as_bytes(), new.as_bytes());
    assert_eq!(
        changes.as_slice(),
        [
            Inserted {
                at: 9,
                new_content: " ".into()
            },
            Deleted { at: 11, upto: 15 },
            Inserted {
                at: 11,
                new_content: "ew".into()
            },
            Inserted {
                at: 23,
                new_content: "!".into()
            }
        ],
    );
}

#[test]
fn test_apply() {
    let old = "This is an old string...";
    let new = "This is a new text...!";

    let changes = ContentChange::diff(old.as_bytes(), new.as_bytes());

    let mut buffer = old.as_bytes().to_vec();
    for change in changes {
        change.apply(&mut buffer);
    }

    assert_eq!(&buffer, new.as_bytes());
}

#[test]
fn apply_deletes_half_open_range() {
    let mut buffer = b"abcdef".to_vec();
    Deleted { at: 1, upto: 3 }.apply(&mut buffer);
    assert_eq!(buffer, b"adef".to_vec());
}

#[test]
fn apply_inserts_without_removing() {
    let mut buffer = b"abc".to_vec();
    Inserted { at: 3, new_content: b"xy".to_vec() }.apply(&mut buffer);
    assert_eq!(buffer, b"abcxy".to_vec());
    Inserted { at: 0, new_content: b"_".to_vec() }.apply(&mut buffer);
    assert_eq!(buffer, b"_abcxy".to_vec());
}

#[test]
fn diff_round_trip_on_edge_cases() {
    let cases: Vec<(&[u8], &[u8])> = vec![
        (b"", b""),
        (b"", b"abc"),
        (b"abc", b""),
        (b"aaaa", b"aa"),
        (b"abababab", b"babababa"),
        (b"\x00\x00\x01", b"\x01\x00\x00\x00"),
        (b"same", b"same"),
    ];
    for (old, new) in cases {
        let changes = ContentChange::diff(old, new);
        assert_eq!(replay(old, &changes), new.to_vec());
        assert_eq!(changes.is_empty(), old == new);
    }
}

#[test]
fn diff_of_equal_buffers_is_empty() {
    assert!(ContentChange::diff(b"hello", b"hello").is_empty());
    assert!(ContentChange::diff(b"", b"").is_empty());
}

#[test]
fn diff_from_empty_inserts_everything() {
    let changes = ContentChange::diff(b"", b"abc");
    assert_eq!(changes, vec![Inserted { at: 0, new_content: b"abc".to_vec() }]);
}

#[test]
fn diff_to_empty_deletes_everything() {
    let changes = ContentChange::diff(b"abc", b"");
    assert_eq!(changes, vec![Deleted { at: 0, upto: 3 }]);
}

#[test]
fn apply_all_replays_in_order() {
    let changes = vec![Deleted { at: 0, upto: 2 }, Inserted { at: 1, new_content: b"Z".to_vec() }];
    let mut buffer = b"abcd".to_vec();
    assert!(ContentChange::apply_all(&changes, &mut buffer));
    assert_eq!(buffer, b"cZd".to_vec());
}

#[test]
fn apply_all_stops_out_of_range() {
    let changes = vec![Deleted { at: 2, upto: 9 }];
    let mut buffer = b"abcd".to_vec();
    assert!(!ContentChange::apply_all(&changes, &mut buffer));
}

#[test]
fn edits_from_spans_builds_offsets() {
    let old = b"abcdef";
    let new = b"abXYef";
    let spans = vec![
        Span::Equal { old_index: 0, new_index: 0, len: 2 },
        Span::Replace { old_index: 2, old_len: 2, new_index: 2, new_len: 2 },
        Span::Equal { old_index: 4, new_index: 4, len: 2 },
    ];
    let changes = ContentChange::edits_from_spans(old, new, &spans).unwrap();
    assert_eq!(
        changes,
        vec![Deleted { at: 2, upto: 4 }, Inserted { at: 2, new_content: b"XY".to_vec() }]
    );
    assert_eq!(replay(old, &changes), new.to_vec());
}

#[test]
fn edits_from_spans_rejects_a_misalignment() {
    let old = b"abc";
    let new = b"abd";
    let unequal = vec![Span::Equal { old_index: 0, new_index: 0, len: 3 }];
    assert!(ContentChange::edits_from_spans(old, new, &unequal).is_none());
    let short = vec![Span::Equal { old_index: 0, new_index: 0, len: 2 }];
    assert!(ContentChange::edits_from_spans(old, new, &short).is_none());
    let gap = vec![
        Span::Equal { old_index: 0, new_index: 0, len: 1 },
        Span::Replace { old_index: 2, old_len: 1, new_index: 1, new_len: 2 },
    ];
    assert!(ContentChange::edits_from_spans(old, new, &gap).is_none());
}

fn no_empty_operation(changes: &[ContentChange]) -> bool {
    changes.iter().all(|c| match c {
        Inserted { new_content, .. } => !new_content.is_empty(),
        Deleted { at, upto } => at < upto,
    })
}

#[test]
fn diff_has_no_empty_operation() {
    let cases: Vec<(&[u8], &[u8])> = vec![
        (b"", b"x"),
        (b"x", b""),
        (b"abc", b"axc"),
        (b"This is an old string...", b"This is a new text...!"),
    ];
    for (old, new) in cases {
        assert!(no_empty_operation(&ContentChange::diff(old, new)));
    }
}

#[test]
fn edits_from_spans_skips_empty_spans() {
    let old = b"ab";
    let new = b"aXb";
    let spans = vec![
        Span::Equal { old_index: 0, new_index: 0, len: 1 },
        Span::Delete { old_index: 1, old_len: 0, new_index: 1 },
        Span::Replace { old_index: 1, old_len: 0, new_index: 1, new_len: 1 },
        Span::Insert { old_index: 1, new_index: 2, new_len: 0 },
        Span::Equal { old_index: 1, new_index: 2, len: 1 },
    ];
    let changes = ContentChange::edits_from_spans(old, new, &spans).unwrap();
    assert_eq!(changes, vec![Inserted { at: 1, new_content: b"X".to_vec() }]);
}
