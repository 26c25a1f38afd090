use ka::text_diff::{TextChange, TextPiece};

#[test]
fn text_apply_deletes_bytes() {
    let mut buffer = "hello world".to_string();
    TextChange::Deleted { at: 5, upto: 11 }.apply(&mut buffer);
    assert_eq!(buffer, "hello");
}

#[test]
fn text_apply_inserts_at_byte_offset() {
    let mut buffer = "héllo".to_string();
    TextChange::Inserted { at: 3, new_content: "~".to_string() }.apply(&mut buffer);
    assert_eq!(buffer, "hé~llo");
    TextChange::Deleted { at: 1, upto: 3 }.apply(&mut buffer);
    assert_eq!(buffer, "h~llo");
}

#[test]
fn text_script_from_pieces_keeps_offsets() {
    let pieces = vec![
        TextPiece::Same("t".to_string()),
        TextPiece::Rem("e".to_string()),
        TextPiece::Add("o".to_string()),
        TextPiece::Same("st".to_string()),
        TextPiece::Rem("a".to_string()),
    ];
    let script = TextChange::script_from_pieces(&pieces).unwrap();
    assert_eq!(
        script,
        vec![
            TextChange::Deleted { at: 1, upto: 2 },
            TextChange::Inserted { at: 1, new_content: "o".to_string() },
            TextChange::Deleted { at: 4, upto: 5 },
        ]
    );
}

#[test]
fn text_diff_uses_the_changeset() {
    let script = TextChange::diff("testa", "tost").unwrap();
    assert_eq!(
        script,
        vec![
            TextChange::Deleted { at: 1, upto: 2 },
            TextChange::Inserted { at: 1, new_content: "o".to_string() },
            TextChange::Deleted { at: 4, upto: 5 },
        ]
    );
}

#[test]
fn text_diff_of_equal_strings_is_empty() {
    assert_eq!(TextChange::diff("same", "same"), Some(Vec::new()));
}

fn replay_text(old: &str, script: &[TextChange]) -> String {
    let mut buffer = old.to_string();
    for change in script {
        change.apply(&mut buffer);
    }
    buffer
}

#[test]
fn text_diff_replays_to_new() {
    let cases = [("testa", "tost"), ("ab", "a"), ("", "xyz"), ("héllo wörld", "hello world!"), ("abc", "")];
    for (old, new) in cases {
        let script = TextChange::diff(old, new).unwrap();
        assert_eq!(replay_text(old, &script), new);
    }
}

#[test]
fn text_diff_removes_a_trailing_character() {
    assert_eq!(TextChange::diff("ab", "a"), Some(vec![TextChange::Deleted { at: 1, upto: 2 }]));
}
