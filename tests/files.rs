use ka::actions::ActionError;
use ka::files::{join_path, strip_path, ActionOptions, FileState, Locations};

fn locations() -> Locations {
    Locations::from_options(&ActionOptions::from_path("."))
}

fn strings(v: &[&str]) -> Vec<String> {
    v.iter().map(|s| s.to_string()).collect()
}

#[test]
fn join_adds_one_separator() {
    assert_eq!(join_path(&"./a".to_string(), "b"), "./a/b");
    assert_eq!(join_path(&"./a/".to_string(), "b"), "./a/b");
    assert_eq!(join_path(&"".to_string(), "b"), "b");
    assert_eq!(join_path(&"./a".to_string(), "/abs"), "/abs");
}

#[test]
fn strip_keeps_the_relative_part() {
    assert_eq!(strip_path("./.ka/files/dir/x", &"./.ka/files".to_string()), Some("dir/x".to_string()));
    assert_eq!(strip_path("./a", &"./a".to_string()), Some(String::new()));
    assert_eq!(strip_path("./ab", &"./a".to_string()), None);
    assert_eq!(strip_path("./b/x", &"./a".to_string()), None);
    assert_eq!(strip_path("/r/x", &"/r/".to_string()), Some("x".to_string()));
}

#[test]
fn locations_mirror_working_paths() {
    let l = locations();
    assert_eq!(l.repository_path, ".");
    assert_eq!(l.history_from_working("./dir/file"), Ok("./.ka/files/dir/file".to_string()));
    assert_eq!(l.working_from_history("./.ka/files/dir/file"), Ok("./dir/file".to_string()));
    assert_eq!(l.working_from_history("./elsewhere/file"), Err(ActionError::UnrelatedPath));
    assert_eq!(l.history_from_working("/abs/file"), Err(ActionError::UnrelatedPath));
}

#[test]
fn classify_single_paths() {
    let l = locations();
    match FileState::from_working(&l, "./a", false).unwrap() {
        FileState::Untracked(u) => assert_eq!(u.path, "./a"),
        _ => panic!("expected untracked"),
    }
    match FileState::from_working(&l, "./a", true).unwrap() {
        FileState::Versioned(t) => {
            assert_eq!(t.working_path, "./a");
            assert_eq!(t.history_path, "./.ka/files/a");
        },
        _ => panic!("expected versioned"),
    }
    match FileState::from_history(&l, "./.ka/files/a", false).unwrap() {
        FileState::Deleted(d) => {
            assert_eq!(d.history_path, "./.ka/files/a");
            assert_eq!(FileState::Deleted(d).get_working_path(&l), Ok("./a".to_string()));
        },
        _ => panic!("expected deleted"),
    }
    assert!(matches!(FileState::from_history(&l, "./x", true), Err(ActionError::UnrelatedPath)));
}

#[test]
fn enumeration_classifies_both_trees() {
    let l = locations();
    let working = strings(&["./new", "./kept"]);
    let history = strings(&["./.ka/files/kept", "./.ka/files/gone"]);
    let states = l.get_repository_files(&working, &history).unwrap();
    assert_eq!(states.len(), 3);
    assert!(matches!(&states[0], FileState::Untracked(u) if u.path == "./new"));
    assert!(matches!(&states[1], FileState::Versioned(t) if t.working_path == "./kept"
        && t.history_path == "./.ka/files/kept"));
    assert!(matches!(&states[2], FileState::Deleted(d) if d.history_path == "./.ka/files/gone"));
}

#[test]
fn enumeration_stops_on_an_unrelated_path() {
    let l = locations();
    let working = strings(&["./a", "/other/b"]);
    assert!(matches!(l.get_repository_files(&working, &Vec::new()), Err(ActionError::UnrelatedPath)));
}

#[test]
fn empty_root_holds_every_relative_path() {
    let l = Locations::from_options(&ActionOptions::from_path(""));
    assert_eq!(l.ka_path, ".ka");
    assert_eq!(l.ka_files_path, ".ka/files");
    assert_eq!(l.history_from_working("x"), Ok(".ka/files/x".to_string()));
    assert_eq!(l.working_from_history(".ka/files/x"), Ok("x".to_string()));
    assert_eq!(l.history_from_working("dir/y"), Ok(".ka/files/dir/y".to_string()));
    assert_eq!(strip_path("x", &String::new()), Some("x".to_string()));
    let states = l.get_repository_files(&strings(&["x"]), &strings(&[".ka/files/x"])).unwrap();
    assert_eq!(states.len(), 1);
    assert!(matches!(&states[0], FileState::Versioned(t) if t.working_path == "x"));
}

#[test]
fn trailing_slash_base_holds_itself() {
    assert_eq!(strip_path("./a", &"./a/".to_string()), Some(String::new()));
    assert_eq!(strip_path("./a/b", &"./a/".to_string()), Some("b".to_string()));
    assert_eq!(strip_path("./", &"./a/".to_string()), None);
}
