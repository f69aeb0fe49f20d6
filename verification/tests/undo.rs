use mkbib::abbreviator::{AbbreviationIndex, Dictionary};
use mkbib::editing::{add_entry, delete_entry};
use mkbib::keygen::KeyGenConfig;
use mkbib::record::{make_normal_chunk, Record};
use mkbib::undo::{perform_redo, perform_undo, Session};

fn record(key: &str) -> Record {
    let mut r = Record::new("misc", key);
    r.set("title", make_normal_chunk(key.to_uppercase()));
    r
}

fn keys(session: &Session) -> Vec<String> {
    session.library.records.iter().map(|r| r.key.clone()).collect()
}

fn no_index() -> AbbreviationIndex {
    AbbreviationIndex::new(Dictionary::new(), Dictionary::new())
}

#[test]
fn undo_without_history_does_nothing() {
    let mut s = Session::new(KeyGenConfig::default());
    assert!(!perform_undo(&mut s));
    assert!(!perform_redo(&mut s));
    assert!(keys(&s).is_empty());
    assert!(!s.is_dirty);
}

#[test]
fn undo_takes_a_change_back_and_redo_makes_it_again() {
    let idx = no_index();
    let mut s = Session::new(KeyGenConfig::default());
    add_entry(&mut s, &idx, record("one"));
    add_entry(&mut s, &idx, record("two"));
    let before = keys(&s);
    assert!(delete_entry(&mut s, "one"));
    let after = keys(&s);
    assert_eq!(after, vec!["two"]);
    assert!(perform_undo(&mut s));
    assert_eq!(keys(&s), before);
    assert_eq!(s.redo_stack.len(), 1);
    assert!(perform_redo(&mut s));
    assert_eq!(keys(&s), after);
    assert_eq!(s.redo_stack.len(), 0);
    assert_eq!(s.undo_stack.len(), 3);
}

#[test]
fn every_change_can_be_undone_in_turn() {
    let idx = no_index();
    let mut s = Session::new(KeyGenConfig::default());
    add_entry(&mut s, &idx, record("a"));
    add_entry(&mut s, &idx, record("b"));
    add_entry(&mut s, &idx, record("c"));
    assert!(perform_undo(&mut s));
    assert_eq!(keys(&s), vec!["a", "b"]);
    assert!(perform_undo(&mut s));
    assert_eq!(keys(&s), vec!["a"]);
    assert!(perform_undo(&mut s));
    assert!(keys(&s).is_empty());
    assert!(!perform_undo(&mut s));
    assert!(perform_redo(&mut s));
    assert!(perform_redo(&mut s));
    assert!(perform_redo(&mut s));
    assert_eq!(keys(&s), vec!["a", "b", "c"]);
    assert!(!perform_redo(&mut s));
}

#[test]
fn a_snapshot_that_changed_nothing_can_be_dropped() {
    let mut s = Session::new(KeyGenConfig::default());
    s.push_snapshot();
    assert_eq!(s.undo_stack.len(), 1);
    s.pop_snapshot();
    assert_eq!(s.undo_stack.len(), 0);
    s.pop_snapshot();
    assert_eq!(s.undo_stack.len(), 0);
}

#[test]
fn a_session_is_sound_if_its_library_and_snapshots_are() {
    let idx = no_index();
    let mut s = Session::new(KeyGenConfig::default());
    assert!(s.is_sound());
    add_entry(&mut s, &idx, record("a"));
    add_entry(&mut s, &idx, record("b"));
    assert!(s.is_sound());
    s.undo_stack[1].records[0].key = String::new();
    assert!(!s.is_sound());
    assert!(s.library.is_sound());
}
