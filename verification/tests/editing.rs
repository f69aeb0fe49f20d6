use mkbib::abbreviator::{AbbreviationIndex, STARTER_LTWA};
use mkbib::editing::{
    abbreviate_all_entries, add_entry, apply_edit, clear_all, delete_entry, finish_edit, import_fetched,
    is_blank, load_text, parse_manual, regenerate_keys, render_for_saving, unabbreviate_all_entries,
    EditError,
};
use mkbib::keygen::KeyGenConfig;
use mkbib::record::{make_normal_chunk, Chunk, Field, Record};
use mkbib::undo::{perform_undo, Session};

const JOURNALS: &str = r#"{"Physical Review B": "Phys. Rev. B"}"#;

fn parse(text: &str) -> Result<Vec<Record>, String> {
    let bibliography = biblatex::Bibliography::parse(text).map_err(|e| e.to_string())?;
    Ok(bibliography
        .into_vec()
        .into_iter()
        .map(|e| Record {
            entry_type: e.entry_type.to_string(),
            key: e.key,
            fields: e
                .fields
                .into_iter()
                .map(|(name, value)| Field {
                    name,
                    value: value
                        .into_iter()
                        .map(|c| match c.v {
                            biblatex::Chunk::Normal(s) => Chunk::Normal(s),
                            biblatex::Chunk::Verbatim(s) => Chunk::Verbatim(s),
                            biblatex::Chunk::Math(s) => Chunk::Math(s),
                        })
                        .collect(),
                })
                .collect(),
        })
        .collect())
}

fn index() -> AbbreviationIndex {
    AbbreviationIndex::load(JOURNALS, None, STARTER_LTWA, None)
}

fn article(key: &str, fields: &[(&str, &str)]) -> Record {
    let mut r = Record::new("article", key);
    for (name, text) in fields {
        r.set(name, make_normal_chunk(text.to_string()));
    }
    r
}

fn keys(session: &Session) -> Vec<String> {
    session.library.records.iter().map(|r| r.key.clone()).collect()
}

fn text(session: &Session, key: &str, field: &str) -> String {
    session.library.get(key).unwrap().text_of(field).unwrap().iter().collect()
}

#[test]
fn adding_generates_a_key_for_a_record_without_one() {
    let mut s = Session::new(KeyGenConfig::default());
    let r = article("", &[("author", "Curie, Marie"), ("year", "1911"), ("title", "Radium and <i>Polonium</i>")]);
    assert_eq!(add_entry(&mut s, &index(), r), "Curie1911Radium");
    assert_eq!(text(&s, "Curie1911Radium", "title"), "Radium and Polonium");
    assert!(s.is_dirty);
    assert_eq!(s.undo_stack.len(), 1);
    let again = article("", &[("author", "Curie, Marie"), ("year", "1911"), ("title", "Radium again")]);
    assert_eq!(add_entry(&mut s, &index(), again), "Curie1911Radiuma");
}

#[test]
fn adding_keeps_a_given_key_and_makes_it_unique() {
    let mut s = Session::new(KeyGenConfig::default());
    assert_eq!(add_entry(&mut s, &index(), article("mine", &[("title", "T")])), "mine");
    assert_eq!(add_entry(&mut s, &index(), article("mine", &[("title", "U")])), "minea");
    assert_eq!(keys(&s), vec!["mine", "minea"]);
}

#[test]
fn adding_abbreviates_journals_when_configured() {
    let mut cfg = KeyGenConfig::default();
    cfg.abbreviate_journals = true;
    let mut s = Session::new(cfg);
    let r = article("k", &[("journal", "Physical Review B"), ("journaltitle", "Journal of Chemical Physics")]);
    add_entry(&mut s, &index(), r);
    assert_eq!(text(&s, "k", "journal"), "Phys. Rev. B");
    assert_eq!(text(&s, "k", "journaltitle"), "J. Chem. Phys.");
    let mut plain = Session::new(KeyGenConfig::default());
    add_entry(&mut plain, &index(), article("k", &[("journal", "Physical Review B")]));
    assert_eq!(text(&plain, "k", "journal"), "Physical Review B");
}

#[test]
fn deleting_what_is_not_there_leaves_no_step_in_the_history() {
    let mut s = Session::new(KeyGenConfig::default());
    add_entry(&mut s, &index(), article("a", &[]));
    s.is_dirty = false;
    assert!(!delete_entry(&mut s, "missing"));
    assert_eq!(s.undo_stack.len(), 1);
    assert!(!s.is_dirty);
    assert!(delete_entry(&mut s, "a"));
    assert_eq!(s.undo_stack.len(), 2);
    assert!(s.is_dirty);
    assert!(keys(&s).is_empty());
}

#[test]
fn operations_that_change_nothing_leave_no_step_in_the_history() {
    let mut s = Session::new(KeyGenConfig::default());
    clear_all(&mut s);
    assert_eq!(regenerate_keys(&mut s), 0);
    assert_eq!(parse_manual(&mut s, &index(), parse("% nothing here")).unwrap(), 0);
    assert_eq!(s.undo_stack.len(), 0);
    assert!(!s.is_dirty);
    add_entry(&mut s, &index(), article("", &[("author", "Bohr, Niels"), ("year", "1913"), ("title", "On atoms")]));
    assert_eq!(keys(&s), vec!["Bohr1913On"]);
    s.is_dirty = false;
    assert_eq!(regenerate_keys(&mut s), 1);
    let same = parse("@article{Bohr1913On, author = {Bohr, Niels}, title = {On atoms}, year = {1913}}");
    assert_eq!(finish_edit(&mut s, "Bohr1913On", same).unwrap(), "Bohr1913On");
    assert_eq!(s.undo_stack.len(), 1);
    assert!(!s.is_dirty);
    let other = parse("@article{Bohr1913On, author = {Bohr, Niels}, title = {On atoms}, year = {1914}}");
    assert_eq!(finish_edit(&mut s, "Bohr1913On", other).unwrap(), "Bohr1913On");
    assert_eq!(s.undo_stack.len(), 2);
    assert!(s.is_dirty);
}

#[test]
fn an_edit_replaces_the_record_and_may_change_its_key() {
    let mut s = Session::new(KeyGenConfig::default());
    add_entry(&mut s, &index(), article("old", &[("title", "Old")]));
    add_entry(&mut s, &index(), article("other", &[("title", "Other")]));
    let r = finish_edit(&mut s, "old", parse("@book{other, title = {New}, year = 2020}"));
    assert_eq!(r.unwrap(), "othera");
    assert_eq!(keys(&s), vec!["other", "othera"]);
    assert_eq!(text(&s, "othera", "title"), "New");
    assert_eq!(s.library.get("othera").unwrap().entry_type, "book");
    assert!(perform_undo(&mut s));
    assert_eq!(keys(&s), vec!["old", "other"]);
}

#[test]
fn an_edit_under_the_same_key_keeps_the_key() {
    let mut s = Session::new(KeyGenConfig::default());
    add_entry(&mut s, &index(), article("k", &[("title", "Old")]));
    assert_eq!(finish_edit(&mut s, "k", parse("@article{k, title = {New}}")).unwrap(), "k");
    assert_eq!(text(&s, "k", "title"), "New");
}

#[test]
fn text_that_cannot_be_parsed_changes_nothing() {
    let mut s = Session::new(KeyGenConfig::default());
    add_entry(&mut s, &index(), article("k", &[("title", "Old")]));
    let undo_before = s.undo_stack.len();
    match finish_edit(&mut s, "k", parse("@article{k, title = {unclosed")) {
        Err(EditError::Parse(message)) => assert!(!message.is_empty()),
        other => panic!("unexpected: {:?}", other),
    }
    assert_eq!(keys(&s), vec!["k"]);
    assert_eq!(s.undo_stack.len(), undo_before);
}

#[test]
fn text_without_an_entry_changes_nothing() {
    let mut s = Session::new(KeyGenConfig::default());
    add_entry(&mut s, &index(), article("k", &[("title", "Old")]));
    assert!(matches!(finish_edit(&mut s, "k", parse("% only a comment")), Err(EditError::NoEntry)));
    assert!(matches!(apply_edit(&mut s, "k", &Vec::new()), Err(EditError::NoEntry)));
    assert_eq!(text(&s, "k", "title"), "Old");
    assert_eq!(s.undo_stack.len(), 1);
}

#[test]
fn regenerating_makes_all_keys_anew() {
    let mut s = Session::new(KeyGenConfig::default());
    add_entry(&mut s, &index(), article("x", &[("author", "Bohr, Niels"), ("year", "1913"), ("title", "On the Constitution")]));
    add_entry(&mut s, &index(), article("y", &[("author", "Bohr, Niels"), ("year", "1913"), ("title", "On atoms")]));
    add_entry(&mut s, &index(), article("z", &[]));
    assert_eq!(regenerate_keys(&mut s), 3);
    assert_eq!(keys(&s), vec!["Bohr1913On", "Bohr1913Ona", "Unknown0000Untitled"]);
    assert!(perform_undo(&mut s));
    assert_eq!(keys(&s), vec!["x", "y", "z"]);
}

#[test]
fn abbreviating_everything_counts_the_changed_records() {
    let mut s = Session::new(KeyGenConfig::default());
    add_entry(&mut s, &index(), article("a", &[("journal", "Physical Review B")]));
    add_entry(&mut s, &index(), article("b", &[("journal", "Phys. Rev. B")]));
    add_entry(&mut s, &index(), article("c", &[("journaltitle", "Nature Physics"), ("journal", "Unheard Of")]));
    add_entry(&mut s, &index(), article("d", &[("title", "No journal")]));
    let history = s.undo_stack.len();
    assert_eq!(abbreviate_all_entries(&mut s, &index()), 2);
    assert_eq!(s.undo_stack.len(), history + 1);
    assert_eq!(text(&s, "a", "journal"), "Phys. Rev. B");
    assert_eq!(text(&s, "b", "journal"), "Phys. Rev. B");
    assert_eq!(text(&s, "c", "journaltitle"), "Nature Phys.");
    assert_eq!(text(&s, "c", "journal"), "Unheard");
    assert_eq!(abbreviate_all_entries(&mut s, &index()), 0);
    assert_eq!(s.undo_stack.len(), history + 1);
}

#[test]
fn expanding_everything_counts_the_changed_records() {
    let mut s = Session::new(KeyGenConfig::default());
    add_entry(&mut s, &index(), article("a", &[("journal", "phys rev b")]));
    add_entry(&mut s, &index(), article("b", &[("journal", "Physical Review B")]));
    s.is_dirty = false;
    let history = s.undo_stack.len();
    assert_eq!(unabbreviate_all_entries(&mut s, &index()), 1);
    assert_eq!(text(&s, "a", "journal"), "Physical Review B");
    assert!(s.is_dirty);
    s.is_dirty = false;
    assert_eq!(unabbreviate_all_entries(&mut s, &index()), 0);
    assert!(!s.is_dirty);
    assert_eq!(s.undo_stack.len(), history + 1);
}

#[test]
fn manual_text_adds_all_its_entries() {
    let mut s = Session::new(KeyGenConfig::default());
    assert!(is_blank("   \n"));
    assert!(is_blank(""));
    assert!(!is_blank(" @ "));
    let n = parse_manual(&mut s, &index(), parse("@article{a, title={A}}\n@book{b, title={B}}")).unwrap();
    assert_eq!(n, 2);
    assert_eq!(keys(&s), vec!["a", "b"]);
    assert_eq!(s.undo_stack.len(), 3);
    assert!(matches!(parse_manual(&mut s, &index(), parse("@article{a, title={A}")), Err(EditError::Parse(_))));
    assert_eq!(keys(&s), vec!["a", "b"]);
}

#[test]
fn loading_clears_the_history() {
    let mut s = Session::new(KeyGenConfig::default());
    add_entry(&mut s, &index(), article("gone", &[]));
    perform_undo(&mut s);
    assert_eq!(load_text(&mut s, "@misc{one, title={1}}\n@misc{two, title={2}}", parse("@misc{one, title={1}}\n@misc{two, title={2}}")).unwrap(), 2);
    assert_eq!(keys(&s), vec!["one", "two"]);
    assert!(s.undo_stack.is_empty() && s.redo_stack.is_empty());
    assert!(!s.is_dirty);
    assert!(matches!(load_text(&mut s, "@misc{broken", parse("@misc{broken")), Err(EditError::Parse(_))));
    assert_eq!(keys(&s), vec!["one", "two"]);
}

#[test]
fn load_delete_save_keeps_the_text_around_the_other_entries() {
    let file = "% My library\n\n@article{one,\n    title = {First},\n}\n\n% a note on two\n@article{two,\n    title = {Second},\n}\n\n@article{three,\n    title = {Third},\n}\n% the end\n";
    let mut s = Session::new(KeyGenConfig::default());
    assert_eq!(load_text(&mut s, file, parse(file)).unwrap(), 3);
    assert!(delete_entry(&mut s, "two"));
    let saved = render_for_saving(&s);
    assert_eq!(
        saved,
        "% My library\n\n@article{one,\n    title = {First},\n}\n\n% a note on two\n\n\n@article{three,\n    title = {Third},\n}\n% the end\n"
    );
    s.mark_saved(saved.clone());
    assert!(!s.is_dirty);
    assert_eq!(render_for_saving(&s), saved);
}

#[test]
fn saving_keeps_the_whitespace_at_the_ends_of_the_file() {
    let file = "\n  \t% indented comment\n\n@article{one,\n    title = {First},\n}\n\n@article{two,\n    title = {Second},\n}  \n\n\n";
    let mut s = Session::new(KeyGenConfig::default());
    assert_eq!(load_text(&mut s, file, parse(file)).unwrap(), 2);
    assert_eq!(render_for_saving(&s), file);
    assert!(delete_entry(&mut s, "one"));
    assert_eq!(
        render_for_saving(&s),
        "\n  \t% indented comment\n\n\n\n@article{two,\n    title = {Second},\n}  \n\n\n"
    );
    assert!(delete_entry(&mut s, "two"));
    assert_eq!(render_for_saving(&s), "\n  \t% indented comment\n\n\n\n  \n\n\n");
}

#[test]
fn a_session_without_a_file_is_written_afresh() {
    let mut s = Session::new(KeyGenConfig::default());
    add_entry(&mut s, &index(), article("a", &[("title", "A")]));
    add_entry(&mut s, &index(), article("b", &[("title", "B")]));
    assert_eq!(render_for_saving(&s), "@article{a,\n    title = {A},\n}\n\n@article{b,\n    title = {B},\n}");
}

#[test]
fn a_parse_error_is_handed_on_with_its_message() {
    let mut s = Session::new(KeyGenConfig::default());
    let failed: Result<Vec<Record>, String> = Err("unexpected end of file".to_string());
    match import_fetched(&mut s, &index(), failed) {
        Err(EditError::Parse(message)) => assert_eq!(message, "unexpected end of file"),
        other => panic!("unexpected: {:?}", other),
    }
    assert!(keys(&s).is_empty());
    assert_eq!(s.undo_stack.len(), 0);
}

#[test]
fn fetched_entries_are_added_one_by_one() {
    let mut s = Session::new(KeyGenConfig::default());
    let n = import_fetched(&mut s, &index(), parse("@article{a, title={A}}\n@article{a2, title={B}}")).unwrap();
    assert_eq!(n, 2);
    assert_eq!(keys(&s), vec!["a", "a2"]);
    assert_eq!(s.undo_stack.len(), 2);
    assert_eq!(import_fetched(&mut s, &index(), parse("")).unwrap(), 0);
    assert_eq!(s.undo_stack.len(), 2);
}

#[test]
fn parsed_fields_are_put_in_order() {
    let mut s = Session::new(KeyGenConfig::default());
    let unordered = Record {
        entry_type: "misc".to_string(),
        key: "k".to_string(),
        fields: vec![
            Field { name: "year".to_string(), value: make_normal_chunk("1".to_string()) },
            Field { name: "author".to_string(), value: make_normal_chunk("2".to_string()) },
            Field { name: "year".to_string(), value: make_normal_chunk("3".to_string()) },
        ],
    };
    assert_eq!(import_fetched(&mut s, &index(), Ok(vec![unordered])).unwrap(), 1);
    let names: Vec<&str> = s.library.records[0].fields.iter().map(|f| f.name.as_str()).collect();
    assert_eq!(names, vec!["author", "year"]);
    assert_eq!(text(&s, "k", "year"), "3");
}

#[test]
fn clearing_empties_the_library_and_can_be_undone() {
    let mut s = Session::new(KeyGenConfig::default());
    add_entry(&mut s, &index(), article("a", &[]));
    clear_all(&mut s);
    assert!(keys(&s).is_empty());
    assert!(perform_undo(&mut s));
    assert_eq!(keys(&s), vec!["a"]);
}
