use mkbib::action::Action;
use mkbib::library::Library;
use mkbib::record::{make_normal_chunk, Record};

fn record(key: &str, title: &str) -> Record {
    let mut r = Record::new("misc", key);
    r.set("title", make_normal_chunk(title.to_string()));
    r
}

fn title(lib: &Library, key: &str) -> String {
    lib.get(key).unwrap().text_of("title").unwrap().iter().collect()
}

#[test]
fn an_addition_and_its_inverse_cancel() {
    let mut lib = Library::new();
    let add = Action::EntryAdded(record("a", "A"));
    add.apply(&mut lib);
    assert!(lib.contains_key("a"));
    add.invert().apply(&mut lib);
    assert!(lib.is_empty());
}

#[test]
fn a_field_change_sets_the_new_text_and_its_inverse_the_old() {
    let mut lib = Library::new();
    lib.insert(record("a", "Old"));
    let change = Action::FieldChanged {
        key: "a".to_string(),
        field: "Title".to_string(),
        old_value: "Old".to_string(),
        new_value: "New".to_string(),
    };
    change.apply(&mut lib);
    assert_eq!(title(&lib, "a"), "New");
    change.invert().apply(&mut lib);
    assert_eq!(title(&lib, "a"), "Old");
    let missing = Action::FieldChanged {
        key: "zzz".to_string(),
        field: "title".to_string(),
        old_value: String::new(),
        new_value: "x".to_string(),
    };
    missing.apply(&mut lib);
    assert_eq!(lib.len(), 1);
}

#[test]
fn a_transaction_is_inverted_back_to_front() {
    let mut lib = Library::new();
    let t = Action::Transaction(vec![
        Action::EntryAdded(record("a", "A")),
        Action::FieldChanged {
            key: "a".to_string(),
            field: "title".to_string(),
            old_value: "A".to_string(),
            new_value: "B".to_string(),
        },
        Action::EntryAdded(record("c", "C")),
    ]);
    t.apply(&mut lib);
    assert_eq!(title(&lib, "a"), "B");
    assert_eq!(lib.len(), 2);
    match t.invert() {
        Action::Transaction(parts) => {
            assert_eq!(parts.len(), 3);
            assert!(matches!(&parts[0], Action::EntryDeleted(r) if r.key == "c"));
            assert!(matches!(&parts[1], Action::FieldChanged { new_value, .. } if new_value == "A"));
            assert!(matches!(&parts[2], Action::EntryDeleted(r) if r.key == "a"));
        }
        _ => panic!("a transaction inverts to a transaction"),
    }
    t.invert().apply(&mut lib);
    assert!(lib.is_empty());
}
