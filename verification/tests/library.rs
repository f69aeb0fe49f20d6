use mkbib::library::{ensure_unique, Library};
use mkbib::record::{bib_to_string, make_normal_chunk, Chunk, Record};

fn record(key: &str) -> Record {
    let mut r = Record::new("misc", key);
    r.set("title", make_normal_chunk(format!("Title of {}", key)));
    r
}

#[test]
fn a_free_key_is_kept() {
    let mut lib = Library::new();
    assert_eq!(lib.add(record("smith2020")), "smith2020");
    assert_eq!(ensure_unique("jones2021", &lib), "jones2021");
}

#[test]
fn taken_keys_get_letters_and_then_numbers() {
    let mut lib = Library::new();
    let mut keys = Vec::new();
    for _ in 0..30 {
        keys.push(lib.add(record("k")));
    }
    assert_eq!(keys[0], "k");
    assert_eq!(keys[1], "ka");
    assert_eq!(keys[2], "kb");
    assert_eq!(keys[26], "kz");
    assert_eq!(keys[27], "k_1");
    assert_eq!(keys[28], "k_2");
    assert_eq!(keys[29], "k_3");
    for i in 0..keys.len() {
        for j in (i + 1)..keys.len() {
            assert_ne!(keys[i], keys[j]);
        }
    }
    assert_eq!(lib.len(), 30);
}

#[test]
fn numbered_keys_go_past_nine() {
    let mut lib = Library::new();
    let mut last = String::new();
    for _ in 0..(27 + 12) {
        last = lib.add(record("x"));
    }
    assert_eq!(last, "x_12");
}

#[test]
fn an_empty_key_is_never_given() {
    let mut lib = Library::new();
    assert_eq!(lib.add(record("")), "a");
    assert_eq!(lib.add(record("")), "b");
}

#[test]
fn keys_that_differ_in_case_are_different_keys() {
    let mut lib = Library::new();
    assert_eq!(lib.add(record("Key")), "Key");
    assert_eq!(lib.add(record("key")), "key");
    assert!(lib.contains_key("Key"));
    assert!(!lib.contains_key("KEY"));
}

#[test]
fn insert_replaces_the_record_with_the_same_key() {
    let mut lib = Library::new();
    assert!(!lib.insert(record("a")));
    assert!(!lib.insert(record("b")));
    let mut changed = Record::new("book", "a");
    changed.set("title", make_normal_chunk("Changed".to_string()));
    assert!(lib.insert(changed));
    assert_eq!(lib.len(), 2);
    assert_eq!(lib.records[0].entry_type, "book");
    assert_eq!(lib.get("a").unwrap().text_of("title").unwrap().iter().collect::<String>(), "Changed");
}

#[test]
fn remove_takes_the_record_out() {
    let mut lib = Library::new();
    lib.insert(record("a"));
    lib.insert(record("b"));
    lib.insert(record("c"));
    assert_eq!(lib.remove("b").unwrap().key, "b");
    assert!(lib.remove("b").is_none());
    let keys: Vec<&str> = lib.records.iter().map(|r| r.key.as_str()).collect();
    assert_eq!(keys, vec!["a", "c"]);
}

#[test]
fn fields_are_kept_in_the_order_of_their_names() {
    let mut r = Record::new("misc", "k");
    r.set("year", make_normal_chunk("1".to_string()));
    r.set("author", make_normal_chunk("2".to_string()));
    r.set("title", make_normal_chunk("3".to_string()));
    r.set("author", make_normal_chunk("4".to_string()));
    let names: Vec<&str> = r.fields.iter().map(|f| f.name.as_str()).collect();
    assert_eq!(names, vec!["author", "title", "year"]);
    assert_eq!(r.text_of("author").unwrap().iter().collect::<String>(), "4");
    assert!(r.get("pages").is_none());
}

#[test]
fn the_text_of_a_value_is_the_text_of_its_chunks() {
    let value = vec![
        Chunk::Normal("The ".to_string()),
        Chunk::Verbatim("NASA".to_string()),
        Chunk::Math("x^2".to_string()),
        Chunk::Normal(" report".to_string()),
    ];
    assert_eq!(bib_to_string(&value), "The NASAx^2 report");
    assert_eq!(bib_to_string(&Vec::new()), "");
    let one = make_normal_chunk("abc".to_string());
    assert_eq!(one.len(), 1);
    assert!(matches!(&one[0], Chunk::Normal(s) if s == "abc"));
}

#[test]
fn a_sound_library_passes_its_own_test() {
    let mut lib = Library::new();
    lib.add(record("a"));
    lib.add(record("a"));
    assert!(lib.is_sound());
    lib.records[1].key = "a".to_string();
    assert!(!lib.is_sound());
    lib.records[1].key = String::new();
    assert!(!lib.is_sound());
    lib.records[1].key = "b".to_string();
    assert!(lib.is_sound());
    lib.records[1].fields.reverse();
    assert!(lib.is_sound());
    lib.records[1].set("author", make_normal_chunk("x".to_string()));
    lib.records[1].fields.reverse();
    assert!(!lib.records[1].is_sound());
    assert!(!lib.is_sound());
}
