use mkbib::keygen::{generate_key, KeyGenConfig, KeyPart};
use mkbib::record::{make_normal_chunk, Record};

fn record_with(fields: &[(&str, &str)]) -> Record {
    let mut r = Record::new("article", "");
    for (name, text) in fields {
        r.set(name, make_normal_chunk(text.to_string()));
    }
    r
}

#[test]
fn default_key_joins_author_year_and_first_title_word() {
    let r = record_with(&[
        ("author", "Jane Smith and John Doe"),
        ("year", "2024"),
        ("title", "Quantum: a primer"),
    ]);
    assert_eq!(generate_key(&r, &KeyGenConfig::default()), "Smith2024Quantum");
}

#[test]
fn missing_data_degrades_to_fallback_words() {
    let r = record_with(&[]);
    let mut cfg = KeyGenConfig::default();
    cfg.parts = vec![
        KeyPart::AuthorLastName,
        KeyPart::Year,
        KeyPart::ShortYear,
        KeyPart::TitleFirstWord,
        KeyPart::JournalFirstWord,
    ];
    cfg.separator = "-".to_string();
    assert_eq!(generate_key(&r, &cfg), "Unknown-0000-00-Untitled-Preprint");
}

#[test]
fn labels_name_the_parts() {
    assert_eq!(KeyPart::AuthorLastName.label(), "Author (Last Name)");
    assert_eq!(KeyPart::Year.label(), "Year (Full)");
    assert_eq!(KeyPart::ShortYear.label(), "Year (Short)");
    assert_eq!(KeyPart::TitleFirstWord.label(), "Title (1st Word)");
    assert_eq!(KeyPart::JournalFirstWord.label(), "Journal (1st Word)");
}

#[test]
fn default_configuration_has_the_documented_values() {
    let cfg = KeyGenConfig::default();
    assert_eq!(cfg.parts, vec![KeyPart::AuthorLastName, KeyPart::Year, KeyPart::TitleFirstWord]);
    assert_eq!(cfg.separator, "");
    assert!(!cfg.abbreviate_journals);
    assert_eq!(cfg.indent_char, ' ');
    assert_eq!(cfg.indent_width, 4);
    assert_eq!(
        cfg.field_order,
        vec!["author", "title", "year", "date", "journaltitle", "volume", "number", "pages", "doi", "url"]
    );
}

#[test]
fn short_year_takes_the_last_two_characters_of_a_long_year() {
    let mut cfg = KeyGenConfig::default();
    cfg.parts = vec![KeyPart::ShortYear];
    assert_eq!(generate_key(&record_with(&[("year", "2024")]), &cfg), "24");
    assert_eq!(generate_key(&record_with(&[("year", "202401")]), &cfg), "01");
    assert_eq!(generate_key(&record_with(&[("year", "99")]), &cfg), "99");
}

#[test]
fn segments_lose_what_is_not_alphanumeric() {
    let mut cfg = KeyGenConfig::default();
    cfg.parts = vec![KeyPart::AuthorLastName, KeyPart::TitleFirstWord, KeyPart::JournalFirstWord];
    cfg.separator = "_".to_string();
    let r = record_with(&[
        ("author", "O'Neil, Sh\u{e1}n and Other, A."),
        ("title", "  \"Spin-orbit\" coupling"),
        ("journal", "Phys. Rev. B"),
    ]);
    assert_eq!(generate_key(&r, &cfg), "ONeil_Spinorbit_Phys");
}

#[test]
fn a_blank_title_gives_an_empty_segment() {
    let mut cfg = KeyGenConfig::default();
    cfg.parts = vec![KeyPart::TitleFirstWord, KeyPart::Year];
    cfg.separator = "-".to_string();
    assert_eq!(generate_key(&record_with(&[("title", "   "), ("year", "2001")]), &cfg), "-2001");
}

#[test]
fn parts_can_be_added_and_removed() {
    let mut cfg = KeyGenConfig::default();
    cfg.add_part(KeyPart::JournalFirstWord);
    assert_eq!(cfg.parts.len(), 4);
    assert!(cfg.remove_part(1));
    assert_eq!(cfg.parts, vec![KeyPart::AuthorLastName, KeyPart::TitleFirstWord, KeyPart::JournalFirstWord]);
    assert!(!cfg.remove_part(3));
    assert_eq!(cfg.parts.len(), 3);
}

#[test]
fn fields_move_up_and_down_in_the_field_order() {
    let mut cfg = KeyGenConfig::default();
    cfg.field_order = vec!["a".to_string(), "b".to_string(), "c".to_string()];
    assert!(cfg.move_field_up(2));
    assert_eq!(cfg.field_order, vec!["a", "c", "b"]);
    assert!(cfg.move_field_down(0));
    assert_eq!(cfg.field_order, vec!["c", "a", "b"]);
    assert!(!cfg.move_field_up(0));
    assert!(!cfg.move_field_down(2));
    assert!(!cfg.move_field_up(3));
    assert_eq!(cfg.field_order, vec!["c", "a", "b"]);
    cfg.field_order.clear();
    assert!(!cfg.move_field_down(0));
}
