use mkbib::editing::load_text;
use mkbib::formatter::format_entry;
use mkbib::keygen::KeyGenConfig;
use mkbib::library::Library;
use mkbib::merger::{generate_clean_bibliography, merge_bibliography_into_source};
use mkbib::record::{make_normal_chunk, Chunk, Field, Record};
use mkbib::scanner::scan_entry_spans;
use mkbib::undo::Session;

fn parse(text: &str) -> Result<Vec<Record>, String> {
    let bibliography = biblatex::Bibliography::parse(text).map_err(|e| e.to_string())?;
    Ok(bibliography
        .into_vec()
        .into_iter()
        .map(|e| Record {
            entry_type: e.entry_type.to_string(),
            key: e.key,
            fields: e
                .fields
                .into_iter()
                .map(|(name, value)| Field {
                    name,
                    value: value
                        .into_iter()
                        .map(|c| match c.v {
                            biblatex::Chunk::Normal(s) => Chunk::Normal(s),
                            biblatex::Chunk::Verbatim(s) => Chunk::Verbatim(s),
                            biblatex::Chunk::Math(s) => Chunk::Math(s),
                        })
                        .collect(),
                })
                .collect(),
        })
        .collect())
}

fn article(key: &str, fields: &[(&str, &str)]) -> Record {
    let mut r = Record::new("article", key);
    for (name, text) in fields {
        r.set(name, make_normal_chunk(text.to_string()));
    }
    r
}

fn library_of(records: Vec<Record>) -> Library {
    let mut lib = Library::new();
    for r in records {
        lib.insert(r);
    }
    lib
}

#[test]
fn format_writes_priority_fields_first_then_the_rest_by_name() {
    let r = article(
        "smith2024",
        &[("zzz", "last"), ("year", "2024"), ("abstract", "text"), ("title", "A Title"), ("author", "Smith, Jane")],
    );
    let expected = "@article{smith2024,\n    author = {Smith, Jane},\n    title = {A Title},\n    year = {2024},\n    abstract = {text},\n    zzz = {last},\n}";
    assert_eq!(format_entry(&r, &KeyGenConfig::default()), expected);
}

#[test]
fn format_indents_with_the_configured_character() {
    let r = article("k", &[("title", "T")]);
    let mut cfg = KeyGenConfig::default();
    cfg.indent_char = '\t';
    cfg.indent_width = 2;
    assert_eq!(format_entry(&r, &cfg), "@article{k,\n\t\ttitle = {T},\n}");
}

#[test]
fn format_is_repeatable() {
    let r = article("k", &[("title", "T"), ("note", "n")]);
    let cfg = KeyGenConfig::default();
    assert_eq!(format_entry(&r, &cfg), format_entry(&r, &cfg));
}

#[test]
fn scan_reports_byte_offsets() {
    let text = "% caf\u{e9}\n@article{a1, title = {X}}\n\n@book ( b2 , title = \"y\" )";
    let spans = scan_entry_spans(text);
    assert_eq!(spans.len(), 2);
    assert_eq!(spans[0].key, "a1");
    assert_eq!(&text[spans[0].start..spans[0].end], "@article{a1, title = {X}}");
    assert_eq!(spans[0].start, 8);
    assert_eq!(spans[1].key, "b2");
    assert_eq!(&text[spans[1].start..spans[1].end], "@book ( b2 , title = \"y\" )");
}

#[test]
fn scan_drops_blocks_without_key_or_end() {
    assert_eq!(scan_entry_spans("@article{, title = {x}}").len(), 0);
    assert_eq!(scan_entry_spans("@article{open, title = {x}").len(), 0);
    assert_eq!(scan_entry_spans("@article{key").len(), 0);
    assert_eq!(scan_entry_spans("@article").len(), 0);
    assert_eq!(scan_entry_spans("no entries here").len(), 0);
}

#[test]
fn scan_counts_nested_delimiters() {
    let text = "@misc{k, title = {a {b} c}} tail";
    let spans = scan_entry_spans(text);
    assert_eq!(spans.len(), 1);
    assert_eq!(&text[spans[0].start..spans[0].end], "@misc{k, title = {a {b} c}}");
}

#[test]
fn scan_keeps_the_last_block_of_a_repeated_key() {
    let text = "@misc{k, n = {1}}\n@misc{k, n = {2}}";
    let spans = scan_entry_spans(text);
    assert_eq!(spans.len(), 1);
    assert_eq!(spans[0].start, 18);
}

#[test]
fn deleting_the_second_of_three_entries_keeps_the_text_around_the_others() {
    let cfg = KeyGenConfig::default();
    let one = article("one", &[("title", "First")]);
    let two = article("two", &[("title", "Second")]);
    let three = article("three", &[("title", "Third")]);
    let original = format!(
        "% header comment\n\n{}\n\n% between one and two\n{}\n% between two and three\n\n{}\n% trailer\n",
        format_entry(&one, &cfg),
        format_entry(&two, &cfg),
        format_entry(&three, &cfg)
    );
    let mut lib = library_of(vec![one.clone(), two, three.clone()]);
    assert!(lib.remove("two").is_some());
    let saved = merge_bibliography_into_source(&original, &lib, &cfg);
    let expected = format!(
        "% header comment\n\n{}\n\n% between one and two\n\n% between two and three\n\n{}\n% trailer\n",
        format_entry(&one, &cfg),
        format_entry(&three, &cfg)
    );
    assert_eq!(saved, expected);
    let keys: Vec<String> = scan_entry_spans(&saved).into_iter().map(|s| s.key).collect();
    assert_eq!(keys, vec!["one".to_string(), "three".to_string()]);
}

#[test]
fn merge_normalises_matched_blocks_and_appends_new_records() {
    let cfg = KeyGenConfig::default();
    let old = article("Old", &[("title", "Kept")]);
    let new = article("new", &[("title", "Added")]);
    let lib = library_of(vec![old.clone(), new.clone()]);
    let original = "intro\n@ARTICLE{old,title={Kept}}";
    let saved = merge_bibliography_into_source(original, &lib, &cfg);
    assert_eq!(saved, format!("intro\n{}\n{}", format_entry(&old, &cfg), format_entry(&new, &cfg)));
}

#[test]
fn merge_into_text_without_blocks_writes_the_library_afresh() {
    let cfg = KeyGenConfig::default();
    let a = article("a", &[("title", "A")]);
    let b = article("b", &[("title", "B")]);
    let lib = library_of(vec![a.clone(), b.clone()]);
    let saved = merge_bibliography_into_source("", &lib, &cfg);
    assert_eq!(saved, format!("{}\n\n{}", format_entry(&a, &cfg), format_entry(&b, &cfg)));
}

#[test]
fn merging_again_reproduces_the_merged_text() {
    let cfg = KeyGenConfig::default();
    let a = article("a", &[("title", "A {nested} title"), ("year", "1999")]);
    let b = article("b", &[("title", "B")]);
    let lib = library_of(vec![a, b]);
    let original = "% my notes\n@article{a, title = {old}}\n";
    let first = merge_bibliography_into_source(original, &lib, &cfg);
    let second = merge_bibliography_into_source(&first, &lib, &cfg);
    assert_eq!(first, second);
    let fresh = merge_bibliography_into_source("", &lib, &cfg);
    assert_eq!(merge_bibliography_into_source(&fresh, &lib, &cfg), fresh);
}

#[test]
fn merge_of_an_empty_library_removes_every_block() {
    let lib = Library::new();
    let saved = merge_bibliography_into_source("a @x{k, t = {1}} b", &lib, &KeyGenConfig::default());
    assert_eq!(saved, "a  b");
}

#[test]
fn formatting_a_reparsed_record_gives_the_same_text() {
    let cfg = KeyGenConfig::default();
    let records = vec![
        article("smith2024", &[("author", "Smith, Jane"), ("title", "A Plain Title"), ("year", "2024")]),
        article("k2", &[("journal", "Phys. Rev. B"), ("pages", "12"), ("note", "plain")]),
        Record::new("book", "empty"),
    ];
    for r in records {
        let once = format_entry(&r, &cfg);
        let mut session = Session::new(KeyGenConfig::default());
        assert_eq!(load_text(&mut session, &once, parse(&once)).unwrap(), 1);
        let twice = format_entry(&session.library.records[0], &cfg);
        assert_eq!(twice, once);
    }
}

#[test]
fn a_block_that_reads_as_a_shorter_block_is_not_stable() {
    let cfg = KeyGenConfig::default();
    let lib = library_of(vec![article("k", &[("title", "}")])]);
    let first = merge_bibliography_into_source("@misc{k, title = {x}}", &lib, &cfg);
    let second = merge_bibliography_into_source(&first, &lib, &cfg);
    assert_ne!(first, second);
}

#[test]
fn braces_inside_a_value_are_not_written_back() {
    let cfg = KeyGenConfig::default();
    let r = article("k", &[("title", "A {Nested} Title")]);
    let once = format_entry(&r, &cfg);
    assert_eq!(once, "@article{k,\n    title = {A {Nested} Title},\n}");
    let mut session = Session::new(KeyGenConfig::default());
    assert_eq!(load_text(&mut session, &once, parse(&once)).unwrap(), 1);
    let twice = format_entry(&session.library.records[0], &cfg);
    assert_eq!(twice, "@article{k,\n    title = {A Nested Title},\n}");
}

#[test]
fn the_type_is_written_as_plain_bibtex_knows_it() {
    let cfg = KeyGenConfig::default();
    assert_eq!(format_entry(&Record::new("online", "k"), &cfg), "@misc{k,\n}");
    assert_eq!(format_entry(&Record::new("MvBook", "k"), &cfg), "@book{k,\n}");
    assert_eq!(format_entry(&Record::new("Article", "k"), &cfg), "@article{k,\n}");
    assert_eq!(format_entry(&Record::new("thesis", "k"), &cfg), "@phdthesis{k,\n}");
    assert_eq!(format_entry(&Record::new("no such type", "k"), &cfg), "@misc{k,\n}");
}

#[test]
fn a_field_named_twice_in_the_order_is_written_twice() {
    let mut cfg = KeyGenConfig::default();
    cfg.field_order = vec!["title".to_string(), "year".to_string(), "title".to_string()];
    cfg.indent_width = 0;
    let r = article("k", &[("title", "T"), ("year", "1"), ("note", "n")]);
    assert_eq!(format_entry(&r, &cfg), "@article{k,\ntitle = {T},\nyear = {1},\ntitle = {T},\nnote = {n},\n}");
}

#[test]
fn an_unbalanced_delimiter_in_a_value_misleads_the_scan() {
    let text = "@misc{a, note = {x {y}}\n@misc{b, title = {1}}";
    assert_eq!(scan_entry_spans(text).len(), 0);
    let closed_early = "@misc{a, note = {x }}} @misc{b, title = {1}}";
    let spans = scan_entry_spans(closed_early);
    assert_eq!(spans.len(), 2);
    assert_eq!(&closed_early[spans[0].start..spans[0].end], "@misc{a, note = {x }}");
    assert_eq!(spans[1].key, "b");
}

#[test]
fn a_block_that_the_scan_does_not_see_is_kept_as_text() {
    let cfg = KeyGenConfig::default();
    let a = article("a", &[("title", "A")]);
    let lib = library_of(vec![a.clone()]);
    let original = "@article{a, title = {old}}\n@article{, title = {no key}}\n";
    let saved = merge_bibliography_into_source(original, &lib, &cfg);
    assert_eq!(saved, format!("{}\n@article{{, title = {{no key}}}}\n", format_entry(&a, &cfg)));
}

#[test]
fn an_at_sign_without_a_block_is_passed_over() {
    let text = "mail me @home or @ work; @misc k; then @misc{real, t = {1}}";
    let spans = scan_entry_spans(text);
    assert_eq!(spans.len(), 1);
    assert_eq!(spans[0].key, "real");
    assert_eq!(&text[spans[0].start..spans[0].end], "@misc{real, t = {1}}");
}

#[test]
fn blocks_in_parentheses_count_parentheses() {
    let text = "@misc(k, t = {a) b}, u = (x)) rest";
    let spans = scan_entry_spans(text);
    assert_eq!(spans.len(), 1);
    assert_eq!(&text[spans[0].start..spans[0].end], "@misc(k, t = {a)");
}

#[test]
fn two_blocks_for_one_record_give_the_record_twice() {
    let cfg = KeyGenConfig::default();
    let a = article("Key", &[("title", "A")]);
    let lib = library_of(vec![a.clone()]);
    let saved = merge_bibliography_into_source("@x{key, t={1}} @x{KEY, t={2}}", &lib, &cfg);
    let block = format_entry(&a, &cfg);
    assert_eq!(saved, format!("{} {}", block, block));
}

#[test]
fn every_record_is_written_once_and_no_other_block_stays() {
    let cfg = KeyGenConfig::default();
    let lib = library_of(vec![
        article("kept", &[("title", "Kept")]),
        article("Changed", &[("title", "Changed")]),
        article("added", &[("title", "Added")]),
    ]);
    let original = "% top\n@book{gone, title = {Gone}}\n@article{changed, title = {old}}\ntext\n@misc{kept, note = {n}}\n@misc{alsogone, x = {1}}";
    let saved = merge_bibliography_into_source(original, &lib, &cfg);
    let keys: Vec<String> = scan_entry_spans(&saved).into_iter().map(|s| s.key).collect();
    assert_eq!(keys, vec!["Changed".to_string(), "kept".to_string(), "added".to_string()]);
    for key in ["kept", "Changed", "added"] {
        assert_eq!(saved.matches(&format!("{{{},", key)).count(), 1);
    }
    assert!(!saved.contains("gone"));
    assert!(!saved.contains("Gone"));
    assert!(saved.starts_with("% top\n\n@article{Changed,"));
    assert!(saved.contains("\ntext\n@article{kept,"));
}

#[test]
fn a_clean_file_separates_its_records_by_blank_lines() {
    let cfg = KeyGenConfig::default();
    let a = article("a", &[("title", "A")]);
    let b = article("b", &[]);
    let c = article("c", &[("year", "3")]);
    let lib = library_of(vec![a.clone(), b.clone(), c.clone()]);
    assert_eq!(
        generate_clean_bibliography(&lib, &cfg),
        format!("{}\n\n{}\n\n{}", format_entry(&a, &cfg), format_entry(&b, &cfg), format_entry(&c, &cfg))
    );
    assert_eq!(generate_clean_bibliography(&Library::new(), &cfg), "");
    assert_eq!(generate_clean_bibliography(&library_of(vec![b.clone()]), &cfg), "@article{b,\n}");
}
