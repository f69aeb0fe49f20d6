use mkbib::search::{suggestion_of, suggestions_of, RawAuthor, RawSuggestion};

fn author(given: Option<&str>, family: Option<&str>) -> RawAuthor {
    RawAuthor { given: given.map(String::from), family: family.map(String::from) }
}

#[test]
fn a_full_description_is_offered_as_it_is() {
    let raw = RawSuggestion {
        title: Some("On Things".to_string()),
        doi: Some("10.1/x".to_string()),
        year: Some(2019),
        authors: Some(vec![
            author(Some("Ada"), Some("Lovelace")),
            author(None, Some("Turing")),
            author(Some("Nameless"), None),
            author(Some("Fourth"), Some("Author")),
        ]),
    };
    let item = suggestion_of(&raw).unwrap();
    assert_eq!(item.title, "On Things");
    assert_eq!(item.doi, "10.1/x");
    assert_eq!(item.year, "2019");
    assert_eq!(item.author, "Ada Lovelace,  Turing");
}

#[test]
fn missing_parts_show_their_fallbacks() {
    let raw = RawSuggestion { title: None, doi: Some("10.1/y".to_string()), year: None, authors: None };
    let item = suggestion_of(&raw).unwrap();
    assert_eq!(item.title, "No Title");
    assert_eq!(item.year, "Unknown");
    assert_eq!(item.author, "Unknown Author");
    let early = RawSuggestion { title: None, doi: Some("d".to_string()), year: Some(-44), authors: Some(vec![]) };
    let item = suggestion_of(&early).unwrap();
    assert_eq!(item.year, "-44");
    assert_eq!(item.author, "");
}

#[test]
fn works_without_a_doi_are_not_offered() {
    let with = RawSuggestion { title: Some("A".to_string()), doi: Some("10.1/a".to_string()), year: Some(1), authors: None };
    let without = RawSuggestion { title: Some("B".to_string()), doi: None, year: Some(2), authors: None };
    let empty = RawSuggestion { title: Some("C".to_string()), doi: Some(String::new()), year: Some(3), authors: None };
    assert!(suggestion_of(&without).is_none());
    let items = suggestions_of(&vec![without, with, empty]);
    assert_eq!(items.len(), 1);
    assert_eq!(items[0].title, "A");
    assert_eq!(items[0].year, "1");
}
