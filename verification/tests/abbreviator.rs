use mkbib::abbreviator::{
    abbreviate_journal, get_reverse_map, get_stopwords, load_exact_map, load_word_map, normalize_key,
    unabbreviate_journal, AbbreviationIndex, Dictionary, STARTER_LTWA,
};

const JOURNALS: &str = r#"{"Physical Review B": "Phys. Rev. B", "Nature Communications": "Nat. Commun.", "journal of the american chemical society": "J. Am. Chem. Soc."}"#;

fn index() -> AbbreviationIndex {
    AbbreviationIndex::load(JOURNALS, None, STARTER_LTWA, None)
}

#[test]
fn a_blank_title_gives_nothing() {
    assert_eq!(abbreviate_journal(&index(), ""), "");
    assert_eq!(abbreviate_journal(&index(), "  \t "), "");
}

#[test]
fn the_exact_map_is_asked_first_and_without_regard_to_case() {
    assert_eq!(abbreviate_journal(&index(), "physical review b"), "Phys. Rev. B");
    assert_eq!(abbreviate_journal(&index(), "  PHYSICAL REVIEW B  "), "Phys. Rev. B");
    assert_eq!(abbreviate_journal(&index(), "Journal of the American Chemical Society"), "J. Am. Chem. Soc.");
}

#[test]
fn other_titles_are_abbreviated_word_by_word() {
    assert_eq!(abbreviate_journal(&index(), "Journal of Chemical Physics"), "J. Chem. Phys.");
    assert_eq!(abbreviate_journal(&index(), "Advanced  Materials, and Letters"), "Adv. Mater. Lett.");
    assert_eq!(abbreviate_journal(&index(), "The Astrophysical Journal"), "Astrophysical J.");
    assert_eq!(abbreviate_journal(&index(), "Zeitschrift f\u{fc}r Physik"), "Zeitschrift f\u{fc}r Physik");
    assert_eq!(abbreviate_journal(&index(), "of the and"), "");
}

#[test]
fn abbreviations_lead_back_to_full_titles_in_title_case() {
    let idx = index();
    assert_eq!(unabbreviate_journal(&idx, "Phys. Rev. B"), Some("Physical Review B".to_string()));
    assert_eq!(unabbreviate_journal(&idx, "Nat. Commun."), Some("Nature Communications".to_string()));
    assert_eq!(
        unabbreviate_journal(&idx, "J. Am. Chem. Soc."),
        Some("Journal Of The American Chemical Society".to_string())
    );
}

#[test]
fn abbreviations_are_found_without_their_punctuation() {
    let idx = index();
    assert_eq!(unabbreviate_journal(&idx, "phys rev b"), Some("Physical Review B".to_string()));
    assert_eq!(unabbreviate_journal(&idx, "PHYS. REV. B"), Some("Physical Review B".to_string()));
    assert_eq!(unabbreviate_journal(&idx, "PhysRevB"), Some("Physical Review B".to_string()));
    assert_eq!(unabbreviate_journal(&idx, "Phys. Rev. C"), None);
    assert_eq!(unabbreviate_journal(&idx, ""), None);
}

#[test]
fn abbreviating_is_not_undone_by_expanding() {
    let idx = index();
    let short = abbreviate_journal(&idx, "Journal of Chemical Physics");
    assert_eq!(unabbreviate_journal(&idx, &short), None);
}

#[test]
fn an_override_file_stands_in_place_of_the_built_in_journals() {
    let exact = load_exact_map(JOURNALS, Some(r#"{"Acta Materialia": "Acta Mater."}"#));
    assert_eq!(exact.len(), 1);
    assert_eq!(exact.get("acta materialia"), Some("Acta Mater.".to_string()));
    assert_eq!(exact.get("physical review b"), None);
}

#[test]
fn an_unreadable_override_file_falls_back_to_the_built_in_journals() {
    let exact = load_exact_map(JOURNALS, Some("not json"));
    assert_eq!(exact.len(), 3);
    assert_eq!(exact.get("physical review b"), Some("Phys. Rev. B".to_string()));
    assert_eq!(exact.get("Physical Review B"), None);
    assert_eq!(load_exact_map("[1, 2]", None).len(), 0);
}

#[test]
fn override_words_take_precedence() {
    let words = load_word_map(STARTER_LTWA, Some("Word,Abbreviation\nJOURNAL,Jnl.\nApplied,Appl.\n,skipped\nalone\n"));
    assert_eq!(words.get("journal"), Some("Jnl.".to_string()));
    assert_eq!(words.get("applied"), Some("Appl.".to_string()));
    assert_eq!(words.get("physics"), Some("Phys.".to_string()));
    assert_eq!(words.get(""), None);
    let plain = load_word_map(STARTER_LTWA, None);
    assert_eq!(plain.len(), 17);
    assert_eq!(plain.get("journal"), Some("J.".to_string()));
    assert_eq!(plain.get("word"), None);
}

#[test]
fn the_reverse_map_has_both_spellings_of_an_abbreviation() {
    let mut exact = Dictionary::new();
    exact.insert("physical review b", "Phys. Rev. B");
    let reverse = get_reverse_map(&exact);
    assert_eq!(reverse.get("phys. rev. b"), Some("physical review b".to_string()));
    assert_eq!(reverse.get("physrevb"), Some("physical review b".to_string()));
    assert_eq!(reverse.len(), 2);
}

#[test]
fn a_later_journal_wins_a_shared_abbreviation() {
    let mut exact = Dictionary::new();
    exact.insert("annals of physics", "Ann. Phys.");
    exact.insert("annalen der physik", "Ann. Phys.");
    let idx = AbbreviationIndex::new(exact, Dictionary::new());
    assert_eq!(unabbreviate_journal(&idx, "Ann. Phys."), Some("Annalen Der Physik".to_string()));
}

#[test]
fn keys_are_normalized_for_lookup() {
    assert_eq!(normalize_key("Phys. Rev. B"), "physrevb");
    assert_eq!(normalize_key("phys rev b"), "physrevb");
}

#[test]
fn the_stopwords_are_the_documented_ones() {
    assert_eq!(
        get_stopwords(),
        vec!["of", "the", "and", "in", "for", "on", "to", "with", "a", "an", "at", "by", "from"]
    );
}
