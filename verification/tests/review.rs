use mkbib::deduplicator::{DuplicateCandidate, DuplicateGroup, EntryInfo};
use mkbib::review::{empty_info, DuplicateReview, Resolution};

fn info(key: &str) -> EntryInfo {
    EntryInfo { key: key.to_string(), title: format!("T {}", key), author: "A".to_string(), year: "2000".to_string() }
}

fn group(original: &str, candidates: &[&str]) -> DuplicateGroup {
    DuplicateGroup {
        original: info(original),
        candidates: candidates
            .iter()
            .map(|k| DuplicateCandidate { info: info(k), similarity_bits: 0.95f64.to_bits() })
            .collect(),
    }
}

#[test]
fn a_review_without_groups_is_done() {
    let mut r = DuplicateReview::new();
    assert!(!r.is_active);
    assert_eq!(r.status_label(), "Done");
    assert_eq!(r.resolve(Resolution::KeepOriginal), None);
    assert_eq!(r.original_info().key, "---");
    assert_eq!(r.candidate_info().title, empty_info().title);
    assert_eq!(r.current_score_bits(), None);
    r.load_groups(Vec::new());
    assert!(!r.is_active);
}

#[test]
fn keeping_the_original_deletes_the_candidate_and_moves_on() {
    let mut r = DuplicateReview::new();
    r.load_groups(vec![group("a", &["b", "c"]), group("d", &["e"])]);
    assert!(r.is_active);
    assert_eq!(r.status_label(), "Group 1 of 2 (Conflict 1 of 2)");
    assert_eq!(r.original_info().key, "a");
    assert_eq!(r.candidate_info().key, "b");
    assert_eq!(r.current_score_bits().map(f64::from_bits), Some(0.95));
    assert_eq!(r.resolve(Resolution::KeepOriginal), Some("b".to_string()));
    assert_eq!(r.status_label(), "Group 1 of 2 (Conflict 2 of 2)");
    assert_eq!(r.resolve(Resolution::Ignore), None);
    assert_eq!(r.status_label(), "Conflict 2 of 2");
    assert_eq!(r.candidate_info().key, "e");
    assert_eq!(r.resolve(Resolution::KeepOriginal), Some("e".to_string()));
    assert!(!r.is_active);
    assert!(r.groups.is_empty());
    assert_eq!(r.status_label(), "Done");
}

#[test]
fn keeping_the_candidate_deletes_the_original_and_ends_the_group() {
    let mut r = DuplicateReview::new();
    r.load_groups(vec![group("a", &["b", "c"]), group("d", &["e"])]);
    assert_eq!(r.resolve(Resolution::KeepCandidate), Some("a".to_string()));
    assert_eq!((r.group_index, r.candidate_index), (1, 0));
    assert_eq!(r.resolve(Resolution::KeepCandidate), Some("d".to_string()));
    assert!(!r.is_active);
}

#[test]
fn closing_ends_the_review_but_keeps_its_place() {
    let mut r = DuplicateReview::new();
    r.load_groups(vec![group("a", &["b"])]);
    r.close();
    assert!(!r.is_active);
    assert_eq!(r.groups.len(), 1);
}
