use mkbib::deduplicator::{cluster, find_duplicates, SIMILARITY_THRESHOLD_BITS};
use mkbib::library::Library;
use mkbib::record::{make_normal_chunk, Record};

fn titled(key: &str, title: &str, year: &str) -> Record {
    let mut r = Record::new("article", key);
    r.set("title", make_normal_chunk(title.to_string()));
    r.set("year", make_normal_chunk(year.to_string()));
    r.set("author", make_normal_chunk("Doe, Jane and Roe, Richard".to_string()));
    r
}

fn library_of(records: Vec<Record>) -> Library {
    let mut lib = Library::new();
    for r in records {
        lib.insert(r);
    }
    lib
}

#[test]
fn the_threshold_is_ninety_three_percent() {
    assert_eq!(f64::from_bits(SIMILARITY_THRESHOLD_BITS), 0.93);
}

#[test]
fn a_trailing_period_does_not_hide_a_duplicate() {
    let lib = library_of(vec![
        titled("a", "Deep Learning for Protein Folding", "2023"),
        titled("b", "Shallow Learning for RNA Structure", "2023"),
        titled("c", "Deep Learning for Protein Folding.", "2024"),
    ]);
    let groups = find_duplicates(&lib);
    assert_eq!(groups.len(), 1);
    assert_eq!(groups[0].original.key, "a");
    assert_eq!(groups[0].original.title, "Deep Learning for Protein Folding");
    assert_eq!(groups[0].original.author, "Jane Doe, Richard Roe");
    assert_eq!(groups[0].original.year, "2023");
    assert_eq!(groups[0].candidates.len(), 1);
    assert_eq!(groups[0].candidates[0].info.key, "c");
    assert_eq!(groups[0].candidates[0].info.year, "2024");
    let score = f64::from_bits(groups[0].candidates[0].similarity_bits);
    assert!(score > 0.93 && score <= 1.0);
    assert_eq!(score, strsim::jaro_winkler("deep learning for protein folding", "deep learning for protein folding."));
}

#[test]
fn different_titles_are_no_duplicates() {
    let lib = library_of(vec![
        titled("a", "Deep Learning for Protein Folding", "2023"),
        titled("b", "Shallow Learning for RNA Structure", "2023"),
    ]);
    assert!(find_duplicates(&lib).is_empty());
}

#[test]
fn titles_are_compared_without_regard_to_case_and_spacing() {
    let lib = library_of(vec![
        titled("a", "Graph   Neural\tNetworks", "2020"),
        titled("b", "  graph neural networks ", "2021"),
    ]);
    let groups = find_duplicates(&lib);
    assert_eq!(groups.len(), 1);
    assert_eq!(f64::from_bits(groups[0].candidates[0].similarity_bits), 1.0);
}

#[test]
fn short_titles_take_no_part() {
    let lib = library_of(vec![
        titled("a", "Data", "2020"),
        titled("b", "Data", "2020"),
        titled("c", "Intro", "2020"),
        titled("d", "Intro", "2021"),
    ]);
    let groups = find_duplicates(&lib);
    assert_eq!(groups.len(), 1);
    assert_eq!(groups[0].original.key, "c");
    assert_eq!(groups[0].candidates[0].info.key, "d");
}

#[test]
fn a_record_is_in_one_group_only() {
    let lib = library_of(vec![
        titled("a", "Quantum Error Correction Codes", "2020"),
        titled("b", "Quantum Error Correction Codes", "2021"),
        titled("c", "Quantum Error Correction Codes", "2022"),
        titled("d", "Something Else Entirely Different", "2022"),
    ]);
    let groups = find_duplicates(&lib);
    assert_eq!(groups.len(), 1);
    let keys: Vec<&str> = groups[0].candidates.iter().map(|c| c.info.key.as_str()).collect();
    assert_eq!(keys, vec!["b", "c"]);
}

#[test]
fn missing_fields_show_their_fallbacks() {
    let mut x = Record::new("misc", "x");
    x.set("title", make_normal_chunk("An Untold Story of Things".to_string()));
    let mut y = Record::new("misc", "y");
    y.set("title", make_normal_chunk("An Untold Story of Things".to_string()));
    let groups = find_duplicates(&library_of(vec![x, y]));
    assert_eq!(groups.len(), 1);
    assert_eq!(groups[0].original.author, "Unknown Author");
    assert_eq!(groups[0].original.year, "");
}

#[test]
fn clusters_follow_the_scores() {
    let hi = SIMILARITY_THRESHOLD_BITS + 1;
    let lo = SIMILARITY_THRESHOLD_BITS;
    let eligible = vec![true, true, false, true, true];
    let scores = vec![
        vec![0, hi, hi, lo, hi],
        vec![0, 0, 0, hi, 0],
        vec![0, 0, 0, hi, hi],
        vec![0, 0, 0, 0, hi],
        vec![0, 0, 0, 0, 0],
    ];
    let clusters = cluster(&eligible, &scores);
    assert_eq!(clusters.len(), 1);
    assert_eq!(clusters[0].original, 0);
    assert_eq!(clusters[0].members, vec![(1, hi), (4, hi)]);
}

#[test]
fn a_later_record_starts_a_group_of_its_own() {
    let hi = SIMILARITY_THRESHOLD_BITS + 7;
    let eligible = vec![true, true, true, true];
    let scores = vec![vec![0, 0, hi, 0], vec![0, 0, hi, hi], vec![0, 0, 0, hi], vec![0, 0, 0, 0]];
    let clusters = cluster(&eligible, &scores);
    assert_eq!(clusters.len(), 2);
    assert_eq!((clusters[0].original, clusters[0].members.clone()), (0, vec![(2, hi)]));
    assert_eq!((clusters[1].original, clusters[1].members.clone()), (1, vec![(3, hi)]));
}
